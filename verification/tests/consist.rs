use zusi_schlechtes_wetter::consist::{consist_has_locomotive, is_wagon_locomotive};
use zusi_schlechtes_wetter::document::{Attribute, Element, Node};
use zusi_schlechtes_wetter::error::{Cause, Failure};
use zusi_schlechtes_wetter::text::contains_text;

fn element(name: &str, attributes: &[(&str, &str)], children: Vec<Node>) -> Node {
    Node::Element(Element {
        name: name.to_string(),
        attributes: attributes
            .iter()
            .map(|(key, value)| Attribute { key: key.to_string(), value: value.to_string() })
            .collect(),
        children,
    })
}

fn vehicle(file: &str) -> Node {
    element("Datei", &[("Dateiname", file)], vec![])
}

fn info(children: Vec<Node>) -> Node {
    element("FahrzeugInfo", &[], children)
}

fn group(children: Vec<Node>) -> Node {
    element("FahrzeugVarianten", &[], children)
}

fn consist(children: Vec<Node>) -> Element {
    Element { name: "FahrzeugVarianten".to_string(), attributes: vec![], children }
}

fn root(cause: Cause) -> Failure {
    Failure { cause, context: vec![] }
}

const WAGON: &str = "RollingStock\\Deutschland\\Epoche5\\Reisezugwagen\\Bpmz.rv.fzg";
const ENGINE: &str = "RollingStock\\Deutschland\\Epoche5\\Elektroloks\\101\\101.rv.fzg";

#[test]
fn contains_text_finds_parts() {
    assert!(contains_text("Elektroloks", "lok"));
    assert!(contains_text("lok", "lok"));
    assert!(contains_text("xlok", "lok"));
    assert!(contains_text("lokx", "lok"));
    assert!(contains_text("lolok", "lok"));
    assert!(contains_text("anything", ""));
    assert!(contains_text("", ""));
    assert!(!contains_text("", "lok"));
    assert!(!contains_text("lo", "lok"));
    assert!(!contains_text("l-o-k", "lok"));
    assert!(!contains_text("Lok", "lok"));
    assert!(!contains_text("LOK", "lok"));
    assert!(contains_text("größe lok", "lok"));
    assert!(contains_text("grüße", "üß"));
}

#[test]
fn wagon_with_lok_in_its_file_name_is_a_locomotive() {
    let Node::Element(engine) = vehicle(ENGINE) else { unreachable!() };
    assert_eq!(is_wagon_locomotive(&engine), Ok(true));
    let Node::Element(wagon) = vehicle(WAGON) else { unreachable!() };
    assert_eq!(is_wagon_locomotive(&wagon), Ok(false));
}

#[test]
fn wagon_classification_is_case_sensitive() {
    let Node::Element(upper) = vehicle("Fahrzeuge\\Lok\\BR101.fzg") else { unreachable!() };
    assert_eq!(is_wagon_locomotive(&upper), Ok(false));
}

#[test]
fn wagon_without_file_name_is_an_error() {
    let Node::Element(bare) = element("Datei", &[("Name", ENGINE)], vec![]) else { unreachable!() };
    assert_eq!(
        is_wagon_locomotive(&bare),
        Err(root(Cause::MissingAttribute("Dateiname".to_string())))
    );
}

#[test]
fn consist_without_vehicles_has_no_locomotive() {
    assert_eq!(consist_has_locomotive(&consist(vec![])), Ok(false));
    assert_eq!(consist_has_locomotive(&consist(vec![group(vec![group(vec![])])])), Ok(false));
    assert_eq!(
        consist_has_locomotive(&consist(vec![
            Node::Text("lok".to_string()),
            Node::Comment("lok".to_string()),
            Node::CData("lok".to_string()),
            Node::ProcessingInstruction("lok".to_string(), Some("lok".to_string())),
        ])),
        Ok(false)
    );
}

#[test]
fn consist_of_wagons_has_no_locomotive() {
    let c = consist(vec![vehicle(WAGON), info(vec![vehicle(WAGON)]), group(vec![vehicle(WAGON)])]);
    assert_eq!(consist_has_locomotive(&c), Ok(false));
}

#[test]
fn consist_finds_a_locomotive_in_each_kind_of_child() {
    assert_eq!(consist_has_locomotive(&consist(vec![vehicle(WAGON), vehicle(ENGINE)])), Ok(true));
    assert_eq!(
        consist_has_locomotive(&consist(vec![vehicle(WAGON), info(vec![vehicle(ENGINE)])])),
        Ok(true)
    );
    assert_eq!(
        consist_has_locomotive(&consist(vec![vehicle(WAGON), group(vec![vehicle(ENGINE)])])),
        Ok(true)
    );
}

#[test]
fn consist_finds_a_locomotive_at_any_depth() {
    let mut nested = group(vec![vehicle(WAGON), info(vec![vehicle(ENGINE)])]);
    for _ in 0..50 {
        nested = group(vec![vehicle(WAGON), nested, vehicle(WAGON)]);
    }
    assert_eq!(consist_has_locomotive(&consist(vec![nested])), Ok(true));

    let mut wagons = group(vec![vehicle(WAGON)]);
    for _ in 0..50 {
        wagons = group(vec![wagons, vehicle(WAGON)]);
    }
    assert_eq!(consist_has_locomotive(&consist(vec![wagons])), Ok(false));
}

#[test]
fn consist_rejects_an_unknown_element() {
    let c = consist(vec![vehicle(WAGON), element("Wagen", &[("Dateiname", ENGINE)], vec![])]);
    assert_eq!(
        consist_has_locomotive(&c),
        Err(root(Cause::UnrecognizedVariant("Wagen".to_string())))
    );
}

#[test]
fn consist_rejects_an_unknown_element_at_any_depth() {
    let mut nested = group(vec![vehicle(WAGON), element("Fremd", &[], vec![])]);
    for _ in 0..50 {
        nested = group(vec![vehicle(WAGON), nested]);
    }
    assert_eq!(
        consist_has_locomotive(&consist(vec![nested])),
        Err(root(Cause::UnrecognizedVariant("Fremd".to_string())))
    );
}

#[test]
fn consist_names_are_case_sensitive() {
    let c = consist(vec![element("datei", &[("Dateiname", ENGINE)], vec![])]);
    assert_eq!(
        consist_has_locomotive(&c),
        Err(root(Cause::UnrecognizedVariant("datei".to_string())))
    );
}

#[test]
fn consist_stops_at_the_first_locomotive() {
    let c = consist(vec![
        vehicle(ENGINE),
        element("Fremd", &[], vec![]),
        element("Datei", &[], vec![]),
        info(vec![]),
    ]);
    assert_eq!(consist_has_locomotive(&c), Ok(true));
}

#[test]
fn consist_stops_at_the_first_malformed_child() {
    let unknown_first = consist(vec![element("Fremd", &[], vec![]), vehicle(ENGINE)]);
    assert_eq!(
        consist_has_locomotive(&unknown_first),
        Err(root(Cause::UnrecognizedVariant("Fremd".to_string())))
    );
    let two_faults = consist(vec![info(vec![]), element("Fremd", &[], vec![])]);
    assert_eq!(
        consist_has_locomotive(&two_faults),
        Err(root(Cause::MissingChild("Datei".to_string())))
    );
}

#[test]
fn vehicle_info_without_vehicle_is_an_error() {
    let c = consist(vec![info(vec![Node::Text("Datei".to_string())])]);
    assert_eq!(consist_has_locomotive(&c), Err(root(Cause::MissingChild("Datei".to_string()))));
}

#[test]
fn vehicle_info_is_judged_by_its_first_vehicle() {
    let first_wins = consist(vec![info(vec![vehicle(WAGON), vehicle(ENGINE)])]);
    assert_eq!(consist_has_locomotive(&first_wins), Ok(false));
    let other_children = consist(vec![info(vec![element("Fremd", &[], vec![]), vehicle(ENGINE)])]);
    assert_eq!(consist_has_locomotive(&other_children), Ok(true));
}

#[test]
fn vehicle_without_file_name_inside_a_consist_is_an_error() {
    let direct = consist(vec![element("Datei", &[], vec![])]);
    assert_eq!(
        consist_has_locomotive(&direct),
        Err(root(Cause::MissingAttribute("Dateiname".to_string())))
    );
    let wrapped = consist(vec![group(vec![info(vec![element("Datei", &[], vec![])])])]);
    assert_eq!(
        consist_has_locomotive(&wrapped),
        Err(root(Cause::MissingAttribute("Dateiname".to_string())))
    );
}

#[test]
fn consist_ignores_its_own_name() {
    let odd = Element { name: "Sonstwas".to_string(), attributes: vec![], children: vec![vehicle(ENGINE)] };
    assert_eq!(consist_has_locomotive(&odd), Ok(true));
}
