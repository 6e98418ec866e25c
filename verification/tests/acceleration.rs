use zusi_schlechtes_wetter::acceleration::{modify_multiplier, rescale_train};
use zusi_schlechtes_wetter::document::{Attribute, Element, Node};
use zusi_schlechtes_wetter::error::{Cause, Failure, Step};

fn element(name: &str, attributes: &[(&str, &str)], children: Vec<Node>) -> Element {
    Element {
        name: name.to_string(),
        attributes: attributes
            .iter()
            .map(|(key, value)| Attribute { key: key.to_string(), value: value.to_string() })
            .collect(),
        children,
    }
}

fn vehicle(file: &str) -> Node {
    Node::Element(element("Datei", &[("Dateiname", file)], vec![]))
}

fn train(acceleration: &str, vehicles: Vec<Node>) -> Element {
    element(
        "Zug",
        &[("Gattung", "RE"), ("APBeschl", acceleration)],
        vec![
            Node::Element(element("FahrzeugVarianten", &[], vehicles)),
            Node::Element(element("FahrplanEintrag", &[("Ank", "2024-02-01 10:00:00")], vec![])),
        ],
    )
}

fn document(train: Element) -> Element {
    element("Zusi", &[], vec![Node::Comment("Zug".to_string()), Node::Element(train)])
}

fn root(cause: Cause) -> Failure {
    Failure { cause, context: vec![] }
}

fn times(multiplier: f32) -> impl Fn(String) -> Option<String> {
    move |value: String| value.parse::<f32>().ok().map(|old| (multiplier * old).to_string())
}

fn multipliers(friction: f32, loc_needed: f32, mu_needed: f32, global: Option<f32>) -> (f32, f32) {
    let mut loc = (friction / loc_needed).min(1.0);
    let mut mu = (friction / mu_needed).min(1.0);
    if let Some(multiplier) = global {
        loc *= multiplier;
        mu *= multiplier;
    }
    (loc, mu)
}

const WAGON: &str = "RollingStock\\Reisezugwagen\\Bpmz.rv.fzg";
const ENGINE: &str = "RollingStock\\Elektroloks\\101\\101.rv.fzg";

#[test]
fn multiple_unit_with_default_friction_and_multiplier_two() {
    let (loc, mu) = multipliers(0.4, 0.4, 0.25, Some(2.0));
    assert_eq!((loc, mu), (2.0, 2.0));
    let mut tree = document(train("1.5", vec![vehicle(WAGON), vehicle(WAGON)]));
    assert_eq!(modify_multiplier(&mut tree, times(loc), times(mu)), Ok(()));
    assert_eq!(tree, document(train("3", vec![vehicle(WAGON), vehicle(WAGON)])));
    let Node::Element(zug) = &tree.children[1] else { unreachable!() };
    let written: f32 = zug.attribute("APBeschl").unwrap().parse().unwrap();
    assert!((written - 2.0 * (0.4f32 / 0.25).min(1.0) * 1.5).abs() < 1e-6);
}

#[test]
fn low_friction_costs_a_multiple_unit_less_than_a_locomotive() {
    let (loc, mu) = multipliers(0.2, 0.4, 0.25, None);
    assert_eq!(loc, 0.5);
    let mut unit = document(train("1.5", vec![vehicle(WAGON)]));
    assert_eq!(modify_multiplier(&mut unit, times(loc), times(mu)), Ok(()));
    let Node::Element(zug) = &unit.children[1] else { unreachable!() };
    let written: f32 = zug.attribute("APBeschl").unwrap().parse().unwrap();
    assert!((written - 0.8 * 1.5).abs() < 1e-6);

    let mut hauled = document(train("1.5", vec![vehicle(WAGON), vehicle(ENGINE)]));
    assert_eq!(modify_multiplier(&mut hauled, times(loc), times(mu)), Ok(()));
    assert_eq!(hauled, document(train("0.75", vec![vehicle(WAGON), vehicle(ENGINE)])));
}

#[test]
fn rescaled_value_is_the_product_within_tolerance() {
    for value in ["0", "1", "1.5", "0.25", "2.75", "12.125", "1e-3", "+3.5", "-1.5", "007"] {
        for multiplier in [0.0f32, 0.5, 1.0, 1.6, 2.0, 0.123456] {
            let mut tree = document(train(value, vec![vehicle(WAGON)]));
            assert_eq!(modify_multiplier(&mut tree, times(99.0), times(multiplier)), Ok(()));
            let Node::Element(zug) = &tree.children[1] else { unreachable!() };
            let written: f32 = zug.attribute("APBeschl").unwrap().parse().unwrap();
            let expected = multiplier * value.parse::<f32>().unwrap();
            assert!((written - expected).abs() <= 1e-6, "{value} * {multiplier}");
        }
    }
}

#[test]
fn closure_is_chosen_by_the_consist() {
    let loc = |value: String| Some(format!("L({value})"));
    let mu = |value: String| Some(format!("M({value})"));
    let mut hauled = document(train("1.5", vec![vehicle(ENGINE)]));
    assert_eq!(modify_multiplier(&mut hauled, loc, mu), Ok(()));
    assert_eq!(hauled, document(train("L(1.5)", vec![vehicle(ENGINE)])));
    let mut unit = document(train("1.5", vec![vehicle(WAGON)]));
    assert_eq!(modify_multiplier(&mut unit, loc, mu), Ok(()));
    assert_eq!(unit, document(train("M(1.5)", vec![vehicle(WAGON)])));
    let mut empty = document(train("1.5", vec![]));
    assert_eq!(modify_multiplier(&mut empty, loc, mu), Ok(()));
    assert_eq!(empty, document(train("M(1.5)", vec![])));
}

#[test]
fn value_that_is_no_number_fails() {
    let mut tree = document(train("schnell", vec![vehicle(WAGON)]));
    assert_eq!(
        modify_multiplier(&mut tree, times(2.0), times(2.0)),
        Err(Failure {
            cause: Cause::InvalidNumber("schnell".to_string()),
            context: vec![Step::ParsingAcceleration],
        })
    );
    assert_eq!(tree, document(train("schnell", vec![vehicle(WAGON)])));
}

#[test]
fn document_without_train_fails() {
    let mut tree = element("Zusi", &[], vec![]);
    assert_eq!(
        modify_multiplier(&mut tree, times(2.0), times(2.0)),
        Err(root(Cause::MissingTag("Zug".to_string())))
    );
}

#[test]
fn train_without_consist_fails() {
    let mut tree = document(element("Zug", &[("APBeschl", "1.5")], vec![vehicle(ENGINE)]));
    assert_eq!(
        modify_multiplier(&mut tree, times(2.0), times(2.0)),
        Err(root(Cause::MissingTag("FahrzeugVarianten".to_string())))
    );
    assert_eq!(tree, document(element("Zug", &[("APBeschl", "1.5")], vec![vehicle(ENGINE)])));
}

#[test]
fn train_without_acceleration_fails() {
    let zug = || {
        element(
            "Zug",
            &[("Gattung", "RE")],
            vec![Node::Element(element("FahrzeugVarianten", &[], vec![vehicle(ENGINE)]))],
        )
    };
    let mut tree = document(zug());
    assert_eq!(
        modify_multiplier(&mut tree, times(2.0), times(2.0)),
        Err(root(Cause::MissingAttribute("APBeschl".to_string())))
    );
    assert_eq!(tree, document(zug()));
}

#[test]
fn malformed_consist_fails_while_classifying() {
    let vehicles = || vec![vehicle(WAGON), Node::Element(element("Fremd", &[], vec![]))];
    let mut tree = document(train("1.5", vehicles()));
    assert_eq!(
        modify_multiplier(&mut tree, times(2.0), times(2.0)),
        Err(Failure {
            cause: Cause::UnrecognizedVariant("Fremd".to_string()),
            context: vec![Step::ClassifyingConsist],
        })
    );
    assert_eq!(tree, document(train("1.5", vehicles())));
}

#[test]
fn consist_is_judged_before_the_acceleration_is_looked_for() {
    let mut tree = document(element(
        "Zug",
        &[],
        vec![Node::Element(element(
            "FahrzeugVarianten",
            &[],
            vec![Node::Element(element("Datei", &[], vec![]))],
        ))],
    ));
    assert_eq!(
        modify_multiplier(&mut tree, times(2.0), times(2.0)),
        Err(Failure {
            cause: Cause::MissingAttribute("Dateiname".to_string()),
            context: vec![Step::ClassifyingConsist],
        })
    );
}

#[test]
fn first_consist_of_the_train_counts() {
    let mut tree = document(element(
        "Zug",
        &[("APBeschl", "1")],
        vec![
            Node::Element(element("FahrzeugVarianten", &[], vec![vehicle(WAGON)])),
            Node::Element(element("FahrzeugVarianten", &[], vec![vehicle(ENGINE)])),
        ],
    ));
    assert_eq!(modify_multiplier(&mut tree, times(10.0), times(3.0)), Ok(()));
    let Node::Element(zug) = &tree.children[1] else { unreachable!() };
    assert_eq!(zug.attribute("APBeschl"), Some(&"3".to_string()));
}

#[test]
fn rescale_train_works_on_the_train_itself() {
    let mut zug = train("1.5", vec![vehicle(ENGINE)]);
    assert_eq!(rescale_train(&mut zug, times(0.5), times(2.0)), Ok(()));
    assert_eq!(zug, train("0.75", vec![vehicle(ENGINE)]));
}
