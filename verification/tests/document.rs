use zusi_schlechtes_wetter::document::{Attribute, Element, Node};

fn attribute(key: &str, value: &str) -> Attribute {
    Attribute { key: key.to_string(), value: value.to_string() }
}

#[test]
fn new_element_is_empty() {
    let element = Element::new("Zug".to_string());
    assert_eq!(element.name, "Zug");
    assert!(element.attributes.is_empty());
    assert!(element.children.is_empty());
}

#[test]
fn attribute_finds_the_value_of_a_key() {
    let element = Element {
        name: "Zug".to_string(),
        attributes: vec![attribute("Gattung", "RE"), attribute("APBeschl", "1.5")],
        children: vec![],
    };
    assert_eq!(element.attribute("APBeschl"), Some(&"1.5".to_string()));
    assert_eq!(element.attribute("Gattung"), Some(&"RE".to_string()));
    assert_eq!(element.attribute("apbeschl"), None);
    assert_eq!(element.attribute(""), None);
}

#[test]
fn attribute_takes_the_first_of_two_equal_keys() {
    let element = Element {
        name: "Zug".to_string(),
        attributes: vec![attribute("Ank", "first"), attribute("Ank", "second")],
        children: vec![],
    };
    assert_eq!(element.attribute("Ank"), Some(&"first".to_string()));
}

#[test]
fn set_attribute_replaces_in_place() {
    let mut element = Element {
        name: "Zug".to_string(),
        attributes: vec![attribute("Gattung", "RE"), attribute("APBeschl", "1.5")],
        children: vec![],
    };
    element.set_attribute("Gattung", "IC".to_string());
    assert_eq!(element.attributes, vec![attribute("Gattung", "IC"), attribute("APBeschl", "1.5")]);
}

#[test]
fn set_attribute_adds_a_missing_key() {
    let mut element = Element::new("Zug".to_string());
    element.set_attribute("APBeschl", "1.5".to_string());
    element.set_attribute("Gattung", "RE".to_string());
    assert_eq!(element.attributes, vec![attribute("APBeschl", "1.5"), attribute("Gattung", "RE")]);
    assert_eq!(element.attribute("APBeschl"), Some(&"1.5".to_string()));
}

#[test]
fn set_attribute_changes_what_attribute_finds_among_equal_keys() {
    let mut element = Element {
        name: "Zug".to_string(),
        attributes: vec![attribute("Ank", "first"), attribute("Ank", "second")],
        children: vec![],
    };
    element.set_attribute("Ank", "third".to_string());
    assert_eq!(element.attribute("Ank"), Some(&"third".to_string()));
    assert_eq!(element.attributes[1], attribute("Ank", "second"));
}

#[test]
fn push_child_appends() {
    let mut element = Element::new("Zug".to_string());
    element.push_child(Node::Text("a".to_string()));
    element.push_child(Node::Element(Element::new("Datei".to_string())));
    assert_eq!(
        element.children,
        vec![Node::Text("a".to_string()), Node::Element(Element::new("Datei".to_string()))]
    );
}

#[test]
fn child_index_skips_content_and_other_names() {
    let element = Element {
        name: "Zusi".to_string(),
        attributes: vec![],
        children: vec![
            Node::Comment("Zug".to_string()),
            Node::Text("Zug".to_string()),
            Node::Element(Element::new("Info".to_string())),
            Node::CData("Zug".to_string()),
            Node::ProcessingInstruction("Zug".to_string(), None),
            Node::Element(Element::new("Zug".to_string())),
            Node::Element(Element::new("Zug".to_string())),
        ],
    };
    assert_eq!(element.child_index("Zug"), Some(5));
    assert_eq!(element.child_index("Info"), Some(2));
    assert_eq!(element.child_index("zug"), None);
    assert_eq!(element.child_index_from("Zug", 5), Some(5));
    assert_eq!(element.child_index_from("Zug", 6), Some(6));
    assert_eq!(element.child_index_from("Zug", 7), None);
    assert_eq!(element.child_index_from("Zug", 100), None);
}

#[test]
fn child_returns_the_first_element_of_a_name() {
    let mut first = Element::new("Datei".to_string());
    first.set_attribute("Dateiname", "a".to_string());
    let mut second = Element::new("Datei".to_string());
    second.set_attribute("Dateiname", "b".to_string());
    let mut parent = Element::new("FahrzeugInfo".to_string());
    parent.push_child(Node::Text("Datei".to_string()));
    parent.push_child(Node::Element(first));
    parent.push_child(Node::Element(second));
    assert_eq!(parent.child("Datei").unwrap().attribute("Dateiname"), Some(&"a".to_string()));
    assert!(parent.child("Zug").is_none());
    assert!(Element::new("x".to_string()).child("Datei").is_none());
}

#[test]
fn new_and_set_attribute_keep_an_element_well_formed() {
    let mut element = Element::new("Zug".to_string());
    assert!(element.is_well_formed());
    element.set_attribute("Ank", "a".to_string());
    element.set_attribute("Abf", "b".to_string());
    element.set_attribute("Ank", "c".to_string());
    assert!(element.is_well_formed());
    assert_eq!(element.attributes, vec![attribute("Ank", "c"), attribute("Abf", "b")]);
    let mut parent = Element::new("Zusi".to_string());
    parent.push_child(Node::Comment("x".to_string()));
    parent.push_child(Node::Element(element));
    assert!(parent.is_well_formed());
}

#[test]
fn is_well_formed_finds_a_key_that_occurs_twice() {
    let twice = || Element {
        name: "Zug".to_string(),
        attributes: vec![attribute("Ank", "first"), attribute("Abf", "x"), attribute("Ank", "second")],
        children: vec![],
    };
    assert!(!twice().is_well_formed());
    let mut parent = Element::new("Zusi".to_string());
    parent.push_child(Node::Text("text".to_string()));
    assert!(parent.is_well_formed());
    parent.push_child(Node::Element(twice()));
    assert!(!parent.is_well_formed());
    let mut deep = Element::new("Dokument".to_string());
    deep.push_child(Node::Element(parent));
    assert!(!deep.is_well_formed());
    let same_values = Element {
        name: "Zug".to_string(),
        attributes: vec![attribute("Ank", "x"), attribute("Abf", "x")],
        children: vec![],
    };
    assert!(same_values.is_well_formed());
}
