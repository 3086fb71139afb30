use hooklib::code_view::CodeView;
use hooklib::parametric::{example_flat, Identifier, Operation, ParametricPattern};
use hooklib::script::Script;

#[test]
fn test_example_flat() {
    let p = example_flat();
    let root = p.root().expect("the example has a root");
    match p.get(root) {
        Some(Operation::Sequence(children)) => assert_eq!(children.len(), 5),
        other => panic!("expected a sequence at the root, got {:?}", other),
    }
    let names: Vec<String> = p
        .defined_identifiers()
        .iter()
        .map(|i| i.as_str().to_owned())
        .collect();
    assert_eq!(names, vec!["stitches", "x", "y"]);
}

#[test]
fn remove_node_drops_first_occurrence_from_groups() {
    let mut p = ParametricPattern::new();
    let a = p.literal(1);
    let b = p.literal(2);
    let group = p.sequence(vec![a, b, a]);
    p.build(group);
    p.remove_node(a);
    match p.get(group) {
        Some(Operation::Sequence(v)) => assert_eq!(v.as_slice(), &[b, a]),
        other => panic!("expected the group to remain a sequence, got {:?}", other),
    }
    // removing a reference that no group holds changes nothing
    let c = p.literal(3);
    p.remove_node(c);
    match p.get(group) {
        Some(Operation::Sequence(v)) => assert_eq!(v.len(), 2),
        other => panic!("expected the group to remain a sequence, got {:?}", other),
    }
}

#[test]
fn defined_identifiers_deduplicates() {
    let mut p = ParametricPattern::new();
    let one = p.literal(1);
    let d1 = p.define(Identifier::new("n".to_owned()), one);
    let two = p.literal(2);
    let d2 = p.define(Identifier::new("n".to_owned()), two);
    let group = p.sequence(vec![d1, d2]);
    p.build(group);
    let names = p.defined_identifiers();
    assert_eq!(names.len(), 1);
    assert_eq!(names[0].as_str(), "n");
}

#[test]
fn script_keeps_contents_and_path() {
    let mut s = Script::new("rep 15 chain();".to_owned());
    assert_eq!(s.source(), "rep 15 chain();");
    assert!(s.path().is_none());
    s.set_path("flat.ph".to_owned());
    assert_eq!(s.path(), Some("flat.ph"));
    s.source_mut().push('\n');
    assert_eq!(s.source(), "rep 15 chain();\n");

    let t = Script::new_with_path("chain();".to_owned(), "a.ph".to_owned());
    assert_eq!(t.source(), "chain();");
    assert_eq!(t.path(), Some("a.ph"));
}

#[test]
fn code_view_loads_code() {
    let mut view = CodeView::default();
    assert!(view.code.is_empty());
    view.load_code("rep 3 dc();");
    assert_eq!(view.code, "rep 3 dc();");
}

#[test]
fn identifiers_compare_by_name() {
    let a = Identifier::new("stitches".to_owned());
    let b = Identifier::new("stitches".to_owned());
    let c = Identifier::new("rows".to_owned());
    assert_eq!(a, b);
    assert_ne!(a, c);
    assert_eq!(a.clone().as_str(), "stitches");
}
