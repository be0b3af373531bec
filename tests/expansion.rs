use component_engine::document::{component_body, get_component_html, get_styles, register_component, root_element};
use component_engine::engine::{requests, substitute, Request};
use component_engine::expr::{expressions, fill_text};
use component_engine::node::Node;
use component_engine::registry::Registry;
use component_engine::scope::Bindings;
use component_engine::EngineError;

const LIMIT: usize = 64;

fn text(s: &str) -> Node {
    Node::Text(s.to_string())
}

fn element(name: &str, attributes: &[(&str, Option<&str>)], children: Vec<Node>) -> Node {
    Node::Element {
        name: name.to_string(),
        attributes: attributes
            .iter()
            .map(|(k, v)| (k.to_string(), v.map(|x| x.to_string())))
            .collect(),
        children,
    }
}

fn bind(pairs: &[(&str, &str)]) -> Bindings {
    let mut b = Bindings::new();
    for (k, v) in pairs {
        b.set(k.to_string(), v.to_string());
    }
    b
}

/// Answers each request with the value bound to the expression's name.
fn lookup_answers(asked: &[Request]) -> Vec<String> {
    asked
        .iter()
        .map(|r| r.bindings.get(&r.expression).cloned().unwrap_or_else(|| "undefined".to_string()))
        .collect()
}

fn expand_with_lookup(node: &Node, bindings: &Bindings, registry: &Registry) -> Node {
    let asked = requests(node, bindings, registry, LIMIT).unwrap();
    let answers = lookup_answers(&asked);
    substitute(node, bindings, registry, LIMIT, &answers).unwrap()
}

#[test]
fn plain_text_is_unchanged() {
    let node = text("no expressions here } at all");
    let registry = Registry::new();
    let b = bind(&[("x", "1")]);
    let asked = requests(&node, &b, &registry, LIMIT).unwrap();
    assert!(asked.is_empty());
    let out = substitute(&node, &b, &registry, LIMIT, &vec![]).unwrap();
    assert_eq!(out, node);
}

#[test]
fn expression_is_substituted() {
    let node = text("hello {name}!");
    let registry = Registry::new();
    let b = bind(&[("name", "world")]);
    let asked = requests(&node, &b, &registry, LIMIT).unwrap();
    assert_eq!(asked.len(), 1);
    assert_eq!(asked[0].expression, "name");
    assert_eq!(asked[0].bindings.get(&"name".to_string()), Some(&"world".to_string()));
    assert_eq!(expand_with_lookup(&node, &b, &registry), text("hello world!"));
}

#[test]
fn repeated_spans_are_answered_one_by_one() {
    let node = text("{a}-{a}");
    let registry = Registry::new();
    let b = Bindings::new();
    let asked = requests(&node, &b, &registry, LIMIT).unwrap();
    assert_eq!(asked.len(), 2);
    let out = substitute(&node, &b, &registry, LIMIT, &vec!["1".to_string(), "2".to_string()]).unwrap();
    assert_eq!(out, text("1-2"));
}

#[test]
fn span_scanning_edges() {
    assert_eq!(expressions("a {b"), Vec::<String>::new());
    assert_eq!(expressions("{}"), vec!["".to_string()]);
    assert_eq!(expressions("{a{b}c}"), vec!["a{b".to_string()]);
    assert_eq!(expressions("{x\ny} and {z}"), vec!["x\ny".to_string(), "z".to_string()]);
    assert_eq!(expressions("}{q}"), vec!["q".to_string()]);
    let answers = vec!["skip".to_string(), "A".to_string(), "B".to_string()];
    assert_eq!(fill_text("<{x}|{y}> {open", &answers, 1), "<A|B> {open");
}

#[test]
fn answers_must_match_requests() {
    let node = text("{a}");
    let registry = Registry::new();
    let b = Bindings::new();
    let r = substitute(&node, &b, &registry, LIMIT, &vec![]);
    assert_eq!(r, Err(EngineError::AnswerCountMismatch));
}

#[test]
fn references_see_only_their_own_attributes() {
    let mut registry = Registry::new();
    registry.insert("x".to_string(), vec![text("[{v}]")]);
    let root = element(
        "div",
        &[],
        vec![element("x", &[("v", Some("a"))], vec![]), element("x", &[("v", Some("b"))], vec![])],
    );
    let out = expand_with_lookup(&root, &bind(&[("v", "outside")]), &registry);
    assert_eq!(out.render(), "<div>[a][b]</div>");
}

#[test]
fn nested_reference_does_not_inherit() {
    let mut registry = Registry::new();
    registry.insert("x".to_string(), vec![text("x:{v}{w}")]);
    registry.insert(
        "y".to_string(),
        vec![element("x", &[("v", Some("inner"))], vec![]), text(" y:{v}{w}")],
    );
    let root = element("body", &[], vec![element("y", &[("v", Some("outer")), ("w", Some("W"))], vec![])]);
    let asked = requests(&root, &Bindings::new(), &registry, LIMIT).unwrap();
    assert_eq!(asked.len(), 4);
    assert_eq!(asked[0].bindings.get(&"w".to_string()), None);
    assert_eq!(asked[2].bindings.get(&"v".to_string()), Some(&"outer".to_string()));
    let out = expand_with_lookup(&root, &Bindings::new(), &registry);
    assert_eq!(out.render(), "<body>x:innerundefined y:outerW</body>");
}

#[test]
fn reference_is_flattened_in_place() {
    let mut registry = Registry::new();
    registry.insert("pair".to_string(), vec![element("i", &[], vec![]), element("b", &[], vec![])]);
    registry.insert("none".to_string(), vec![]);
    let root = element(
        "p",
        &[],
        vec![text("1"), element("pair", &[], vec![text("dropped")]), text("2"), element("none", &[], vec![]), text("3")],
    );
    let out = expand_with_lookup(&root, &Bindings::new(), &registry);
    let expected = element(
        "p",
        &[],
        vec![text("1"), element("i", &[], vec![]), element("b", &[], vec![]), text("2"), text("3")],
    );
    assert_eq!(out, expected);
}

#[test]
fn unknown_tag_is_kept() {
    let registry = Registry::new();
    let root = element(
        "body",
        &[],
        vec![element("section", &[("id", Some("s"))], vec![text("{k}"), Node::Other("note".to_string())])],
    );
    let out = expand_with_lookup(&root, &bind(&[("k", "v")]), &registry);
    let expected = element(
        "body",
        &[],
        vec![element("section", &[("id", Some("s"))], vec![text("v"), Node::Other("note".to_string())])],
    );
    assert_eq!(out, expected);
}

#[test]
fn self_reference_hits_the_limit() {
    let mut registry = Registry::new();
    registry.insert("loop".to_string(), vec![element("loop", &[], vec![])]);
    let root = element("body", &[], vec![element("loop", &[], vec![])]);
    let b = Bindings::new();
    assert!(matches!(requests(&root, &b, &registry, 10), Err(EngineError::RecursionLimitExceeded)));
    assert_eq!(substitute(&root, &b, &registry, 10, &vec![]), Err(EngineError::RecursionLimitExceeded));
}

#[test]
fn render_element_with_attributes() {
    let node = element("div", &[("class", Some("a")), ("disabled", None)], vec![text("hi")]);
    assert_eq!(node.render(), "<div class=\"a\" disabled>hi</div>");
}

#[test]
fn render_void_element_and_other() {
    let node = element("p", &[], vec![element("br", &[], vec![]), Node::Other("c".to_string()), text("a<b")]);
    assert_eq!(node.render(), "<p><br></br>a<b</p>");
    assert_eq!(Node::Other("x".to_string()).render(), "");
}

#[test]
fn missing_wrapper_fails() {
    let doc = vec![text("\n"), element("div", &[], vec![])];
    assert_eq!(get_component_html(doc), Err(EngineError::MissingComponentWrapper));
    let doc = vec![element("div", &[], vec![])];
    assert_eq!(root_element(doc), Err(EngineError::MissingComponentWrapper));
    let mut registry = Registry::new();
    let r = register_component(&mut registry, "c".to_string(), vec![]);
    assert_eq!(r, Err(EngineError::MissingComponentWrapper));
    assert!(registry.get(&"c".to_string()).is_none());
}

#[test]
fn wrapper_is_found_and_retagged() {
    let doc = vec![
        text("\n"),
        element("component", &[("lang", Some("en"))], vec![text("first")]),
        element("component", &[], vec![text("second")]),
    ];
    assert_eq!(
        root_element(doc),
        Ok(element("body", &[("lang", Some("en"))], vec![text("first")]))
    );
    let doc = vec![element("component", &[], vec![text("a"), text("b")])];
    assert_eq!(component_body(doc), Ok(vec![text("a"), text("b")]));
}

#[test]
fn registry_last_registration_wins() {
    let mut registry = Registry::new();
    register_component(&mut registry, "c".to_string(), vec![element("component", &[], vec![text("old")])]).unwrap();
    register_component(&mut registry, "c".to_string(), vec![element("component", &[], vec![text("new")])]).unwrap();
    assert_eq!(registry.get(&"c".to_string()), Some(&vec![text("new")]));
    assert!(registry.get(&"d".to_string()).is_none());
}

#[test]
fn attribute_bindings_last_write_wins() {
    let attrs = vec![
        ("v".to_string(), Some("1".to_string())),
        ("flag".to_string(), None),
        ("v".to_string(), Some("2".to_string())),
    ];
    let b = Bindings::from_attributes(&attrs);
    assert_eq!(b.get(&"v".to_string()), Some(&"2".to_string()));
    assert_eq!(b.get(&"flag".to_string()), None);
    let copy = b.duplicate();
    assert_eq!(copy.get(&"v".to_string()), Some(&"2".to_string()));
}

#[test]
fn styles_are_read() {
    let doc = vec![element("component", &[], vec![])];
    assert_eq!(get_styles(&doc), Ok(None));
    let doc = vec![element("style", &[], vec![text("p { color: red }")])];
    assert_eq!(get_styles(&doc), Ok(Some("p { color: red }".to_string())));
    let doc = vec![element("style", &[], vec![])];
    assert_eq!(get_styles(&doc), Err(EngineError::MalformedStyleBlock));
    let doc = vec![element("style", &[], vec![element("b", &[], vec![])])];
    assert_eq!(get_styles(&doc), Err(EngineError::MalformedStyleBlock));
}
