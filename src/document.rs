//! Reading component sources and the root document once they are parsed into nodes.
use vstd::prelude::*;
use crate::node::{Node, NodeView, views_of, lemma_views_of};
use crate::registry::Registry;
use crate::EngineError;

verus! {

pub open spec fn component_tag() -> Seq<char> {
    seq!['c', 'o', 'm', 'p', 'o', 'n', 'e', 'n', 't']
}

pub open spec fn style_tag() -> Seq<char> {
    seq!['s', 't', 'y', 'l', 'e']
}

pub open spec fn body_tag() -> Seq<char> {
    seq!['b', 'o', 'd', 'y']
}

/// Whether `n` is an element with tag name `tag`.
pub open spec fn is_named(n: NodeView, tag: Seq<char>) -> bool {
    n is Element && n->name == tag
}

/// `i` is the first position of `doc` that holds an element named `tag`.
pub open spec fn first_named(doc: Seq<NodeView>, tag: Seq<char>, i: int) -> bool {
    0 <= i < doc.len() && is_named(doc[i], tag) && forall|j: int| 0 <= j < i ==> !is_named(doc[j], tag)
}

/// Whether the first of `ns` is text.
pub open spec fn starts_with_text(ns: Seq<NodeView>) -> bool {
    ns.len() > 0 && ns[0] is Text
}

pub open spec fn holds_named(doc: Seq<NodeView>, tag: Seq<char>) -> bool {
    exists|i: int| 0 <= i < doc.len() && is_named(doc[i], tag)
}

/// The position of the first top-level element named `tag`.
fn find_element(doc: &Vec<Node>, tag: &String) -> (r: Option<usize>)
    ensures
        match r {
            Some(i) => first_named(views_of(doc@), tag@, i as int),
            None => !holds_named(views_of(doc@), tag@),
        },
{
    proof {
        lemma_views_of(doc@);
    }
    let mut i: usize = 0;
    while i < doc.len()
        invariant
            i <= doc@.len(),
            views_of(doc@).len() == doc@.len(),
            forall|k: int| 0 <= k < doc@.len() ==> #[trigger] views_of(doc@)[k] == doc@[k]@,
            forall|j: int| 0 <= j < i ==> !is_named(views_of(doc@)[j], tag@),
        decreases doc@.len() - i,
    {
        if let Node::Element { name, .. } = &doc[i] {
            if *name == *tag {
                return Some(i);
            }
        }
        i = i + 1;
    }
    None
}

/// The first top-level `<component>` element of a parsed source.
pub fn get_component_html(doc: Vec<Node>) -> (r: Result<Node, EngineError>)
    ensures
        match r {
            Ok(n) => exists|i: int| first_named(views_of(doc@), component_tag(), i) && n@ == views_of(doc@)[i],
            Err(e) => e == EngineError::MissingComponentWrapper && !holds_named(views_of(doc@), component_tag()),
        },
{
    let tag = "component".to_owned();
    proof {
        reveal_strlit("component");
        assert(tag@ =~= component_tag());
        lemma_views_of(doc@);
    }
    let mut doc = doc;
    let ghost before = doc@;
    match find_element(&doc, &tag) {
        Some(i) => {
            let n = doc.remove(i);
            assert(n@ == views_of(before)[i as int]);
            Ok(n)
        },
        None => Err(EngineError::MissingComponentWrapper),
    }
}

/// The body of a component: the children of its source's `<component>` element.
pub fn component_body(doc: Vec<Node>) -> (r: Result<Vec<Node>, EngineError>)
    ensures
        match r {
            Ok(body) => exists|i: int| first_named(views_of(doc@), component_tag(), i)
                && views_of(body@) == views_of(doc@)[i]->children,
            Err(e) => e == EngineError::MissingComponentWrapper && !holds_named(views_of(doc@), component_tag()),
        },
{
    match get_component_html(doc) {
        Ok(Node::Element { children, .. }) => Ok(children),
        Ok(_) => {
            assert(false);
            Err(EngineError::MissingComponentWrapper)
        },
        Err(e) => Err(e),
    }
}

/// Registers the component of a parsed source under `name`.
pub fn register_component(registry: &mut Registry, name: String, doc: Vec<Node>) -> (r: Result<(), EngineError>)
    ensures
        match r {
            Ok(()) => exists|i: int| first_named(views_of(doc@), component_tag(), i)
                && final(registry)@ == old(registry)@.insert(name@, views_of(doc@)[i]->children),
            Err(e) => e == EngineError::MissingComponentWrapper && !holds_named(views_of(doc@), component_tag())
                && final(registry)@ == old(registry)@,
        },
{
    match component_body(doc) {
        Ok(body) => {
            registry.insert(name, body);
            Ok(())
        },
        Err(e) => Err(e),
    }
}

/// The node that expansion starts from: the root document's `<component>` element,
/// renamed `body`.
pub fn root_element(doc: Vec<Node>) -> (r: Result<Node, EngineError>)
    ensures
        match r {
            Ok(n) => exists|i: int| first_named(views_of(doc@), component_tag(), i)
                && n@ == (NodeView::Element {
                    name: body_tag(),
                    attributes: views_of(doc@)[i]->attributes,
                    children: views_of(doc@)[i]->children,
                }),
            Err(e) => e == EngineError::MissingComponentWrapper && !holds_named(views_of(doc@), component_tag()),
        },
{
    match get_component_html(doc) {
        Ok(Node::Element { attributes, children, .. }) => {
            let name = "body".to_owned();
            proof {
                reveal_strlit("body");
                assert(name@ =~= body_tag());
            }
            Ok(Node::Element { name, attributes, children })
        },
        Ok(_) => {
            assert(false);
            Err(EngineError::MissingComponentWrapper)
        },
        Err(e) => Err(e),
    }
}

/// The text of the first top-level `<style>` element, if there is one.
pub fn get_styles(doc: &Vec<Node>) -> (r: Result<Option<String>, EngineError>)
    ensures
        match r {
            Ok(None) => !holds_named(views_of(doc@), style_tag()),
            Ok(Some(s)) => exists|i: int| first_named(views_of(doc@), style_tag(), i)
                && starts_with_text(views_of(doc@)[i]->children)
                && views_of(doc@)[i]->children[0] == NodeView::Text(s@),
            Err(e) => e == EngineError::MalformedStyleBlock
                && exists|i: int| first_named(views_of(doc@), style_tag(), i)
                && !starts_with_text(views_of(doc@)[i]->children),
        },
{
    let tag = "style".to_owned();
    proof {
        reveal_strlit("style");
        assert(tag@ =~= style_tag());
        lemma_views_of(doc@);
    }
    match find_element(doc, &tag) {
        None => Ok(None),
        Some(i) => {
            if let Node::Element { children, .. } = &doc[i] {
                proof {
                    lemma_views_of(children@);
                }
                if children.len() > 0 {
                    if let Node::Text(s) = &children[0] {
                        return Ok(Some(s.clone()));
                    }
                }
            }
            Err(EngineError::MalformedStyleBlock)
        },
    }
}

} // verus!
