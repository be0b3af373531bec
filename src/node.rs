//! The markup tree and its rendering as text.
use vstd::prelude::*;
use crate::scope::attr_view;

verus! {

/// A node of a markup tree.
#[derive(Debug, PartialEq, Eq)]
pub enum Node {
    /// Text, possibly holding `{expression}` spans.
    Text(String),
    /// An element: its tag name, its attributes in order (a missing value marks a
    /// presence attribute), and its children in order.
    Element { name: String, attributes: Vec<(String, Option<String>)>, children: Vec<Node> },
    /// Anything else (a comment, a doctype): carried through, never rendered.
    Other(String),
}

/// What a [`Node`] holds, as mathematical values.
pub enum NodeView {
    Text(Seq<char>),
    Element {
        name: Seq<char>,
        attributes: Seq<(Seq<char>, Option<Seq<char>>)>,
        children: Seq<NodeView>,
    },
    Other(Seq<char>),
}

pub open spec fn views_of(s: Seq<Node>) -> Seq<NodeView>
    decreases s,
{
    if s.len() == 0 {
        Seq::empty()
    } else {
        views_of(s.subrange(0, s.len() - 1)).push(s[s.len() - 1].view())
    }
}

pub open spec fn attrs_view(a: Seq<(String, Option<String>)>) -> Seq<(Seq<char>, Option<Seq<char>>)> {
    a.map_values(|x: (String, Option<String>)| attr_view(x))
}

impl View for Node {
    type V = NodeView;

    open spec fn view(&self) -> NodeView
        decreases self,
    {
        match self {
            Node::Text(t) => NodeView::Text(t@),
            Node::Element { name, attributes, children } => NodeView::Element {
                name: name@,
                attributes: attrs_view(attributes@),
                children: views_of(children@),
            },
            Node::Other(s) => NodeView::Other(s@),
        }
    }
}

pub proof fn lemma_views_of(s: Seq<Node>)
    ensures
        views_of(s).len() == s.len(),
        forall|i: int| 0 <= i < s.len() ==> #[trigger] views_of(s)[i] == s[i]@,
    decreases s.len(),
{
    if s.len() > 0 {
        let t = s.subrange(0, s.len() - 1);
        lemma_views_of(t);
        assert(views_of(s) == views_of(t).push(s[s.len() - 1]@));
        assert forall|i: int| 0 <= i < s.len() implies #[trigger] views_of(s)[i] == s[i]@ by {
            if i < s.len() - 1 {
                assert(s[i] == t[i]);
            }
        }
    }
}

pub proof fn lemma_views_of_push(s: Seq<Node>, n: Node)
    ensures
        views_of(s.push(n)) == views_of(s).push(n@),
{
    assert(s.push(n).subrange(0, s.len() as int) =~= s);
}

/// The text of the attributes: ` name` or ` name="value"` each, in order.
pub open spec fn render_attributes(attrs: Seq<(Seq<char>, Option<Seq<char>>)>) -> Seq<char>
    decreases attrs.len(),
{
    if attrs.len() == 0 {
        Seq::empty()
    } else {
        let a = attrs.last();
        render_attributes(attrs.drop_last()) + seq![' '] + a.0 + match a.1 {
            Some(v) => seq!['=', '"'] + v + seq!['"'],
            None => Seq::empty(),
        }
    }
}

/// The markup text of a node: text as it is, an element as its opening tag, its
/// children and its closing tag, anything else as nothing.
pub open spec fn render(n: NodeView) -> Seq<char>
    decreases n,
{
    match n {
        NodeView::Text(t) => t,
        NodeView::Element { name, attributes, children } => seq!['<'] + name + render_attributes(
            attributes,
        ) + seq!['>'] + render_all(children) + seq!['<', '/'] + name + seq!['>'],
        NodeView::Other(_) => Seq::empty(),
    }
}

/// The markup text of a sequence of nodes, one after the other.
pub open spec fn render_all(ns: Seq<NodeView>) -> Seq<char>
    decreases ns,
{
    if ns.len() == 0 {
        Seq::empty()
    } else {
        render_all(ns.subrange(0, ns.len() - 1)) + render(ns[ns.len() - 1])
    }
}

fn render_attributes_into(attrs: &Vec<(String, Option<String>)>, out: &mut String)
    ensures
        final(out)@ == old(out)@ + render_attributes(attrs_view(attrs@)),
{
    let mut i: usize = 0;
    proof {
        reveal_strlit(" ");
        reveal_strlit("=\"");
        reveal_strlit("\"");
    }
    assert(attrs_view(attrs@.subrange(0, 0)) =~= Seq::empty());
    while i < attrs.len()
        invariant
            i <= attrs@.len(),
            out@ == old(out)@ + render_attributes(attrs_view(attrs@.subrange(0, i as int))),
            " "@ == seq![' '],
            "=\""@ == seq!['=', '"'],
            "\""@ == seq!['"'],
        decreases attrs@.len() - i,
    {
        assert(attrs_view(attrs@.subrange(0, i + 1)).drop_last() =~= attrs_view(attrs@.subrange(0, i as int)));
        out.append(" ");
        out.append(attrs[i].0.as_str());
        match &attrs[i].1 {
            Some(v) => {
                out.append("=\"");
                out.append(v.as_str());
                out.append("\"");
            },
            None => {},
        }
        i = i + 1;
        assert(out@ =~= old(out)@ + render_attributes(attrs_view(attrs@.subrange(0, i as int))));
    }
    assert(attrs@.subrange(0, i as int) =~= attrs@);
}

fn render_into(node: &Node, out: &mut String)
    ensures
        final(out)@ == old(out)@ + render(node@),
    decreases node,
{
    proof {
        reveal_strlit("<");
        reveal_strlit(">");
        reveal_strlit("</");
    }
    match node {
        Node::Text(t) => {
            out.append(t.as_str());
        },
        Node::Element { name, attributes, children } => {
            let ghost start = out@;
            out.append("<");
            out.append(name.as_str());
            render_attributes_into(attributes, out);
            out.append(">");
            let ghost opened = out@;
            let mut i: usize = 0;
            assert(children@.subrange(0, 0) =~= Seq::<Node>::empty());
            while i < children.len()
                invariant
                    *node == (Node::Element { name: *name, attributes: *attributes, children: *children }),
                    i <= children@.len(),
                    out@ == opened + render_all(views_of(children@.subrange(0, i as int))),
                decreases children@.len() - i,
            {
                proof {
                    assert(children@.subrange(0, i + 1) =~= children@.subrange(0, i as int).push(children@[i as int]));
                    lemma_views_of_push(children@.subrange(0, i as int), children@[i as int]);
                    let vs = views_of(children@.subrange(0, i as int));
                    assert(vs.push(children@[i as int]@).subrange(0, vs.len() as int) =~= vs);
                    assert(decreases_to!(*node => node->children));
                    assert(decreases_to!(node->children => children@));
                }
                render_into(&children[i], out);
                i = i + 1;
                assert(out@ =~= opened + render_all(views_of(children@.subrange(0, i as int))));
            }
            assert(children@.subrange(0, i as int) =~= children@);
            out.append("</");
            out.append(name.as_str());
            out.append(">");
            assert(out@ =~= start + render(node@));
        },
        Node::Other(_) => {
            assert(out@ =~= old(out)@ + render(node@));
        },
    }
}

impl Node {
    /// The markup text of this node.
    pub fn render(&self) -> (r: String)
        ensures
            r@ == render(self@),
    {
        let mut out = String::new();
        render_into(self, &mut out);
        out
    }
}

} // verus!
