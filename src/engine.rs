//! The substitution engine: component inlining, binding scopes and expression filling.
//!
//! Expansion runs in two passes. [`requests`] walks a tree and lists, in document
//! order, every expression to evaluate with the bindings it sees; the evaluator
//! answers each; [`substitute`] then walks the tree again and puts the answers in.
//! The walk inlines at most `limit` nested components, so that a component that
//! refers to itself ends in [`EngineError::RecursionLimitExceeded`].
use vstd::prelude::*;
use crate::expr::{expressions, expressions_of, fill, fill_text, strings_view};
use crate::node::{Node, NodeView, attrs_view, views_of, lemma_views_of, lemma_views_of_push};
use crate::registry::Registry;
use crate::scope::{Bindings, attr_view, attribute_bindings};
use crate::EngineError;

verus! {

/// An expression with the bindings it is evaluated against.
pub type RequestView = (Seq<char>, Map<Seq<char>, Seq<char>>);

pub type RegistryView = Map<Seq<char>, Seq<NodeView>>;

/// Whether `n`, standing among the children of an element, refers to a component.
pub open spec fn is_reference(n: NodeView, reg: RegistryView) -> bool {
    n is Element && reg.contains_key(n->name)
}

pub open spec fn join(a: Option<Seq<RequestView>>, b: Option<Seq<RequestView>>) -> Option<Seq<RequestView>> {
    match (a, b) {
        (Some(x), Some(y)) => Some(x + y),
        _ => None,
    }
}

pub open spec fn text_requests(t: Seq<char>, b: Map<Seq<char>, Seq<char>>) -> Seq<RequestView> {
    expressions_of(t).map_values(|e: Seq<char>| (e, b))
}

/// The evaluations that substituting into `n` asks for, in document order; `None`
/// when it would inline more than `fuel` nested components.
pub open spec fn requests_of(n: NodeView, b: Map<Seq<char>, Seq<char>>, reg: RegistryView, fuel: nat) -> Option<Seq<RequestView>>
    decreases fuel, n, 0nat,
{
    match n {
        NodeView::Text(t) => Some(text_requests(t, b)),
        NodeView::Element { name, attributes, children } => requests_of_all(children, b, reg, fuel),
        NodeView::Other(_) => Some(Seq::empty()),
    }
}

/// As [`requests_of`], for `n` standing as a child, where it may be a component reference.
pub open spec fn requests_of_child(n: NodeView, b: Map<Seq<char>, Seq<char>>, reg: RegistryView, fuel: nat) -> Option<Seq<RequestView>>
    decreases fuel, n, 1nat,
{
    if is_reference(n, reg) {
        if fuel == 0 {
            None
        } else {
            requests_of_all(reg[n->name], attribute_bindings(n->attributes), reg, (fuel - 1) as nat)
        }
    } else {
        requests_of(n, b, reg, fuel)
    }
}

/// As [`requests_of_child`], for a sequence of siblings.
pub open spec fn requests_of_all(ns: Seq<NodeView>, b: Map<Seq<char>, Seq<char>>, reg: RegistryView, fuel: nat) -> Option<Seq<RequestView>>
    decreases fuel, ns, 0nat,
{
    if ns.len() == 0 {
        Some(Seq::empty())
    } else {
        join(
            requests_of_all(ns.subrange(0, ns.len() - 1), b, reg, fuel),
            requests_of_child(ns[ns.len() - 1], b, reg, fuel),
        )
    }
}

pub open spec fn count(r: Option<Seq<RequestView>>) -> int {
    match r {
        Some(q) => q.len() as int,
        None => 0,
    }
}

/// `n` with its expressions answered by `ans` in document order, and each component
/// reference among the descendants replaced by its expanded body.
pub open spec fn expand(n: NodeView, b: Map<Seq<char>, Seq<char>>, reg: RegistryView, fuel: nat, ans: Seq<Seq<char>>) -> NodeView
    decreases fuel, n, 0nat,
{
    match n {
        NodeView::Text(t) => NodeView::Text(fill(t, ans)),
        NodeView::Element { name, attributes, children } => NodeView::Element {
            name,
            attributes,
            children: expand_all(children, b, reg, fuel, ans),
        },
        NodeView::Other(s) => NodeView::Other(s),
    }
}

/// What `n`, standing as a child, becomes: the expanded body of the component it
/// refers to, under the bindings of its own attributes only; else `n` expanded.
pub open spec fn expand_child(n: NodeView, b: Map<Seq<char>, Seq<char>>, reg: RegistryView, fuel: nat, ans: Seq<Seq<char>>) -> Seq<NodeView>
    decreases fuel, n, 1nat,
{
    if is_reference(n, reg) {
        if fuel == 0 {
            Seq::empty()
        } else {
            expand_all(reg[n->name], attribute_bindings(n->attributes), reg, (fuel - 1) as nat, ans)
        }
    } else {
        seq![expand(n, b, reg, fuel, ans)]
    }
}

/// As [`expand_child`], for a sequence of siblings, their results one after the other.
pub open spec fn expand_all(ns: Seq<NodeView>, b: Map<Seq<char>, Seq<char>>, reg: RegistryView, fuel: nat, ans: Seq<Seq<char>>) -> Seq<NodeView>
    decreases fuel, ns, 0nat,
{
    if ns.len() == 0 {
        Seq::empty()
    } else {
        let init = ns.subrange(0, ns.len() - 1);
        let k = count(requests_of_all(init, b, reg, fuel));
        expand_all(init, b, reg, fuel, ans.subrange(0, k))
            + expand_child(ns[ns.len() - 1], b, reg, fuel, ans.subrange(k, ans.len() as int))
    }
}


/// `requests_of_all` of a prefix fails where that of the whole fails, and asks for no more.
pub proof fn lemma_requests_prefix(ns: Seq<NodeView>, b: Map<Seq<char>, Seq<char>>, reg: RegistryView, fuel: nat, i: int)
    requires
        0 <= i <= ns.len(),
    ensures
        requests_of_all(ns, b, reg, fuel) is Some ==> requests_of_all(ns.subrange(0, i), b, reg, fuel) is Some
            && count(requests_of_all(ns.subrange(0, i), b, reg, fuel)) <= count(requests_of_all(ns, b, reg, fuel)),
    decreases ns.len(),
{
    if i == ns.len() {
        assert(ns.subrange(0, i) =~= ns);
    } else {
        let init = ns.subrange(0, ns.len() - 1);
        lemma_requests_prefix(init, b, reg, fuel, i);
        assert(init.subrange(0, i) =~= ns.subrange(0, i));
    }
}

proof fn lemma_push_unfold(ns: Seq<Node>, i: int)
    requires
        0 <= i < ns.len(),
    ensures
        views_of(ns.subrange(0, i + 1)).subrange(0, i) == views_of(ns.subrange(0, i)),
        views_of(ns.subrange(0, i + 1)).len() == i + 1,
        views_of(ns.subrange(0, i + 1))[i] == ns[i]@,
{
    assert(ns.subrange(0, i + 1) =~= ns.subrange(0, i).push(ns[i]));
    lemma_views_of_push(ns.subrange(0, i), ns[i]);
    lemma_views_of(ns.subrange(0, i));
    let v = views_of(ns.subrange(0, i));
    assert(v.push(ns[i]@).subrange(0, i) =~= v);
}

/// An expression to evaluate, with the bindings it sees.
pub struct Request {
    pub expression: String,
    pub bindings: Bindings,
}

impl View for Request {
    type V = RequestView;

    open spec fn view(&self) -> RequestView {
        (self.expression@, self.bindings@)
    }
}

pub open spec fn requests_view(s: Seq<Request>) -> Seq<RequestView> {
    s.map_values(|r: Request| r@)
}

fn collect(n: &Node, b: &Bindings, reg: &Registry, fuel: usize, out: &mut Vec<Request>) -> (ok: bool)
    ensures
        ok == requests_of(n@, b@, reg@, fuel as nat) is Some,
        ok ==> requests_view(final(out)@) == requests_view(old(out)@) + requests_of(n@, b@, reg@, fuel as nat)->Some_0,
    decreases fuel, n, 0nat,
{
    match n {
        Node::Text(t) => {
            let es = expressions(t.as_str());
            let ghost start = requests_view(out@);
            let mut i: usize = 0;
            while i < es.len()
                invariant
                    i <= es@.len(),
                    strings_view(es@) == expressions_of(t@),
                    requests_view(out@) =~= start + text_requests(t@, b@).subrange(0, i as int),
                decreases es@.len() - i,
            {
                let e = es[i].clone();
                let scope = b.duplicate();
                proof {
                    assert(strings_view(es@)[i as int] == es@[i as int]@);
                    assert(e@ == expressions_of(t@)[i as int]);
                    assert(text_requests(t@, b@)[i as int] == (e@, scope@));
                }
                let ghost before = out@;
                out.push(Request { expression: e, bindings: scope });
                assert(requests_view(out@) =~= requests_view(before).push((e@, scope@)));
                i = i + 1;
                assert(requests_view(out@) =~= start + text_requests(t@, b@).subrange(0, i as int));
            }
            assert(text_requests(t@, b@).subrange(0, i as int) =~= text_requests(t@, b@));
            true
        },
        Node::Element { name, attributes, children } => {
            proof {
                assert(decreases_to!(*n => n->children));
            }
            collect_all(children, b, reg, fuel, out)
        },
        Node::Other(_) => {
            assert(requests_view(out@) =~= requests_view(out@) + Seq::<RequestView>::empty());
            true
        },
    }
}

fn collect_child(n: &Node, b: &Bindings, reg: &Registry, fuel: usize, out: &mut Vec<Request>) -> (ok: bool)
    ensures
        ok == requests_of_child(n@, b@, reg@, fuel as nat) is Some,
        ok ==> requests_view(final(out)@) == requests_view(old(out)@) + requests_of_child(n@, b@, reg@, fuel as nat)->Some_0,
    decreases fuel, n, 1nat,
{
    if let Node::Element { name, attributes, children } = n {
        if let Some(body) = reg.get(name) {
            if fuel == 0 {
                return false;
            }
            let scope = Bindings::from_attributes(attributes);
            return collect_all(body, &scope, reg, fuel - 1, out);
        }
    }
    collect(n, b, reg, fuel, out)
}

fn collect_all(ns: &Vec<Node>, b: &Bindings, reg: &Registry, fuel: usize, out: &mut Vec<Request>) -> (ok: bool)
    ensures
        ok == requests_of_all(views_of(ns@), b@, reg@, fuel as nat) is Some,
        ok ==> requests_view(final(out)@) == requests_view(old(out)@) + requests_of_all(views_of(ns@), b@, reg@, fuel as nat)->Some_0,
    decreases fuel, ns, 0nat,
{
    let ghost start = requests_view(out@);
    let mut i: usize = 0;
    assert(views_of(ns@.subrange(0, 0)) =~= Seq::<NodeView>::empty());
    assert(start =~= start + Seq::<RequestView>::empty());
    while i < ns.len()
        invariant
            i <= ns@.len(),
            requests_of_all(views_of(ns@.subrange(0, i as int)), b@, reg@, fuel as nat) is Some,
            requests_view(out@) == start + requests_of_all(views_of(ns@.subrange(0, i as int)), b@, reg@, fuel as nat)->Some_0,
        decreases ns@.len() - i,
    {
        proof {
            lemma_push_unfold(ns@, i as int);
            assert(decreases_to!(*ns => ns@));
        }
        let ghost mid = requests_view(out@);
        let ok = collect_child(&ns[i], b, reg, fuel, out);
        if !ok {
            proof {
                lemma_views_of(ns@);
                lemma_push_unfold(ns@, i as int);
                assert(views_of(ns@).subrange(0, i + 1) =~= views_of(ns@.subrange(0, i + 1))) by {
                    lemma_views_of(ns@.subrange(0, i + 1));
                }
                lemma_requests_prefix(views_of(ns@), b@, reg@, fuel as nat, i + 1);
            }
            return false;
        }
        i = i + 1;
        assert(requests_view(out@) =~= start + requests_of_all(views_of(ns@.subrange(0, i as int)), b@, reg@, fuel as nat)->Some_0);
    }
    assert(ns@.subrange(0, i as int) =~= ns@);
    true
}


fn copy_attributes(attrs: &Vec<(String, Option<String>)>) -> (r: Vec<(String, Option<String>)>)
    ensures
        attrs_view(r@) == attrs_view(attrs@),
{
    let mut r: Vec<(String, Option<String>)> = Vec::new();
    let mut i: usize = 0;
    while i < attrs.len()
        invariant
            i <= attrs@.len(),
            attrs_view(r@) =~= attrs_view(attrs@.subrange(0, i as int)),
        decreases attrs@.len() - i,
    {
        let value = match &attrs[i].1 {
            Some(v) => Some(v.clone()),
            None => None,
        };
        let key = attrs[i].0.clone();
        assert(attr_view((key, value)) == attr_view(attrs@[i as int]));
        let ghost before = r@;
        r.push((key, value));
        assert(attrs_view(r@) =~= attrs_view(before).push(attr_view(attrs@[i as int])));
        assert(attrs@.subrange(0, i + 1) =~= attrs@.subrange(0, i as int).push(attrs@[i as int]));
        i = i + 1;
        assert(attrs_view(r@) =~= attrs_view(attrs@.subrange(0, i as int)));
    }
    assert(attrs@.subrange(0, i as int) =~= attrs@);
    r
}

fn fill_node(n: &Node, b: &Bindings, reg: &Registry, fuel: usize, ans: &Vec<String>, pos: usize) -> (r: (Node, usize))
    requires
        requests_of(n@, b@, reg@, fuel as nat) is Some,
        pos + count(requests_of(n@, b@, reg@, fuel as nat)) <= ans@.len(),
    ensures
        r.0@ == expand(n@, b@, reg@, fuel as nat,
            strings_view(ans@).subrange(pos as int, pos + count(requests_of(n@, b@, reg@, fuel as nat)))),
        r.1 == pos + count(requests_of(n@, b@, reg@, fuel as nat)),
    decreases fuel, n, 0nat,
{
    match n {
        Node::Text(t) => {
            let es = expressions(t.as_str());
            let used = es.len();
            assert(strings_view(es@).len() == es@.len());
            assert(text_requests(t@, b@).len() == expressions_of(t@).len());
            let room = ans.len() - pos;
            assert(used <= room);
            (Node::Text(fill_text(t.as_str(), ans, pos)), pos + used)
        },
        Node::Element { name, attributes, children } => {
            proof {
                assert(decreases_to!(*n => n->children));
            }
            let mut out: Vec<Node> = Vec::new();
            let next = fill_all(children, b, reg, fuel, ans, pos, &mut out);
            assert(views_of(Seq::<Node>::empty()) =~= Seq::<NodeView>::empty());
            assert(views_of(out@) =~= Seq::<NodeView>::empty() + views_of(out@));
            (Node::Element { name: name.clone(), attributes: copy_attributes(attributes), children: out }, next)
        },
        Node::Other(s) => (Node::Other(s.clone()), pos),
    }
}

fn fill_child(n: &Node, b: &Bindings, reg: &Registry, fuel: usize, ans: &Vec<String>, pos: usize, out: &mut Vec<Node>) -> (next: usize)
    requires
        requests_of_child(n@, b@, reg@, fuel as nat) is Some,
        pos + count(requests_of_child(n@, b@, reg@, fuel as nat)) <= ans@.len(),
    ensures
        views_of(final(out)@) == views_of(old(out)@) + expand_child(n@, b@, reg@, fuel as nat,
            strings_view(ans@).subrange(pos as int, pos + count(requests_of_child(n@, b@, reg@, fuel as nat)))),
        next == pos + count(requests_of_child(n@, b@, reg@, fuel as nat)),
    decreases fuel, n, 1nat,
{
    if let Node::Element { name, attributes, children } = n {
        if let Some(body) = reg.get(name) {
            let scope = Bindings::from_attributes(attributes);
            return fill_all(body, &scope, reg, fuel - 1, ans, pos, out);
        }
    }
    let (r, next) = fill_node(n, b, reg, fuel, ans, pos);
    let ghost before = out@;
    out.push(r);
    proof {
        lemma_views_of_push(before, r);
        assert(views_of(before).push(r@) =~= views_of(before) + seq![r@]);
    }
    next
}

fn fill_all(ns: &Vec<Node>, b: &Bindings, reg: &Registry, fuel: usize, ans: &Vec<String>, pos: usize, out: &mut Vec<Node>) -> (next: usize)
    requires
        requests_of_all(views_of(ns@), b@, reg@, fuel as nat) is Some,
        pos + count(requests_of_all(views_of(ns@), b@, reg@, fuel as nat)) <= ans@.len(),
    ensures
        views_of(final(out)@) == views_of(old(out)@) + expand_all(views_of(ns@), b@, reg@, fuel as nat,
            strings_view(ans@).subrange(pos as int, pos + count(requests_of_all(views_of(ns@), b@, reg@, fuel as nat)))),
        next == pos + count(requests_of_all(views_of(ns@), b@, reg@, fuel as nat)),
    decreases fuel, ns, 0nat,
{
    let ghost start = views_of(out@);
    let ghost a = strings_view(ans@);
    let ghost total = count(requests_of_all(views_of(ns@), b@, reg@, fuel as nat));
    let mut i: usize = 0;
    let mut p: usize = pos;
    assert(views_of(ns@.subrange(0, 0)) =~= Seq::<NodeView>::empty());
    assert(start =~= start + Seq::<NodeView>::empty());
    proof {
        lemma_views_of(ns@);
    }
    while i < ns.len()
        invariant
            i <= ns@.len(),
            a == strings_view(ans@),
            total == count(requests_of_all(views_of(ns@), b@, reg@, fuel as nat)),
            requests_of_all(views_of(ns@), b@, reg@, fuel as nat) is Some,
            pos + total <= ans@.len(),
            requests_of_all(views_of(ns@.subrange(0, i as int)), b@, reg@, fuel as nat) is Some,
            p == pos + count(requests_of_all(views_of(ns@.subrange(0, i as int)), b@, reg@, fuel as nat)),
            p <= pos + total,
            views_of(out@) == start + expand_all(views_of(ns@.subrange(0, i as int)), b@, reg@, fuel as nat,
                a.subrange(pos as int, p as int)),
        decreases ns@.len() - i,
    {
        let ghost q = p;
        proof {
            lemma_push_unfold(ns@, i as int);
            lemma_views_of(ns@);
            lemma_views_of(ns@.subrange(0, i + 1));
            assert(views_of(ns@).subrange(0, i + 1) =~= views_of(ns@.subrange(0, i + 1)));
            lemma_requests_prefix(views_of(ns@), b@, reg@, fuel as nat, i + 1);
            assert(decreases_to!(*ns => ns@));
        }
        p = fill_child(&ns[i], b, reg, fuel, ans, p, out);
        i = i + 1;
        proof {
            let whole = a.subrange(pos as int, p as int);
            assert(whole.subrange(0, q - pos) =~= a.subrange(pos as int, q as int));
            assert(whole.subrange(q - pos, whole.len() as int) =~= a.subrange(q as int, p as int));
            assert(views_of(out@) =~= start + expand_all(views_of(ns@.subrange(0, i as int)), b@, reg@, fuel as nat,
                a.subrange(pos as int, p as int)));
        }
    }
    assert(ns@.subrange(0, i as int) =~= ns@);
    p
}

/// The evaluations that substituting into `node` asks for, in document order, each
/// with the bindings it sees.
pub fn requests(node: &Node, bindings: &Bindings, registry: &Registry, limit: usize) -> (r: Result<Vec<Request>, EngineError>)
    ensures
        match requests_of(node@, bindings@, registry@, limit as nat) {
            Some(q) => r is Ok && requests_view(r->Ok_0@) == q,
            None => r == Err::<Vec<Request>, EngineError>(EngineError::RecursionLimitExceeded),
        },
{
    let mut out: Vec<Request> = Vec::new();
    let ok = collect(node, bindings, registry, limit, &mut out);
    if ok {
        assert(requests_view(out@) =~= Seq::<RequestView>::empty() + requests_of(node@, bindings@, registry@, limit as nat)->Some_0);
        Ok(out)
    } else {
        Err(EngineError::RecursionLimitExceeded)
    }
}

/// `node` with every expression replaced by its answer and every component reference
/// among its descendants inlined, `answers` holding one answer for each of
/// [`requests`], in that order.
pub fn substitute(node: &Node, bindings: &Bindings, registry: &Registry, limit: usize, answers: &Vec<String>) -> (r: Result<Node, EngineError>)
    ensures
        match requests_of(node@, bindings@, registry@, limit as nat) {
            Some(q) => if answers@.len() == q.len() {
                r is Ok && r->Ok_0@ == expand(node@, bindings@, registry@, limit as nat, strings_view(answers@))
            } else {
                r == Err::<Node, EngineError>(EngineError::AnswerCountMismatch)
            },
            None => r == Err::<Node, EngineError>(EngineError::RecursionLimitExceeded),
        },
{
    let asked = requests(node, bindings, registry, limit);
    match asked {
        Err(e) => Err(e),
        Ok(q) => {
            if q.len() != answers.len() {
                return Err(EngineError::AnswerCountMismatch);
            }
            proof {
                assert(q@.len() == requests_view(q@).len());
                assert(strings_view(answers@).subrange(0, answers@.len() as int) =~= strings_view(answers@));
            }
            Ok(fill_node(node, bindings, registry, limit, answers, 0).0)
        },
    }
}

} // verus!
