//! Properties of expansion that hold for every input.
use vstd::prelude::*;
use crate::engine::{
    RegistryView, RequestView, count, expand, expand_all, expand_child, is_reference, join,
    requests_of, requests_of_all, requests_of_child,
};
use crate::expr::{expressions_of, lemma_fill_plain};
use crate::node::NodeView;
use crate::scope::attribute_bindings;

verus! {

/// Text without an expression span asks for no evaluation and comes out unchanged,
/// whatever the bindings, the registry and the answers.
pub proof fn lemma_plain_text_unchanged(
    t: Seq<char>,
    b: Map<Seq<char>, Seq<char>>,
    reg: RegistryView,
    fuel: nat,
    ans: Seq<Seq<char>>,
)
    requires
        expressions_of(t).len() == 0,
    ensures
        requests_of(NodeView::Text(t), b, reg, fuel) == Some(Seq::<RequestView>::empty()),
        expand(NodeView::Text(t), b, reg, fuel, ans) == NodeView::Text(t),
{
    lemma_fill_plain(t, ans);
    assert(expressions_of(t).map_values(|e: Seq<char>| (e, b)) =~= Seq::<RequestView>::empty());
}

/// A component reference sees only the bindings of its own attributes: what it asks
/// for and what it becomes do not depend on the bindings around it, and it becomes
/// the component's body expanded under those attribute bindings.
pub proof fn lemma_reference_scope(
    n: NodeView,
    b1: Map<Seq<char>, Seq<char>>,
    b2: Map<Seq<char>, Seq<char>>,
    reg: RegistryView,
    fuel: nat,
    ans: Seq<Seq<char>>,
)
    requires
        is_reference(n, reg),
        fuel > 0,
    ensures
        requests_of_child(n, b1, reg, fuel) == requests_of_child(n, b2, reg, fuel),
        expand_child(n, b1, reg, fuel, ans) == expand_child(n, b2, reg, fuel, ans),
        requests_of_child(n, b1, reg, fuel) == requests_of_all(
            reg[n->name],
            attribute_bindings(n->attributes),
            reg,
            (fuel - 1) as nat,
        ),
        expand_child(n, b1, reg, fuel, ans) == expand_all(
            reg[n->name],
            attribute_bindings(n->attributes),
            reg,
            (fuel - 1) as nat,
            ans,
        ),
{
}

/// An element whose tag names no component stays in place, with its name and
/// attributes, around its expanded children, under the same bindings.
pub proof fn lemma_unknown_tag_kept(
    n: NodeView,
    b: Map<Seq<char>, Seq<char>>,
    reg: RegistryView,
    fuel: nat,
    ans: Seq<Seq<char>>,
)
    requires
        n is Element,
        !reg.contains_key(n->name),
    ensures
        requests_of_child(n, b, reg, fuel) == requests_of_all(n->children, b, reg, fuel),
        expand_child(n, b, reg, fuel, ans) == seq![
            NodeView::Element {
                name: n->name,
                attributes: n->attributes,
                children: expand_all(n->children, b, reg, fuel, ans),
            },
        ],
{
}

/// What siblings ask for is what each asks for, in order.
pub proof fn lemma_requests_append(
    s: Seq<NodeView>,
    t: Seq<NodeView>,
    b: Map<Seq<char>, Seq<char>>,
    reg: RegistryView,
    fuel: nat,
)
    ensures
        requests_of_all(s + t, b, reg, fuel) == join(requests_of_all(s, b, reg, fuel), requests_of_all(t, b, reg, fuel)),
    decreases t.len(),
{
    if t.len() == 0 {
        assert(s + t =~= s);
        match requests_of_all(s, b, reg, fuel) {
            Some(x) => assert(x + Seq::<RequestView>::empty() =~= x),
            None => {},
        }
    } else {
        let init = t.subrange(0, t.len() - 1);
        lemma_requests_append(s, init, b, reg, fuel);
        assert((s + t).subrange(0, (s + t).len() - 1) =~= s + init);
        assert((s + t)[(s + t).len() - 1] == t[t.len() - 1]);
        match (requests_of_all(s, b, reg, fuel), requests_of_all(init, b, reg, fuel), requests_of_child(t[t.len() - 1], b, reg, fuel)) {
            (Some(x), Some(y), Some(z)) => assert(x + y + z =~= x + (y + z)),
            _ => {},
        }
    }
}

/// Siblings expand one after the other, each with its own share of the answers.
pub proof fn lemma_expand_append(
    s: Seq<NodeView>,
    t: Seq<NodeView>,
    b: Map<Seq<char>, Seq<char>>,
    reg: RegistryView,
    fuel: nat,
    ans: Seq<Seq<char>>,
)
    requires
        requests_of_all(s + t, b, reg, fuel) is Some,
        ans.len() == count(requests_of_all(s + t, b, reg, fuel)),
    ensures
        ({
            let k = count(requests_of_all(s, b, reg, fuel));
            expand_all(s + t, b, reg, fuel, ans) == expand_all(s, b, reg, fuel, ans.subrange(0, k))
                + expand_all(t, b, reg, fuel, ans.subrange(k, ans.len() as int))
        }),
    decreases t.len(),
{
    lemma_requests_append(s, t, b, reg, fuel);
    let k = count(requests_of_all(s, b, reg, fuel));
    if t.len() == 0 {
        assert(s + t =~= s);
        assert(ans.subrange(0, k) =~= ans);
        assert(expand_all(s, b, reg, fuel, ans) + Seq::<NodeView>::empty() =~= expand_all(s, b, reg, fuel, ans));
    } else {
        let init = t.subrange(0, t.len() - 1);
        let x = t[t.len() - 1];
        lemma_requests_append(s, init, b, reg, fuel);
        assert((s + t).subrange(0, (s + t).len() - 1) =~= s + init);
        assert((s + t)[(s + t).len() - 1] == x);
        let c1 = count(requests_of_all(s + init, b, reg, fuel));
        let ci = count(requests_of_all(init, b, reg, fuel));
        let front = ans.subrange(0, c1);
        lemma_expand_append(s, init, b, reg, fuel, front);
        let back = ans.subrange(k, ans.len() as int);
        assert(front.subrange(0, k) =~= ans.subrange(0, k));
        assert(front.subrange(k, front.len() as int) =~= back.subrange(0, ci));
        assert(ans.subrange(c1, ans.len() as int) =~= back.subrange(ci, back.len() as int));
        let e_s = expand_all(s, b, reg, fuel, ans.subrange(0, k));
        let e_i = expand_all(init, b, reg, fuel, back.subrange(0, ci));
        let e_x = expand_child(x, b, reg, fuel, back.subrange(ci, back.len() as int));
        assert(e_s + e_i + e_x =~= e_s + (e_i + e_x));
    }
}

/// A component reference among siblings is replaced, at its place, by the nodes of
/// its expanded body; the siblings before and after keep their order.
pub proof fn lemma_reference_flattened(
    before: Seq<NodeView>,
    n: NodeView,
    after: Seq<NodeView>,
    b: Map<Seq<char>, Seq<char>>,
    reg: RegistryView,
    fuel: nat,
    ans: Seq<Seq<char>>,
)
    requires
        is_reference(n, reg),
        fuel > 0,
        requests_of_all(before + seq![n] + after, b, reg, fuel) is Some,
        ans.len() == count(requests_of_all(before + seq![n] + after, b, reg, fuel)),
    ensures
        ({
            let i = count(requests_of_all(before, b, reg, fuel));
            let j = i + count(requests_of_child(n, b, reg, fuel));
            expand_all(before + seq![n] + after, b, reg, fuel, ans) == expand_all(before, b, reg, fuel, ans.subrange(0, i))
                + expand_all(reg[n->name], attribute_bindings(n->attributes), reg, (fuel - 1) as nat, ans.subrange(i, j))
                + expand_all(after, b, reg, fuel, ans.subrange(j, ans.len() as int))
        }),
{
    let s = before + seq![n];
    lemma_requests_append(s, after, b, reg, fuel);
    lemma_requests_append(before, seq![n], b, reg, fuel);
    lemma_expand_append(s, after, b, reg, fuel, ans);
    let c = count(requests_of_all(s, b, reg, fuel));
    let front = ans.subrange(0, c);
    lemma_expand_append(before, seq![n], b, reg, fuel, front);
    let i = count(requests_of_all(before, b, reg, fuel));
    let rest = front.subrange(i, front.len() as int);
    lemma_single(n, b, reg, fuel, rest);
    assert(front.subrange(0, i) =~= ans.subrange(0, i));
    let j = i + count(requests_of_child(n, b, reg, fuel));
    assert(rest =~= ans.subrange(i, j));
}

/// A lone node among siblings asks for and becomes what it does as a child.
pub proof fn lemma_single(
    n: NodeView,
    b: Map<Seq<char>, Seq<char>>,
    reg: RegistryView,
    fuel: nat,
    ans: Seq<Seq<char>>,
)
    ensures
        requests_of_all(seq![n], b, reg, fuel) == requests_of_child(n, b, reg, fuel),
        expand_all(seq![n], b, reg, fuel, ans) == expand_child(n, b, reg, fuel, ans),
{
    let one = seq![n];
    assert(one.subrange(0, one.len() - 1) =~= Seq::<NodeView>::empty());
    assert(requests_of_all(Seq::<NodeView>::empty(), b, reg, fuel) == Some(Seq::<RequestView>::empty()));
    match requests_of_child(n, b, reg, fuel) {
        Some(x) => assert(Seq::<RequestView>::empty() + x =~= x),
        None => {},
    }
    assert(ans.subrange(0, 0) =~= Seq::<Seq<char>>::empty());
    assert(ans.subrange(0, ans.len() as int) =~= ans);
    assert(expand_all(Seq::<NodeView>::empty(), b, reg, fuel, ans.subrange(0, 0)) == Seq::<NodeView>::empty());
    assert(expand_all(one, b, reg, fuel, ans) =~= expand_child(n, b, reg, fuel, ans));
}

/// Two sibling component references each expand under the bindings of their own
/// attributes, with their own answers, and nothing of one reaches the other.
pub proof fn lemma_sibling_references(
    x: NodeView,
    y: NodeView,
    b: Map<Seq<char>, Seq<char>>,
    reg: RegistryView,
    fuel: nat,
    ans: Seq<Seq<char>>,
)
    requires
        is_reference(x, reg),
        is_reference(y, reg),
        fuel > 0,
        requests_of_all(seq![x, y], b, reg, fuel) is Some,
        ans.len() == count(requests_of_all(seq![x, y], b, reg, fuel)),
    ensures
        requests_of_all(seq![x, y], b, reg, fuel) == join(
            requests_of_all(reg[x->name], attribute_bindings(x->attributes), reg, (fuel - 1) as nat),
            requests_of_all(reg[y->name], attribute_bindings(y->attributes), reg, (fuel - 1) as nat),
        ),
        ({
            let k = count(requests_of_all(reg[x->name], attribute_bindings(x->attributes), reg, (fuel - 1) as nat));
            expand_all(seq![x, y], b, reg, fuel, ans)
                == expand_all(reg[x->name], attribute_bindings(x->attributes), reg, (fuel - 1) as nat, ans.subrange(0, k))
                + expand_all(reg[y->name], attribute_bindings(y->attributes), reg, (fuel - 1) as nat,
                    ans.subrange(k, ans.len() as int))
        }),
{
    assert(seq![x] + seq![y] =~= seq![x, y]);
    lemma_requests_append(seq![x], seq![y], b, reg, fuel);
    lemma_expand_append(seq![x], seq![y], b, reg, fuel, ans);
    let k = count(requests_of_all(seq![x], b, reg, fuel));
    lemma_single(x, b, reg, fuel, ans.subrange(0, k));
    lemma_single(y, b, reg, fuel, ans.subrange(k, ans.len() as int));
}

/// Siblings none of which refers to a component expand to as many nodes.
pub proof fn lemma_plain_siblings_count(
    ns: Seq<NodeView>,
    b: Map<Seq<char>, Seq<char>>,
    reg: RegistryView,
    fuel: nat,
    ans: Seq<Seq<char>>,
)
    requires
        forall|i: int| 0 <= i < ns.len() ==> !is_reference(#[trigger] ns[i], reg),
    ensures
        expand_all(ns, b, reg, fuel, ans).len() == ns.len(),
    decreases ns.len(),
{
    if ns.len() > 0 {
        let init = ns.subrange(0, ns.len() - 1);
        let k = count(requests_of_all(init, b, reg, fuel));
        assert forall|i: int| 0 <= i < init.len() implies !is_reference(#[trigger] init[i], reg) by {
            assert(init[i] == ns[i]);
        }
        lemma_plain_siblings_count(init, b, reg, fuel, ans.subrange(0, k));
        let x = ns[ns.len() - 1];
        assert(!is_reference(x, reg));
        let tail = ans.subrange(k, ans.len() as int);
        assert(expand_child(x, b, reg, fuel, tail) == seq![expand(x, b, reg, fuel, tail)]);
        assert(expand_all(ns, b, reg, fuel, ans) == expand_all(init, b, reg, fuel, ans.subrange(0, k))
            + expand_child(x, b, reg, fuel, tail));
    }
}

} // verus!
