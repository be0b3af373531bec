//! The component registry: component name to body.
use vstd::prelude::*;
use crate::node::{Node, NodeView, views_of};
use crate::scope::{last_wins, lemma_last_wins_at, lemma_last_wins_untouched};

verus! {

pub open spec fn entry_view(e: (String, Vec<Node>)) -> (Seq<char>, Seq<NodeView>) {
    (e.0@, views_of(e.1@))
}

/// Named component bodies; a later registration under a name replaces an earlier one.
pub struct Registry {
    entries: Vec<(String, Vec<Node>)>,
}

impl View for Registry {
    type V = Map<Seq<char>, Seq<NodeView>>;

    closed spec fn view(&self) -> Map<Seq<char>, Seq<NodeView>> {
        last_wins(self.entries@.map_values(|e: (String, Vec<Node>)| entry_view(e)))
    }
}

impl Registry {
    pub fn new() -> (r: Registry)
        ensures
            r@ == Map::<Seq<char>, Seq<NodeView>>::empty(),
    {
        Registry { entries: Vec::new() }
    }

    /// Registers `body` under `name`, replacing what `name` had.
    pub fn insert(&mut self, name: String, body: Vec<Node>)
        ensures
            final(self)@ == old(self)@.insert(name@, views_of(body@)),
    {
        let ghost before = self.entries@;
        self.entries.push((name, body));
        assert(self.entries@.map_values(|e: (String, Vec<Node>)| entry_view(e)).drop_last()
            =~= before.map_values(|e: (String, Vec<Node>)| entry_view(e)));
    }

    /// The body registered under `name`, if any.
    pub fn get(&self, name: &String) -> (r: Option<&Vec<Node>>)
        ensures
            match r {
                Some(body) => self@.contains_key(name@) && self@[name@] == views_of(body@),
                None => !self@.contains_key(name@),
            },
    {
        let ghost s = self.entries@.map_values(|e: (String, Vec<Node>)| entry_view(e));
        let mut i: usize = self.entries.len();
        while i > 0
            invariant
                i <= self.entries@.len(),
                s == self.entries@.map_values(|e: (String, Vec<Node>)| entry_view(e)),
                forall|j: int| i <= j < s.len() ==> s[j].0 != name@,
            decreases i,
        {
            if self.entries[i - 1].0 == *name {
                proof {
                    lemma_last_wins_at(s, i - 1, name@);
                }
                return Some(&self.entries[i - 1].1);
            }
            i = i - 1;
        }
        proof {
            lemma_last_wins_untouched(s, 0, name@);
        }
        None
    }
}

} // verus!
