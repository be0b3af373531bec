//! Name-to-value mappings built from ordered assignments, the last one winning.
use vstd::prelude::*;

verus! {

/// The mapping that the assignments `s` leave, a later one overwriting an earlier one.
pub open spec fn last_wins<V>(s: Seq<(Seq<char>, V)>) -> Map<Seq<char>, V>
    decreases s.len(),
{
    if s.len() == 0 {
        Map::empty()
    } else {
        last_wins(s.drop_last()).insert(s.last().0, s.last().1)
    }
}

/// Assignments from `i` on leave `k` as the first `i` left it, when none of them names `k`.
pub proof fn lemma_last_wins_untouched<V>(s: Seq<(Seq<char>, V)>, i: int, k: Seq<char>)
    requires
        0 <= i <= s.len(),
        forall|j: int| i <= j < s.len() ==> s[j].0 != k,
    ensures
        last_wins(s).contains_key(k) == last_wins(s.subrange(0, i)).contains_key(k),
        last_wins(s).contains_key(k) ==> last_wins(s)[k] == last_wins(s.subrange(0, i))[k],
    decreases s.len(),
{
    if s.len() > i {
        lemma_last_wins_untouched(s.drop_last(), i, k);
        assert(s.drop_last().subrange(0, i) =~= s.subrange(0, i));
    } else {
        assert(s.subrange(0, i) =~= s);
    }
}

/// The last assignment to `k` decides its value.
pub proof fn lemma_last_wins_at<V>(s: Seq<(Seq<char>, V)>, i: int, k: Seq<char>)
    requires
        0 <= i < s.len(),
        s[i].0 == k,
        forall|j: int| i < j < s.len() ==> s[j].0 != k,
    ensures
        last_wins(s).contains_key(k),
        last_wins(s)[k] == s[i].1,
{
    lemma_last_wins_untouched(s, i + 1, k);
    assert(s.subrange(0, i + 1).drop_last() =~= s.subrange(0, i));
}

/// The bindings that attributes give: each attribute with a value, the last one of a name winning.
pub open spec fn attribute_bindings(attrs: Seq<(Seq<char>, Option<Seq<char>>)>) -> Map<Seq<char>, Seq<char>>
    decreases attrs.len(),
{
    if attrs.len() == 0 {
        Map::empty()
    } else {
        let m = attribute_bindings(attrs.drop_last());
        match attrs.last().1 {
            Some(v) => m.insert(attrs.last().0, v),
            None => m,
        }
    }
}

pub open spec fn pair_view(e: (String, String)) -> (Seq<char>, Seq<char>) {
    (e.0@, e.1@)
}

pub open spec fn attr_view(a: (String, Option<String>)) -> (Seq<char>, Option<Seq<char>>) {
    (
        a.0@,
        match a.1 {
            Some(v) => Some(v@),
            None => None,
        },
    )
}

/// A mapping from variable name to value, visible to the expressions of one expansion.
pub struct Bindings {
    entries: Vec<(String, String)>,
}

impl View for Bindings {
    type V = Map<Seq<char>, Seq<char>>;

    closed spec fn view(&self) -> Map<Seq<char>, Seq<char>> {
        last_wins(self.entries@.map_values(|e: (String, String)| pair_view(e)))
    }
}

impl Bindings {
    pub fn new() -> (r: Bindings)
        ensures
            r@ == Map::<Seq<char>, Seq<char>>::empty(),
    {
        Bindings { entries: Vec::new() }
    }

    /// Binds `name` to `value`, replacing what `name` had.
    pub fn set(&mut self, name: String, value: String)
        ensures
            final(self)@ == old(self)@.insert(name@, value@),
    {
        let ghost before = self.entries@;
        self.entries.push((name, value));
        assert(self.entries@.map_values(|e: (String, String)| pair_view(e)).drop_last()
            =~= before.map_values(|e: (String, String)| pair_view(e)));
    }

    /// The bindings of a component reference: each attribute that has a value.
    pub fn from_attributes(attrs: &Vec<(String, Option<String>)>) -> (r: Bindings)
        ensures
            r@ == attribute_bindings(attrs@.map_values(|a: (String, Option<String>)| attr_view(a))),
    {
        let mut r = Bindings::new();
        let mut i: usize = 0;
        while i < attrs.len()
            invariant
                i <= attrs@.len(),
                r@ == attribute_bindings(
                    attrs@.subrange(0, i as int).map_values(|a: (String, Option<String>)| attr_view(a)),
                ),
            decreases attrs@.len() - i,
        {
            let ghost prefix = attrs@.subrange(0, i as int).map_values(
                |a: (String, Option<String>)| attr_view(a),
            );
            let ghost next = attrs@.subrange(0, i + 1).map_values(
                |a: (String, Option<String>)| attr_view(a),
            );
            assert(next.drop_last() =~= prefix);
            match &attrs[i].1 {
                Some(v) => r.set(attrs[i].0.clone(), v.clone()),
                None => {},
            }
            i = i + 1;
        }
        assert(attrs@.subrange(0, attrs@.len() as int) =~= attrs@);
        r
    }

    /// The value bound to `name`, if any.
    pub fn get(&self, name: &String) -> (r: Option<&String>)
        ensures
            match r {
                Some(v) => self@.contains_key(name@) && self@[name@] == v@,
                None => !self@.contains_key(name@),
            },
    {
        let ghost s = self.entries@.map_values(|e: (String, String)| pair_view(e));
        let mut i: usize = self.entries.len();
        while i > 0
            invariant
                i <= self.entries@.len(),
                s == self.entries@.map_values(|e: (String, String)| pair_view(e)),
                forall|j: int| i <= j < s.len() ==> s[j].0 != name@,
            decreases i,
        {
            if self.entries[i - 1].0 == *name {
                proof {
                    lemma_last_wins_at(s, i - 1, name@);
                }
                return Some(&self.entries[i - 1].1);
            }
            i = i - 1;
        }
        proof {
            lemma_last_wins_untouched(s, 0, name@);
        }
        None
    }

    /// The same bindings, held anew.
    pub fn duplicate(&self) -> (r: Bindings)
        ensures
            r@ == self@,
    {
        let mut entries: Vec<(String, String)> = Vec::new();
        let mut i: usize = 0;
        while i < self.entries.len()
            invariant
                i <= self.entries@.len(),
                entries@.len() == i,
                forall|j: int| 0 <= j < i ==> pair_view(#[trigger] entries@[j]) == pair_view(self.entries@[j]),
            decreases self.entries@.len() - i,
        {
            entries.push((self.entries[i].0.clone(), self.entries[i].1.clone()));
            i = i + 1;
        }
        assert(entries@.map_values(|e: (String, String)| pair_view(e))
            =~= self.entries@.map_values(|e: (String, String)| pair_view(e)));
        Bindings { entries }
    }

    /// The assignments in the order they were made; replayed in order, they give these bindings.
    pub fn assignments(&self) -> (r: &Vec<(String, String)>)
        ensures
            last_wins(r@.map_values(|e: (String, String)| pair_view(e))) == self@,
    {
        &self.entries
    }
}

} // verus!
