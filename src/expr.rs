//! Expression spans inside text: `{`, the shortest run of characters, `}`.
use vstd::prelude::*;

verus! {

/// Index of the first `c` in `t`, or -1 when `t` holds none.
pub open spec fn index_of(t: Seq<char>, c: char) -> int
    decreases t.len(),
{
    if t.len() == 0 {
        -1
    } else if t[0] == c {
        0
    } else {
        let r = index_of(t.subrange(1, t.len() as int), c);
        if r < 0 {
            -1
        } else {
            r + 1
        }
    }
}

pub proof fn lemma_index_of(t: Seq<char>, c: char)
    ensures
        -1 <= index_of(t, c) < t.len(),
        index_of(t, c) >= 0 ==> t[index_of(t, c)] == c,
        forall|k: int| 0 <= k < t.len() && (index_of(t, c) < 0 || k < index_of(t, c)) ==> t[k] != c,
    decreases t.len(),
{
    if t.len() > 0 && t[0] != c {
        let u = t.subrange(1, t.len() as int);
        lemma_index_of(u, c);
        assert forall|k: int| 0 <= k < t.len() && (index_of(t, c) < 0 || k < index_of(t, c)) implies t[k] != c by {
            if k > 0 {
                assert(t[k] == u[k - 1]);
            }
        }
    }
}

/// What lies after the first `{` of `t` and then after the `}` that closes it.
pub open spec fn after_span(t: Seq<char>) -> Seq<char> {
    let rest = t.subrange(index_of(t, '{') + 1, t.len() as int);
    rest.subrange(index_of(rest, '}') + 1, rest.len() as int)
}

/// Whether `t` holds a `{` with a `}` somewhere after it.
pub open spec fn has_span(t: Seq<char>) -> bool {
    index_of(t, '{') >= 0 && index_of(t.subrange(index_of(t, '{') + 1, t.len() as int), '}') >= 0
}

/// The inner text of each expression span of `t`, left to right.
pub open spec fn expressions_of(t: Seq<char>) -> Seq<Seq<char>>
    decreases t.len(),
{
    if has_span(t) {
        let rest = t.subrange(index_of(t, '{') + 1, t.len() as int);
        proof {
            lemma_span_shrinks(t);
        }
        seq![rest.subrange(0, index_of(rest, '}'))] + expressions_of(after_span(t))
    } else {
        Seq::empty()
    }
}

/// `t` with its expression spans, braces included, replaced by `answers` in order.
pub open spec fn fill(t: Seq<char>, answers: Seq<Seq<char>>) -> Seq<char>
    decreases t.len(),
{
    if has_span(t) {
        proof {
            lemma_span_shrinks(t);
        }
        t.subrange(0, index_of(t, '{')) + answers[0] + fill(after_span(t), answers.drop_first())
    } else {
        t
    }
}

pub proof fn lemma_span_shrinks(t: Seq<char>)
    requires
        has_span(t),
    ensures
        after_span(t).len() < t.len(),
{
    lemma_index_of(t, '{');
    lemma_index_of(t.subrange(index_of(t, '{') + 1, t.len() as int), '}');
}


/// The contents of each string of `v`.
pub open spec fn strings_view(v: Seq<String>) -> Seq<Seq<char>> {
    v.map_values(|s: String| s@)
}

/// Position of the first `c` at or after `from`, or the length of `text` when none.
fn find_char(text: &str, c: char, from: usize, len: usize) -> (r: usize)
    requires
        len == text@.len(),
        from <= len,
    ensures
        from <= r <= len,
        r < len ==> text@[r as int] == c,
        forall|k: int| from <= k < r ==> text@[k] != c,
{
    let mut i: usize = from;
    while i < len
        invariant
            len == text@.len(),
            from <= i <= len,
            forall|k: int| from <= k < i ==> text@[k] != c,
        decreases len - i,
    {
        if text.get_char(i) == c {
            return i;
        }
        i = i + 1;
    }
    i
}

proof fn lemma_found(t: Seq<char>, p: int, c: char, r: int)
    requires
        0 <= p <= r <= t.len(),
        r < t.len() ==> t[r] == c,
        forall|k: int| p <= k < r ==> t[k] != c,
    ensures
        index_of(t.subrange(p, t.len() as int), c) == if r < t.len() {
            r - p
        } else {
            -1
        },
{
    let u = t.subrange(p, t.len() as int);
    lemma_index_of(u, c);
    let x = index_of(u, c);
    if x >= 0 && x < r - p {
        assert(u[x] == t[p + x]);
    }
    if r < t.len() {
        assert(u[r - p] == t[r]);
    }
}

/// Facts on the span that starts at `i` and closes at `j` in the suffix of `t` from `p`.
proof fn lemma_span_at(t: Seq<char>, p: int, i: int, j: int)
    requires
        0 <= p <= i < j < t.len(),
        t[i] == '{',
        t[j] == '}',
        forall|k: int| p <= k < i ==> t[k] != '{',
        forall|k: int| i + 1 <= k < j ==> t[k] != '}',
    ensures
        has_span(t.subrange(p, t.len() as int)),
        index_of(t.subrange(p, t.len() as int), '{') == i - p,
        after_span(t.subrange(p, t.len() as int)) == t.subrange(j + 1, t.len() as int),
        t.subrange(p, t.len() as int).subrange(0, i - p) == t.subrange(p, i),
        ({
            let rest = t.subrange(p, t.len() as int).subrange(i - p + 1, t.len() - p);
            rest.subrange(0, index_of(rest, '}')) == t.subrange(i + 1, j)
        }),
{
    let u = t.subrange(p, t.len() as int);
    lemma_found(t, p, '{', i);
    let rest = u.subrange(i - p + 1, u.len() as int);
    assert(rest =~= t.subrange(i + 1, t.len() as int));
    lemma_found(t, i + 1, '}', j);
    assert(after_span(u) =~= t.subrange(j + 1, t.len() as int));
    assert(u.subrange(0, i - p) =~= t.subrange(p, i));
    assert(rest.subrange(0, index_of(rest, '}')) =~= t.subrange(i + 1, j));
}

/// The suffix of `t` from `p` has no span when no `{` follows `p`, or no `}` follows that `{`.
proof fn lemma_no_span_at(t: Seq<char>, p: int, i: int, j: int)
    requires
        0 <= p <= i <= t.len(),
        i < t.len() ==> t[i] == '{',
        forall|k: int| p <= k < i ==> t[k] != '{',
        i < t.len() ==> i + 1 <= j == t.len(),
        i < t.len() ==> forall|k: int| i + 1 <= k < j ==> t[k] != '}',
    ensures
        !has_span(t.subrange(p, t.len() as int)),
{
    let u = t.subrange(p, t.len() as int);
    lemma_found(t, p, '{', i);
    if i < t.len() {
        assert(u.subrange(i - p + 1, u.len() as int) =~= t.subrange(i + 1, t.len() as int));
        lemma_found(t, i + 1, '}', j);
    }
}

/// The inner text of each expression span of `text`, left to right.
pub fn expressions(text: &str) -> (r: Vec<String>)
    ensures
        strings_view(r@) == expressions_of(text@),
{
    let len = text.unicode_len();
    let ghost t = text@;
    let mut out: Vec<String> = Vec::new();
    let mut p: usize = 0;
    assert(t.subrange(0, t.len() as int) =~= t);
    while p < len
        invariant
            len == t.len(),
            t == text@,
            p <= len,
            strings_view(out@) + expressions_of(t.subrange(p as int, t.len() as int))
                == expressions_of(t),
        decreases len - p,
    {
        let i = find_char(text, '{', p, len);
        let j = if i < len {
            find_char(text, '}', i + 1, len)
        } else {
            len
        };
        if j >= len {
            proof {
                lemma_no_span_at(t, p as int, i as int, j as int);
                assert(strings_view(out@) =~= expressions_of(t));
            }
            return out;
        }
        proof {
            lemma_span_at(t, p as int, i as int, j as int);
        }
        let inner = text.substring_char(i + 1, j).to_owned();
        let ghost old_out = out@;
        out.push(inner);
        proof {
            assert(strings_view(out@) =~= strings_view(old_out).push(inner@));
            assert(strings_view(out@) + expressions_of(t.subrange(j + 1, t.len() as int))
                =~= strings_view(old_out) + expressions_of(t.subrange(p as int, t.len() as int)));
        }
        p = j + 1;
    }
    proof {
        assert(t.subrange(p as int, t.len() as int) =~= Seq::<char>::empty());
        assert(strings_view(out@) =~= expressions_of(t));
    }
    out
}


/// `text` with its `k`-th expression span replaced by `answers[start + k]`.
pub fn fill_text(text: &str, answers: &Vec<String>, start: usize) -> (r: String)
    requires
        start + expressions_of(text@).len() <= answers@.len(),
    ensures
        r@ == fill(
            text@,
            strings_view(answers@).subrange(start as int, start + expressions_of(text@).len()),
        ),
{
    let len = text.unicode_len();
    let ghost t = text@;
    let ghost a = strings_view(answers@);
    let mut out = String::new();
    let mut p: usize = 0;
    let mut k: usize = start;
    let n = answers.len();
    assert(t.subrange(0, t.len() as int) =~= t);
    while p < len
        invariant
            len == t.len(),
            t == text@,
            a == strings_view(answers@),
            p <= len,
            start <= k,
            n == answers@.len(),
            k + expressions_of(t.subrange(p as int, t.len() as int)).len() <= answers@.len(),
            out@ + fill(t.subrange(p as int, t.len() as int), a.subrange(k as int, a.len() as int))
                == fill(t, a.subrange(start as int, a.len() as int)),
        decreases len - p,
    {
        let i = find_char(text, '{', p, len);
        let j = if i < len {
            find_char(text, '}', i + 1, len)
        } else {
            len
        };
        if j >= len {
            proof {
                lemma_no_span_at(t, p as int, i as int, j as int);
            }
            let ghost before = out@;
            out.append(text.substring_char(p, len));
            proof {
                assert(t.subrange(len as int, t.len() as int) =~= Seq::<char>::empty());
                assert(out@ =~= out@ + fill(t.subrange(len as int, t.len() as int), a.subrange(k as int, a.len() as int)));
            }
            p = len;
        } else {
            proof {
                lemma_span_at(t, p as int, i as int, j as int);
                let u = t.subrange(p as int, t.len() as int);
                assert(a.subrange(k as int, a.len() as int).drop_first() =~= a.subrange(k + 1, a.len() as int));
                assert(expressions_of(u).len() == 1 + expressions_of(t.subrange(j + 1, t.len() as int)).len());
            }
            assert(k < answers@.len());
            let ghost before = out@;
            out.append(text.substring_char(p, i));
            out.append(answers[k].as_str());
            proof {
                assert(out@ + fill(t.subrange(j + 1, t.len() as int), a.subrange(k + 1, a.len() as int))
                    =~= before + fill(t.subrange(p as int, t.len() as int), a.subrange(k as int, a.len() as int)));
            }
            k = k + 1;
            p = j + 1;
        }
    }
    proof {
        assert(t.subrange(p as int, t.len() as int) =~= Seq::<char>::empty());
        assert(out@ =~= out@ + Seq::<char>::empty());
        lemma_fill_prefix(t, a.subrange(start as int, a.len() as int));
        assert(a.subrange(start as int, a.len() as int).subrange(0, expressions_of(t).len() as int)
            =~= a.subrange(start as int, start + expressions_of(t).len()));
    }
    out
}

/// Filling reads only as many answers as there are spans.
pub proof fn lemma_fill_prefix(t: Seq<char>, answers: Seq<Seq<char>>)
    requires
        expressions_of(t).len() <= answers.len(),
    ensures
        fill(t, answers) == fill(t, answers.subrange(0, expressions_of(t).len() as int)),
    decreases t.len(),
{
    if has_span(t) {
        lemma_span_shrinks(t);
        let rest = after_span(t);
        lemma_fill_prefix(rest, answers.drop_first());
        let k = expressions_of(t).len() as int;
        assert(answers.subrange(0, k).drop_first() =~= answers.drop_first().subrange(0, k - 1));
    }
}

/// Text without an expression span is left as it is, whatever the answers.
pub proof fn lemma_fill_plain(t: Seq<char>, answers: Seq<Seq<char>>)
    requires
        expressions_of(t).len() == 0,
    ensures
        fill(t, answers) == t,
{
}

/// Text without a `{` holds no expression span.
pub proof fn lemma_no_brace_no_span(t: Seq<char>)
    requires
        forall|k: int| 0 <= k < t.len() ==> t[k] != '{',
    ensures
        expressions_of(t).len() == 0,
{
    lemma_index_of(t, '{');
}

} // verus!
