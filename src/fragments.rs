//! Splitting encoded text into fragments at each `__`, as `str::split` does:
//! left to right, one delimiter at a time, never overlapping.
use vstd::prelude::*;

verus! {

/// The delimiter between fragments.
pub open spec fn delim() -> Seq<char> {
    seq!['_', '_']
}

/// Whether a delimiter starts at position `i` of `s`.
pub open spec fn delim_at(s: Seq<char>, i: int) -> bool {
    0 <= i && i + 1 < s.len() && s[i] == '_' && s[i + 1] == '_'
}

/// The fragments of `s` from `start` on, where no delimiter starts in
/// `start..i`.
pub open spec fn split_from(s: Seq<char>, start: int, i: int) -> Seq<Seq<char>>
    decreases s.len() - i,
{
    if i < start || start < 0 || i + 1 >= s.len() {
        seq![s.subrange(start, s.len() as int)]
    } else if delim_at(s, i) {
        seq![s.subrange(start, i)] + split_from(s, i + 2, i + 2)
    } else {
        split_from(s, start, i + 1)
    }
}

/// The fragments of `s`: the text between consecutive delimiters.
pub open spec fn fragments(s: Seq<char>) -> Seq<Seq<char>> {
    split_from(s, 0, 0)
}

/// Each text in turn, each after a delimiter.
pub open spec fn joined(ts: Seq<Seq<char>>) -> Seq<char>
    decreases ts.len(),
{
    if ts.len() == 0 {
        Seq::empty()
    } else {
        delim() + ts[0] + joined(ts.drop_first())
    }
}

/// Whether `f` can stand as a field: no delimiter inside it.
pub open spec fn no_delim(f: Seq<char>) -> bool {
    forall|i: int| !delim_at(f, i)
}

/// Whether `f` can stand before a delimiter without merging into it: no
/// delimiter inside it, and not ending in `_`.
pub open spec fn separable(f: Seq<char>) -> bool {
    no_delim(f) && (f.len() > 0 ==> f.last() != '_')
}

/// The start and end of each fragment of `cs`, in order.
pub fn split_fragments(cs: &Vec<char>) -> (r: Vec<(usize, usize)>)
    ensures
        r@.len() == fragments(cs@).len(),
        r@.len() > 0,
        forall|k: int|
            0 <= k < r@.len() ==> {
                &&& (#[trigger] r@[k]).0 <= r@[k].1 <= cs@.len()
                &&& cs@.subrange(r@[k].0 as int, r@[k].1 as int) == fragments(cs@)[k]
            },
{
    let ghost s = cs@;
    let mut r: Vec<(usize, usize)> = Vec::new();
    let mut start: usize = 0;
    let mut i: usize = 0;
    while cs.len() - i > 1
        invariant
            s == cs@,
            start <= i <= cs@.len(),
            fragments(s) == r@.map_values(
                |b: (usize, usize)| s.subrange(b.0 as int, b.1 as int),
            ) + split_from(s, start as int, i as int),
            forall|k: int|
                0 <= k < r@.len() ==> (#[trigger] r@[k]).0 <= r@[k].1 <= cs@.len(),
        decreases cs.len() - i,
    {
        if cs[i] == '_' && cs[i + 1] == '_' {
            let ghost before = r@;
            r.push((start, i));
            assert(r@.map_values(|b: (usize, usize)| s.subrange(b.0 as int, b.1 as int))
                == before.map_values(|b: (usize, usize)| s.subrange(b.0 as int, b.1 as int))
                + seq![s.subrange(start as int, i as int)]);
            i = i + 2;
            start = i;
        } else {
            i = i + 1;
        }
    }
    let ghost before = r@;
    r.push((start, cs.len()));
    assert(r@.map_values(|b: (usize, usize)| s.subrange(b.0 as int, b.1 as int))
        == before.map_values(|b: (usize, usize)| s.subrange(b.0 as int, b.1 as int))
        + seq![s.subrange(start as int, s.len() as int)]);
    assert forall|k: int| 0 <= k < r@.len() implies cs@.subrange(
        r@[k].0 as int,
        r@[k].1 as int,
    ) == fragments(cs@)[k] by {
        assert(r@.map_values(|b: (usize, usize)| s.subrange(b.0 as int, b.1 as int))[k]
            == s.subrange(r@[k].0 as int, r@[k].1 as int));
    }
    r
}

/// Text without `_` can stand anywhere as a field.
pub proof fn lemma_no_underscore_separable(f: Seq<char>)
    requires
        !f.contains('_'),
    ensures
        separable(f),
{
    assert forall|i: int| !delim_at(f, i) by {
        if delim_at(f, i) {
            assert(f.contains('_'));
        }
    }
    if f.len() > 0 && f.last() == '_' {
        assert(f.contains('_'));
    }
}

/// With no delimiter from `i` on, what is left is one fragment.
proof fn lemma_split_last(s: Seq<char>, p: int, i: int)
    requires
        0 <= p <= i <= s.len(),
        forall|j: int| i <= j ==> !delim_at(s, j),
    ensures
        split_from(s, p, i) == seq![s.subrange(p, s.len() as int)],
    decreases s.len() - i,
{
    if i + 1 < s.len() {
        lemma_split_last(s, p, i + 1);
    }
}

/// With the first delimiter from `i` on at `e`, the fragment ends there.
proof fn lemma_split_at_first(s: Seq<char>, p: int, i: int, e: int)
    requires
        0 <= p <= i <= e,
        delim_at(s, e),
        forall|j: int| i <= j < e ==> !delim_at(s, j),
    ensures
        split_from(s, p, i) == seq![s.subrange(p, e)] + split_from(s, e + 2, e + 2),
    decreases e - i,
{
    if i < e {
        lemma_split_at_first(s, p, i + 1, e);
    }
}

/// Text that is a field `a` and then the texts `ts`, each after a delimiter,
/// splits back into `a` and `ts`, where no delimiter can merge into a field.
pub proof fn lemma_split_joined(s: Seq<char>, p: int, a: Seq<char>, ts: Seq<Seq<char>>)
    requires
        0 <= p <= s.len(),
        s.subrange(p, s.len() as int) == a + joined(ts),
        no_delim(a),
        ts.len() > 0 ==> separable(a),
        forall|k: int| 0 <= k < ts.len() - 1 ==> separable(#[trigger] ts[k]),
        ts.len() > 0 ==> no_delim(ts.last()),
    ensures
        split_from(s, p, p) == seq![a] + ts,
    decreases ts.len(),
{
    let rest = s.subrange(p, s.len() as int);
    if ts.len() == 0 {
        assert(rest == a);
        assert forall|j: int| p <= j implies !delim_at(s, j) by {
            if delim_at(s, j) {
                assert(s[j] == rest[j - p]);
                assert(s[j + 1] == rest[j + 1 - p]);
                assert(delim_at(a, j - p));
            }
        }
        lemma_split_last(s, p, p);
        assert(seq![a] + ts == seq![a]);
    } else {
        let e = p + a.len();
        assert(rest == a + (delim() + ts[0] + joined(ts.drop_first())));
        assert(rest[a.len() as int] == '_' && rest[a.len() + 1int] == '_');
        assert(delim_at(s, e));
        assert forall|j: int| p <= j < e implies !delim_at(s, j) by {
            if delim_at(s, j) {
                assert(s[j] == rest[j - p]);
                assert(s[j + 1] == rest[j + 1 - p]);
                assert(s[j] == a[j - p]);
                if j + 1 < e {
                    assert(s[j + 1] == a[j + 1 - p]);
                    assert(delim_at(a, j - p));
                } else {
                    assert(a.last() == '_');
                }
            }
        }
        lemma_split_at_first(s, p, p, e);
        assert(s.subrange(p, e) == a);
        let x = ts[0] + joined(ts.drop_first());
        assert(rest.subrange(a.len() + 2int, rest.len() as int) =~= x);
        assert(s.subrange(e + 2, s.len() as int) =~= rest.subrange(
            a.len() + 2int,
            rest.len() as int,
        ));
        let tail = ts.drop_first();
        assert forall|k: int| 0 <= k < tail.len() - 1 implies separable(#[trigger] tail[k]) by {
            assert(tail[k] == ts[k + 1]);
        }
        if tail.len() > 0 {
            assert(separable(ts[0]));
            assert(tail.last() == ts.last());
        }
        lemma_split_joined(s, e + 2, ts[0], tail);
        assert(seq![a] + (seq![ts[0]] + tail) == seq![a] + ts);
    }
}

} // verus!
