//! The mathematical meaning of a left-to-right replacement, and its laws.
use vstd::prelude::*;

verus! {

/// `pat` stands in `s` at offset `i`.
pub open spec fn occurs_at(s: Seq<u8>, pat: Seq<u8>, i: int) -> bool {
    &&& 0 <= i
    &&& i + pat.len() <= s.len()
    &&& s.subrange(i, i + pat.len()) == pat
}

/// `s` with every occurrence of `old` replaced by `new`, scanning from the left:
/// an occurrence is taken as soon as it is met, and the scan resumes behind it.
/// An empty `old` occurs nowhere.
pub open spec fn replace_all(s: Seq<u8>, old: Seq<u8>, new: Seq<u8>) -> Seq<u8>
    decreases s.len(),
{
    if old.len() == 0 || s.len() == 0 {
        s
    } else if occurs_at(s, old, 0) {
        new + replace_all(s.skip(old.len() as int), old, new)
    } else {
        seq![s[0]] + replace_all(s.skip(1), old, new)
    }
}

/// No occurrence of `pat` starts in the first `n` offsets of `s`.
pub open spec fn none_before(s: Seq<u8>, pat: Seq<u8>, n: int) -> bool {
    forall|j: int| 0 <= j < n ==> !occurs_at(s, pat, j)
}

/// Whether an occurrence starts at an offset depends only on the bytes it covers,
/// so dropping a prefix shifts the offsets.
pub proof fn lemma_occurs_skip(s: Seq<u8>, pat: Seq<u8>, k: int, j: int)
    requires
        0 <= k <= s.len(),
        0 <= j,
    ensures
        occurs_at(s.skip(k), pat, j) == occurs_at(s, pat, j + k),
{
    if j + pat.len() <= s.len() - k {
        assert(s.skip(k).subrange(j, j + pat.len()) =~= s.subrange(j + k, j + k + pat.len()));
    }
}

/// Bytes appended behind an occurrence's reach do not change it.
pub proof fn lemma_occurs_append(a: Seq<u8>, b: Seq<u8>, pat: Seq<u8>, j: int)
    requires
        0 <= j,
        j + pat.len() <= a.len(),
    ensures
        occurs_at(a + b, pat, j) == occurs_at(a, pat, j),
{
    assert((a + b).subrange(j, j + pat.len()) =~= a.subrange(j, j + pat.len()));
}

/// Where no occurrence starts in the first `n` bytes, those bytes pass unchanged.
pub proof fn lemma_replace_verbatim(s: Seq<u8>, old: Seq<u8>, new: Seq<u8>, n: int)
    requires
        0 <= n <= s.len(),
        none_before(s, old, n),
    ensures
        replace_all(s, old, new) == s.take(n) + replace_all(s.skip(n), old, new),
    decreases n,
{
    if n == 0 {
        assert(s.take(0) + replace_all(s.skip(0), old, new) =~= replace_all(s, old, new)) by {
            assert(s.skip(0) =~= s);
        }
    } else if old.len() == 0 {
    } else {
        let rest = s.skip(1);
        assert forall|j: int| 0 <= j < n - 1 implies !occurs_at(rest, old, j) by {
            lemma_occurs_skip(s, old, 1, j);
        }
        lemma_replace_verbatim(rest, old, new, n - 1);
        assert(rest.skip(n - 1) =~= s.skip(n));
    }
}

/// A sequence too short to hold `old`, or holding it nowhere, passes unchanged.
pub proof fn lemma_replace_nothing(s: Seq<u8>, old: Seq<u8>, new: Seq<u8>)
    requires
        none_before(s, old, s.len() as int),
    ensures
        replace_all(s, old, new) == s,
{
    lemma_replace_verbatim(s, old, new, s.len() as int);
}

/// A single occurrence is found and replaced wherever it stands: with `old`
/// nowhere in `before + old` ahead of its end, and nowhere in `after`, the
/// output is `before + new + after`.
pub proof fn lemma_single_occurrence(
    before: Seq<u8>,
    after: Seq<u8>,
    old: Seq<u8>,
    new: Seq<u8>,
)
    requires
        old.len() > 0,
        none_before(before + old + after, old, before.len() as int),
        none_before(after, old, after.len() as int),
    ensures
        replace_all(before + old + after, old, new) == before + new + after,
{
    let s = before + old + after;
    let n = before.len() as int;
    lemma_replace_verbatim(s, old, new, n);
    assert(s.skip(n) =~= old + after);
    assert((old + after).subrange(0, old.len() as int) =~= old);
    assert((old + after).skip(old.len() as int) =~= after);
    lemma_replace_nothing(after, old, new);
}

/// An empty input gives an empty output, whatever the patterns.
pub proof fn lemma_replace_empty_input(old: Seq<u8>, new: Seq<u8>)
    ensures
        replace_all(Seq::<u8>::empty(), old, new) == Seq::<u8>::empty(),
{
}

/// The replacement of `old` by `new` in `s` can be undone: wherever the scan
/// copies a byte of `s`, the output from that byte on does not begin with `new`.
pub open spec fn reversible(s: Seq<u8>, old: Seq<u8>, new: Seq<u8>) -> bool
    decreases s.len(),
{
    if old.len() == 0 || s.len() == 0 {
        true
    } else if occurs_at(s, old, 0) {
        reversible(s.skip(old.len() as int), old, new)
    } else {
        !occurs_at(replace_all(s, old, new), new, 0) && reversible(s.skip(1), old, new)
    }
}

/// Replacing `old` by `new` and then `new` by `old` gives the input back, provided
/// the only places where `new` is found in the intermediate text are those where
/// it was put.
pub proof fn lemma_round_trip(s: Seq<u8>, old: Seq<u8>, new: Seq<u8>)
    requires
        old.len() > 0,
        new.len() > 0,
        reversible(s, old, new),
    ensures
        replace_all(replace_all(s, old, new), new, old) == s,
    decreases s.len(),
{
    let t = replace_all(s, old, new);
    if s.len() == 0 {
    } else if occurs_at(s, old, 0) {
        let rest = s.skip(old.len() as int);
        let t_rest = replace_all(rest, old, new);
        lemma_round_trip(rest, old, new);
        assert(t.subrange(0, new.len() as int) =~= new);
        assert(t.skip(new.len() as int) =~= t_rest);
        assert(old + rest =~= s);
    } else {
        let rest = s.skip(1);
        let t_rest = replace_all(rest, old, new);
        lemma_round_trip(rest, old, new);
        assert(t.skip(1) =~= t_rest);
    }
}

} // verus!
