//! Lexicographic byte order on names, and the sorting and de-duplication of
//! name lists.

use vstd::prelude::*;

use crate::text::{bytes_equal, views};

verus! {

/// `a` sorts strictly before `b` in lexicographic byte order: at the first
/// position where they differ the byte of `a` is smaller, or `a` is a proper
/// prefix of `b`.
pub open spec fn lex_lt(a: Seq<u8>, b: Seq<u8>) -> bool
    decreases a.len(),
{
    if b.len() == 0 {
        false
    } else if a.len() == 0 {
        true
    } else if a[0] != b[0] {
        a[0] < b[0]
    } else {
        lex_lt(a.drop_first(), b.drop_first())
    }
}

/// `a` sorts before `b` or equals it.
pub open spec fn lex_le(a: Seq<u8>, b: Seq<u8>) -> bool {
    lex_lt(a, b) || a == b
}

/// Every name sorts before or equal to every later one.
pub open spec fn sorted(s: Seq<Seq<u8>>) -> bool {
    forall|i: int, j: int| 0 <= i < j < s.len() ==> lex_le(#[trigger] s[i], #[trigger] s[j])
}

/// Every name sorts strictly before every later one; in particular no name
/// occurs twice.
pub open spec fn strictly_sorted(s: Seq<Seq<u8>>) -> bool {
    forall|i: int, j: int| 0 <= i < j < s.len() ==> lex_lt(#[trigger] s[i], #[trigger] s[j])
}

/// No name sorts strictly before itself.
pub proof fn lemma_lex_irreflexive(a: Seq<u8>)
    ensures
        !lex_lt(a, a),
    decreases a.len(),
{
    if a.len() > 0 {
        lemma_lex_irreflexive(a.drop_first());
    }
}

/// Strict lexicographic order is transitive.
pub proof fn lemma_lex_transitive(a: Seq<u8>, b: Seq<u8>, c: Seq<u8>)
    requires
        lex_lt(a, b),
        lex_lt(b, c),
    ensures
        lex_lt(a, c),
    decreases a.len(),
{
    if a.len() > 0 && a[0] == b[0] && b[0] == c[0] {
        lemma_lex_transitive(a.drop_first(), b.drop_first(), c.drop_first());
    }
}

/// Of two names, one sorts before the other or they are equal.
pub proof fn lemma_lex_total(a: Seq<u8>, b: Seq<u8>)
    ensures
        lex_lt(a, b) || a == b || lex_lt(b, a),
    decreases a.len(),
{
    if a.len() > 0 && b.len() > 0 && a[0] == b[0] {
        lemma_lex_total(a.drop_first(), b.drop_first());
        if a.drop_first() == b.drop_first() {
            assert(a =~= seq![a[0]] + a.drop_first());
            assert(b =~= seq![b[0]] + b.drop_first());
        }
    } else if a.len() == 0 && b.len() == 0 {
        assert(a =~= b);
    }
}

/// Two names never sort strictly before each other.
pub proof fn lemma_lex_antisymmetric(a: Seq<u8>, b: Seq<u8>)
    requires
        lex_lt(a, b),
    ensures
        !lex_lt(b, a),
        a != b,
{
    lemma_lex_irreflexive(a);
    if lex_lt(b, a) {
        lemma_lex_transitive(a, b, a);
    }
}

/// Whether `a` sorts strictly before `b`.
pub fn lex_less(a: &[u8], b: &[u8]) -> (r: bool)
    ensures
        r == lex_lt(a@, b@),
{
    let mut i: usize = 0;
    assert(a@.skip(0) =~= a@);
    assert(b@.skip(0) =~= b@);
    while i < a.len() && i < b.len() && a[i] == b[i]
        invariant
            i <= a@.len(),
            i <= b@.len(),
            lex_lt(a@, b@) == lex_lt(a@.skip(i as int), b@.skip(i as int)),
        decreases a@.len() - i,
    {
        assert(a@.skip(i as int).drop_first() =~= a@.skip(i as int + 1));
        assert(b@.skip(i as int).drop_first() =~= b@.skip(i as int + 1));
        i = i + 1;
    }
    if i == b.len() {
        false
    } else if i == a.len() {
        true
    } else {
        a[i] < b[i]
    }
}

/// Relies on `slice::sort` of std: it sorts a vector in place, ascending by
/// `Ord`, which for byte vectors is lexicographic order; the elements are
/// only moved.
#[verifier::external_body]
pub(crate) fn sort_names(v: &mut Vec<Vec<u8>>)
    ensures
        views(final(v)@).to_multiset()
            == views(old(v)@).to_multiset(),
        final(v)@.len() == old(v)@.len(),
        sorted(views(final(v)@)),
{
    v.sort();
}

/// What remains of `s` when, walking left to right, every element equal to
/// the last one kept is dropped.
pub open spec fn dedup_adjacent(s: Seq<Seq<u8>>) -> Seq<Seq<u8>>
    decreases s.len(),
{
    if s.len() == 0 {
        s
    } else {
        let d = dedup_adjacent(s.drop_last());
        if d.len() > 0 && d.last() == s.last() {
            d
        } else {
            d.push(s.last())
        }
    }
}

/// Relies on `dedup_by::dedup_by`: walking left to right, it drops each
/// element for which the closure, given that element and the last one kept,
/// returns true, and keeps the others in order. The closure here tests
/// equality.
#[verifier::external_body]
pub(crate) fn dedup_names(v: &mut Vec<Vec<u8>>)
    ensures
        views(final(v)@) == dedup_adjacent(views(old(v)@)),
{
    dedup_by::dedup_by(v, |a: &Vec<u8>, b: &Vec<u8>| bytes_equal(a, b));
}

/// De-duplicating a sorted list leaves a strictly sorted list of the same
/// names, ending with the same name.
pub proof fn lemma_dedup_sorted(s: Seq<Seq<u8>>)
    requires
        sorted(s),
    ensures
        strictly_sorted(dedup_adjacent(s)),
        dedup_adjacent(s).to_set() == s.to_set(),
        s.len() > 0 ==> dedup_adjacent(s).len() > 0 && dedup_adjacent(s).last() == s.last(),
    decreases s.len(),
{
    if s.len() > 0 {
        let p = s.drop_last();
        let x = s.last();
        let d = dedup_adjacent(p);
        assert(sorted(p)) by {
            assert forall|i: int, j: int| 0 <= i < j < p.len() implies lex_le(
                #[trigger] p[i],
                #[trigger] p[j],
            ) by {
                assert(p[i] == s[i] && p[j] == s[j]);
            }
        }
        lemma_dedup_sorted(p);
        assert(s =~= p.push(x));
        p.lemma_push_to_set_commute(x);
        if d.len() > 0 && d.last() == x {
            assert(d.to_set().contains(x));
            assert(d.to_set() =~= s.to_set());
        } else {
            let r = d.push(x);
            d.lemma_push_to_set_commute(x);
            assert forall|i: int, j: int| 0 <= i < j < r.len() implies lex_lt(
                #[trigger] r[i],
                #[trigger] r[j],
            ) by {
                if j == r.len() - 1 {
                    assert(p.to_set().contains(d[i]));
                    let k = choose|k: int| 0 <= k < p.len() && p[k] == d[i];
                    assert(s[k] == d[i] && s[s.len() - 1] == x);
                    assert(lex_le(d[i], x));
                    if d[i] == x {
                        let lp = p.len() - 1;
                        assert(lex_le(s[k], s[lp])) by {
                            if k < lp {
                                assert(lex_le(s[k], s[lp]));
                            }
                        }
                        assert(lex_le(s[lp], x));
                        assert(p.last() == s[lp]);
                        if lex_lt(s[lp], x) {
                            if lex_lt(x, s[lp]) {
                                lemma_lex_antisymmetric(x, s[lp]);
                            }
                        }
                    }
                } else {
                    assert(r[i] == d[i] && r[j] == d[j]);
                }
            }
        }
    }
}

} // verus!
