//! The name catalog: the sorted, de-duplicated set of sequence names of an
//! input, and the dense one-based identifier of each name.

use vstd::prelude::*;

use crate::order::{
    dedup_names, lemma_dedup_sorted, lemma_lex_antisymmetric,
    lemma_lex_irreflexive, lemma_lex_total, lemma_lex_transitive, lex_less, lex_lt, sort_names,
    strictly_sorted,
};
use crate::text::{bytes_equal, fields, split_fields, views};

verus! {

broadcast use vstd::seq_lib::group_to_multiset_ensures;

/// Why a single record cannot be projected.
#[derive(Debug, Clone, Copy, PartialEq, Eq, Structural)]
pub enum LineFault {
    /// The record has fewer than six tab-separated fields.
    TooFewFields,
    /// The record names a sequence that the catalog does not hold.
    UnknownName,
}

/// Why an input cannot be processed; each variant carries the zero-based
/// index of the offending line.
#[derive(Debug, Clone, Copy, PartialEq, Eq, Structural)]
pub enum PafError {
    /// A record with fewer than six tab-separated fields.
    MalformedRecord(usize),
    /// A record whose query or target name is not in the catalog.
    UnknownName(usize),
    /// A color row whose red, green or blue value is not an unsigned 16-bit
    /// decimal number.
    BadColorValue(usize),
}

/// The record has the six fields that name its query and target.
pub open spec fn record_ok(line: Seq<u8>) -> bool {
    fields(line).len() >= 6
}

/// The query name of a record: its field 0.
pub open spec fn query(line: Seq<u8>) -> Seq<u8> {
    fields(line)[0]
}

/// The target name of a record: its field 5.
pub open spec fn target(line: Seq<u8>) -> Seq<u8> {
    fields(line)[5]
}

/// Every record of the input has its six fields.
pub open spec fn all_records_ok(lines: Seq<Seq<u8>>) -> bool {
    forall|i: int| 0 <= i < lines.len() ==> record_ok(#[trigger] lines[i])
}

/// Line `i` is the first record with fewer than six fields.
pub open spec fn first_malformed(lines: Seq<Seq<u8>>, i: int) -> bool {
    &&& 0 <= i < lines.len()
    &&& !record_ok(lines[i])
    &&& forall|j: int| 0 <= j < i ==> record_ok(#[trigger] lines[j])
}

/// The names that the records of `lines` hold in field 0 or field 5.
pub open spec fn input_names(lines: Seq<Seq<u8>>) -> Set<Seq<u8>> {
    Set::new(
        |n: Seq<u8>|
            exists|i: int|
                0 <= i < lines.len() && (n == query(#[trigger] lines[i]) || n == target(lines[i])),
    )
}

/// Reads the query and target names of one record.
pub fn record_names(line: &[u8]) -> (r: Result<(Vec<u8>, Vec<u8>), LineFault>)
    ensures
        match r {
            Ok((q, t)) => record_ok(line@) && q@ == query(line@) && t@ == target(line@),
            Err(e) => !record_ok(line@) && e == LineFault::TooFewFields,
        },
{
    let mut f = split_fields(line);
    if f.len() < 6 {
        return Err(LineFault::TooFewFields);
    }
    let t = f.remove(5);
    let q = f.remove(0);
    Ok((q, t))
}

/// The sorted, de-duplicated names of an input. The identifier of a name is
/// one more than its position.
pub struct NameCatalog {
    names: Vec<Vec<u8>>,
}

impl View for NameCatalog {
    type V = Seq<Seq<u8>>;

    closed spec fn view(&self) -> Seq<Seq<u8>> {
        views(self.names@)
    }
}

/// Where `n` stands in the strictly sorted sequence `names`.
pub open spec fn position(names: Seq<Seq<u8>>, n: Seq<u8>) -> int {
    names.index_of(n)
}

/// In a strictly sorted sequence the name at index `k` has position `k`.
pub proof fn lemma_position(names: Seq<Seq<u8>>, k: int)
    requires
        strictly_sorted(names),
        0 <= k < names.len(),
    ensures
        position(names, names[k]) == k,
{
    let i = names.index_of(names[k]);
    assert(0 <= i < names.len() && names[i] == names[k]);
    if i < k {
        lemma_lex_irreflexive(names[k]);
    } else if k < i {
        lemma_lex_irreflexive(names[k]);
    }
}

impl NameCatalog {
    /// The names are in strictly increasing lexicographic byte order.
    pub open spec fn wf(&self) -> bool {
        strictly_sorted(self@)
    }

    /// The catalog holds exactly the names of the records of `lines`, each
    /// record having its six fields.
    pub open spec fn built_from(&self, lines: Seq<Seq<u8>>) -> bool {
        &&& self.wf()
        &&& all_records_ok(lines)
        &&& self@.to_set() == input_names(lines)
    }

    /// The identifier of a name of the catalog.
    pub open spec fn id(&self, n: Seq<u8>) -> int {
        position(self@, n) + 1
    }

    /// Collects the names of every record, then sorts and de-duplicates them.
    /// Fails at the first record with fewer than six fields.
    pub fn new(lines: &Vec<Vec<u8>>) -> (r: Result<NameCatalog, PafError>)
        ensures
            match r {
                Ok(c) => c.built_from(views(lines@)),
                Err(e) => exists|i: int|
                    first_malformed(views(lines@), i) && e == PafError::MalformedRecord(i as usize),
            },
    {
        let ghost ls = views(lines@);
        let mut names: Vec<Vec<u8>> = Vec::new();
        let mut i: usize = 0;
        while i < lines.len()
            invariant
                i <= lines@.len(),
                ls == views(lines@),
                forall|j: int| 0 <= j < i ==> record_ok(#[trigger] ls[j]),
                views(names@).to_set() == input_names(ls.take(i as int)),
            decreases lines@.len() - i,
        {
            assert(ls[i as int] == lines@[i as int]@);
            match record_names(lines[i].as_slice()) {
                Err(_) => {
                    assert(first_malformed(ls, i as int));
                    return Err(PafError::MalformedRecord(i));
                },
                Ok((q, t)) => {
                    let ghost before = views(names@);
                    names.push(q);
                    names.push(t);
                    proof {
                        assert(views(names@) =~= before.push(q@).push(t@));
                        before.lemma_push_to_set_commute(q@);
                        before.push(q@).lemma_push_to_set_commute(t@);
                        let pre = ls.take(i as int);
                        let post = ls.take(i as int + 1);
                        assert(input_names(post) =~= input_names(pre).insert(q@).insert(t@)) by {
                            assert forall|n: Seq<u8>| input_names(post).contains(n) implies
                                input_names(pre).insert(q@).insert(t@).contains(n) by {
                                let k = choose|k: int|
                                    0 <= k < post.len() && (n == query(#[trigger] post[k]) || n
                                        == target(post[k]));
                                if k < i {
                                    assert(pre[k] == post[k]);
                                }
                            }
                            assert forall|n: Seq<u8>| input_names(pre).contains(n) implies
                                input_names(post).contains(n) by {
                                let k = choose|k: int|
                                    0 <= k < pre.len() && (n == query(#[trigger] pre[k]) || n
                                        == target(pre[k]));
                                assert(pre[k] == post[k]);
                            }
                            assert(post[i as int] == ls[i as int]);
                        }
                    }
                },
            }
            i = i + 1;
        }
        assert(ls.take(lines@.len() as int) =~= ls);
        let ghost collected = views(names@);
        sort_names(&mut names);
        let ghost sorted_names = views(names@);
        assert(sorted_names.to_set() =~= collected.to_set()) by {
            assert forall|n: Seq<u8>| sorted_names.contains(n) <==> collected.contains(n) by {
                assert(sorted_names.to_multiset().count(n) == collected.to_multiset().count(n));
            }
        }
        dedup_names(&mut names);
        proof {
            lemma_dedup_sorted(sorted_names);
        }
        Ok(NameCatalog { names })
    }

    /// The number of names.
    pub fn len(&self) -> (r: usize)
        ensures
            r == self@.len(),
    {
        self.names.len()
    }

    /// The name at position `i`; its identifier is `i + 1`.
    pub fn name_at(&self, i: usize) -> (r: &[u8])
        requires
            i < self@.len(),
        ensures
            r@ == self@[i as int],
    {
        self.names[i].as_slice()
    }

    /// The identifier of `name`, or `None` where the catalog does not hold it.
    pub fn lookup(&self, name: &[u8]) -> (r: Option<u64>)
        requires
            self.wf(),
        ensures
            match r {
                Some(id) => self@.contains(name@) && id == self.id(name@),
                None => !self@.contains(name@),
            },
    {
        let ghost s = self@;
        let mut lo: usize = 0;
        let mut hi: usize = self.names.len();
        while lo < hi
            invariant
                s == self@,
                s.len() == self.names@.len(),
                self.wf(),
                lo <= hi <= s.len(),
                forall|k: int| 0 <= k < lo ==> lex_lt(#[trigger] s[k], name@),
                forall|k: int| hi <= k < s.len() ==> lex_lt(name@, #[trigger] s[k]),
            decreases hi - lo,
        {
            let mid: usize = lo + (hi - lo) / 2;
            let m = self.names[mid].as_slice();
            assert(m@ == s[mid as int]);
            if bytes_equal(m, name) {
                proof {
                    lemma_position(s, mid as int);
                }
                return Some(mid as u64 + 1);
            } else if lex_less(m, name) {
                assert forall|k: int| 0 <= k < mid + 1 implies lex_lt(#[trigger] s[k], name@) by {
                    if k < mid {
                        lemma_lex_transitive(s[k], s[mid as int], name@);
                    }
                }
                lo = mid + 1;
            } else {
                proof {
                    lemma_lex_total(m@, name@);
                }
                assert forall|k: int| mid <= k < s.len() implies lex_lt(name@, #[trigger] s[k]) by {
                    if mid < k {
                        lemma_lex_transitive(name@, s[mid as int], s[k]);
                    }
                }
                hi = mid;
            }
        }
        assert forall|k: int| 0 <= k < s.len() implies s[k] != name@ by {
            if k < lo {
                lemma_lex_antisymmetric(s[k], name@);
            } else {
                lemma_lex_antisymmetric(name@, s[k]);
            }
        }
        None
    }

    /// The identifier of a name that the catalog holds.
    pub fn get_id(&self, name: &[u8]) -> (r: u64)
        requires
            self.wf(),
            self@.contains(name@),
        ensures
            r == self.id(name@),
    {
        match self.lookup(name) {
            Some(id) => id,
            None => 0,
        }
    }
}

/// Two distinct names of an input get distinct identifiers.
pub proof fn lemma_ids_distinct(lines: Seq<Seq<u8>>, c: &NameCatalog, a: Seq<u8>, b: Seq<u8>)
    requires
        c.built_from(lines),
        input_names(lines).contains(a),
        input_names(lines).contains(b),
        a != b,
    ensures
        c.id(a) != c.id(b),
{
    assert(c@.to_set().contains(a) && c@.to_set().contains(b));
}

/// The identifier of a name of an input lies between one and the number of
/// distinct names of that input.
pub proof fn lemma_id_range(lines: Seq<Seq<u8>>, c: &NameCatalog, n: Seq<u8>)
    requires
        c.built_from(lines),
        input_names(lines).contains(n),
    ensures
        1 <= c.id(n) <= input_names(lines).len(),
        c@[c.id(n) - 1] == n,
{
    assert(c@.to_set().contains(n));
    lemma_no_duplicates(c@);
    c@.unique_seq_to_set();
}

/// A strictly sorted sequence holds no name twice.
pub proof fn lemma_no_duplicates(s: Seq<Seq<u8>>)
    requires
        strictly_sorted(s),
    ensures
        s.no_duplicates(),
{
    assert forall|i: int, j: int| 0 <= i < s.len() && 0 <= j < s.len() && i != j implies s[i]
        != s[j] by {
        if i < j {
            lemma_lex_antisymmetric(s[i], s[j]);
        } else {
            lemma_lex_antisymmetric(s[j], s[i]);
        }
    }
}

/// Two strictly sorted sequences with the same elements are equal.
proof fn lemma_strictly_sorted_unique(s1: Seq<Seq<u8>>, s2: Seq<Seq<u8>>)
    requires
        strictly_sorted(s1),
        strictly_sorted(s2),
        s1.to_set() == s2.to_set(),
    ensures
        s1 == s2,
    decreases s1.len() + s2.len(),
{
    if s1.len() == 0 || s2.len() == 0 {
        if s1.len() > 0 {
            assert(s2.to_set().contains(s1[0]));
        }
        if s2.len() > 0 {
            assert(s1.to_set().contains(s2[0]));
        }
        assert(s1 =~= s2);
    } else {
        let x1 = s1.last();
        let x2 = s2.last();
        assert(s2.to_set().contains(x1));
        assert(s1.to_set().contains(x2));
        let k = choose|k: int| 0 <= k < s2.len() && s2[k] == x1;
        let m = choose|m: int| 0 <= m < s1.len() && s1[m] == x2;
        if k < s2.len() - 1 {
            if m < s1.len() - 1 {
                lemma_lex_transitive(x2, x1, x2);
                lemma_lex_irreflexive(x2);
            } else {
                lemma_lex_irreflexive(x1);
            }
        }
        assert(x1 == x2);
        let p1 = s1.drop_last();
        let p2 = s2.drop_last();
        lemma_no_duplicates(s1);
        lemma_no_duplicates(s2);
        assert(p1.to_set() =~= p2.to_set()) by {
            assert forall|n: Seq<u8>| p1.to_set().contains(n) implies p2.to_set().contains(n) by {
                let i = choose|i: int| 0 <= i < p1.len() && p1[i] == n;
                assert(s1[i] == n && s1.to_set().contains(n));
                let j = choose|j: int| 0 <= j < s2.len() && s2[j] == n;
                assert(j != s2.len() - 1);
                assert(p2[j] == n);
            }
            assert forall|n: Seq<u8>| p2.to_set().contains(n) implies p1.to_set().contains(n) by {
                let i = choose|i: int| 0 <= i < p2.len() && p2[i] == n;
                assert(s2[i] == n && s2.to_set().contains(n));
                let j = choose|j: int| 0 <= j < s1.len() && s1[j] == n;
                assert(j != s1.len() - 1);
                assert(p1[j] == n);
            }
        }
        lemma_strictly_sorted_unique(p1, p2);
        assert(s1 =~= p1.push(x1));
        assert(s2 =~= p2.push(x2));
    }
}

/// The catalog of an input, and so the identifier of each name, depends on
/// the input alone.
pub proof fn lemma_catalog_determined(lines: Seq<Seq<u8>>, c1: &NameCatalog, c2: &NameCatalog)
    requires
        c1.built_from(lines),
        c2.built_from(lines),
    ensures
        c1@ == c2@,
        forall|n: Seq<u8>| c1.id(n) == c2.id(n),
{
    lemma_strictly_sorted_unique(c1@, c2@);
}

/// The catalog of an input holds one entry per distinct name of the input.
pub proof fn lemma_name_count(lines: Seq<Seq<u8>>, c: &NameCatalog)
    requires
        c.built_from(lines),
    ensures
        c@.len() == input_names(lines).len(),
{
    lemma_no_duplicates(c@);
    c@.unique_seq_to_set();
}

/// Every name that a record of the input holds in field 0 or field 5 is in
/// the catalog.
pub proof fn lemma_names_covered(lines: Seq<Seq<u8>>, c: &NameCatalog)
    requires
        c.built_from(lines),
    ensures
        forall|i: int|
            0 <= i < lines.len() ==> c@.contains(query(#[trigger] lines[i])) && c@.contains(
                target(lines[i]),
            ),
{
    assert forall|i: int| 0 <= i < lines.len() implies c@.contains(query(#[trigger] lines[i]))
        && c@.contains(target(lines[i])) by {
        assert(input_names(lines).contains(query(lines[i])));
        assert(input_names(lines).contains(target(lines[i])));
        assert(c@.to_set().contains(query(lines[i])));
        assert(c@.to_set().contains(target(lines[i])));
    }
}

} // verus!
