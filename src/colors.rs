//! The color table of graph nodes: rows of `name red green blue`, and the
//! color of a node looked up by its name or by the part of its name before a
//! delimiter.

use vstd::prelude::*;

use crate::catalog::PafError;
use crate::text::{bytes_equal, views};

verus! {

/// Whether `b` is ASCII whitespace: space, tab, line feed, form feed or
/// carriage return.
pub open spec fn is_space(b: u8) -> bool {
    b == 32 || b == 9 || b == 10 || b == 12 || b == 13
}

fn space(b: u8) -> (r: bool)
    ensures
        r == is_space(b),
{
    b == 32 || b == 9 || b == 10 || b == 12 || b == 13
}

/// The words of `s`: its maximal runs of bytes that are not whitespace, left
/// to right.
pub open spec fn words(s: Seq<u8>) -> Seq<Seq<u8>>
    decreases s.len(),
{
    if s.len() == 0 {
        Seq::empty()
    } else {
        let w = words(s.drop_last());
        if is_space(s.last()) {
            w
        } else if s.len() >= 2 && !is_space(s[s.len() - 2]) {
            w.update(w.len() - 1, w.last().push(s.last()))
        } else {
            w.push(seq![s.last()])
        }
    }
}

/// A string that ends in a non-space byte has a word.
proof fn lemma_words_nonempty(s: Seq<u8>)
    requires
        s.len() > 0,
        !is_space(s.last()),
    ensures
        words(s).len() > 0,
    decreases s.len(),
{
    if s.len() >= 2 && !is_space(s[s.len() - 2]) {
        let p = s.drop_last();
        assert(p.last() == s[s.len() - 2]);
        lemma_words_nonempty(p);
    }
}

/// Splits `s` into its words.
pub fn split_words(s: &[u8]) -> (r: Vec<Vec<u8>>)
    ensures
        views(r@) == words(s@),
{
    let mut done: Vec<Vec<u8>> = Vec::new();
    let mut cur: Vec<u8> = Vec::new();
    let mut i: usize = 0;
    while i < s.len()
        invariant
            i <= s@.len(),
            i > 0 && !is_space(s@[i - 1]) ==> views(done@).push(cur@) == words(s@.take(i as int)),
            !(i > 0 && !is_space(s@[i - 1])) ==> views(done@) == words(s@.take(i as int))
                && cur@.len() == 0,
        decreases s@.len() - i,
    {
        let ghost prev = s@.take(i as int);
        let ghost next = s@.take(i as int + 1);
        assert(next.drop_last() == prev);
        let b = s[i];
        if space(b) {
            if i > 0 && !space(s[i - 1]) {
                let ghost before = views(done@);
                let ghost last = cur@;
                done.push(cur);
                assert(views(done@) =~= before.push(last));
                cur = Vec::new();
            }
        } else {
            if i > 0 && !space(s[i - 1]) {
                proof {
                    lemma_words_nonempty(prev);
                }
                cur.push(b);
                assert(views(done@).push(cur@) =~= words(next));
            } else {
                cur.push(b);
                assert(cur@ =~= seq![b]);
                assert(i > 0 ==> next[i - 1] == s@[i - 1]);
                assert(views(done@).push(cur@) =~= words(next));
            }
        }
        i = i + 1;
    }
    assert(s@.take(s@.len() as int) =~= s@);
    if s.len() > 0 && !space(s[s.len() - 1]) {
        let ghost before = views(done@);
        let ghost last = cur@;
        done.push(cur);
        assert(views(done@) =~= before.push(last));
    }
    done
}

/// Whether `b` is an ASCII decimal digit.
pub open spec fn is_digit(b: u8) -> bool {
    48 <= b <= 57
}

/// The value of a string of decimal digits.
pub open spec fn digits_value(d: Seq<u8>) -> nat
    decreases d.len(),
{
    if d.len() == 0 {
        0
    } else {
        digits_value(d.drop_last()) * 10 + (d.last() - 48) as nat
    }
}

/// A prefix of a digit string is worth no more than the whole string.
proof fn lemma_digits_value_grows(d: Seq<u8>, k: int)
    requires
        0 <= k <= d.len(),
        forall|i: int| 0 <= i < d.len() ==> is_digit(#[trigger] d[i]),
    ensures
        digits_value(d.take(k)) <= digits_value(d),
    decreases d.len(),
{
    if k < d.len() {
        let p = d.drop_last();
        assert(p.take(k) =~= d.take(k));
        lemma_digits_value_grows(p, k);
    } else {
        assert(d.take(k) =~= d);
    }
}

/// Every byte of `d` is a decimal digit.
pub open spec fn all_digits(d: Seq<u8>) -> bool {
    forall|i: int| 0 <= i < d.len() ==> is_digit(#[trigger] d[i])
}

/// `s` without its leading `+`, if it has one.
pub open spec fn unsigned_digits(s: Seq<u8>) -> Seq<u8> {
    if s.len() > 0 && s[0] == 43 {
        s.drop_first()
    } else {
        s
    }
}

/// An unsigned 16-bit number written in decimal: an optional `+`, then one
/// or more digits whose value is at most 65535.
pub open spec fn u16_of(s: Seq<u8>) -> Option<u16> {
    let d = unsigned_digits(s);
    if d.len() > 0 && all_digits(d) && digits_value(d) <= 65535 {
        Some(digits_value(d) as u16)
    } else {
        None
    }
}

/// Reads an unsigned 16-bit decimal number.
pub fn parse_u16(s: &[u8]) -> (r: Option<u16>)
    ensures
        r == u16_of(s@),
{
    let start: usize = if s.len() > 0 && s[0] == 43 {
        1
    } else {
        0
    };
    let ghost d = s@.skip(start as int);
    assert(d =~= unsigned_digits(s@));
    if start == s.len() {
        return None;
    }
    let mut value: u32 = 0;
    let mut i: usize = start;
    while i < s.len()
        invariant
            start <= i <= s@.len(),
            d == s@.skip(start as int),
            d == unsigned_digits(s@),
            forall|k: int| 0 <= k < i - start ==> is_digit(#[trigger] d[k]),
            value == digits_value(d.take(i - start)),
            value <= 65535,
        decreases s@.len() - i,
    {
        let b = s[i];
        if b < 48 || b > 57 {
            assert(d[i - start] == s@[i as int]);
            assert(!is_digit(d[i - start]));
            return None;
        }
        assert(d.take(i - start + 1).drop_last() =~= d.take(i - start));
        let next: u32 = value * 10 + (b - 48) as u32;
        i = i + 1;
        if next > 65535 {
            proof {
                if all_digits(d) {
                    lemma_digits_value_grows(d, i - start);
                }
            }
            return None;
        }
        value = next;
    }
    assert(d.take(i - start) =~= d);
    Some(value as u16)
}

/// The color component in word `k` of a row: zero where the row has no
/// such word.
pub open spec fn component(w: Seq<Seq<u8>>, k: int) -> Option<u16> {
    if k < w.len() {
        u16_of(w[k])
    } else {
        Some(0u16)
    }
}

/// A color row read as its name (the empty name where the row is blank) and
/// its red, green and blue components; `None` where a component is present
/// but is no unsigned 16-bit number. Words after the fourth are ignored.
pub open spec fn color_row(row: Seq<u8>) -> Option<(Seq<u8>, (u16, u16, u16))> {
    let w = words(row);
    let name = if w.len() > 0 {
        w[0]
    } else {
        Seq::<u8>::empty()
    };
    match (component(w, 1), component(w, 2), component(w, 3)) {
        (Some(r), Some(g), Some(b)) => Some((name, (r, g, b))),
        _ => None,
    }
}

fn read_component(w: &Vec<Vec<u8>>, k: usize) -> (r: Option<u16>)
    ensures
        r == component(views(w@), k as int),
{
    if k < w.len() {
        parse_u16(w[k].as_slice())
    } else {
        Some(0)
    }
}

/// Reads one row of a color file.
pub fn parse_color_row(row: &[u8]) -> (r: Option<(Vec<u8>, (u16, u16, u16))>)
    ensures
        match r {
            Some((name, c)) => color_row(row@) == Some((name@, c)),
            None => color_row(row@) is None,
        },
{
    let mut w = split_words(row);
    let r = read_component(&w, 1);
    let g = read_component(&w, 2);
    let b = read_component(&w, 3);
    match (r, g, b) {
        (Some(r), Some(g), Some(b)) => {
            let name = if w.len() > 0 {
                w.swap_remove(0)
            } else {
                Vec::new()
            };
            Some((name, (r, g, b)))
        },
        _ => None,
    }
}

/// The table made by inserting each key and color in turn, a later entry
/// replacing an earlier one with the same key.
pub open spec fn table_map(keys: Seq<Seq<u8>>, colors: Seq<(u16, u16, u16)>) -> Map<
    Seq<u8>,
    (u16, u16, u16),
>
    decreases keys.len(),
{
    if keys.len() == 0 || colors.len() == 0 {
        Map::empty()
    } else {
        table_map(keys.drop_last(), colors.drop_last()).insert(keys.last(), colors.last())
    }
}

/// The table that a color file describes: each row in turn, a later row
/// replacing an earlier one with the same name.
pub open spec fn rows_map(rows: Seq<Seq<u8>>) -> Map<Seq<u8>, (u16, u16, u16)>
    decreases rows.len(),
{
    if rows.len() == 0 {
        Map::empty()
    } else {
        let m = rows_map(rows.drop_last());
        match color_row(rows.last()) {
            Some((k, c)) => m.insert(k, c),
            None => m,
        }
    }
}

/// Row `i` is the first one that cannot be read.
pub open spec fn first_bad_row(rows: Seq<Seq<u8>>, i: int) -> bool {
    &&& 0 <= i < rows.len()
    &&& color_row(rows[i]) is None
    &&& forall|j: int| 0 <= j < i ==> color_row(#[trigger] rows[j]) is Some
}

/// Node colors keyed by name.
pub struct ColorTable {
    keys: Vec<Vec<u8>>,
    colors: Vec<(u16, u16, u16)>,
}

impl View for ColorTable {
    type V = Map<Seq<u8>, (u16, u16, u16)>;

    closed spec fn view(&self) -> Map<Seq<u8>, (u16, u16, u16)> {
        table_map(views(self.keys@), self.colors@)
    }
}

impl ColorTable {
    /// Each key has its color.
    pub closed spec fn wf(&self) -> bool {
        self.keys@.len() == self.colors@.len()
    }

    /// The empty table.
    pub fn new() -> (r: ColorTable)
        ensures
            r.wf(),
            r@ == Map::<Seq<u8>, (u16, u16, u16)>::empty(),
    {
        ColorTable { keys: Vec::new(), colors: Vec::new() }
    }

    /// Sets the color of `key`.
    pub fn insert(&mut self, key: Vec<u8>, color: (u16, u16, u16))
        requires
            old(self).wf(),
        ensures
            final(self).wf(),
            final(self)@ == old(self)@.insert(key@, color),
    {
        let ghost k0 = views(self.keys@);
        let ghost c0 = self.colors@;
        let ghost kv = key@;
        self.keys.push(key);
        self.colors.push(color);
        assert(views(self.keys@) =~= k0.push(kv));
        assert(views(self.keys@).drop_last() =~= k0);
        assert(self.colors@.drop_last() =~= c0);
    }

    /// The color of `key`, if the table has one.
    pub fn get(&self, key: &[u8]) -> (r: Option<(u16, u16, u16)>)
        requires
            self.wf(),
        ensures
            r == (if self@.contains_key(key@) {
                Some(self@[key@])
            } else {
                None
            }),
    {
        let ghost ks = views(self.keys@);
        let ghost cs = self.colors@;
        let mut i: usize = self.keys.len();
        assert(ks.take(i as int) =~= ks);
        assert(cs.take(i as int) =~= cs);
        while i > 0
            invariant
                ks == views(self.keys@),
                cs == self.colors@,
                self.wf(),
                i <= ks.len(),
                table_map(ks, cs).contains_key(key@) == table_map(
                    ks.take(i as int),
                    cs.take(i as int),
                ).contains_key(key@),
                table_map(ks, cs).contains_key(key@) ==> table_map(ks, cs)[key@] == table_map(
                    ks.take(i as int),
                    cs.take(i as int),
                )[key@],
            decreases i,
        {
            let j = i - 1;
            assert(ks.take(i as int).drop_last() =~= ks.take(j as int));
            assert(cs.take(i as int).drop_last() =~= cs.take(j as int));
            if bytes_equal(self.keys[j].as_slice(), key) {
                return Some(self.colors[j]);
            }
            i = j;
        }
        None
    }

    /// Builds the table of a color file's rows; fails at the first row whose
    /// color components cannot be read.
    pub fn from_rows(rows: &Vec<Vec<u8>>) -> (r: Result<ColorTable, PafError>)
        ensures
            match r {
                Ok(t) => t.wf() && t@ == rows_map(views(rows@)),
                Err(e) => exists|i: int|
                    first_bad_row(views(rows@), i) && e == PafError::BadColorValue(i as usize),
            },
    {
        let ghost rs = views(rows@);
        let mut t = ColorTable::new();
        let mut i: usize = 0;
        while i < rows.len()
            invariant
                i <= rows@.len(),
                rs == views(rows@),
                t.wf(),
                t@ == rows_map(rs.take(i as int)),
                forall|j: int| 0 <= j < i ==> color_row(#[trigger] rs[j]) is Some,
            decreases rows@.len() - i,
        {
            assert(rs[i as int] == rows@[i as int]@);
            assert(rs.take(i as int + 1).drop_last() =~= rs.take(i as int));
            match parse_color_row(rows[i].as_slice()) {
                Some((name, c)) => {
                    t.insert(name, c);
                },
                None => {
                    assert(first_bad_row(rs, i as int));
                    return Err(PafError::BadColorValue(i));
                },
            }
            i = i + 1;
        }
        assert(rs.take(rows@.len() as int) =~= rs);
        Ok(t)
    }
}

/// `d` occurs in `s` starting at position `p`.
pub open spec fn occurs_at(s: Seq<u8>, d: Seq<u8>, p: int) -> bool {
    0 <= p && p + d.len() <= s.len() && s.subrange(p, p + d.len()) == d
}

/// The lookup key of a name: the part before the first occurrence of `delim`,
/// or the whole name where `delim` is empty or does not occur.
#[verifier::opaque]
pub open spec fn color_key(name: Seq<u8>, delim: Seq<u8>) -> Seq<u8> {
    if delim.len() > 0 && exists|p: int| occurs_at(name, delim, p) {
        name.take(
            choose|p: int|
                occurs_at(name, delim, p) && forall|q: int| 0 <= q < p ==> !occurs_at(name, delim, q),
        )
    } else {
        name
    }
}

/// The color of a node named `name`: the table's color for its key, or black
/// where the table has none.
pub open spec fn node_color(table: Map<Seq<u8>, (u16, u16, u16)>, name: Seq<u8>, delim: Seq<u8>) -> (
    u16,
    u16,
    u16,
) {
    let k = color_key(name, delim);
    if table.contains_key(k) {
        table[k]
    } else {
        (0u16, 0u16, 0u16)
    }
}

fn occurs(s: &[u8], d: &[u8], p: usize) -> (r: bool)
    requires
        p + d@.len() <= s@.len(),
    ensures
        r == occurs_at(s@, d@, p as int),
{
    let slen = s.len();
    let mut j: usize = 0;
    while j < d.len()
        invariant
            slen == s@.len(),
            p + d@.len() <= s@.len(),
            j <= d@.len(),
            s@.subrange(p as int, p + j) == d@.take(j as int),
        decreases d@.len() - j,
    {
        if s[p + j] != d[j] {
            assert(s@.subrange(p as int, p + d@.len())[j as int] != d@[j as int]);
            return false;
        }
        j = j + 1;
        assert(s@.subrange(p as int, p + j) =~= d@.take(j as int));
    }
    assert(d@.take(j as int) =~= d@);
    true
}

fn prefix(s: &[u8], n: usize) -> (r: Vec<u8>)
    requires
        n <= s@.len(),
    ensures
        r@ == s@.take(n as int),
{
    let mut r: Vec<u8> = Vec::new();
    let mut i: usize = 0;
    while i < n
        invariant
            n <= s@.len(),
            i <= n,
            r@ == s@.take(i as int),
        decreases n - i,
    {
        r.push(s[i]);
        i = i + 1;
        assert(r@ =~= s@.take(i as int));
    }
    r
}

/// The lookup key of `name` for the delimiter `delim` (empty for none).
pub fn lookup_key(name: &[u8], delim: &[u8]) -> (r: Vec<u8>)
    ensures
        r@ == color_key(name@, delim@),
{
    if delim.len() == 0 || delim.len() > name.len() {
        proof {
            reveal(color_key);
            if delim@.len() > 0 {
                assert(forall|p: int| !occurs_at(name@, delim@, p));
            }
        }
        return prefix(name, name.len());
    }
    let last: usize = name.len() - delim.len();
    let mut p: usize = 0;
    while p <= last
        invariant
            last + delim@.len() == name@.len(),
            name@.len() <= usize::MAX,
            delim@.len() > 0,
            p <= last + 1,
            forall|q: int| 0 <= q < p ==> !occurs_at(name@, delim@, q),
        decreases last + 1 - p,
    {
        if occurs(name, delim, p) {
            proof {
                let c = choose|c: int|
                    occurs_at(name@, delim@, c) && forall|q: int|
                        0 <= q < c ==> !occurs_at(name@, delim@, q);
                assert(c == p);
                reveal(color_key);
            }
            return prefix(name, p);
        }
        p = p + 1;
    }
    assert(forall|q: int| !occurs_at(name@, delim@, q));
    proof {
        reveal(color_key);
    }
    prefix(name, name.len())
}

/// The color of the node named `name` in `table`, with `delim` (empty for
/// none) cutting the lookup key from the name.
pub fn color_of(table: &ColorTable, name: &[u8], delim: &[u8]) -> (r: (u16, u16, u16))
    requires
        table.wf(),
    ensures
        r == node_color(table@, name@, delim@),
{
    let key = lookup_key(name, delim);
    match table.get(key.as_slice()) {
        Some(c) => c,
        None => (0, 0, 0),
    }
}

/// Without a color file every node is black.
pub proof fn lemma_no_colors_black(name: Seq<u8>, delim: Seq<u8>)
    ensures
        node_color(Map::empty(), name, delim) == (0u16, 0u16, 0u16),
{
}

} // verus!
