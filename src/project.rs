//! The outputs: a record list rewritten with identifiers, a Pajek network, an
//! edge list, a node list and a GEXF document, each as its sequence of lines
//! (without line terminators).

use vstd::prelude::*;

use crate::catalog::{
    input_names, lemma_name_count, lemma_names_covered, lemma_position, position, query, record_ok, target, LineFault,
    NameCatalog, PafError,
};
use crate::colors::{color_of, node_color, ColorTable};
use crate::text::{decimal, fields, push_bytes, push_decimal, push_text, split_fields, text, views, TAB};

verus! {

/// Why a record cannot be projected with the catalog `names`, if it cannot.
pub open spec fn line_fault(names: Seq<Seq<u8>>, line: Seq<u8>) -> Option<LineFault> {
    if !record_ok(line) {
        Some(LineFault::TooFewFields)
    } else if !names.contains(query(line)) || !names.contains(target(line)) {
        Some(LineFault::UnknownName)
    } else {
        None
    }
}

/// Line `i` is the first record that cannot be projected.
pub open spec fn first_fault(names: Seq<Seq<u8>>, lines: Seq<Seq<u8>>, i: int) -> bool {
    &&& 0 <= i < lines.len()
    &&& line_fault(names, lines[i]) is Some
    &&& forall|j: int| 0 <= j < i ==> line_fault(names, #[trigger] lines[j]) is None
}

/// Every record can be projected.
pub open spec fn no_fault(names: Seq<Seq<u8>>, lines: Seq<Seq<u8>>) -> bool {
    forall|j: int| 0 <= j < lines.len() ==> line_fault(names, #[trigger] lines[j]) is None
}

/// The error reported for a fault at line `i`.
pub open spec fn fault_error(f: LineFault, i: int) -> PafError {
    match f {
        LineFault::TooFewFields => PafError::MalformedRecord(i as usize),
        LineFault::UnknownName => PafError::UnknownName(i as usize),
    }
}

/// The projection fails exactly at the first record that cannot be projected.
pub open spec fn fails_at_first_fault(names: Seq<Seq<u8>>, lines: Seq<Seq<u8>>, e: PafError) -> bool {
    exists|i: int| first_fault(names, lines, i) && e == fault_error(line_fault(names, lines[i])->0, i)
}

/// The identifier of `n` in decimal.
pub open spec fn id_text(names: Seq<Seq<u8>>, n: Seq<u8>) -> Seq<u8> {
    decimal((position(names, n) + 1) as nat)
}

/// `query-id target-id`.
pub open spec fn edge_text(names: Seq<Seq<u8>>, line: Seq<u8>) -> Seq<u8> {
    id_text(names, query(line)) + text(" ") + id_text(names, target(line))
}

/// The fields joined by tabs.
pub open spec fn join_tab(f: Seq<Seq<u8>>) -> Seq<u8>
    decreases f.len(),
{
    if f.len() == 0 {
        Seq::empty()
    } else if f.len() == 1 {
        f[0]
    } else {
        join_tab(f.drop_last()) + seq![TAB] + f.last()
    }
}

/// The record with fields 0 and 5 replaced by their identifiers.
pub open spec fn rewrite_text(names: Seq<Seq<u8>>, line: Seq<u8>) -> Seq<u8> {
    join_tab(
        fields(line).map(
            |k: int, x: Seq<u8>|
                if k == 0 || k == 5 {
                    id_text(names, x)
                } else {
                    x
                },
        ),
    )
}

/// The rewritten records.
pub open spec fn rewrite_lines(names: Seq<Seq<u8>>, lines: Seq<Seq<u8>>) -> Seq<Seq<u8>> {
    lines.map_values(|l: Seq<u8>| rewrite_text(names, l))
}

/// One edge per record.
pub open spec fn edgelist_lines(names: Seq<Seq<u8>>, lines: Seq<Seq<u8>>) -> Seq<Seq<u8>> {
    lines.map_values(|l: Seq<u8>| edge_text(names, l))
}

/// `id name`, for the name at position `i`.
pub open spec fn node_entry(i: int, n: Seq<u8>) -> Seq<u8> {
    decimal((i + 1) as nat) + text(" ") + n
}

/// One `id name` line per name of the catalog, in catalog order.
pub open spec fn nodelist_lines(names: Seq<Seq<u8>>) -> Seq<Seq<u8>> {
    names.map(|i: int, n: Seq<u8>| node_entry(i, n))
}

/// `id "name"`, for the name at position `i`.
pub open spec fn vertex_entry(i: int, n: Seq<u8>) -> Seq<u8> {
    decimal((i + 1) as nat) + text(" \"") + n + text("\"")
}

/// The first line of a Pajek network: `*Vertices` and the number of names.
pub open spec fn vertices_header(n: nat) -> Seq<u8> {
    text("*Vertices ") + decimal(n)
}

/// A Pajek network: the vertex count, one vertex per name, then `*arcs` and
/// one arc per record.
pub open spec fn pajek_lines(names: Seq<Seq<u8>>, lines: Seq<Seq<u8>>) -> Seq<Seq<u8>> {
    seq![vertices_header(names.len())] + names.map(|i: int, n: Seq<u8>| vertex_entry(i, n))
        + seq![text("*arcs")] + edgelist_lines(names, lines)
}

/// A GEXF node element with its color.
pub open spec fn node_element(i: int, n: Seq<u8>, c: (u16, u16, u16)) -> Seq<u8> {
    text("<node id=\"") + decimal((i + 1) as nat) + text("\" label=\"") + n + text(
        "\"><viz:color r=\"",
    ) + decimal(c.0 as nat) + text("\" g=\"") + decimal(c.1 as nat) + text("\" b=\"") + decimal(
        c.2 as nat,
    ) + text("\" a=\"1.0\"/></node>")
}

/// A GEXF edge element; `k` counts the records from one.
pub open spec fn edge_element(names: Seq<Seq<u8>>, k: int, line: Seq<u8>) -> Seq<u8> {
    text("<edge id=\"") + decimal(k as nat) + text("\" source=\"") + id_text(names, query(line))
        + text("\" target=\"") + id_text(names, target(line)) + text("\" />")
}

/// One node element per name.
pub open spec fn gexf_nodes(
    names: Seq<Seq<u8>>,
    table: Map<Seq<u8>, (u16, u16, u16)>,
    delim: Seq<u8>,
) -> Seq<Seq<u8>> {
    names.map(|i: int, n: Seq<u8>| node_element(i, n, node_color(table, n, delim)))
}

/// One edge element per record.
pub open spec fn gexf_edges(names: Seq<Seq<u8>>, lines: Seq<Seq<u8>>) -> Seq<Seq<u8>> {
    lines.map(|k: int, l: Seq<u8>| edge_element(names, k + 1, l))
}

/// The opening lines of a GEXF document, up to the start of the nodes.
pub open spec fn gexf_head() -> Seq<Seq<u8>> {
    seq![
        text("<?xml version=\"1.0\" encoding=\"UTF-8\"?>"),
        text(GEXF_OPEN),
        text("<graph>"),
        text("<nodes>"),
    ]
}

/// A GEXF document: the nodes, then the edges.
pub open spec fn gexf_lines(
    names: Seq<Seq<u8>>,
    lines: Seq<Seq<u8>>,
    table: Map<Seq<u8>, (u16, u16, u16)>,
    delim: Seq<u8>,
) -> Seq<Seq<u8>> {
    gexf_head() + gexf_nodes(names, table, delim) + seq![text("</nodes>"), text("<edges>")]
        + gexf_edges(names, lines) + seq![text("</edges>"), text("</graph>"), text("</gexf>")]
}

/// The root element of a GEXF document.
pub const GEXF_OPEN: &'static str = "<gexf xmlns=\"http://www.gexf.net/1.2draft\" xmlns:viz=\"http://www.gexf.net/1.1draft/viz\" xmlns:xsi=\"http://www.w3.org/2001/XMLSchema-instance\" xsi:schemaLocation=\"http://www.gexf.net/1.2draft http://www.gexf.net/1.2draft/gexf.xsd\" version=\"1.2\">";

fn text_line(s: &str) -> (r: Vec<u8>)
    ensures
        r@ == text(s),
{
    let mut out: Vec<u8> = Vec::new();
    push_text(&mut out, s);
    assert(out@ =~= text(s));
    out
}

impl NameCatalog {
    fn push_id(&self, out: &mut Vec<u8>, name: &[u8])
        requires
            self.wf(),
            self@.contains(name@),
        ensures
            final(out)@ == old(out)@ + id_text(self@, name@),
    {
        let id = self.get_id(name);
        push_decimal(out, id);
    }

    /// The two names of a record, checked against the catalog.
    fn checked_names(&self, line: &[u8]) -> (r: Result<Vec<Vec<u8>>, LineFault>)
        requires
            self.wf(),
        ensures
            match r {
                Ok(f) => line_fault(self@, line@) is None && views(f@) == fields(line@),
                Err(e) => line_fault(self@, line@) == Some(e),
            },
    {
        let f = split_fields(line);
        if f.len() < 6 {
            return Err(LineFault::TooFewFields);
        }
        assert(f@[0]@ == query(line@) && f@[5]@ == target(line@));
        if self.lookup(f[0].as_slice()).is_none() || self.lookup(f[5].as_slice()).is_none() {
            return Err(LineFault::UnknownName);
        }
        Ok(f)
    }

    /// `query-id target-id` for one record.
    pub fn edge_line(&self, line: &[u8]) -> (r: Result<Vec<u8>, LineFault>)
        requires
            self.wf(),
        ensures
            match r {
                Ok(o) => line_fault(self@, line@) is None && o@ == edge_text(self@, line@),
                Err(e) => line_fault(self@, line@) == Some(e),
            },
    {
        let f = self.checked_names(line)?;
        let mut out: Vec<u8> = Vec::new();
        self.push_id(&mut out, f[0].as_slice());
        push_text(&mut out, " ");
        self.push_id(&mut out, f[5].as_slice());
        assert(out@ =~= edge_text(self@, line@));
        Ok(out)
    }

    /// One record with fields 0 and 5 replaced by their identifiers.
    pub fn rewrite_line(&self, line: &[u8]) -> (r: Result<Vec<u8>, LineFault>)
        requires
            self.wf(),
        ensures
            match r {
                Ok(o) => line_fault(self@, line@) is None && o@ == rewrite_text(self@, line@),
                Err(e) => line_fault(self@, line@) == Some(e),
            },
    {
        let f = self.checked_names(line)?;
        let ghost m = fields(line@).map(
            |k: int, x: Seq<u8>|
                if k == 0 || k == 5 {
                    id_text(self@, x)
                } else {
                    x
                },
        );
        let mut out: Vec<u8> = Vec::new();
        let mut k: usize = 0;
        while k < f.len()
            invariant
                self.wf(),
                line_fault(self@, line@) is None,
                views(f@) == fields(line@),
                m.len() == f@.len(),
                m == fields(line@).map(
                    |k: int, x: Seq<u8>|
                        if k == 0 || k == 5 {
                            id_text(self@, x)
                        } else {
                            x
                        },
                ),
                k <= f@.len(),
                out@ == join_tab(m.take(k as int)),
            decreases f@.len() - k,
        {
            assert(m.take(k as int + 1).drop_last() =~= m.take(k as int));
            assert(f@[k as int]@ == fields(line@)[k as int]);
            if k > 0 {
                out.push(TAB);
            }
            if k == 0 || k == 5 {
                self.push_id(&mut out, f[k].as_slice());
            } else {
                push_bytes(&mut out, f[k].as_slice());
            }
            assert(out@ =~= join_tab(m.take(k as int + 1)));
            k = k + 1;
        }
        assert(m.take(k as int) =~= m);
        Ok(out)
    }

    /// One `query-id target-id` line per record, in input order. Fails at
    /// the first record that has fewer than six fields or names a sequence
    /// that the catalog does not hold.
    pub fn to_edgelist(&self, lines: &Vec<Vec<u8>>) -> (r: Result<Vec<Vec<u8>>, PafError>)
        requires
            self.wf(),
        ensures
            match r {
                Ok(out) => no_fault(self@, views(lines@)) && views(out@) == edgelist_lines(
                    self@,
                    views(lines@),
                ),
                Err(e) => fails_at_first_fault(self@, views(lines@), e),
            },
    {
        let ghost ls = views(lines@);
        let mut out: Vec<Vec<u8>> = Vec::new();
        let mut i: usize = 0;
        while i < lines.len()
            invariant
                self.wf(),
                ls == views(lines@),
                i <= ls.len(),
                no_fault(self@, ls.take(i as int)),
                views(out@) == edgelist_lines(self@, ls.take(i as int)),
            decreases ls.len() - i,
        {
            assert(ls[i as int] == lines@[i as int]@);
            assert(forall|j: int| 0 <= j < i ==> ls.take(i as int)[j] == ls[j]);
            match self.edge_line(lines[i].as_slice()) {
                Ok(e) => {
                    let ghost before = views(out@);
                    let ghost ev = e@;
                    out.push(e);
                    assert(views(out@) =~= before.push(ev));
                    assert(views(out@) =~= edgelist_lines(self@, ls.take(i as int + 1)));
                    assert(no_fault(self@, ls.take(i as int + 1))) by {
                        assert(forall|j: int| 0 <= j <= i ==> ls.take(i as int + 1)[j] == ls[j]);
                    }
                },
                Err(f) => {
                    assert(first_fault(self@, ls, i as int));
                    return Err(fault_at(f, i));
                },
            }
            i = i + 1;
        }
        assert(ls.take(i as int) =~= ls);
        Ok(out)
    }

    /// Every record rewritten with the identifiers of its names, in input
    /// order; fails as `to_edgelist` does.
    pub fn rewrite_with_ids(&self, lines: &Vec<Vec<u8>>) -> (r: Result<Vec<Vec<u8>>, PafError>)
        requires
            self.wf(),
        ensures
            match r {
                Ok(out) => no_fault(self@, views(lines@)) && views(out@) == rewrite_lines(
                    self@,
                    views(lines@),
                ),
                Err(e) => fails_at_first_fault(self@, views(lines@), e),
            },
    {
        let ghost ls = views(lines@);
        let mut out: Vec<Vec<u8>> = Vec::new();
        let mut i: usize = 0;
        while i < lines.len()
            invariant
                self.wf(),
                ls == views(lines@),
                i <= ls.len(),
                no_fault(self@, ls.take(i as int)),
                views(out@) == rewrite_lines(self@, ls.take(i as int)),
            decreases ls.len() - i,
        {
            assert(ls[i as int] == lines@[i as int]@);
            assert(forall|j: int| 0 <= j < i ==> ls.take(i as int)[j] == ls[j]);
            match self.rewrite_line(lines[i].as_slice()) {
                Ok(e) => {
                    let ghost before = views(out@);
                    let ghost ev = e@;
                    out.push(e);
                    assert(views(out@) =~= before.push(ev));
                    assert(views(out@) =~= rewrite_lines(self@, ls.take(i as int + 1)));
                    assert(no_fault(self@, ls.take(i as int + 1))) by {
                        assert(forall|j: int| 0 <= j <= i ==> ls.take(i as int + 1)[j] == ls[j]);
                    }
                },
                Err(f) => {
                    assert(first_fault(self@, ls, i as int));
                    return Err(fault_at(f, i));
                },
            }
            i = i + 1;
        }
        assert(ls.take(i as int) =~= ls);
        Ok(out)
    }

    /// One `id name` line per name, in catalog order.
    pub fn to_nodelist(&self) -> (r: Vec<Vec<u8>>)
        ensures
            views(r@) == nodelist_lines(self@),
    {
        let ghost s = self@;
        let mut out: Vec<Vec<u8>> = Vec::new();
        let mut i: usize = 0;
        while i < self.len()
            invariant
                s == self@,
                i <= s.len(),
                views(out@) == nodelist_lines(s.take(i as int)),
            decreases s.len() - i,
        {
            let mut e: Vec<u8> = Vec::new();
            push_decimal(&mut e, i as u64 + 1);
            push_text(&mut e, " ");
            push_bytes(&mut e, self.name_at(i));
            let ghost before = views(out@);
            let ghost ev = e@;
            out.push(e);
            assert(views(out@) =~= before.push(ev));
            assert(views(out@) =~= nodelist_lines(s.take(i as int + 1)));
            i = i + 1;
        }
        assert(s.take(i as int) =~= s);
        out
    }

    /// A Pajek network: `*Vertices N`, one `id "name"` line per name, `*arcs`,
    /// then one `query-id target-id` line per record; fails as `to_edgelist`
    /// does.
    pub fn to_pajek_net(&self, lines: &Vec<Vec<u8>>) -> (r: Result<Vec<Vec<u8>>, PafError>)
        requires
            self.wf(),
        ensures
            match r {
                Ok(out) => no_fault(self@, views(lines@)) && views(out@) == pajek_lines(
                    self@,
                    views(lines@),
                ),
                Err(e) => fails_at_first_fault(self@, views(lines@), e),
            },
    {
        let arcs = self.to_edgelist(lines)?;
        let ghost s = self@;
        let ghost vs = s.map(|i: int, n: Seq<u8>| vertex_entry(i, n));
        let mut out: Vec<Vec<u8>> = Vec::new();
        let mut head = text_line("*Vertices ");
        push_decimal(&mut head, self.len() as u64);
        out.push(head);
        let mut i: usize = 0;
        while i < self.len()
            invariant
                s == self@,
                vs == s.map(|i: int, n: Seq<u8>| vertex_entry(i, n)),
                i <= s.len(),
                views(out@) == seq![vertices_header(s.len())] + vs.take(i as int),
            decreases s.len() - i,
        {
            let mut e: Vec<u8> = Vec::new();
            push_decimal(&mut e, i as u64 + 1);
            push_text(&mut e, " \"");
            push_bytes(&mut e, self.name_at(i));
            push_text(&mut e, "\"");
            let ghost before = views(out@);
            let ghost ev = e@;
            out.push(e);
            assert(views(out@) =~= before.push(ev));
            assert(views(out@) =~= seq![vertices_header(s.len())] + vs.take(i as int + 1));
            i = i + 1;
        }
        assert(vs.take(i as int) =~= vs);
        push_line(&mut out, text_line("*arcs"));
        append_lines(&mut out, arcs);
        assert(views(out@) =~= pajek_lines(s, views(lines@)));
        Ok(out)
    }

    /// A GEXF document: one node per name, colored from `colors` with the
    /// lookup key cut at `delim` (empty for none), then one edge per record,
    /// numbered from one; fails as `to_edgelist` does.
    pub fn to_gexf(&self, lines: &Vec<Vec<u8>>, colors: &ColorTable, delim: &[u8]) -> (r: Result<
        Vec<Vec<u8>>,
        PafError,
    >)
        requires
            self.wf(),
            colors.wf(),
        ensures
            match r {
                Ok(out) => no_fault(self@, views(lines@)) && views(out@) == gexf_lines(
                    self@,
                    views(lines@),
                    colors@,
                    delim@,
                ),
                Err(e) => fails_at_first_fault(self@, views(lines@), e),
            },
    {
        let ghost s = self@;
        let ghost ls = views(lines@);
        let ghost ns = gexf_nodes(s, colors@, delim@);
        let ghost es = gexf_edges(s, ls);
        let mut out: Vec<Vec<u8>> = Vec::new();
        push_line(&mut out, text_line("<?xml version=\"1.0\" encoding=\"UTF-8\"?>"));
        push_line(&mut out, text_line(GEXF_OPEN));
        push_line(&mut out, text_line("<graph>"));
        push_line(&mut out, text_line("<nodes>"));
        assert(views(out@) =~= gexf_head());
        let mut i: usize = 0;
        while i < self.len()
            invariant
                s == self@,
                colors.wf(),
                ns == gexf_nodes(s, colors@, delim@),
                i <= s.len(),
                views(out@) == gexf_head() + ns.take(i as int),
            decreases s.len() - i,
        {
            let name = self.name_at(i);
            let c = color_of(colors, name, delim);
            let mut e = text_line("<node id=\"");
            push_decimal(&mut e, i as u64 + 1);
            push_text(&mut e, "\" label=\"");
            push_bytes(&mut e, name);
            push_text(&mut e, "\"><viz:color r=\"");
            push_decimal(&mut e, c.0 as u64);
            push_text(&mut e, "\" g=\"");
            push_decimal(&mut e, c.1 as u64);
            push_text(&mut e, "\" b=\"");
            push_decimal(&mut e, c.2 as u64);
            push_text(&mut e, "\" a=\"1.0\"/></node>");
            let ghost before = views(out@);
            let ghost ev = e@;
            out.push(e);
            assert(ev =~= ns[i as int]);
            assert(views(out@) =~= before.push(ev));
            assert(views(out@) =~= gexf_head() + ns.take(i as int + 1));
            i = i + 1;
        }
        assert(ns.take(i as int) =~= ns);
        push_line(&mut out, text_line("</nodes>"));
        push_line(&mut out, text_line("<edges>"));
        let ghost mid = views(out@);
        assert(mid =~= gexf_head() + ns + seq![text("</nodes>"), text("<edges>")]);
        let mut j: usize = 0;
        while j < lines.len()
            invariant
                self.wf(),
                s == self@,
                ls == views(lines@),
                es == gexf_edges(s, ls),
                j <= ls.len(),
                no_fault(s, ls.take(j as int)),
                views(out@) == mid + es.take(j as int),
            decreases ls.len() - j,
        {
            assert(ls[j as int] == lines@[j as int]@);
            assert(forall|k: int| 0 <= k < j ==> ls.take(j as int)[k] == ls[k]);
            match self.checked_names(lines[j].as_slice()) {
                Ok(f) => {
                    let mut e = text_line("<edge id=\"");
                    push_decimal(&mut e, j as u64 + 1);
                    push_text(&mut e, "\" source=\"");
                    self.push_id(&mut e, f[0].as_slice());
                    push_text(&mut e, "\" target=\"");
                    self.push_id(&mut e, f[5].as_slice());
                    push_text(&mut e, "\" />");
                    let ghost before = views(out@);
                    let ghost ev = e@;
                    out.push(e);
                    assert(ev =~= es[j as int]);
                    assert(views(out@) =~= before.push(ev));
                    assert(views(out@) =~= mid + es.take(j as int + 1));
                    assert(no_fault(s, ls.take(j as int + 1))) by {
                        assert(forall|k: int| 0 <= k <= j ==> ls.take(j as int + 1)[k] == ls[k]);
                    }
                },
                Err(f) => {
                    assert(first_fault(s, ls, j as int));
                    return Err(fault_at(f, j));
                },
            }
            j = j + 1;
        }
        assert(es.take(j as int) =~= es);
        assert(ls.take(j as int) =~= ls);
        push_line(&mut out, text_line("</edges>"));
        push_line(&mut out, text_line("</graph>"));
        push_line(&mut out, text_line("</gexf>"));
        assert(views(out@) =~= mid + es + seq![text("</edges>"), text("</graph>"), text("</gexf>")]);
        assert(views(out@) =~= gexf_lines(s, ls, colors@, delim@));
        Ok(out)
    }
}

/// With the catalog built from an input, every record of that input can be
/// projected: no output names an identifier that the catalog lacks.
pub proof fn lemma_projection_total(lines: Seq<Seq<u8>>, c: &NameCatalog)
    requires
        c.built_from(lines),
    ensures
        no_fault(c@, lines),
{
    lemma_names_covered(lines, c);
}

/// Read back, the node list pairs each name of the input with its
/// identifier, once, and holds nothing else.
pub proof fn lemma_nodelist_round_trip(lines: Seq<Seq<u8>>, c: &NameCatalog)
    requires
        c.built_from(lines),
    ensures
        nodelist_lines(c@).len() == input_names(lines).len(),
        forall|k: int|
            0 <= k < nodelist_lines(c@).len() ==> input_names(lines).contains(c@[k])
                && #[trigger] nodelist_lines(c@)[k] == decimal(c.id(c@[k]) as nat) + text(" ")
                + c@[k],
        forall|n: Seq<u8>|
            #[trigger] input_names(lines).contains(n) ==> 1 <= c.id(n) <= nodelist_lines(c@).len()
                && nodelist_lines(c@)[c.id(n) - 1] == decimal(c.id(n) as nat) + text(" ") + n,
{
    lemma_name_count(lines, c);
    let s = c@;
    assert forall|k: int| 0 <= k < nodelist_lines(s).len() implies input_names(lines).contains(
        s[k],
    ) && #[trigger] nodelist_lines(s)[k] == decimal(c.id(s[k]) as nat) + text(" ") + s[k] by {
        lemma_position(s, k);
        assert(s.to_set().contains(s[k]));
    }
    assert forall|n: Seq<u8>| #[trigger] input_names(lines).contains(n) implies 1 <= c.id(n)
        <= nodelist_lines(s).len() && nodelist_lines(s)[c.id(n) - 1] == decimal(c.id(n) as nat)
        + text(" ") + n by {
        assert(s.to_set().contains(n));
        let k = choose|k: int| 0 <= k < s.len() && s[k] == n;
        lemma_position(s, k);
    }
}

/// The vertex count of the Pajek network is the number of distinct names of
/// the input, and the GEXF document has that many nodes; each vertex is
/// numbered with the identifier of its name.
pub proof fn lemma_vertex_counts(
    lines: Seq<Seq<u8>>,
    c: &NameCatalog,
    table: Map<Seq<u8>, (u16, u16, u16)>,
    delim: Seq<u8>,
)
    requires
        c.built_from(lines),
    ensures
        pajek_lines(c@, lines)[0] == vertices_header(input_names(lines).len()),
        gexf_nodes(c@, table, delim).len() == input_names(lines).len(),
        gexf_lines(c@, lines, table, delim).subrange(4, 4 + c@.len() as int) == gexf_nodes(
            c@,
            table,
            delim,
        ),
        forall|k: int|
            0 <= k < c@.len() ==> #[trigger] pajek_lines(c@, lines)[k + 1] == decimal(
                c.id(c@[k]) as nat,
            ) + text(" \"") + c@[k] + text("\""),
{
    lemma_name_count(lines, c);
    assert forall|k: int| 0 <= k < c@.len() implies #[trigger] pajek_lines(c@, lines)[k + 1]
        == decimal(c.id(c@[k]) as nat) + text(" \"") + c@[k] + text("\"") by {
        lemma_position(c@, k);
    }
    let g = gexf_lines(c@, lines, table, delim);
    assert(g.subrange(4, 4 + c@.len() as int) =~= gexf_nodes(c@, table, delim));
}

/// Each output has one edge line per input record, duplicates and
/// self-loops included.
pub proof fn lemma_edge_counts(
    names: Seq<Seq<u8>>,
    lines: Seq<Seq<u8>>,
    table: Map<Seq<u8>, (u16, u16, u16)>,
    delim: Seq<u8>,
)
    ensures
        edgelist_lines(names, lines).len() == lines.len(),
        rewrite_lines(names, lines).len() == lines.len(),
        gexf_edges(names, lines).len() == lines.len(),
        pajek_lines(names, lines).subrange(names.len() + 2 as int, pajek_lines(names, lines).len() as int)
            == edgelist_lines(names, lines),
        gexf_lines(names, lines, table, delim).subrange(
            names.len() + 6 as int,
            names.len() + 6 + lines.len() as int,
        ) == gexf_edges(names, lines),
        gexf_lines(names, lines, table, delim).len() == names.len() + lines.len() + 9,
{
    let el = edgelist_lines(names, lines);
    let vs = names.map(|i: int, n: Seq<u8>| vertex_entry(i, n));
    let p = seq![vertices_header(names.len())] + vs + seq![text("*arcs")] + el;
    assert(p == pajek_lines(names, lines));
    assert(p.subrange(names.len() + 2 as int, p.len() as int) =~= el);
    let a = gexf_head() + gexf_nodes(names, table, delim) + seq![text("</nodes>"), text("<edges>")];
    let es = gexf_edges(names, lines);
    let z = seq![text("</edges>"), text("</graph>"), text("</gexf>")];
    let g = a + es + z;
    assert(g == gexf_lines(names, lines, table, delim));
    assert(a.len() == names.len() + 6);
    assert(g.subrange(a.len() as int, a.len() + es.len() as int) =~= es);
}

fn fault_at(f: LineFault, i: usize) -> (r: PafError)
    ensures
        r == fault_error(f, i as int),
{
    match f {
        LineFault::TooFewFields => PafError::MalformedRecord(i),
        LineFault::UnknownName => PafError::UnknownName(i),
    }
}

fn push_line(out: &mut Vec<Vec<u8>>, line: Vec<u8>)
    ensures
        views(final(out)@) == views(old(out)@).push(line@),
{
    let ghost l = line@;
    out.push(line);
    assert(views(out@) =~= views(old(out)@).push(l));
}

fn append_lines(out: &mut Vec<Vec<u8>>, more: Vec<Vec<u8>>)
    ensures
        views(final(out)@) == views(old(out)@) + views(more@),
{
    let mut more = more;
    let ghost m = more@;
    out.append(&mut more);
    assert(views(out@) =~= views(old(out)@) + views(m));
}

} // verus!
