use pafnet::{
    color_of, decimal_bytes, lookup_key, parse_color_row, parse_u16, record_names, split_fields,
    ColorTable, LineFault, NameCatalog, PafError,
};

fn lines(text: &[&str]) -> Vec<Vec<u8>> {
    text.iter().map(|l| l.as_bytes().to_vec()).collect()
}

fn strings(out: &[Vec<u8>]) -> Vec<String> {
    out.iter().map(|l| String::from_utf8(l.clone()).unwrap()).collect()
}

fn catalog(text: &[&str]) -> NameCatalog {
    NameCatalog::new(&lines(text)).unwrap()
}

fn names(c: &NameCatalog) -> Vec<String> {
    (0..c.len()).map(|i| String::from_utf8(c.name_at(i).to_vec()).unwrap()).collect()
}

#[test]
fn example_scenario() {
    let input = lines(&["a\t.\t.\t.\t.\tb", "b\t.\t.\t.\t.\tc"]);
    let c = NameCatalog::new(&input).unwrap();
    assert_eq!(names(&c), vec!["a", "b", "c"]);
    assert_eq!(c.get_id(b"a"), 1);
    assert_eq!(c.get_id(b"b"), 2);
    assert_eq!(c.get_id(b"c"), 3);
    let edges = c.to_edgelist(&input).unwrap();
    assert_eq!(strings(&edges), vec!["1 2", "2 3"]);
}

#[test]
fn malformed_line_rejected() {
    let short = lines(&["a\tb\tc\td\te"]);
    assert_eq!(NameCatalog::new(&short).err(), Some(PafError::MalformedRecord(0)));
    let second = lines(&["a\t.\t.\t.\t.\tb", "x", "c\t.\t.\t.\t.\td"]);
    assert_eq!(NameCatalog::new(&second).err(), Some(PafError::MalformedRecord(1)));
    let empty_line = lines(&["a\t.\t.\t.\t.\tb", ""]);
    assert_eq!(NameCatalog::new(&empty_line).err(), Some(PafError::MalformedRecord(1)));
}

#[test]
fn empty_input_gives_empty_catalog() {
    let c = catalog(&[]);
    assert_eq!(c.len(), 0);
    assert_eq!(c.lookup(b"a"), None);
    assert_eq!(strings(&c.to_pajek_net(&Vec::new()).unwrap()), vec!["*Vertices 0", "*arcs"]);
}

#[test]
fn ids_unique_and_in_range() {
    let text = [
        "zeta\t1\t2\t3\t+\talpha",
        "mid\t1\t2\t3\t-\tzeta",
        "alpha\t1\t2\t3\t+\talpha",
        "Beta\t1\t2\t3\t+\tmid\textra",
    ];
    let c = catalog(&text);
    assert_eq!(names(&c), vec!["Beta", "alpha", "mid", "zeta"]);
    let mut seen: Vec<u64> = Vec::new();
    for n in ["Beta", "alpha", "mid", "zeta"] {
        let id = c.get_id(n.as_bytes());
        assert!(id >= 1 && id <= 4);
        assert!(!seen.contains(&id));
        seen.push(id);
    }
    assert_eq!(c.lookup(b"beta"), None);
    assert_eq!(c.lookup(b""), None);
}

#[test]
fn ids_deterministic() {
    let text = ["q2\t.\t.\t.\t.\tt1", "q1\t.\t.\t.\t.\tq2", "t1\t.\t.\t.\t.\tq1"];
    let c1 = catalog(&text);
    let c2 = catalog(&text);
    for n in ["q1", "q2", "t1"] {
        assert_eq!(c1.get_id(n.as_bytes()), c2.get_id(n.as_bytes()));
        assert_eq!(c1.lookup(n.as_bytes()), Some(c1.get_id(n.as_bytes())));
    }
}

#[test]
fn rewrite_replaces_names_with_ids() {
    let input = lines(&["b\t100\t0\t50\t+\ta\t200\t10\t60", "a\t5\t0\t5\t-\ta"]);
    let c = NameCatalog::new(&input).unwrap();
    let out = c.rewrite_with_ids(&input).unwrap();
    assert_eq!(strings(&out), vec!["2\t100\t0\t50\t+\t1\t200\t10\t60", "1\t5\t0\t5\t-\t1"]);
    assert_eq!(c.rewrite_line(b"b\tx\tx\tx\tx\tb\t").unwrap(), b"2\tx\tx\tx\tx\t2\t".to_vec());
}

#[test]
fn unknown_name_reported() {
    let c = catalog(&["a\t.\t.\t.\t.\tb"]);
    let other = lines(&["a\t.\t.\t.\t.\tb", "a\t.\t.\t.\t.\tz"]);
    assert_eq!(c.to_edgelist(&other).err(), Some(PafError::UnknownName(1)));
    assert_eq!(c.rewrite_with_ids(&other).err(), Some(PafError::UnknownName(1)));
    assert_eq!(c.to_pajek_net(&other).err(), Some(PafError::UnknownName(1)));
    let short = lines(&["a\t.\t.\t.\t.\tb", "a\tb"]);
    assert_eq!(c.to_edgelist(&short).err(), Some(PafError::MalformedRecord(1)));
    assert_eq!(c.edge_line(b"z\t.\t.\t.\t.\ta").err(), Some(LineFault::UnknownName));
    assert_eq!(c.edge_line(b"a").err(), Some(LineFault::TooFewFields));
}

#[test]
fn nodelist_round_trip() {
    let c = catalog(&["c\t.\t.\t.\t.\ta", "b\t.\t.\t.\t.\tc", "c\t.\t.\t.\t.\tc"]);
    let out = strings(&c.to_nodelist());
    assert_eq!(out, vec!["1 a", "2 b", "3 c"]);
    let mut recovered: Vec<(u64, String)> = Vec::new();
    for l in &out {
        let (id, name) = l.split_once(' ').unwrap();
        recovered.push((id.parse().unwrap(), name.to_string()));
    }
    for (id, name) in &recovered {
        assert_eq!(c.get_id(name.as_bytes()), *id);
    }
    let set: Vec<&str> = recovered.iter().map(|(_, n)| n.as_str()).collect();
    assert_eq!(set, vec!["a", "b", "c"]);
}

#[test]
fn vertex_count_agreement() {
    let input = lines(&["x\t.\t.\t.\t.\ty", "y\t.\t.\t.\t.\tx", "z\t.\t.\t.\t.\tz"]);
    let c = NameCatalog::new(&input).unwrap();
    let net = strings(&c.to_pajek_net(&input).unwrap());
    assert_eq!(net[0], "*Vertices 3");
    assert_eq!(&net[1..4], &["1 \"x\"", "2 \"y\"", "3 \"z\""]);
    let gexf = strings(&c.to_gexf(&input, &ColorTable::new(), b"").unwrap());
    let nodes = gexf.iter().filter(|l| l.starts_with("<node ")).count();
    assert_eq!(nodes, 3);
}

#[test]
fn edge_count_agreement() {
    let input = lines(&["x\t.\t.\t.\t.\ty", "x\t.\t.\t.\t.\ty", "z\t.\t.\t.\t.\tz"]);
    let c = NameCatalog::new(&input).unwrap();
    let edges = strings(&c.to_edgelist(&input).unwrap());
    assert_eq!(edges, vec!["1 2", "1 2", "3 3"]);
    let net = strings(&c.to_pajek_net(&input).unwrap());
    let arcs = net.iter().position(|l| l == "*arcs").unwrap();
    assert_eq!(&net[arcs + 1..], &["1 2", "1 2", "3 3"]);
    let gexf = strings(&c.to_gexf(&input, &ColorTable::new(), b"").unwrap());
    let edge_lines: Vec<&String> = gexf.iter().filter(|l| l.starts_with("<edge ")).collect();
    assert_eq!(edge_lines.len(), 3);
    assert_eq!(edge_lines[2], "<edge id=\"3\" source=\"3\" target=\"3\" />");
    assert_eq!(c.rewrite_with_ids(&input).unwrap().len(), 3);
}

#[test]
fn gexf_document() {
    let input = lines(&["a\t.\t.\t.\t.\tb"]);
    let c = NameCatalog::new(&input).unwrap();
    let mut table = ColorTable::new();
    table.insert(b"a".to_vec(), (255, 0, 10));
    let gexf = strings(&c.to_gexf(&input, &table, b"").unwrap());
    assert_eq!(gexf.len(), 2 + 1 + 9);
    assert_eq!(gexf[0], "<?xml version=\"1.0\" encoding=\"UTF-8\"?>");
    assert!(gexf[1].starts_with("<gexf xmlns=\"http://www.gexf.net/1.2draft\""));
    assert_eq!(gexf[2], "<graph>");
    assert_eq!(gexf[3], "<nodes>");
    assert_eq!(
        gexf[4],
        "<node id=\"1\" label=\"a\"><viz:color r=\"255\" g=\"0\" b=\"10\" a=\"1.0\"/></node>"
    );
    assert_eq!(
        gexf[5],
        "<node id=\"2\" label=\"b\"><viz:color r=\"0\" g=\"0\" b=\"0\" a=\"1.0\"/></node>"
    );
    assert_eq!(gexf[6], "</nodes>");
    assert_eq!(gexf[7], "<edges>");
    assert_eq!(gexf[8], "<edge id=\"1\" source=\"1\" target=\"2\" />");
    assert_eq!(&gexf[9..], &["</edges>", "</graph>", "</gexf>"]);
}

#[test]
fn color_fallback_without_table() {
    let table = ColorTable::new();
    assert_eq!(color_of(&table, b"chr1#0#100", b"#"), (0, 0, 0));
    assert_eq!(color_of(&table, b"anything", b""), (0, 0, 0));
}

#[test]
fn color_prefix_lookup() {
    let rows = lines(&["chr1 10 20 30"]);
    let table = ColorTable::from_rows(&rows).unwrap();
    assert_eq!(color_of(&table, b"chr1#0#100", b"#"), (10, 20, 30));
    assert_eq!(color_of(&table, b"chr2#0#50", b"#"), (0, 0, 0));
    assert_eq!(color_of(&table, b"chr1#0#100", b""), (0, 0, 0));
    assert_eq!(color_of(&table, b"chr1", b""), (10, 20, 30));
}

#[test]
fn color_rows() {
    assert_eq!(parse_color_row(b"  g\t1 2  3 extra"), Some((b"g".to_vec(), (1, 2, 3))));
    assert_eq!(parse_color_row(b"g 7"), Some((b"g".to_vec(), (7, 0, 0))));
    assert_eq!(parse_color_row(b""), Some((Vec::new(), (0, 0, 0))));
    assert_eq!(parse_color_row(b"g 1 x 3"), None);
    let rows = lines(&["g 1 2 3", "h 4 5 6", "g 7 8 9"]);
    let table = ColorTable::from_rows(&rows).unwrap();
    assert_eq!(table.get(b"g"), Some((7, 8, 9)));
    assert_eq!(table.get(b"h"), Some((4, 5, 6)));
    assert_eq!(table.get(b"i"), None);
    let bad = lines(&["g 1 2 3", "h 4 70000 6"]);
    assert_eq!(ColorTable::from_rows(&bad).err(), Some(PafError::BadColorValue(1)));
}

#[test]
fn numbers() {
    assert_eq!(parse_u16(b"0"), Some(0));
    assert_eq!(parse_u16(b"65535"), Some(65535));
    assert_eq!(parse_u16(b"65536"), None);
    assert_eq!(parse_u16(b"0065535"), Some(65535));
    assert_eq!(parse_u16(b"+7"), Some(7));
    assert_eq!(parse_u16(b"-1"), None);
    assert_eq!(parse_u16(b"+"), None);
    assert_eq!(parse_u16(b""), None);
    assert_eq!(parse_u16(b"1a"), None);
    assert_eq!(decimal_bytes(0), b"0".to_vec());
    assert_eq!(decimal_bytes(10), b"10".to_vec());
    assert_eq!(decimal_bytes(u64::MAX), b"18446744073709551615".to_vec());
}

#[test]
fn fields_and_keys() {
    assert_eq!(split_fields(b""), vec![Vec::<u8>::new()]);
    assert_eq!(split_fields(b"a\t\tb"), vec![b"a".to_vec(), Vec::new(), b"b".to_vec()]);
    assert_eq!(
        record_names(b"q\t1\t2\t3\t+\tt\t9").unwrap(),
        (b"q".to_vec(), b"t".to_vec())
    );
    assert_eq!(record_names(b"q\t1\t2\t3\t+").err(), Some(LineFault::TooFewFields));
    assert_eq!(lookup_key(b"chr1#0#100", b"#"), b"chr1".to_vec());
    assert_eq!(lookup_key(b"chr1::x::y", b"::"), b"chr1".to_vec());
    assert_eq!(lookup_key(b"#lead", b"#"), Vec::<u8>::new());
    assert_eq!(lookup_key(b"plain", b"#"), b"plain".to_vec());
    assert_eq!(lookup_key(b"a#b", b""), b"a#b".to_vec());
    assert_eq!(lookup_key("x\u{e9}y".as_bytes(), "\u{e9}".as_bytes()), b"x".to_vec());
}
