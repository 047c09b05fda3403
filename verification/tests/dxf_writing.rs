use dxf_trutops_cleaner::dxf_read::{
    RawPoint,drawing_from_text, pairs_from_text};
use dxf_trutops_cleaner::dxf_write::{split_template_owned, Contour, Writer, FIRST_HANDLE};

fn pt(x: &str, y: &str) -> RawPoint {
    RawPoint { x: x.to_string(), y: y.to_string() }
}

#[test]
fn pair_text_uses_crlf() {
    let mut w = Writer::new();
    w.pair(8, "Layer");
    w.pair(-12, "x");
    assert_eq!(w.out, "8\r\nLayer\r\n-12\r\nx\r\n");
    assert_eq!(w.next_handle, FIRST_HANDLE);
}

#[test]
fn handles_are_hex_and_increase() {
    let mut w = Writer::new();
    assert_eq!(w.alloc_handle(), "400");
    assert_eq!(w.alloc_handle(), "401");
    w.next_handle = 0xAB;
    assert_eq!(w.alloc_handle(), "AB");
    w.next_handle = 0;
    assert_eq!(w.alloc_handle(), "0");
    assert!(w.out.is_empty());
}

#[test]
fn line_entity_text() {
    let mut w = Writer::new();
    w.write_line("CUT", ("1.000000000000", "2.000000000000"), ("3.5", "-4"));
    let expected = "0\r\nLINE\r\n5\r\n400\r\n330\r\n17\r\n100\r\nAcDbEntity\r\n8\r\nCUT\r\n\
100\r\nAcDbLine\r\n10\r\n1.000000000000\r\n20\r\n2.000000000000\r\n30\r\n0.000000000000\r\n\
11\r\n3.5\r\n21\r\n-4\r\n31\r\n0.000000000000\r\n210\r\n0.000000000000\r\n\
220\r\n0.000000000000\r\n230\r\n1.000000000000\r\n";
    assert_eq!(w.out, expected);
    assert_eq!(w.next_handle, 0x401);
}

#[test]
fn arc_entity_text() {
    let mut w = Writer::new();
    w.next_handle = 0x4FF;
    w.write_arc("0", ("0", "1"), "2", "90", "180");
    let expected = "0\r\nARC\r\n5\r\n4FF\r\n330\r\n17\r\n100\r\nAcDbEntity\r\n8\r\n0\r\n\
100\r\nAcDbCircle\r\n10\r\n0\r\n20\r\n1\r\n30\r\n0.000000000000\r\n40\r\n2\r\n\
210\r\n0.000000000000\r\n220\r\n0.000000000000\r\n230\r\n1.000000000000\r\n\
100\r\nAcDbArc\r\n50\r\n90\r\n51\r\n180\r\n";
    assert_eq!(w.out, expected);
    assert_eq!(w.next_handle, 0x500);
}

#[test]
fn written_pairs_read_back() {
    let mut w = Writer::new();
    w.pair(0, "SECTION");
    w.pair(2, "ENTITIES");
    w.pair(999, "");
    w.pair(-5, "a b");
    w.pair(0, "ENDSEC");
    let back = pairs_from_text(&w.out);
    let expected: Vec<(i32, String)> = vec![
        (0, "SECTION".into()),
        (2, "ENTITIES".into()),
        (999, "".into()),
        (-5, "a b".into()),
        (0, "ENDSEC".into()),
    ];
    assert_eq!(back, expected);
}

#[test]
fn written_line_reads_back_as_line() {
    let mut w = Writer::new();
    w.pair(0, "SECTION");
    w.pair(2, "ENTITIES");
    w.write_line("L2", ("1.250000000000", "2.000000000000"), ("3.000000000000", "4.5"));
    w.write_arc("L2", ("0", "0"), "1", "0", "90");
    w.pair(0, "ENDSEC");
    let d = drawing_from_text(&w.out);
    assert_eq!(d.lines.len(), 1);
    assert_eq!(d.lines[0].layer, "L2");
    assert_eq!(
        d.lines[0].start,
        pt("1.250000000000", "2.000000000000")
    );
    assert_eq!(d.lines[0].end, pt("3.000000000000", "4.5"));
    assert!(d.lwpolylines.is_empty() && d.polylines.is_empty() && d.splines.is_empty());
}

const TEMPLATE: &str = "  0\r\nSECTION\r\n  2\r\nHEADER\r\n  0\r\nENDSEC\r\n  0\r\nSECTION\r\n  2\r\nENTITIES\r\n  0\r\nLINE\r\n  0\r\nENDSEC\r\n  0\r\nEOF\r\n";

#[test]
fn template_split_around_entities() {
    let (prefix, suffix) = split_template_owned(TEMPLATE).unwrap();
    assert_eq!(
        prefix,
        "  0\r\nSECTION\r\n  2\r\nHEADER\r\n  0\r\nENDSEC\r\n  0\r\nSECTION\r\n  2\r\nENTITIES\r\n"
    );
    assert_eq!(suffix, "  0\r\nENDSEC\r\n  0\r\nEOF\r\n\r\n");
}

#[test]
fn template_split_with_lf_lines() {
    let (prefix, suffix) = split_template_owned("0\nSECTION\n2\nENTITIES\n0\nENDSEC").unwrap();
    assert_eq!(prefix, "0\r\nSECTION\r\n2\r\nENTITIES\r\n");
    assert_eq!(suffix, "0\r\nENDSEC\r\n");
}

#[test]
fn template_split_errors() {
    assert_eq!(
        split_template_owned("0\nSECTION\n2\nHEADER\n0\nENDSEC\n"),
        Err("Brak sekcji ENTITIES w szablonie DXF".to_string())
    );
    assert_eq!(
        split_template_owned("0\nSECTION\n2\nENTITIES\n0\nEOF\n"),
        Err("Brak ENDSEC po ENTITIES".to_string())
    );
    assert_eq!(
        split_template_owned("0\nSECTION\n2\nENTITIES"),
        Err("Brak ENDSEC po ENTITIES".to_string())
    );
}

#[test]
fn contour_segments_open_and_closed() {
    let open = Contour { verts: vec![1, 2, 3], closed: false, layer: String::new() };
    assert_eq!(open.segments(), vec![(0, 1), (1, 2)]);
    assert_eq!(open.layer_name(), "0");
    let closed = Contour { verts: vec![1, 2, 3], closed: true, layer: "K".to_string() };
    assert_eq!(closed.segments(), vec![(0, 1), (1, 2), (2, 0)]);
    assert_eq!(closed.layer_name(), "K");
    let short = Contour { verts: vec![1], closed: true, layer: String::new() };
    assert!(short.segments().is_empty());
    let two = Contour { verts: vec![1, 2], closed: true, layer: String::new() };
    assert_eq!(two.segments(), vec![(0, 1), (1, 0)]);
}
