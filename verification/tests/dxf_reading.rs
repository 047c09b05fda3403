use dxf_trutops_cleaner::dxf_read::{
    RawPoint,
    drawing_from_text, pairs_from_text, read_dxf, read_line, read_lwpolyline, read_polyline,
    read_spline, read_until_next_entity,
};
use dxf_trutops_cleaner::text::parse_i32;

fn pairs(list: &[(i32, &str)]) -> Vec<(i32, String)> {
    list.iter().map(|(c, v)| (*c, v.to_string())).collect()
}

fn pt(x: &str, y: &str) -> RawPoint {
    RawPoint { x: x.to_string(), y: y.to_string() }
}

#[test]
fn pairs_are_read_two_lines_at_a_time() {
    let got = pairs_from_text("0\r\nSECTION\r\n  2\nENTITIES  \n\n\n");
    assert_eq!(got, pairs(&[(0, "SECTION"), (2, "ENTITIES")]));
}

#[test]
fn pairs_keep_leading_space_of_values_and_drop_odd_line() {
    let got = pairs_from_text("8\n  layer A \t\nx\nvalue\n999");
    assert_eq!(got, pairs(&[(8, "  layer A"), (0, "value")]));
}

#[test]
fn pairs_of_empty_and_blank_text() {
    assert!(pairs_from_text("").is_empty());
    assert!(pairs_from_text("\n \r\n\t\n").is_empty());
    assert_eq!(pairs_from_text("10\n\n20\n1.5"), pairs(&[(10, ""), (20, "1.5")]));
}

#[test]
fn parse_i32_follows_str_parse() {
    assert_eq!(parse_i32(" 42 "), 42);
    assert_eq!(parse_i32("-7"), -7);
    assert_eq!(parse_i32("+5"), 5);
    assert_eq!(parse_i32("abc"), 0);
    assert_eq!(parse_i32(""), 0);
    assert_eq!(parse_i32("-"), 0);
    assert_eq!(parse_i32("1.5"), 0);
    assert_eq!(parse_i32("2147483647"), i32::MAX);
    assert_eq!(parse_i32("2147483648"), 0);
    assert_eq!(parse_i32("-2147483648"), i32::MIN);
    assert_eq!(parse_i32("-2147483649"), 0);
    assert_eq!(parse_i32("+-3"), 0);
    assert_eq!(parse_i32("\u{a0}70\u{3000}"), 70);
}

#[test]
fn next_entity_index() {
    let p = pairs(&[(0, "LINE"), (8, "A"), (10, "1"), (0, "ARC"), (8, "B")]);
    assert_eq!(read_until_next_entity(&p, 1), 3);
    assert_eq!(read_until_next_entity(&p, 3), 3);
    assert_eq!(read_until_next_entity(&p, 4), 5);
    assert_eq!(read_until_next_entity(&p, 9), 5);
}

#[test]
fn line_entity_fields() {
    let p = pairs(&[
        (0, "LINE"),
        (8, "  Cut "),
        (10, "1.5"),
        (20, "2"),
        (11, "3"),
        (21, "-4"),
        (10, "7"),
        (0, "EOF"),
    ]);
    let (line, next) = read_line(&p, 1);
    assert_eq!(next, 7);
    assert_eq!(line.layer, "Cut");
    assert_eq!(line.start, pt("7", "2"));
    assert_eq!(line.end, pt("3", "-4"));
}

#[test]
fn line_entity_defaults() {
    let p = pairs(&[(0, "LINE"), (0, "EOF")]);
    let (line, next) = read_line(&p, 1);
    assert_eq!(next, 1);
    assert_eq!(line.layer, "0");
    assert_eq!(line.start, pt("", ""));
}

#[test]
fn lwpolyline_points_pair_x_with_next_y() {
    let p = pairs(&[
        (0, "LWPOLYLINE"),
        (70, "1"),
        (10, "a"),
        (20, "b"),
        (10, "c"),
        (10, "d"),
        (20, "e"),
        (20, "f"),
        (0, "EOF"),
    ]);
    let (poly, next) = read_lwpolyline(&p, 1);
    assert_eq!(next, 8);
    assert!(poly.closed);
    assert_eq!(poly.layer, "0");
    assert_eq!(
        poly.points,
        vec![
            pt("a", "b"),
            pt("d", "e")
        ]
    );
}

#[test]
fn lwpolyline_flags_even_is_open() {
    let p = pairs(&[(0, "LWPOLYLINE"), (70, "128"), (10, "1"), (20, "2")]);
    let (poly, next) = read_lwpolyline(&p, 1);
    assert_eq!(next, 4);
    assert!(!poly.closed);
    let p = pairs(&[(0, "LWPOLYLINE"), (70, "-1")]);
    assert!(read_lwpolyline(&p, 1).0.closed);
}

#[test]
fn polyline_reads_vertices_until_seqend() {
    let p = pairs(&[
        (0, "POLYLINE"),
        (8, "L1"),
        (70, "1"),
        (0, "VERTEX"),
        (10, "1"),
        (20, "2"),
        (0, "VERTEX"),
        (20, "4"),
        (0, "SEQEND"),
        (8, "L1"),
        (0, "LINE"),
    ]);
    let (poly, next) = read_polyline(&p, 1);
    assert_eq!(next, 10);
    assert_eq!(poly.layer, "L1");
    assert!(poly.closed);
    assert_eq!(
        poly.points,
        vec![
            pt("1", "2"),
            pt("", "4")
        ]
    );
}

#[test]
fn polyline_stops_at_other_entity() {
    let p = pairs(&[(0, "POLYLINE"), (0, "VERTEX"), (10, "5"), (0, "LINE")]);
    let (poly, next) = read_polyline(&p, 1);
    assert_eq!(next, 3);
    assert_eq!(poly.points.len(), 1);
    assert!(!poly.closed);
}

#[test]
fn spline_fields_and_unit_weights() {
    let p = pairs(&[
        (0, "SPLINE"),
        (8, "S"),
        (71, "0"),
        (40, "0"),
        (40, "1"),
        (41, "0.5"),
        (10, "1"),
        (20, "2"),
        (10, "3"),
        (20, "4"),
        (0, "EOF"),
    ]);
    let (sp, next) = read_spline(&p, 1);
    assert_eq!(next, 10);
    assert_eq!(sp.layer, "S");
    assert_eq!(sp.degree, 1);
    assert_eq!(sp.knots, vec!["0".to_string(), "1".to_string()]);
    assert_eq!(sp.controls.len(), 2);
    assert_eq!(sp.weights, vec!["1".to_string(), "1".to_string()]);
    assert!(!sp.closed);
}

#[test]
fn spline_keeps_matching_weights_and_default_degree() {
    let p = pairs(&[
        (0, "SPLINE"),
        (70, "3"),
        (10, "1"),
        (20, "2"),
        (41, "0.7"),
    ]);
    let (sp, _) = read_spline(&p, 1);
    assert_eq!(sp.degree, 3);
    assert!(sp.closed);
    assert_eq!(sp.weights, vec!["0.7".to_string()]);
}

const DRAWING: &str = "0\nSECTION\n2\nHEADER\n0\nLINE\n8\nX\n0\nENDSEC\n\
0\nSECTION\n2\nENTITIES\n\
0\nLINE\n8\nA\n10\n0\n20\n0\n11\n10\n21\n0\n\
0\nLWPOLYLINE\n70\n1\n10\n0\n20\n0\n10\n5\n20\n5\n\
0\nARC\n8\nA\n\
0\nPOLYLINE\n8\nP\n0\nVERTEX\n10\n1\n20\n1\n0\nSEQEND\n\
0\nSPLINE\n71\n2\n10\n0\n20\n0\n\
0\nENDSEC\n0\nSECTION\n2\nBLOCKS\n0\nLINE\n0\nENDSEC\n0\nEOF\n";

#[test]
fn drawing_reads_only_the_entities_section() {
    let d = drawing_from_text(DRAWING);
    assert_eq!(d.lines.len(), 1);
    assert_eq!(d.lines[0].layer, "A");
    assert_eq!(d.lines[0].end, pt("10", "0"));
    assert_eq!(d.lwpolylines.len(), 1);
    assert_eq!(d.lwpolylines[0].points.len(), 2);
    assert!(d.lwpolylines[0].closed);
    assert_eq!(d.polylines.len(), 1);
    assert_eq!(d.polylines[0].layer, "P");
    assert_eq!(d.polylines[0].points, vec![pt("1", "1")]);
    assert_eq!(d.splines.len(), 1);
    assert_eq!(d.splines[0].degree, 2);
}

#[test]
fn drawing_from_bytes_replaces_invalid_utf8() {
    let mut bytes = b"0\nSECTION\n2\nENTITIES\n0\nLINE\n8\nL".to_vec();
    bytes.push(0xff);
    bytes.extend_from_slice(b"\n0\nENDSEC\n");
    let d = read_dxf(&bytes);
    assert_eq!(d.lines.len(), 1);
    assert_eq!(d.lines[0].layer, "L\u{fffd}");
}

#[test]
fn drawing_without_entities_is_empty() {
    let d = read_dxf(b"0\nLINE\n8\nA\n0\nEOF\n");
    assert!(d.lines.is_empty());
    assert!(d.splines.is_empty());
}
