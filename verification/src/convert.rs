//! What a conversion reports, and the choices of a conversion that do not
//! depend on the geometry: the name of the output file and how densely a
//! spline is sampled.
use crate::text::{int_text, is_digit, push_str, push_usize, string_from};
use vstd::prelude::*;

verus! {

/// The outcome of converting one file.
#[derive(Debug, Clone)]
pub struct ConvertResult {
    /// The path of the DXF written, as shown to the user.
    pub output: String,
    /// Vertices read.
    pub before: usize,
    /// Vertices written.
    pub after: usize,
    pub contours: usize,
    /// Curves (splines or paths) that were fitted with arcs.
    pub splines: usize,
    pub arc_segments: usize,
    /// The kind of the input, `DXF` or `SVG`.
    pub source: String,
}

/// The decimal text of `n`.
pub open spec fn num(n: usize) -> Seq<char> {
    int_text(n as int)
}

/// The lines the window logs for a converted file.
pub open spec fn gui_report_lines(r: ConvertResult) -> Seq<Seq<char>> {
    seq!["OK: "@ + num(r.before) + " -> "@ + num(r.after) + " | kontury: "@ + num(r.contours)]
        + if r.splines > 0 {
        seq![
            r.source@ + " krzywych/sciazek: "@ + num(r.splines) + " -> lukow: "@ + num(
                r.arc_segments,
            ),
        ]
    } else {
        seq![]
    } + seq!["Zapisano: "@ + r.output@]
}

/// The lines the command line prints for a converted file, `tol` being the
/// tolerance as shown.
pub open spec fn cli_report_lines(r: ConvertResult, tol: Seq<char>) -> Seq<Seq<char>> {
    seq![
        "Wierzcholki: "@ + num(r.before) + " -> "@ + num(r.after) + " (tolerancja "@ + tol + ")"@,
        "Kontury: "@ + num(r.contours),
    ] + if r.splines > 0 {
        seq![
            r.source@ + ": "@ + num(r.splines) + " krzywych/sciazek -> lukow: "@ + num(
                r.arc_segments,
            ),
        ]
    } else {
        seq![]
    } + seq!["Zrodlo: "@ + r.source@, "Zapisano DXF: "@ + r.output@]
}

impl ConvertResult {
    /// The lines the window logs for this result.
    pub fn gui_report(&self) -> (lines: Vec<String>)
        ensures
            lines.deep_view() == gui_report_lines(*self),
    {
        let mut lines: Vec<String> = Vec::new();
        let mut a = string_from("OK: ");
        push_usize(&mut a, self.before);
        push_str(&mut a, " -> ");
        push_usize(&mut a, self.after);
        push_str(&mut a, " | kontury: ");
        push_usize(&mut a, self.contours);
        lines.push(a);
        if self.splines > 0 {
            let mut b = self.source.clone();
            push_str(&mut b, " krzywych/sciazek: ");
            push_usize(&mut b, self.splines);
            push_str(&mut b, " -> lukow: ");
            push_usize(&mut b, self.arc_segments);
            lines.push(b);
        }
        let mut c = string_from("Zapisano: ");
        push_str(&mut c, self.output.as_str());
        lines.push(c);
        assert(lines.deep_view() =~= gui_report_lines(*self));
        lines
    }

    /// The lines the command line prints for this result, `tolerance` being
    /// the tolerance as shown.
    pub fn cli_report(&self, tolerance: &str) -> (lines: Vec<String>)
        ensures
            lines.deep_view() == cli_report_lines(*self, tolerance@),
    {
        let mut lines: Vec<String> = Vec::new();
        let mut a = string_from("Wierzcholki: ");
        push_usize(&mut a, self.before);
        push_str(&mut a, " -> ");
        push_usize(&mut a, self.after);
        push_str(&mut a, " (tolerancja ");
        push_str(&mut a, tolerance);
        push_str(&mut a, ")");
        lines.push(a);
        let mut b = string_from("Kontury: ");
        push_usize(&mut b, self.contours);
        lines.push(b);
        if self.splines > 0 {
            let mut c = self.source.clone();
            push_str(&mut c, ": ");
            push_usize(&mut c, self.splines);
            push_str(&mut c, " krzywych/sciazek -> lukow: ");
            push_usize(&mut c, self.arc_segments);
            lines.push(c);
        }
        let mut d = string_from("Zrodlo: ");
        push_str(&mut d, self.source.as_str());
        lines.push(d);
        let mut e = string_from("Zapisano DXF: ");
        push_str(&mut e, self.output.as_str());
        lines.push(e);
        assert(lines.deep_view() =~= cli_report_lines(*self, tolerance@));
        lines
    }
}

/// The line logged when a file starts being read.
pub fn loading_line(path: &str) -> (s: String)
    ensures
        s@ == "Wczytywanie: "@ + path@,
{
    let mut s = string_from("Wczytywanie: ");
    push_str(&mut s, path);
    s
}

/// The line the window logs when converting `path` failed with `error`.
pub fn failure_line(path: &str, error: &str) -> (s: String)
    ensures
        s@ == "BLAD: "@ + path@ + " | "@ + error@,
{
    let mut s = string_from("BLAD: ");
    push_str(&mut s, path);
    push_str(&mut s, " | ");
    push_str(&mut s, error);
    s
}

/// The file name of a timestamped output: the input's stem (`out` when it has
/// none), an underscore, the time stamp, and `.dxf`.
pub fn timestamped_name(stem: Option<&str>, stamp: &str) -> (s: String)
    ensures
        s@ == match stem {
            Some(st) => st@,
            None => "out"@,
        } + "_"@ + stamp@ + ".dxf"@,
{
    let mut s = match stem {
        Some(st) => string_from(st),
        None => string_from("out"),
    };
    push_str(&mut s, "_");
    push_str(&mut s, stamp);
    push_str(&mut s, ".dxf");
    s
}

/// The shape of a time stamp written as `%Y%m%d_%H%M%S`: the year (at least
/// four digits, with a sign only outside 0..=9999), then month and day, `_`,
/// then hour, minute and second, each of these two digits. So the stamp ends
/// with fifteen characters, all digits but the `_` seventh from the end.
pub open spec fn is_stamp(st: Seq<char>) -> bool {
    &&& st.len() >= 15
    &&& st[st.len() - 7] == '_'
    &&& forall|i: int|
        st.len() - 15 <= i < st.len() && i != st.len() - 7 ==> is_digit(#[trigger] st[i])
}

/// The local time as `%Y%m%d_%H%M%S`, from `chrono::Local::now` and
/// `DateTime::format`. The time itself is not stated, only the shape that
/// chrono's formatting gives it: a year zero-padded to four digits (signed
/// when outside 0..=9999), and two zero-padded digits for each other field.
#[verifier::external_body]
fn local_stamp() -> (s: String)
    ensures
        is_stamp(s@),
{
    chrono::Local::now().format("%Y%m%d_%H%M%S").to_string()
}

/// The name of the output file for an input with file stem `stem`: the stem
/// (`out` when there is none), `_`, the local time as `%Y%m%d_%H%M%S`, and
/// `.dxf`.
pub fn timestamped_file_name(stem: Option<&str>) -> (s: String)
    ensures
        exists|st: Seq<char>|
            #[trigger] is_stamp(st) && s@ == match stem {
                Some(x) => x@,
                None => "out"@,
            } + "_"@ + st + ".dxf"@,
{
    let stamp = local_stamp();
    let s = timestamped_name(stem, stamp.as_str());
    assert(is_stamp(stamp@));
    s
}

/// Whether a conversion produced anything to write: an error naming the
/// entity kinds read when it made no contour.
pub fn check_contours(contours: usize) -> (r: Result<(), String>)
    ensures
        contours == 0 ==> (r matches Err(e) && e@
            == "Brak geometrii LINE/POLYLINE/LWPOLYLINE/SPLINE."@),
        contours > 0 ==> r is Ok,
{
    if contours == 0 {
        Err(string_from("Brak geometrii LINE/POLYLINE/LWPOLYLINE/SPLINE."))
    } else {
        Ok(())
    }
}

/// How many samples a spline with `controls` control points gets: twelve per
/// control point, at least 32.
pub fn spline_sample_count(controls: usize) -> (n: usize)
    ensures
        n == if controls * 12 > usize::MAX {
            usize::MAX as int
        } else if controls * 12 < 32 {
            32
        } else {
            controls * 12
        },
{
    let m = match controls.checked_mul(12) {
        Some(v) => v,
        None => usize::MAX,
    };
    if m < 32 {
        32
    } else {
        m
    }
}

} // verus!
