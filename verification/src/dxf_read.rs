//! Reader for ASCII DXF: the text becomes a list of (group code, value) pairs,
//! and the ENTITIES section yields LINE, LWPOLYLINE, POLYLINE and SPLINE
//! entities. Coordinates, knots and weights are kept as the text of their
//! group values; turning that text into numbers is left to the caller.
use crate::text::{
    chars_of, i32_or_zero, parse_i32_chars, push_str, split_newlines, split_pieces,
    string_of, trim, trim_bounds, trim_end, trimmed_eq,
};
pub use crate::text::parse_i32;
use vstd::prelude::*;
use vstd::utf8::{decode_utf8, valid_utf8};

verus! {

/// A DXF pair as the specifications see it: group code and value text.
pub type SpecPairs = Seq<(i32, Seq<char>)>;

/// A point given by the text of its X and Y values.
pub type SpecPoint = (Seq<char>, Seq<char>);

/// A point given by the text of its X and Y group values.
#[derive(Debug, Clone, PartialEq, Eq)]
pub struct RawPoint {
    pub x: String,
    pub y: String,
}

impl DeepView for RawPoint {
    type V = SpecPoint;

    open spec fn deep_view(&self) -> SpecPoint {
        (self.x@, self.y@)
    }
}

#[derive(Debug, Clone)]
pub struct DxfLine {
    pub layer: String,
    pub start: RawPoint,
    pub end: RawPoint,
}

#[derive(Debug, Clone)]
pub struct DxfLwPolyline {
    pub layer: String,
    pub closed: bool,
    pub points: Vec<RawPoint>,
}

#[derive(Debug, Clone)]
pub struct DxfPolyline {
    pub layer: String,
    pub closed: bool,
    pub points: Vec<RawPoint>,
}

#[derive(Debug, Clone)]
pub struct DxfSpline {
    pub layer: String,
    pub closed: bool,
    pub degree: usize,
    pub knots: Vec<String>,
    pub controls: Vec<RawPoint>,
    pub weights: Vec<String>,
}

#[derive(Debug)]
pub struct DxfDrawing {
    pub lines: Vec<DxfLine>,
    pub lwpolylines: Vec<DxfLwPolyline>,
    pub polylines: Vec<DxfPolyline>,
    pub splines: Vec<DxfSpline>,
}

pub struct SpecLine {
    pub layer: Seq<char>,
    pub start: SpecPoint,
    pub end: SpecPoint,
}

pub struct SpecPolyline {
    pub layer: Seq<char>,
    pub closed: bool,
    pub points: Seq<SpecPoint>,
}

pub struct SpecSpline {
    pub layer: Seq<char>,
    pub closed: bool,
    pub degree: usize,
    pub knots: Seq<Seq<char>>,
    pub controls: Seq<SpecPoint>,
    pub weights: Seq<Seq<char>>,
}

#[verifier::ext_equal]
pub struct SpecDrawing {
    pub lines: Seq<SpecLine>,
    pub lwpolylines: Seq<SpecPolyline>,
    pub polylines: Seq<SpecPolyline>,
    pub splines: Seq<SpecSpline>,
}

impl DeepView for DxfLine {
    type V = SpecLine;

    open spec fn deep_view(&self) -> SpecLine {
        SpecLine { layer: self.layer@, start: self.start.deep_view(), end: self.end.deep_view() }
    }
}

impl DeepView for DxfLwPolyline {
    type V = SpecPolyline;

    open spec fn deep_view(&self) -> SpecPolyline {
        SpecPolyline {
            layer: self.layer@,
            closed: self.closed,
            points: self.points.deep_view(),
        }
    }
}

impl DeepView for DxfPolyline {
    type V = SpecPolyline;

    open spec fn deep_view(&self) -> SpecPolyline {
        SpecPolyline {
            layer: self.layer@,
            closed: self.closed,
            points: self.points.deep_view(),
        }
    }
}

impl DeepView for DxfSpline {
    type V = SpecSpline;

    open spec fn deep_view(&self) -> SpecSpline {
        SpecSpline {
            layer: self.layer@,
            closed: self.closed,
            degree: self.degree,
            knots: self.knots.deep_view(),
            controls: self.controls.deep_view(),
            weights: self.weights.deep_view(),
        }
    }
}

impl DeepView for DxfDrawing {
    type V = SpecDrawing;

    open spec fn deep_view(&self) -> SpecDrawing {
        SpecDrawing {
            lines: self.lines.deep_view(),
            lwpolylines: self.lwpolylines.deep_view(),
            polylines: self.polylines.deep_view(),
            splines: self.splines.deep_view(),
        }
    }
}

impl Default for DxfDrawing {
    fn default() -> (d: Self)
        ensures
            d.deep_view() == SpecDrawing::empty(),
    {
        let d = DxfDrawing {
            lines: Vec::new(),
            lwpolylines: Vec::new(),
            polylines: Vec::new(),
            splines: Vec::new(),
        };
        assert(d.deep_view() =~= SpecDrawing::empty());
        d
    }
}

impl SpecDrawing {
    pub open spec fn empty() -> SpecDrawing {
        SpecDrawing { lines: seq![], lwpolylines: seq![], polylines: seq![], splines: seq![] }
    }

    /// The entities of `self` followed by those of `other`, kind by kind.
    pub open spec fn concat(self, other: SpecDrawing) -> SpecDrawing {
        SpecDrawing {
            lines: self.lines + other.lines,
            lwpolylines: self.lwpolylines + other.lwpolylines,
            polylines: self.polylines + other.polylines,
            splines: self.splines + other.splines,
        }
    }
}

// ---------------------------------------------------------------------------
// From text to pairs
// ---------------------------------------------------------------------------

/// `str::lines` with `trim_end` applied to each line: the text is cut at each
/// `\n`, a last line without `\n` counts when it is not empty, and trailing
/// whitespace (the `\r` of a CRLF among it) is removed from every line.
pub open spec fn text_lines(t: Seq<char>) -> Seq<Seq<char>> {
    let pieces = split_pieces(t);
    let all = if pieces.last().len() > 0 {
        pieces
    } else {
        pieces.drop_last()
    };
    all.map_values(|l: Seq<char>| trim_end(l))
}

/// The lines without the blank ones at the end.
pub open spec fn drop_trailing_blank(ls: Seq<Seq<char>>) -> Seq<Seq<char>>
    decreases ls.len(),
{
    if ls.len() > 0 && trim(ls.last()).len() == 0 {
        drop_trailing_blank(ls.drop_last())
    } else {
        ls
    }
}

/// The pairs of a DXF text: consecutive lines taken two by two, the first of
/// each two read as an `i32` group code (0 when it is not one), the second
/// kept as the value; an odd last line is ignored.
pub open spec fn text_pairs(t: Seq<char>) -> SpecPairs {
    let ls = drop_trailing_blank(text_lines(t));
    Seq::new(ls.len() / 2, |k: int| (i32_or_zero(ls[2 * k]), ls[2 * k + 1]))
}

/// Whether `cs` holds nothing but whitespace.
fn is_blank(cs: &Vec<char>) -> (r: bool)
    ensures
        r == (trim(cs@).len() == 0),
{
    let (b, e) = trim_bounds(cs);
    b == e
}

/// `text` read as DXF (group code, value) pairs.
pub fn pairs_from_text(text: &str) -> (out: Vec<(i32, String)>)
    ensures
        out.deep_view() == text_pairs(text@),
{
    let mut lines = split_newlines(text);
    let ghost pieces = split_pieces(text@);
    let ghost tl = text_lines(text@);
    if lines[lines.len() - 1].len() == 0 {
        lines.pop();
    }
    let ghost all = if pieces.last().len() > 0 {
        pieces
    } else {
        pieces.drop_last()
    };
    let mut k: usize = 0;
    while k < lines.len()
        invariant
            lines.len() == all.len(),
            k <= lines.len(),
            forall|m: int| 0 <= m < k ==> #[trigger] lines@[m]@ == trim_end(all[m]),
            forall|m: int| k <= m < lines.len() ==> #[trigger] lines@[m]@ == all[m],
        decreases lines.len() - k,
    {
        let (_, e) = trim_bounds(&lines[k]);
        let mut line = lines[k].clone();
        line.truncate(e);
        lines.set(k, line);
        k += 1;
    }
    assert(tl =~= all.map_values(|l: Seq<char>| trim_end(l)));
    let mut n = lines.len();
    assert(tl.take(n as int) =~= tl);
    while n > 0 && is_blank(&lines[n - 1])
        invariant
            n <= lines.len(),
            lines.len() == tl.len(),
            forall|k: int| 0 <= k < lines.len() ==> #[trigger] lines@[k]@ == tl[k],
            drop_trailing_blank(tl) == drop_trailing_blank(tl.take(n as int)),
        decreases n,
    {
        proof {
            assert(tl.take(n as int).drop_last() =~= tl.take(n - 1));
            assert(tl.take(n as int).last() == tl[n - 1]);
        }
        n -= 1;
    }
    let ghost ls = drop_trailing_blank(tl);
    proof {
        let t = tl.take(n as int);
        if n > 0 {
            assert(t.last() == tl[n - 1]);
        }
        assert(drop_trailing_blank(t) == t);
        assert(ls =~= t);
    }
    let mut out: Vec<(i32, String)> = Vec::new();
    let mut i: usize = 0;
    while i + 1 < n
        invariant
            n <= lines.len(),
            ls.len() == n,
            forall|k: int| 0 <= k < n ==> #[trigger] lines@[k]@ == ls[k],
            i % 2 == 0,
            i <= n,
            out.len() == i / 2,
            forall|k: int|
                0 <= k < out.len() ==> #[trigger] out.deep_view()[k] == (
                    i32_or_zero(ls[2 * k]),
                    ls[2 * k + 1],
                ),
        decreases n - i,
    {
        let code_line = &lines[i];
        let (b, e) = trim_bounds(code_line);
        let code = match parse_i32_chars(code_line, b, e) {
            Some(v) => v,
            None => 0,
        };
        let value_line = &lines[i + 1];
        let value = string_of(value_line, 0, value_line.len());
        proof {
            assert(value_line@.subrange(0, value_line@.len() as int) =~= value_line@);
        }
        let ghost old_out = out.deep_view();
        out.push((code, value));
        proof {
            assert forall|k: int| 0 <= k < out.len() implies #[trigger] out.deep_view()[k] == (
                i32_or_zero(ls[2 * k]),
                ls[2 * k + 1],
            ) by {
                if k < out.len() - 1 {
                    assert(out.deep_view()[k] == old_out[k]);
                }
            }
        }
        i += 2;
    }
    assert(out.deep_view() =~= text_pairs(text@));
    out
}

// ---------------------------------------------------------------------------
// Entities
// ---------------------------------------------------------------------------

/// The index of the first pair at or after `start` with group code 0 (the
/// start of the next entity), or the number of pairs when there is none.
pub open spec fn next_entity(p: SpecPairs, start: int) -> int
    decreases p.len() - start,
{
    if start >= p.len() {
        p.len() as int
    } else if p[start].0 == 0 {
        start
    } else {
        next_entity(p, start + 1)
    }
}

/// The value of the last pair in `p[lo..hi]` with group code `code`.
pub open spec fn last_value(p: SpecPairs, lo: int, hi: int, code: i32) -> Option<Seq<char>>
    decreases hi - lo,
{
    if hi <= lo {
        None
    } else if p[hi - 1].0 == code {
        Some(p[hi - 1].1)
    } else {
        last_value(p, lo, hi - 1, code)
    }
}

/// The values of all pairs in `p[lo..hi]` with group code `code`, in order.
pub open spec fn values_with(p: SpecPairs, lo: int, hi: int, code: i32) -> Seq<Seq<char>>
    decreases hi - lo,
{
    if hi <= lo {
        seq![]
    } else if p[hi - 1].0 == code {
        values_with(p, lo, hi - 1, code).push(p[hi - 1].1)
    } else {
        values_with(p, lo, hi - 1, code)
    }
}

/// The points of `p[lo..hi]`: each X (code 10) is held until the next Y
/// (code 20), which completes the point; a Y with no X pending is ignored.
/// Also gives the X still pending at `hi`.
pub open spec fn point_scan(p: SpecPairs, lo: int, hi: int) -> (Seq<SpecPoint>, Option<Seq<char>>)
    decreases hi - lo,
{
    if hi <= lo {
        (seq![], None)
    } else {
        let (pts, pending) = point_scan(p, lo, hi - 1);
        let (code, v) = p[hi - 1];
        if code == 10 {
            (pts, Some(v))
        } else if code == 20 {
            match pending {
                Some(x) => (pts.push((x, v)), None),
                None => (pts, None),
            }
        } else {
            (pts, pending)
        }
    }
}

/// The layer named by the last code 8 in `p[lo..hi]`, trimmed; `0` without one.
pub open spec fn layer_of(p: SpecPairs, lo: int, hi: int) -> Seq<char> {
    match last_value(p, lo, hi, 8) {
        Some(v) => trim(v),
        None => "0"@,
    }
}

/// The text of the last value with code `code` in `p[lo..hi]`; empty without one.
pub open spec fn coord_of(p: SpecPairs, lo: int, hi: int, code: i32) -> Seq<char> {
    match last_value(p, lo, hi, code) {
        Some(v) => v,
        None => seq![],
    }
}

/// The flags (code 70) of `p[lo..hi]`: the last one read as `i32`, 0 without one.
pub open spec fn flags_of(p: SpecPairs, lo: int, hi: int) -> i32 {
    match last_value(p, lo, hi, 70) {
        Some(v) => i32_or_zero(v),
        None => 0,
    }
}

/// Bit 1 of the flags marks a closed shape.
pub open spec fn is_closed(flags: i32) -> bool {
    (flags & 1) != 0
}

/// The LINE whose group pairs start at `start`, and the index after it.
pub open spec fn line_at(p: SpecPairs, start: int) -> (SpecLine, int) {
    let end = next_entity(p, start);
    (
        SpecLine {
            layer: layer_of(p, start, end),
            start: (coord_of(p, start, end, 10), coord_of(p, start, end, 20)),
            end: (coord_of(p, start, end, 11), coord_of(p, start, end, 21)),
        },
        end,
    )
}

/// The LWPOLYLINE whose group pairs start at `start`, and the index after it.
pub open spec fn lwpolyline_at(p: SpecPairs, start: int) -> (SpecPolyline, int) {
    let end = next_entity(p, start);
    (
        SpecPolyline {
            layer: layer_of(p, start, end),
            closed: is_closed(flags_of(p, start, end)),
            points: point_scan(p, start, end).0,
        },
        end,
    )
}

pub proof fn lemma_next_entity_bounds(p: SpecPairs, start: int)
    ensures
        next_entity(p, start) <= p.len(),
        start <= p.len() ==> start <= next_entity(p, start),
        next_entity(p, start) < p.len() ==> p[next_entity(p, start)].0 == 0,
        forall|k: int| start <= k < next_entity(p, start) ==> p[k].0 != 0,
    decreases p.len() - start,
{
    if start < p.len() && p[start].0 != 0 {
        lemma_next_entity_bounds(p, start + 1);
    }
}

/// The VERTEX entities that follow a POLYLINE header, from index `i` up to
/// the SEQEND (whose own pairs are skipped) or up to any other entity; and
/// the index where reading stopped.
pub open spec fn vertex_scan(p: SpecPairs, i: int) -> (Seq<SpecPoint>, int)
    decreases p.len() - i,
{
    if i < 0 || i >= p.len() {
        (seq![], i)
    } else if p[i].0 == 0 && trim(p[i].1) == "SEQEND"@ {
        (seq![], next_entity(p, i + 1))
    } else if p[i].0 == 0 && trim(p[i].1) == "VERTEX"@ {
        let e = next_entity(p, i + 1);
        proof {
            lemma_next_entity_bounds(p, i + 1);
        }
        let (rest, fin) = vertex_scan(p, e);
        (seq![(coord_of(p, i + 1, e, 10), coord_of(p, i + 1, e, 20))] + rest, fin)
    } else if p[i].0 == 0 {
        (seq![], i)
    } else {
        vertex_scan(p, i + 1)
    }
}

pub proof fn lemma_vertex_scan_bounds(p: SpecPairs, i: int)
    requires
        0 <= i <= p.len(),
    ensures
        i <= vertex_scan(p, i).1 <= p.len(),
    decreases p.len() - i,
{
    if i < p.len() {
        lemma_next_entity_bounds(p, i + 1);
        if p[i].0 == 0 && trim(p[i].1) == "SEQEND"@ {
        } else if p[i].0 == 0 && trim(p[i].1) == "VERTEX"@ {
            lemma_vertex_scan_bounds(p, next_entity(p, i + 1));
        } else if p[i].0 != 0 {
            lemma_vertex_scan_bounds(p, i + 1);
        }
    }
}

/// The POLYLINE whose header pairs start at `start` (header, VERTEX entities,
/// SEQEND), and the index after it.
pub open spec fn polyline_at(p: SpecPairs, start: int) -> (SpecPolyline, int) {
    let h = if start > p.len() {
        start
    } else {
        next_entity(p, start)
    };
    let (pts, fin) = vertex_scan(p, h);
    (
        SpecPolyline {
            layer: layer_of(p, start, h),
            closed: is_closed(flags_of(p, start, h)),
            points: pts,
        },
        fin,
    )
}

/// The degree (code 71) of `p[lo..hi]`: the last one read as `i32`, at least
/// 1; 3 without one.
pub open spec fn degree_of(p: SpecPairs, lo: int, hi: int) -> usize {
    match last_value(p, lo, hi, 71) {
        Some(v) => {
            let d = i32_or_zero(v);
            if d < 1 {
                1
            } else {
                d as usize
            }
        },
        None => 3,
    }
}

/// The SPLINE whose group pairs start at `start`, and the index after it.
/// Weights (code 41) are kept only when there is one per control point;
/// otherwise every weight is `1`.
pub open spec fn spline_at(p: SpecPairs, start: int) -> (SpecSpline, int) {
    let end = next_entity(p, start);
    let controls = point_scan(p, start, end).0;
    let weights = values_with(p, start, end, 41);
    (
        SpecSpline {
            layer: layer_of(p, start, end),
            closed: is_closed(flags_of(p, start, end)),
            degree: degree_of(p, start, end),
            knots: values_with(p, start, end, 40),
            controls,
            weights: if weights.len() != controls.len() {
                Seq::new(controls.len(), |k: int| "1"@)
            } else {
                weights
            },
        },
        end,
    )
}

/// The entities read from pair `i` on, `in_entities` telling whether the
/// reader is inside the ENTITIES section. A SECTION pair followed by a code 2
/// pair opens (or leaves) the ENTITIES section by that pair's name; ENDSEC
/// closes it; inside, a code 0 pair naming LINE, LWPOLYLINE, POLYLINE or
/// SPLINE starts that entity, and every other pair is passed over.
pub open spec fn drawing_from(p: SpecPairs, i: int, in_entities: bool) -> SpecDrawing
    decreases p.len() - i,
{
    if i < 0 || i >= p.len() {
        SpecDrawing::empty()
    } else {
        let code = p[i].0;
        let v = trim(p[i].1);
        proof {
            lemma_next_entity_bounds(p, i + 1);
            lemma_vertex_scan_bounds(p, next_entity(p, i + 1));
        }
        if code == 0 && v == "SECTION"@ {
            let inside = if i + 1 < p.len() && p[i + 1].0 == 2 {
                trim(p[i + 1].1) == "ENTITIES"@
            } else {
                in_entities
            };
            drawing_from(p, i + 1, inside)
        } else if code == 0 && v == "ENDSEC"@ {
            drawing_from(p, i + 1, false)
        } else if !in_entities || code != 0 {
            drawing_from(p, i + 1, in_entities)
        } else if v == "LINE"@ {
            let (e, n) = line_at(p, i + 1);
            let rest = drawing_from(p, n, in_entities);
            SpecDrawing { lines: seq![e] + rest.lines, ..rest }
        } else if v == "LWPOLYLINE"@ {
            let (e, n) = lwpolyline_at(p, i + 1);
            let rest = drawing_from(p, n, in_entities);
            SpecDrawing { lwpolylines: seq![e] + rest.lwpolylines, ..rest }
        } else if v == "POLYLINE"@ {
            let (e, n) = polyline_at(p, i + 1);
            let rest = drawing_from(p, n, in_entities);
            SpecDrawing { polylines: seq![e] + rest.polylines, ..rest }
        } else if v == "SPLINE"@ {
            let (e, n) = spline_at(p, i + 1);
            let rest = drawing_from(p, n, in_entities);
            SpecDrawing { splines: seq![e] + rest.splines, ..rest }
        } else {
            drawing_from(p, i + 1, in_entities)
        }
    }
}

/// The drawing that a DXF text holds.
pub open spec fn text_drawing(t: Seq<char>) -> SpecDrawing {
    drawing_from(text_pairs(t), 0, false)
}

/// Pair `i` opens the ENTITIES section: a SECTION pair followed by a code 2
/// pair naming ENTITIES.
pub open spec fn opens_entities(p: SpecPairs, i: int) -> bool {
    &&& 0 <= i
    &&& i + 1 < p.len()
    &&& p[i].0 == 0
    &&& trim(p[i].1) == "SECTION"@
    &&& p[i + 1].0 == 2
    &&& trim(p[i + 1].1) == "ENTITIES"@
}

/// Only the ENTITIES section is read: outside it, from a point on which no
/// pair opens an ENTITIES section, nothing more is read.
pub proof fn lemma_only_entities_section(p: SpecPairs, i: int)
    requires
        forall|k: int| i <= k < p.len() ==> !opens_entities(p, k),
    ensures
        drawing_from(p, i, false) == SpecDrawing::empty(),
    decreases p.len() - i,
{
    if 0 <= i < p.len() {
        assert(!opens_entities(p, i));
        lemma_only_entities_section(p, i + 1);
    }
}

/// The index of the next pair at or after `start` with group code 0, or the
/// number of pairs.
pub fn read_until_next_entity(pairs: &[(i32, String)], start: usize) -> (r: usize)
    ensures
        r == next_entity(pairs.deep_view(), start as int),
{
    let ghost p = pairs.deep_view();
    let mut i = start;
    while i < pairs.len()
        invariant
            p == pairs.deep_view(),
            next_entity(p, i as int) == next_entity(p, start as int),
        decreases pairs.len() - i,
    {
        if pairs[i].0 == 0 {
            return i;
        }
        i += 1;
    }
    pairs.len()
}

/// `s` without leading and trailing whitespace, as a new `String`.
fn trimmed(s: &String) -> (r: String)
    ensures
        r@ == trim(s@),
{
    let cs = chars_of(s.as_str());
    let (b, e) = trim_bounds(&cs);
    string_of(&cs, b, e)
}

/// The default layer name, `0`.
fn default_layer() -> (r: String)
    ensures
        r@ == "0"@,
{
    let mut s = String::new();
    push_str(&mut s, "0");
    assert(s@ =~= "0"@);
    s
}

/// Reads the LINE entity whose pairs start at `start`; gives it and the index
/// of the pair after it.
pub fn read_line(pairs: &[(i32, String)], start: usize) -> (r: (DxfLine, usize))
    ensures
        r.0.deep_view() == line_at(pairs.deep_view(), start as int).0,
        r.1 == line_at(pairs.deep_view(), start as int).1,
{
    let ghost p = pairs.deep_view();
    let end = read_until_next_entity(pairs, start);
    proof {
        lemma_next_entity_bounds(p, start as int);
    }
    let mut layer = default_layer();
    let mut x1 = String::new();
    let mut y1 = String::new();
    let mut x2 = String::new();
    let mut y2 = String::new();
    let mut j = start;
    while j < end
        invariant
            p == pairs.deep_view(),
            end <= pairs.len(),
            start <= j,
            j <= end || j == start,
            layer@ == layer_of(p, start as int, j as int),
            x1@ == coord_of(p, start as int, j as int, 10),
            y1@ == coord_of(p, start as int, j as int, 20),
            x2@ == coord_of(p, start as int, j as int, 11),
            y2@ == coord_of(p, start as int, j as int, 21),
        decreases end - j,
    {
        let code = pairs[j].0;
        if code == 8 {
            layer = trimmed(&pairs[j].1);
        } else if code == 10 {
            x1 = pairs[j].1.clone();
        } else if code == 20 {
            y1 = pairs[j].1.clone();
        } else if code == 11 {
            x2 = pairs[j].1.clone();
        } else if code == 21 {
            y2 = pairs[j].1.clone();
        }
        j += 1;
    }
    proof {
        if end < start {
            assert(end == p.len());
        }
    }
    (DxfLine { layer, start: RawPoint { x: x1, y: y1 }, end: RawPoint { x: x2, y: y2 } }, end)
}

/// Reads the LWPOLYLINE entity whose pairs start at `start`; gives it and the
/// index of the pair after it.
pub fn read_lwpolyline(pairs: &[(i32, String)], start: usize) -> (r: (DxfLwPolyline, usize))
    ensures
        r.0.deep_view() == lwpolyline_at(pairs.deep_view(), start as int).0,
        r.1 == lwpolyline_at(pairs.deep_view(), start as int).1,
{
    let ghost p = pairs.deep_view();
    let end = read_until_next_entity(pairs, start);
    proof {
        lemma_next_entity_bounds(p, start as int);
    }
    let mut layer = default_layer();
    let mut flags: i32 = 0;
    let mut points: Vec<RawPoint> = Vec::new();
    let mut pending_x: Option<String> = None;
    let mut j = start;
    while j < end
        invariant
            p == pairs.deep_view(),
            end <= pairs.len(),
            start <= j,
            j <= end || j == start,
            layer@ == layer_of(p, start as int, j as int),
            flags == flags_of(p, start as int, j as int),
            points.deep_view() == point_scan(p, start as int, j as int).0,
            pending_x.deep_view() == point_scan(p, start as int, j as int).1,
        decreases end - j,
    {
        let code = pairs[j].0;
        let ghost before = points.deep_view();
        if code == 8 {
            layer = trimmed(&pairs[j].1);
        } else if code == 70 {
            flags = parse_i32(pairs[j].1.as_str());
        } else if code == 10 {
            pending_x = Some(pairs[j].1.clone());
        } else if code == 20 {
            if let Some(x) = pending_x.take() {
                points.push(RawPoint { x, y: pairs[j].1.clone() });
                assert(points.deep_view() =~= before.push((x@, pairs[j as int].1@)));
            }
        }
        j += 1;
    }
    (DxfLwPolyline { layer, closed: (flags & 1) != 0, points }, end)
}

/// Reads a POLYLINE whose header pairs start at `start`: the header's layer
/// and flags, then one point per VERTEX entity up to the SEQEND; gives it and
/// the index where reading stopped.
pub fn read_polyline(pairs: &[(i32, String)], start: usize) -> (r: (DxfPolyline, usize))
    ensures
        r.0.deep_view() == polyline_at(pairs.deep_view(), start as int).0,
        r.1 == polyline_at(pairs.deep_view(), start as int).1,
{
    let ghost p = pairs.deep_view();
    let mut layer = default_layer();
    let mut flags: i32 = 0;
    let mut i = start;
    while i < pairs.len() && pairs[i].0 != 0
        invariant
            p == pairs.deep_view(),
            start <= i,
            start <= pairs.len() ==> next_entity(p, i as int) == next_entity(p, start as int),
            start <= pairs.len() ==> i <= pairs.len(),
            start > pairs.len() ==> i == start,
            layer@ == layer_of(p, start as int, i as int),
            flags == flags_of(p, start as int, i as int),
        decreases pairs.len() - i,
    {
        let code = pairs[i].0;
        if code == 8 {
            layer = trimmed(&pairs[i].1);
        } else if code == 70 {
            flags = parse_i32(pairs[i].1.as_str());
        }
        i += 1;
    }
    let ghost h = i as int;
    proof {
        if start <= pairs.len() {
            assert(next_entity(p, i as int) == i);
        }
    }
    let ghost target = vertex_scan(p, h);
    let mut points: Vec<RawPoint> = Vec::new();
    while i < pairs.len()
        invariant_except_break
            points.deep_view() + vertex_scan(p, i as int).0 == target.0,
            vertex_scan(p, i as int).1 == target.1,
            h <= i <= pairs.len() || (i == h && h > pairs.len()),
        invariant
            p == pairs.deep_view(),
        ensures
            points.deep_view() == target.0,
            i == target.1,
        decreases pairs.len() - i,
    {
        if pairs[i].0 == 0 && trimmed_eq(pairs[i].1.as_str(), "SEQEND") {
            i = read_until_next_entity(pairs, i + 1);
            assert(points.deep_view() + seq![] =~= points.deep_view());
            break;
        }
        if pairs[i].0 == 0 && trimmed_eq(pairs[i].1.as_str(), "VERTEX") {
            let ghost i0 = i as int;
            i += 1;
            let mut x = String::new();
            let mut y = String::new();
            proof {
                lemma_next_entity_bounds(p, i0 + 1);
            }
            while i < pairs.len() && pairs[i].0 != 0
                invariant
                    p == pairs.deep_view(),
                    i0 + 1 <= i <= pairs.len(),
                    next_entity(p, i as int) == next_entity(p, i0 + 1),
                    x@ == coord_of(p, i0 + 1, i as int, 10),
                    y@ == coord_of(p, i0 + 1, i as int, 20),
                decreases pairs.len() - i,
            {
                let code = pairs[i].0;
                if code == 10 {
                    x = pairs[i].1.clone();
                } else if code == 20 {
                    y = pairs[i].1.clone();
                }
                i += 1;
            }
            let ghost before = points.deep_view();
            let ghost rest = vertex_scan(p, i as int);
            points.push(RawPoint { x, y });
            assert(points.deep_view() =~= before.push((x@, y@)));
            assert(points.deep_view() + rest.0 =~= before + (seq![(x@, y@)] + rest.0));
            continue;
        }
        if pairs[i].0 == 0 {
            assert(points.deep_view() + seq![] =~= points.deep_view());
            break;
        }
        i += 1;
    }
    proof {
        if start > pairs.len() {
            assert(h == start);
        } else {
            lemma_next_entity_bounds(p, start as int);
        }
    }
    (DxfPolyline { layer, closed: (flags & 1) != 0, points }, i)
}

/// The text `1`, the weight of a control point of a non-rational spline.
fn unit_weight() -> (r: String)
    ensures
        r@ == "1"@,
{
    let mut s = String::new();
    push_str(&mut s, "1");
    assert(s@ =~= "1"@);
    s
}

/// Reads the SPLINE entity whose pairs start at `start`; gives it and the
/// index of the pair after it.
pub fn read_spline(pairs: &[(i32, String)], start: usize) -> (r: (DxfSpline, usize))
    ensures
        r.0.deep_view() == spline_at(pairs.deep_view(), start as int).0,
        r.1 == spline_at(pairs.deep_view(), start as int).1,
        r.0.weights.len() == r.0.controls.len(),
{
    let ghost p = pairs.deep_view();
    let end = read_until_next_entity(pairs, start);
    proof {
        lemma_next_entity_bounds(p, start as int);
    }
    let mut layer = default_layer();
    let mut flags: i32 = 0;
    let mut degree: usize = 3;
    let mut knots: Vec<String> = Vec::new();
    let mut controls: Vec<RawPoint> = Vec::new();
    let mut weights: Vec<String> = Vec::new();
    let mut pending_x: Option<String> = None;
    let mut j = start;
    while j < end
        invariant
            p == pairs.deep_view(),
            end <= pairs.len(),
            start <= j,
            j <= end || j == start,
            layer@ == layer_of(p, start as int, j as int),
            flags == flags_of(p, start as int, j as int),
            degree == degree_of(p, start as int, j as int),
            knots.deep_view() == values_with(p, start as int, j as int, 40),
            weights.deep_view() == values_with(p, start as int, j as int, 41),
            controls.deep_view() == point_scan(p, start as int, j as int).0,
            pending_x.deep_view() == point_scan(p, start as int, j as int).1,
        decreases end - j,
    {
        let code = pairs[j].0;
        let ghost old_knots = knots.deep_view();
        let ghost old_weights = weights.deep_view();
        let ghost old_controls = controls.deep_view();
        if code == 8 {
            layer = trimmed(&pairs[j].1);
        } else if code == 70 {
            flags = parse_i32(pairs[j].1.as_str());
        } else if code == 71 {
            let d = parse_i32(pairs[j].1.as_str());
            degree = if d < 1 {
                1
            } else {
                d as usize
            };
        } else if code == 40 {
            knots.push(pairs[j].1.clone());
            assert(knots.deep_view() =~= old_knots.push(pairs[j as int].1@));
        } else if code == 41 {
            weights.push(pairs[j].1.clone());
            assert(weights.deep_view() =~= old_weights.push(pairs[j as int].1@));
        } else if code == 10 {
            pending_x = Some(pairs[j].1.clone());
        } else if code == 20 {
            if let Some(x) = pending_x.take() {
                controls.push(RawPoint { x, y: pairs[j].1.clone() });
                assert(controls.deep_view() =~= old_controls.push((x@, pairs[j as int].1@)));
            }
        }
        j += 1;
    }
    if weights.len() != controls.len() {
        let n = controls.len();
        weights = Vec::new();
        let mut k: usize = 0;
        while k < n
            invariant
                k <= n,
                weights.len() == k,
                forall|m: int| 0 <= m < k ==> #[trigger] weights@[m]@ == "1"@,
            decreases n - k,
        {
            weights.push(unit_weight());
            k += 1;
        }
        assert(weights.deep_view() =~= Seq::new(n as nat, |m: int| "1"@));
    }
    (DxfSpline { layer, closed: (flags & 1) != 0, degree, knots, controls, weights }, end)
}

/// Reads a whole DXF text: its pairs, then the entities of its ENTITIES section.
pub fn drawing_from_text(text: &str) -> (d: DxfDrawing)
    ensures
        d.deep_view() == text_drawing(text@),
{
    let pair_vec = pairs_from_text(text);
    let pairs = pair_vec.as_slice();
    let ghost p = pairs.deep_view();
    assert(p =~= text_pairs(text@));
    let mut doc = DxfDrawing::default();
    assert(doc.deep_view().concat(drawing_from(p, 0, false)) =~= drawing_from(p, 0, false));
    let mut i: usize = 0;
    let mut in_entities = false;
    while i < pairs.len()
        invariant
            p == pairs.deep_view(),
            i <= pairs.len(),
            doc.deep_view().concat(drawing_from(p, i as int, in_entities)) == drawing_from(
                p,
                0,
                false,
            ),
        decreases pairs.len() - i,
    {
        let code = pairs[i].0;
        let val = pairs[i].1.as_str();
        proof {
            lemma_next_entity_bounds(p, i + 1);
            lemma_vertex_scan_bounds(p, next_entity(p, i + 1));
        }
        if code == 0 && trimmed_eq(val, "SECTION") {
            if i + 1 < pairs.len() && pairs[i + 1].0 == 2 {
                in_entities = trimmed_eq(pairs[i + 1].1.as_str(), "ENTITIES");
            }
            i += 1;
        } else if code == 0 && trimmed_eq(val, "ENDSEC") {
            in_entities = false;
            i += 1;
        } else if !in_entities || code != 0 {
            i += 1;
        } else if trimmed_eq(val, "LINE") {
            let ghost old = doc.deep_view();
            let (ent, next) = read_line(pairs, i + 1);
            let ghost rest = drawing_from(p, next as int, in_entities);
            doc.lines.push(ent);
            assert(doc.lines.deep_view() =~= old.lines.push(ent.deep_view()));
            assert(doc.deep_view().concat(rest) =~= old.concat(
                SpecDrawing { lines: seq![ent.deep_view()] + rest.lines, ..rest },
            ));
            i = next;
        } else if trimmed_eq(val, "LWPOLYLINE") {
            let ghost old = doc.deep_view();
            let (ent, next) = read_lwpolyline(pairs, i + 1);
            let ghost rest = drawing_from(p, next as int, in_entities);
            doc.lwpolylines.push(ent);
            assert(doc.lwpolylines.deep_view() =~= old.lwpolylines.push(ent.deep_view()));
            assert(doc.deep_view().concat(rest) =~= old.concat(
                SpecDrawing { lwpolylines: seq![ent.deep_view()] + rest.lwpolylines, ..rest },
            ));
            i = next;
        } else if trimmed_eq(val, "POLYLINE") {
            let ghost old = doc.deep_view();
            let (ent, next) = read_polyline(pairs, i + 1);
            let ghost rest = drawing_from(p, next as int, in_entities);
            doc.polylines.push(ent);
            assert(doc.polylines.deep_view() =~= old.polylines.push(ent.deep_view()));
            assert(doc.deep_view().concat(rest) =~= old.concat(
                SpecDrawing { polylines: seq![ent.deep_view()] + rest.polylines, ..rest },
            ));
            i = next;
        } else if trimmed_eq(val, "SPLINE") {
            let ghost old = doc.deep_view();
            let (ent, next) = read_spline(pairs, i + 1);
            let ghost rest = drawing_from(p, next as int, in_entities);
            doc.splines.push(ent);
            assert(doc.splines.deep_view() =~= old.splines.push(ent.deep_view()));
            assert(doc.deep_view().concat(rest) =~= old.concat(
                SpecDrawing { splines: seq![ent.deep_view()] + rest.splines, ..rest },
            ));
            i = next;
        } else {
            i += 1;
        }
    }
    assert(doc.deep_view() =~= doc.deep_view().concat(drawing_from(p, i as int, in_entities)));
    doc
}

/// The text that `String::from_utf8_lossy` makes of `bytes`: each maximal
/// ill-formed byte sequence becomes U+FFFD.
pub uninterp spec fn utf8_lossy(bytes: Seq<u8>) -> Seq<char>;

/// Calls `String::from_utf8_lossy`. Its result is named `utf8_lossy` of the
/// bytes; the contract also states what the documentation promises for valid
/// UTF-8, that no replacement is made.
#[verifier::external_body]
fn decode_lossy(bytes: &[u8]) -> (s: String)
    ensures
        s@ == utf8_lossy(bytes@),
        valid_utf8(bytes@) ==> s@ == decode_utf8(bytes@),
{
    String::from_utf8_lossy(bytes).into_owned()
}

/// Reads the bytes of a DXF file: they are decoded as UTF-8 with invalid
/// sequences replaced (DXF files are often in a legacy code page, which only
/// matters for names, not for numbers and entity types), then read as pairs
/// and entities.
pub fn read_dxf(bytes: &[u8]) -> (d: DxfDrawing)
    ensures
        d.deep_view() == text_drawing(utf8_lossy(bytes@)),
        valid_utf8(bytes@) ==> d.deep_view() == text_drawing(decode_utf8(bytes@)),
{
    let text = decode_lossy(bytes);
    drawing_from_text(text.as_str())
}

// ---------------------------------------------------------------------------
// Laws of the entity readers
// ---------------------------------------------------------------------------

/// Bit 1 of a flags value is set exactly when the value is odd.
pub proof fn lemma_flag_bit(f: i32)
    ensures
        ((f & 1) != 0) == (f % 2 != 0),
{
    assert(((f & 1) != 0) == (f % 2 != 0)) by (bit_vector);
}

/// An entity is closed exactly when the last flags value (code 70) among its
/// pairs is odd; an entity without flags is open. Flags 8 (planar), 4
/// (rational) or 2 (periodic) alone leave a spline open.
pub proof fn lemma_closed_is_odd_flags(p: SpecPairs, start: int)
    ensures
        ({
            let end = next_entity(p, start);
            let odd = match last_value(p, start, end, 70) {
                Some(v) => i32_or_zero(v) % 2 != 0,
                None => false,
            };
            &&& spline_at(p, start).0.closed == odd
            &&& lwpolyline_at(p, start).0.closed == odd
        }),
        ({
            let h = if start > p.len() {
                start
            } else {
                next_entity(p, start)
            };
            polyline_at(p, start).0.closed == match last_value(p, start, h, 70) {
                Some(v) => i32_or_zero(v) % 2 != 0,
                None => false,
            }
        }),
{
    let end = next_entity(p, start);
    lemma_flag_bit(flags_of(p, start, end));
    let h = if start > p.len() {
        start
    } else {
        next_entity(p, start)
    };
    lemma_flag_bit(flags_of(p, start, h));
}

/// The layer read for `p[lo..hi]` is the trimmed value of the last pair with
/// code 8 there, and `0` when there is no such pair.
pub proof fn lemma_layer_is_last_code_8(p: SpecPairs, lo: int, hi: int)
    ensures
        forall|m: int|
            lo <= m < hi && p[m].0 == 8 && (forall|k: int| m < k < hi ==> p[k].0 != 8) ==> layer_of(
                p,
                lo,
                hi,
            ) == trim(p[m].1),
        (forall|k: int| lo <= k < hi ==> p[k].0 != 8) ==> layer_of(p, lo, hi) == "0"@,
    decreases hi - lo,
{
    if hi > lo {
        lemma_layer_is_last_code_8(p, lo, hi - 1);
        assert forall|m: int|
            lo <= m < hi && p[m].0 == 8 && (forall|k: int| m < k < hi ==> p[k].0 != 8) implies layer_of(
            p,
            lo,
            hi,
        ) == trim(p[m].1) by {
            if m < hi - 1 {
                assert(p[hi - 1].0 != 8);
            }
        }
        if forall|k: int| lo <= k < hi ==> p[k].0 != 8 {
            assert(p[hi - 1].0 != 8);
        }
    }
}

/// Every entity takes its layer from its own pairs: the trimmed value of its
/// last code 8 pair, or `0` when it has none.
pub proof fn lemma_entity_layers(p: SpecPairs, start: int)
    ensures
        ({
            let end = next_entity(p, start);
            &&& forall|m: int|
                start <= m < end && p[m].0 == 8 && (forall|k: int| m < k < end ==> p[k].0 != 8)
                    ==> {
                    &&& lwpolyline_at(p, start).0.layer == trim(p[m].1)
                    &&& line_at(p, start).0.layer == trim(p[m].1)
                    &&& spline_at(p, start).0.layer == trim(p[m].1)
                }
            &&& (forall|k: int| start <= k < end ==> p[k].0 != 8) ==> {
                &&& lwpolyline_at(p, start).0.layer == "0"@
                &&& line_at(p, start).0.layer == "0"@
                &&& spline_at(p, start).0.layer == "0"@
            }
        }),
{
    lemma_layer_is_last_code_8(p, start, next_entity(p, start));
}

/// `next_entity` only looks at the pairs from `i` on.
pub proof fn lemma_next_entity_local(p: SpecPairs, q: SpecPairs, h: int, i: int)
    requires
        p.len() == q.len(),
        0 <= h <= i,
        forall|k: int| h <= k < p.len() ==> p[k] == q[k],
    ensures
        next_entity(p, i) == next_entity(q, i),
    decreases p.len() - i,
{
    if i < p.len() && p[i].0 != 0 {
        lemma_next_entity_local(p, q, h, i + 1);
    }
}

/// `last_value` only looks at the pairs in its range.
pub proof fn lemma_last_value_local(p: SpecPairs, q: SpecPairs, h: int, lo: int, hi: int, code: i32)
    requires
        p.len() == q.len(),
        0 <= h <= lo,
        hi <= p.len(),
        forall|k: int| h <= k < p.len() ==> p[k] == q[k],
    ensures
        last_value(p, lo, hi, code) == last_value(q, lo, hi, code),
    decreases hi - lo,
{
    if hi > lo {
        lemma_last_value_local(p, q, h, lo, hi - 1, code);
    }
}

/// The vertices read from `i` on only depend on the pairs from `i` on.
pub proof fn lemma_vertex_scan_local(p: SpecPairs, q: SpecPairs, h: int, i: int)
    requires
        p.len() == q.len(),
        0 <= h <= i <= p.len(),
        forall|k: int| h <= k < p.len() ==> p[k] == q[k],
    ensures
        vertex_scan(p, i) == vertex_scan(q, i),
    decreases p.len() - i,
{
    if i < p.len() {
        lemma_next_entity_local(p, q, h, i + 1);
        lemma_next_entity_bounds(p, i + 1);
        let e = next_entity(p, i + 1);
        if p[i].0 == 0 && trim(p[i].1) == "VERTEX"@ && !(trim(p[i].1) == "SEQEND"@) {
            lemma_last_value_local(p, q, h, i + 1, e, 10);
            lemma_last_value_local(p, q, h, i + 1, e, 20);
            lemma_vertex_scan_local(p, q, h, e);
        } else if p[i].0 != 0 {
            lemma_vertex_scan_local(p, q, h, i + 1);
        }
    }
}

/// The points of a POLYLINE come from its VERTEX entities alone: two
/// POLYLINEs whose headers end at the same index and whose pairs agree from
/// there on have the same points, whatever their headers hold (a header's own
/// code 10/20 pairs give no point).
pub proof fn lemma_polyline_points_ignore_header(p: SpecPairs, q: SpecPairs, start: int)
    requires
        p.len() == q.len(),
        0 <= start <= p.len(),
        next_entity(p, start) == next_entity(q, start),
        forall|k: int| next_entity(p, start) <= k < p.len() ==> p[k] == q[k],
    ensures
        polyline_at(p, start).0.points == polyline_at(q, start).0.points,
        polyline_at(p, start).1 == polyline_at(q, start).1,
{
    lemma_next_entity_bounds(p, start);
    lemma_vertex_scan_local(p, q, next_entity(p, start), next_entity(p, start));
}

/// A POLYLINE followed by no VERTEX entity has no points.
pub proof fn lemma_polyline_without_vertices(p: SpecPairs, start: int)
    requires
        0 <= start <= p.len(),
        forall|k: int|
            next_entity(p, start) <= k < p.len() && p[k].0 == 0 ==> trim(p[k].1) != "VERTEX"@,
    ensures
        polyline_at(p, start).0.points.len() == 0,
{
    let h = next_entity(p, start);
    lemma_next_entity_bounds(p, start);
    lemma_vertex_scan_no_vertex(p, h, h);
}

pub proof fn lemma_vertex_scan_no_vertex(p: SpecPairs, h: int, i: int)
    requires
        0 <= h <= i <= p.len(),
        forall|k: int| h <= k < p.len() && p[k].0 == 0 ==> trim(p[k].1) != "VERTEX"@,
    ensures
        vertex_scan(p, i).0.len() == 0,
    decreases p.len() - i,
{
    if i < p.len() && p[i].0 != 0 {
        lemma_vertex_scan_no_vertex(p, h, i + 1);
    }
}

} // verus!
