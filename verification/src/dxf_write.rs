//! Writer of DXF R2000 text holding only LINE and ARC entities.
//!
//! The output is an empty R2000 drawing (a template) whose ENTITIES section
//! is filled with the entities written here. Every pair is written as the
//! group code, CR LF, the value, CR LF. Numbers reach the writer already
//! rendered as text.
use crate::dxf_read::{
    text_drawing, drawing_from, drop_trailing_blank, last_value, next_entity, text_lines, text_pairs, SpecDrawing,
    SpecLine, SpecPairs,
};
use crate::text::{
    chars_trimmed_eq, dec_text, hex_text, int_text, is_digit, is_ws, lemma_dec_text, lemma_digit_char, lemma_hex_text_injective,
    lemma_int_text_parses, lemma_trim_end_len, lemma_trim_start_suffix, push_chars, push_hex, push_i32, push_str,
    split_acc, split_newlines, split_pieces, string_from, trim, trim_end, trim_start,
    i32_or_zero,
};
use vstd::prelude::*;

verus! {

/// Carriage return and line feed, the line end of the written DXF.
pub open spec fn crlf() -> Seq<char> {
    seq!['\r', '\n']
}

/// The text of one pair: the code in decimal and the value, each on a line.
pub open spec fn pair_text(code: int, value: Seq<char>) -> Seq<char> {
    int_text(code) + crlf() + value + crlf()
}

/// `0.0` as the writer renders coordinates (twelve decimals).
pub open spec fn zero_text() -> Seq<char> {
    "0.000000000000"@
}

/// `1.0` as the writer renders coordinates (twelve decimals).
pub open spec fn one_text() -> Seq<char> {
    "1.000000000000"@
}

/// The handle of the model space block record in the template, which owns
/// every entity written.
pub open spec fn model_space_owner() -> Seq<char> {
    "17"@
}

/// The first entity handle the writer hands out.
pub const FIRST_HANDLE: u64 = 0x400;

/// The text of a list of pairs, one after the other.
pub open spec fn pairs_text(ps: SpecPairs) -> Seq<char>
    decreases ps.len(),
{
    if ps.len() == 0 {
        seq![]
    } else {
        pairs_text(ps.drop_last()) + pair_text(ps.last().0 as int, ps.last().1)
    }
}

/// The pairs of a LINE entity from `a` to `b` (X and Y texts), with handle
/// `handle` on layer `layer`, flat in Z and extruded along +Z.
pub open spec fn line_pairs(
    handle: Seq<char>,
    layer: Seq<char>,
    a: (Seq<char>, Seq<char>),
    b: (Seq<char>, Seq<char>),
) -> SpecPairs {
    seq![
        (0i32, "LINE"@),
        (5i32, handle),
        (330i32, model_space_owner()),
        (100i32, "AcDbEntity"@),
        (8i32, layer),
        (100i32, "AcDbLine"@),
        (10i32, a.0),
        (20i32, a.1),
        (30i32, zero_text()),
        (11i32, b.0),
        (21i32, b.1),
        (31i32, zero_text()),
        (210i32, zero_text()),
        (220i32, zero_text()),
        (230i32, one_text()),
    ]
}

/// The pairs of an ARC entity around `center` with the given radius and start
/// and end angles in degrees (all as text), with handle `handle` on `layer`.
pub open spec fn arc_pairs(
    handle: Seq<char>,
    layer: Seq<char>,
    center: (Seq<char>, Seq<char>),
    radius: Seq<char>,
    start_deg: Seq<char>,
    end_deg: Seq<char>,
) -> SpecPairs {
    seq![
        (0i32, "ARC"@),
        (5i32, handle),
        (330i32, model_space_owner()),
        (100i32, "AcDbEntity"@),
        (8i32, layer),
        (100i32, "AcDbCircle"@),
        (10i32, center.0),
        (20i32, center.1),
        (30i32, zero_text()),
        (40i32, radius),
        (210i32, zero_text()),
        (220i32, zero_text()),
        (230i32, one_text()),
        (100i32, "AcDbArc"@),
        (50i32, start_deg),
        (51i32, end_deg),
    ]
}

/// Accumulates the text of the entities and hands out entity handles.
pub struct Writer {
    pub out: String,
    pub next_handle: u64,
}

impl Writer {
    /// A writer with no text yet, whose first handle is `FIRST_HANDLE`.
    pub fn new() -> (w: Writer)
        ensures
            w.out@ == Seq::<char>::empty(),
            w.next_handle == FIRST_HANDLE,
    {
        Writer { out: String::new(), next_handle: FIRST_HANDLE }
    }

    /// Writes one pair.
    pub fn pair(&mut self, code: i32, value: &str)
        ensures
            final(self).out@ == old(self).out@ + pair_text(code as int, value@),
            final(self).next_handle == old(self).next_handle,
    {
        push_i32(&mut self.out, code);
        push_str(&mut self.out, "\r\n");
        push_str(&mut self.out, value);
        push_str(&mut self.out, "\r\n");
        proof {
            reveal_strlit("\r\n");
        }
        assert(self.out@ =~= old(self).out@ + pair_text(code as int, value@));
    }

    /// Writes the pairs `ps` in order.
    pub fn write_pairs(&mut self, ps: &[(i32, &str)])
        ensures
            final(self).out@ == old(self).out@ + pairs_text(ps.deep_view()),
            final(self).next_handle == old(self).next_handle,
    {
        let ghost q = ps.deep_view();
        let mut k: usize = 0;
        while k < ps.len()
            invariant
                k <= ps.len(),
                q == ps.deep_view(),
                self.out@ == old(self).out@ + pairs_text(q.take(k as int)),
                self.next_handle == old(self).next_handle,
            decreases ps.len() - k,
        {
            let (code, value) = ps[k];
            self.pair(code, value);
            proof {
                assert(q.take(k + 1).drop_last() =~= q.take(k as int));
                assert(q.take(k + 1).last() == (code, value@));
            }
            k += 1;
            assert(self.out@ =~= old(self).out@ + pairs_text(q.take(k as int)));
        }
        assert(q.take(k as int) =~= q);
    }

    /// Hands out the next handle, in upper-case hexadecimal.
    pub fn alloc_handle(&mut self) -> (h: String)
        requires
            old(self).next_handle < u64::MAX,
        ensures
            h@ == hex_text(old(self).next_handle as nat),
            final(self).next_handle == old(self).next_handle + 1,
            final(self).out@ == old(self).out@,
    {
        let h = self.next_handle;
        self.next_handle += 1;
        let mut s = String::new();
        push_hex(&mut s, h);
        assert(s@ =~= hex_text(h as nat));
        s
    }

    /// Writes a LINE entity from `a` to `b` on `layer`, with a new handle.
    pub fn write_line(&mut self, layer: &str, a: (&str, &str), b: (&str, &str))
        requires
            old(self).next_handle < u64::MAX,
        ensures
            final(self).out@ == old(self).out@ + pairs_text(
                line_pairs(
                    hex_text(old(self).next_handle as nat),
                    layer@,
                    (a.0@, a.1@),
                    (b.0@, b.1@),
                ),
            ),
            final(self).next_handle == old(self).next_handle + 1,
    {
        let handle = self.alloc_handle();
        let ps = [
            (0, "LINE"),
            (5, handle.as_str()),
            (330, "17"),
            (100, "AcDbEntity"),
            (8, layer),
            (100, "AcDbLine"),
            (10, a.0),
            (20, a.1),
            (30, "0.000000000000"),
            (11, b.0),
            (21, b.1),
            (31, "0.000000000000"),
            (210, "0.000000000000"),
            (220, "0.000000000000"),
            (230, "1.000000000000"),
        ];
        let slice = ps.as_slice();
        assert(slice.deep_view() =~= line_pairs(
            hex_text(old(self).next_handle as nat),
            layer@,
            (a.0@, a.1@),
            (b.0@, b.1@),
        ));
        self.write_pairs(slice);
    }

    /// Writes an ARC entity on `layer`, with a new handle. Angles are in
    /// degrees, counter-clockwise from `start_deg` to `end_deg`.
    pub fn write_arc(
        &mut self,
        layer: &str,
        center: (&str, &str),
        radius: &str,
        start_deg: &str,
        end_deg: &str,
    )
        requires
            old(self).next_handle < u64::MAX,
        ensures
            final(self).out@ == old(self).out@ + pairs_text(
                arc_pairs(
                    hex_text(old(self).next_handle as nat),
                    layer@,
                    (center.0@, center.1@),
                    radius@,
                    start_deg@,
                    end_deg@,
                ),
            ),
            final(self).next_handle == old(self).next_handle + 1,
    {
        let handle = self.alloc_handle();
        let ps = [
            (0, "ARC"),
            (5, handle.as_str()),
            (330, "17"),
            (100, "AcDbEntity"),
            (8, layer),
            (100, "AcDbCircle"),
            (10, center.0),
            (20, center.1),
            (30, "0.000000000000"),
            (40, radius),
            (210, "0.000000000000"),
            (220, "0.000000000000"),
            (230, "1.000000000000"),
            (100, "AcDbArc"),
            (50, start_deg),
            (51, end_deg),
        ];
        let slice = ps.as_slice();
        assert(slice.deep_view() =~= arc_pairs(
            hex_text(old(self).next_handle as nat),
            layer@,
            (center.0@, center.1@),
            radius@,
            start_deg@,
            end_deg@,
        ));
        self.write_pairs(slice);
    }
}

/// `s` without the `\r` characters at its end (`trim_end_matches('\r')`).
pub open spec fn strip_cr(s: Seq<char>) -> Seq<char>
    decreases s.len(),
{
    if s.len() > 0 && s.last() == '\r' {
        strip_cr(s.drop_last())
    } else {
        s
    }
}

/// The lines of a template: the pieces between `\n`, each without its
/// trailing `\r`.
pub open spec fn template_lines(t: Seq<char>) -> Seq<Seq<char>> {
    split_pieces(t).map_values(|l: Seq<char>| strip_cr(l))
}

/// Lines `i` to `i + 3` read `0`, `SECTION`, `2`, `ENTITIES` (trimmed).
pub open spec fn is_entities_header(ls: Seq<Seq<char>>, i: int) -> bool {
    &&& trim(ls[i]) == "0"@
    &&& trim(ls[i + 1]) == "SECTION"@
    &&& trim(ls[i + 2]) == "2"@
    &&& trim(ls[i + 3]) == "ENTITIES"@
}

/// The first `i >= k` at which the ENTITIES header stands, all four lines inside `ls`.
pub open spec fn find_entities(ls: Seq<Seq<char>>, k: int) -> Option<int>
    decreases ls.len() - k,
{
    if k < 0 || k + 3 >= ls.len() {
        None
    } else if is_entities_header(ls, k) {
        Some(k)
    } else {
        find_entities(ls, k + 1)
    }
}

/// Lines `j` and `j + 1` read `0`, `ENDSEC` (trimmed).
pub open spec fn is_endsec(ls: Seq<Seq<char>>, j: int) -> bool {
    &&& trim(ls[j]) == "0"@
    &&& trim(ls[j + 1]) == "ENDSEC"@
}

/// The first `j >= k` at which an ENDSEC stands, both lines inside `ls`.
pub open spec fn find_endsec(ls: Seq<Seq<char>>, k: int) -> Option<int>
    decreases ls.len() - k,
{
    if k < 0 || k + 1 >= ls.len() {
        None
    } else if is_endsec(ls, k) {
        Some(k)
    } else {
        find_endsec(ls, k + 1)
    }
}

pub proof fn lemma_find_entities_bounds(ls: Seq<Seq<char>>, k: int)
    ensures
        find_entities(ls, k) matches Some(i) ==> k <= i && i + 3 < ls.len() && is_entities_header(ls, i),
    decreases ls.len() - k,
{
    if k >= 0 && k + 3 < ls.len() && !is_entities_header(ls, k) {
        lemma_find_entities_bounds(ls, k + 1);
    }
}

pub proof fn lemma_find_endsec_bounds(ls: Seq<Seq<char>>, k: int)
    ensures
        find_endsec(ls, k) matches Some(j) ==> k <= j && j + 1 < ls.len() && is_endsec(ls, j),
    decreases ls.len() - k,
{
    if k >= 0 && k + 1 < ls.len() && !is_endsec(ls, k) {
        lemma_find_endsec_bounds(ls, k + 1);
    }
}

/// Each line followed by CR LF.
pub open spec fn crlf_lines(ls: Seq<Seq<char>>) -> Seq<char>
    decreases ls.len(),
{
    if ls.len() == 0 {
        seq![]
    } else {
        crlf_lines(ls.drop_last()) + ls.last() + crlf()
    }
}

/// What splitting a template gives: the text up to and including the
/// ENTITIES header, and the text from the ENDSEC that closes it on, each line
/// ended by CR LF; or the error that names what is missing.
pub open spec fn template_split(t: Seq<char>) -> Result<(Seq<char>, Seq<char>), Seq<char>> {
    let ls = template_lines(t);
    match find_entities(ls, 0) {
        None => Err("Brak sekcji ENTITIES w szablonie DXF"@),
        Some(i) => match find_endsec(ls, i + 4) {
            None => Err("Brak ENDSEC po ENTITIES"@),
            Some(j) => Ok((crlf_lines(ls.take(i + 4)), crlf_lines(ls.skip(j)))),
        },
    }
}

/// The character sequences of a list of lines.
pub open spec fn views(v: Seq<Vec<char>>) -> Seq<Seq<char>> {
    v.map_values(|l: Vec<char>| l@)
}

/// Appends `cs` and CR LF for each line `cs` of `ls[from..to]`.
fn push_crlf_lines(out: &mut String, ls: &Vec<Vec<char>>, from: usize, to: usize)
    requires
        from <= to <= ls.len(),
    ensures
        final(out)@ == old(out)@ + crlf_lines(views(ls@).subrange(from as int, to as int)),
{
    let ghost d = views(ls@);
    let mut k = from;
    while k < to
        invariant
            from <= k <= to <= ls.len(),
            d == views(ls@),
            out@ == old(out)@ + crlf_lines(d.subrange(from as int, k as int)),
        decreases to - k,
    {
        let line = &ls[k];
        push_chars(out, line, 0, line.len());
        push_str(out, "\r\n");
        proof {
            reveal_strlit("\r\n");
            assert(line@.subrange(0, line@.len() as int) =~= line@);
            assert(d.subrange(from as int, k + 1).drop_last() =~= d.subrange(from as int, k as int));
        }
        k += 1;
        assert(out@ =~= old(out)@ + crlf_lines(d.subrange(from as int, k as int)));
    }
}

/// The first index at which the ENTITIES header stands.
fn find_entities_header(lines: &Vec<Vec<char>>) -> (r: Option<usize>)
    ensures
        r matches Some(i) ==> find_entities(views(lines@), 0) == Some(i as int),
        r is None ==> find_entities(views(lines@), 0) is None,
{
    let ghost ls = views(lines@);
    let n = lines.len();
    let mut i: usize = 0;
    while n >= 4 && i <= n - 4
        invariant
            n == lines.len(),
            ls == views(lines@),
            find_entities(ls, 0) == find_entities(ls, i as int),
        decreases n - i,
    {
        if chars_trimmed_eq(&lines[i], "0") && chars_trimmed_eq(&lines[i + 1], "SECTION")
            && chars_trimmed_eq(&lines[i + 2], "2") && chars_trimmed_eq(&lines[i + 3], "ENTITIES") {
            return Some(i);
        }
        i += 1;
    }
    None
}

/// The first index `j >= from` at which an ENDSEC stands.
fn find_endsec_at(lines: &Vec<Vec<char>>, from: usize) -> (r: Option<usize>)
    requires
        from <= lines.len(),
    ensures
        r matches Some(j) ==> find_endsec(views(lines@), from as int) == Some(j as int),
        r is None ==> find_endsec(views(lines@), from as int) is None,
{
    let ghost ls = views(lines@);
    let n = lines.len();
    let mut j = from;
    while j < n && j + 1 < n
        invariant
            n == lines.len(),
            ls == views(lines@),
            from <= j <= n,
            find_endsec(ls, from as int) == find_endsec(ls, j as int),
        decreases n - j,
    {
        if chars_trimmed_eq(&lines[j], "0") && chars_trimmed_eq(&lines[j + 1], "ENDSEC") {
            return Some(j);
        }
        j += 1;
    }
    None
}

/// Splits the template of an empty drawing around the content of its
/// ENTITIES section.
pub fn split_template_owned(template: &str) -> (r: Result<(String, String), String>)
    ensures
        match template_split(template@) {
            Ok((p, s)) => r matches Ok((rp, rs)) && rp@ == p && rs@ == s,
            Err(e) => r matches Err(re) && re@ == e,
        },
{
    let mut lines = split_newlines(template);
    let ghost pieces = split_pieces(template@);
    let ghost ls = template_lines(template@);
    let mut k: usize = 0;
    while k < lines.len()
        invariant
            lines.len() == ls.len(),
            ls.len() == pieces.len(),
            ls == pieces.map_values(|l: Seq<char>| strip_cr(l)),
            k <= lines.len(),
            forall|m: int| 0 <= m < k ==> #[trigger] lines@[m]@ == ls[m],
            forall|m: int| k <= m < lines.len() ==> #[trigger] lines@[m]@ == pieces[m],
        decreases lines.len() - k,
    {
        let mut line = lines[k].clone();
        let ghost orig = line@;
        let mut e = line.len();
        assert(orig.take(e as int) =~= orig);
        while e > 0 && line[e - 1] == '\r'
            invariant
                e <= line.len(),
                line@ == orig,
                strip_cr(orig) == strip_cr(orig.take(e as int)),
            decreases e,
        {
            assert(orig.take(e as int).drop_last() =~= orig.take(e - 1));
            e -= 1;
        }
        proof {
            let t = orig.take(e as int);
            if e > 0 {
                assert(t.last() == orig[e - 1]);
            }
            assert(strip_cr(t) == t);
            assert(ls[k as int] == strip_cr(orig));
        }
        line.truncate(e);
        lines.set(k, line);
        k += 1;
    }
    assert(views(lines@) =~= ls);
    let n = lines.len();
    let i = match find_entities_header(&lines) {
        Some(i) => i,
        None => {
            return Err(string_from("Brak sekcji ENTITIES w szablonie DXF"));
        },
    };
    proof {
        lemma_find_entities_bounds(ls, 0);
    }
    let j = match find_endsec_at(&lines, i + 4) {
        Some(j) => j,
        None => {
            return Err(string_from("Brak ENDSEC po ENTITIES"));
        },
    };
    proof {
        lemma_find_endsec_bounds(ls, i + 4);
    }
    let mut prefix = String::new();
    push_crlf_lines(&mut prefix, &lines, 0, i + 4);
    let mut suffix = String::new();
    push_crlf_lines(&mut suffix, &lines, j, n);
    assert(ls.subrange(0, i + 4) =~= ls.take(i + 4));
    assert(ls.subrange(j as int, n as int) =~= ls.skip(j as int));
    assert(prefix@ =~= crlf_lines(ls.take(i + 4)));
    assert(suffix@ =~= crlf_lines(ls.skip(j as int)));
    Ok((prefix, suffix))
}

/// The segments drawn for a contour of `n` vertices, as (from, to) vertex
/// indices: none below two vertices; otherwise each vertex to the next, and
/// the last back to the first when the contour is closed.
pub open spec fn segment_indices(n: nat, closed: bool) -> Seq<(usize, usize)> {
    if n < 2 {
        seq![]
    } else {
        Seq::new((n - 1) as nat, |k: int| (k as usize, (k + 1) as usize)) + if closed {
            seq![((n - 1) as usize, 0usize)]
        } else {
            seq![]
        }
    }
}

/// A chain of vertices on a layer, open or closed, to be written as LINE and
/// ARC entities.
pub struct Contour<V> {
    pub verts: Vec<V>,
    pub closed: bool,
    pub layer: String,
}

impl<V> Contour<V> {
    /// The layer the contour's entities go on: its own, or `0` when that is empty.
    pub fn layer_name(&self) -> (s: &str)
        ensures
            s@ == if self.layer@.len() == 0 {
                "0"@
            } else {
                self.layer@
            },
    {
        if self.layer.as_str().is_empty() {
            "0"
        } else {
            self.layer.as_str()
        }
    }

    /// The segments written for the contour, in order.
    pub fn segments(&self) -> (r: Vec<(usize, usize)>)
        ensures
            r@ == segment_indices(self.verts.len() as nat, self.closed),
            forall|k: int| 0 <= k < r.len() ==> (#[trigger] r@[k]).0 < self.verts.len() && r@[k].1
                < self.verts.len(),
    {
        let n = self.verts.len();
        let mut r: Vec<(usize, usize)> = Vec::new();
        if n < 2 {
            assert(r@ =~= segment_indices(n as nat, self.closed));
            return r;
        }
        let mut i: usize = 0;
        while i < n - 1
            invariant
                n == self.verts.len(),
                n >= 2,
                i <= n - 1,
                r@ =~= Seq::new(i as nat, |k: int| (k as usize, (k + 1) as usize)),
            decreases n - 1 - i,
        {
            r.push((i, i + 1));
            i += 1;
        }
        if self.closed {
            r.push((n - 1, 0));
        }
        assert(r@ =~= segment_indices(n as nat, self.closed));
        r
    }
}

// ---------------------------------------------------------------------------
// Reading back what was written
// ---------------------------------------------------------------------------

/// The lines of the text of `ps` before the line feeds are cut off: per pair,
/// the code and the value, each still ending with its `\r`.
pub open spec fn written_lines(ps: SpecPairs) -> Seq<Seq<char>>
    decreases ps.len(),
{
    if ps.len() == 0 {
        seq![]
    } else {
        written_lines(ps.drop_last()) + seq![
            int_text(ps.last().0 as int).push('\r'),
            ps.last().1.push('\r'),
        ]
    }
}

/// A value that can be written and read back: one line, with no whitespace
/// at its end.
pub open spec fn is_plain_value(v: Seq<char>) -> bool {
    &&& forall|i: int| 0 <= i < v.len() ==> v[i] != '\n'
    &&& trim_end(v) == v
}

pub proof fn lemma_split_acc_append(t: Seq<char>, l: Seq<char>)
    requires
        forall|i: int| 0 <= i < l.len() ==> l[i] != '\n',
    ensures
        split_acc(t + l) == (split_acc(t).0, split_acc(t).1 + l),
    decreases l.len(),
{
    if l.len() == 0 {
        assert(t + l =~= t);
        assert(split_acc(t).1 + l =~= split_acc(t).1);
    } else {
        lemma_split_acc_append(t, l.drop_last());
        assert((t + l).drop_last() =~= t + l.drop_last());
        assert((t + l).last() == l.last());
        assert((split_acc(t).1 + l.drop_last()).push(l.last()) =~= split_acc(t).1 + l);
    }
}

pub proof fn lemma_split_acc_line(t: Seq<char>, l: Seq<char>)
    requires
        forall|i: int| 0 <= i < l.len() ==> l[i] != '\n',
        split_acc(t).1.len() == 0,
    ensures
        split_acc(t + l + seq!['\n']) == (split_acc(t).0.push(l), Seq::<char>::empty()),
{
    lemma_split_acc_append(t, l);
    assert((t + l + seq!['\n']).drop_last() =~= t + l);
    assert(split_acc(t).1 + l =~= l);
}

pub proof fn lemma_int_text_chars(n: int)
    ensures
        forall|i: int| 0 <= i < int_text(n).len() ==> int_text(n)[i] != '\n' && int_text(n)[i] != '\r',
        int_text(n).len() > 0,
        !is_ws(int_text(n).last()),
{
    let m: nat = if n < 0 {
        (-n) as nat
    } else {
        n as nat
    };
    lemma_dec_text(m);
    let d = dec_text(m);
    assert(is_digit(d.last()));
    if n < 0 {
        assert(int_text(n) =~= seq!['-'] + d);
        assert forall|i: int| 0 <= i < int_text(n).len() implies int_text(n)[i] != '\n' && int_text(
            n,
        )[i] != '\r' by {
            if i > 0 {
                assert(int_text(n)[i] == d[i - 1]);
                assert(is_digit(d[i - 1]));
            }
        }
        assert(int_text(n).last() == d.last());
    } else {
        assert forall|i: int| 0 <= i < int_text(n).len() implies int_text(n)[i] != '\n' && int_text(
            n,
        )[i] != '\r' by {
            assert(is_digit(d[i]));
        }
    }
}

pub proof fn lemma_split_pairs_text(ps: SpecPairs)
    requires
        forall|k: int| 0 <= k < ps.len() ==> is_plain_value(#[trigger] ps[k].1),
    ensures
        split_acc(pairs_text(ps)) == (written_lines(ps), Seq::<char>::empty()),
    decreases ps.len(),
{
    if ps.len() == 0 {
        assert(pairs_text(ps) =~= Seq::<char>::empty());
        assert(written_lines(ps) =~= Seq::<Seq<char>>::empty());
    } else {
        let q = ps.drop_last();
        assert forall|k: int| 0 <= k < q.len() implies is_plain_value(#[trigger] q[k].1) by {
            assert(q[k] == ps[k]);
        }
        lemma_split_pairs_text(q);
        let (c, v) = ps.last();
        assert(is_plain_value(ps[ps.len() - 1].1));
        let t = pairs_text(q);
        let a = int_text(c as int).push('\r');
        let b = v.push('\r');
        lemma_int_text_chars(c as int);
        assert forall|i: int| 0 <= i < a.len() implies a[i] != '\n' by {
            if i < a.len() - 1 {
                assert(a[i] == int_text(c as int)[i]);
            }
        }
        assert forall|i: int| 0 <= i < b.len() implies b[i] != '\n' by {
            if i < b.len() - 1 {
                assert(b[i] == v[i]);
            }
        }
        assert(pairs_text(ps) =~= t + a + seq!['\n'] + b + seq!['\n']);
        lemma_split_acc_line(t, a);
        lemma_split_acc_line(t + a + seq!['\n'], b);
        assert(written_lines(ps) =~= written_lines(q).push(a).push(b));
    }
}

pub proof fn lemma_written_lines_index(ps: SpecPairs)
    ensures
        written_lines(ps).len() == 2 * ps.len(),
        forall|k: int|
            0 <= k < ps.len() ==> written_lines(ps)[2 * k] == int_text(ps[k].0 as int).push('\r')
                && written_lines(ps)[2 * k + 1] == ps[k].1.push('\r'),
    decreases ps.len(),
{
    if ps.len() > 0 {
        let q = ps.drop_last();
        lemma_written_lines_index(q);
        assert forall|k: int| 0 <= k < ps.len() implies written_lines(ps)[2 * k] == int_text(
            ps[k].0 as int,
        ).push('\r') && written_lines(ps)[2 * k + 1] == ps[k].1.push('\r') by {
            if k < q.len() {
                assert(q[k] == ps[k]);
            }
        }
    }
}

/// A list of pairs written as text and read back gives the same pairs, when
/// every value is a single line with no whitespace at its end, and the last
/// value is not empty (blank lines at the very end are dropped on reading).
pub proof fn lemma_pairs_round_trip(ps: SpecPairs)
    requires
        forall|k: int| 0 <= k < ps.len() ==> is_plain_value(#[trigger] ps[k].1),
        ps.len() > 0 ==> ps.last().1.len() > 0,
    ensures
        text_pairs(pairs_text(ps)) == ps,
{
    let t = pairs_text(ps);
    lemma_split_pairs_text(ps);
    lemma_written_lines_index(ps);
    let w = written_lines(ps);
    let pieces = split_pieces(t);
    assert(pieces =~= w.push(Seq::<char>::empty()));
    assert(pieces.drop_last() =~= w);
    let tl = text_lines(t);
    assert(tl =~= w.map_values(|l: Seq<char>| trim_end(l)));
    assert forall|k: int| 0 <= k < ps.len() implies tl[2 * k] == int_text(ps[k].0 as int) && tl[2 * k
        + 1] == ps[k].1 by {
        let a = int_text(ps[k].0 as int);
        lemma_int_text_chars(ps[k].0 as int);
        assert(a.push('\r').drop_last() =~= a);
        assert(trim_end(a.push('\r')) == trim_end(a));
        assert(is_plain_value(ps[k].1));
        assert(ps[k].1.push('\r').drop_last() =~= ps[k].1);
        assert(trim_end(ps[k].1.push('\r')) == trim_end(ps[k].1));
    }
    if ps.len() > 0 {
        let last = ps.last().1;
        assert(tl.last() == last);
        assert(is_plain_value(ps[ps.len() - 1].1));
        lemma_trim_end_len(last);
        assert(!is_ws(last.last()));
        assert(trim(last).len() > 0) by {
            assert(trim_end(last) == last);
            if trim_start(last).len() == 0 {
                lemma_trim_start_suffix(last);
            }
        }
    }
    assert(drop_trailing_blank(tl) == tl);
    assert forall|k: int| 0 <= k < ps.len() implies i32_or_zero(tl[2 * k]) == ps[k].0 by {
        lemma_int_text_parses(ps[k].0);
    }
    assert(text_pairs(t) =~= ps);
}

/// The handles a writer hands out are all different: a handle handed out
/// later never has the text of one handed out earlier.
pub proof fn lemma_handles_distinct(earlier: u64, later: u64)
    requires
        earlier < later,
    ensures
        hex_text(earlier as nat) != hex_text(later as nat),
{
    if hex_text(earlier as nat) == hex_text(later as nat) {
        lemma_hex_text_injective(earlier as nat, later as nat);
    }
}

/// An ENTITIES section holding one LINE entity as the writer writes it.
pub open spec fn line_section(
    handle: Seq<char>,
    layer: Seq<char>,
    a: (Seq<char>, Seq<char>),
    b: (Seq<char>, Seq<char>),
) -> SpecPairs {
    seq![(0i32, "SECTION"@), (2i32, "ENTITIES"@)] + line_pairs(handle, layer, a, b) + seq![
        (0i32, "ENDSEC"@),
    ]
}

/// A drawing that holds one line and nothing else.
pub open spec fn one_line_drawing(line: SpecLine) -> SpecDrawing {
    SpecDrawing { lines: seq![line], lwpolylines: seq![], polylines: seq![], splines: seq![] }
}

/// The reader reads the pairs of a LINE written by the writer, inside an
/// ENTITIES section, as that line: same layer (when it has no surrounding
/// whitespace, since the reader trims layer names) and same coordinates.
pub proof fn lemma_line_read_back(
    handle: Seq<char>,
    layer: Seq<char>,
    a: (Seq<char>, Seq<char>),
    b: (Seq<char>, Seq<char>),
)
    requires
        trim(layer) == layer,
    ensures
        drawing_from(line_section(handle, layer, a, b), 0, false) == one_line_drawing(
            SpecLine { layer, start: a, end: b },
        ),
{
    let p = line_section(handle, layer, a, b);
    reveal_strlit("SECTION");
    reveal_strlit("ENTITIES");
    reveal_strlit("LINE");
    reveal_strlit("ENDSEC");
    reveal_strlit("LWPOLYLINE");
    reveal_strlit("POLYLINE");
    reveal_strlit("SPLINE");
    assert(p.len() == 18);
    assert(trim("SECTION"@) == "SECTION"@) by {
        assert(trim_end("SECTION"@) == "SECTION"@);
        assert(trim_start("SECTION"@) == "SECTION"@);
    }
    assert(trim("ENTITIES"@) == "ENTITIES"@) by {
        assert(trim_end("ENTITIES"@) == "ENTITIES"@);
        assert(trim_start("ENTITIES"@) == "ENTITIES"@);
    }
    assert(trim("LINE"@) == "LINE"@) by {
        assert(trim_end("LINE"@) == "LINE"@);
        assert(trim_start("LINE"@) == "LINE"@);
    }
    assert(trim("ENDSEC"@) == "ENDSEC"@) by {
        assert(trim_end("ENDSEC"@) == "ENDSEC"@);
        assert(trim_start("ENDSEC"@) == "ENDSEC"@);
    }
    assert("LINE"@ != "SECTION"@);
    assert("LINE"@ != "ENDSEC"@);
    assert("SECTION"@ != "ENDSEC"@);
    assert("ENDSEC"@ != "SECTION"@);
    assert(next_entity(p, 3) == 17) by {
        reveal_with_fuel(next_entity, 16);
    }
    assert(last_value(p, 3, 17, 8) == Some(layer)) by {
        reveal_with_fuel(last_value, 16);
    }
    assert(last_value(p, 3, 17, 10) == Some(a.0)) by {
        reveal_with_fuel(last_value, 16);
    }
    assert(last_value(p, 3, 17, 20) == Some(a.1)) by {
        reveal_with_fuel(last_value, 16);
    }
    assert(last_value(p, 3, 17, 11) == Some(b.0)) by {
        reveal_with_fuel(last_value, 16);
    }
    assert(last_value(p, 3, 17, 21) == Some(b.1)) by {
        reveal_with_fuel(last_value, 16);
    }
    let rest = drawing_from(p, 17, true);
    assert(drawing_from(p, 18, false) == SpecDrawing::empty());
    assert(rest == drawing_from(p, 18, false));
    assert(drawing_from(p, 1, true) == drawing_from(p, 2, true));
    assert(drawing_from(p, 0, false) == drawing_from(p, 1, true));
    assert(drawing_from(p, 2, true) =~= one_line_drawing(SpecLine { layer, start: a, end: b }));
}

pub proof fn lemma_hex_text_plain(n: nat)
    ensures
        is_plain_value(hex_text(n)),
    decreases n,
{
    lemma_digit_char((n % 16) as int);
    let t = hex_text(n);
    if n >= 16 {
        lemma_hex_text_plain(n / 16);
        assert(t.drop_last() =~= hex_text(n / 16));
        assert forall|i: int| 0 <= i < t.len() implies t[i] != '\n' by {
            if i < t.len() - 1 {
                assert(t[i] == hex_text(n / 16)[i]);
            }
        }
    }
    assert(!is_ws(t.last()));
    assert(trim_end(t) == t);
}

/// The fixed values of a LINE entity and of the section around it are plain.
pub proof fn lemma_fixed_values_plain()
    ensures
        is_plain_value("SECTION"@),
        is_plain_value("ENTITIES"@),
        is_plain_value("LINE"@),
        is_plain_value("17"@),
        is_plain_value("AcDbEntity"@),
        is_plain_value("AcDbLine"@),
        is_plain_value(zero_text()),
        is_plain_value(one_text()),
        is_plain_value("ENDSEC"@),
{
    reveal_strlit("SECTION");
    reveal_strlit("ENTITIES");
    reveal_strlit("LINE");
    reveal_strlit("17");
    reveal_strlit("AcDbEntity");
    reveal_strlit("AcDbLine");
    reveal_strlit("0.000000000000");
    reveal_strlit("1.000000000000");
    reveal_strlit("ENDSEC");
    assert(trim_end("SECTION"@) == "SECTION"@);
    assert(trim_end("ENTITIES"@) == "ENTITIES"@);
    assert(trim_end("LINE"@) == "LINE"@);
    assert(trim_end("17"@) == "17"@);
    assert(trim_end("AcDbEntity"@) == "AcDbEntity"@);
    assert(trim_end("AcDbLine"@) == "AcDbLine"@);
    assert(trim_end(zero_text()) == zero_text());
    assert(trim_end(one_text()) == one_text());
    assert(trim_end("ENDSEC"@) == "ENDSEC"@);
}

/// A LINE entity written inside an ENTITIES section, turned into text and
/// read back as a drawing, gives that line and nothing else, when the layer
/// and the coordinates are plain values and the layer has no surrounding
/// whitespace.
pub proof fn lemma_written_line_read_back(
    handle: u64,
    layer: Seq<char>,
    a: (Seq<char>, Seq<char>),
    b: (Seq<char>, Seq<char>),
)
    requires
        trim(layer) == layer,
        is_plain_value(layer),
        is_plain_value(a.0),
        is_plain_value(a.1),
        is_plain_value(b.0),
        is_plain_value(b.1),
    ensures
        text_drawing(pairs_text(line_section(hex_text(handle as nat), layer, a, b)))
            == one_line_drawing(SpecLine { layer, start: a, end: b }),
{
    let h = hex_text(handle as nat);
    let ps = line_section(h, layer, a, b);
    lemma_hex_text_plain(handle as nat);
    lemma_fixed_values_plain();
    reveal_strlit("ENDSEC");
    assert(ps.len() == 18);
    assert forall|k: int| 0 <= k < ps.len() implies is_plain_value(#[trigger] ps[k].1) by {
        if k == 0 {
        } else if k < 2 {
        } else if k < 17 {
            assert(ps[k] == line_pairs(h, layer, a, b)[k - 2]);
        }
    }
    assert(ps.last().1 == "ENDSEC"@);
    lemma_pairs_round_trip(ps);
    lemma_line_read_back(h, layer, a, b);
}

pub proof fn lemma_crlf_lines_concat(a: Seq<Seq<char>>, b: Seq<Seq<char>>)
    ensures
        crlf_lines(a + b) == crlf_lines(a) + crlf_lines(b),
    decreases b.len(),
{
    if b.len() == 0 {
        assert(a + b =~= a);
        assert(crlf_lines(a) + crlf_lines(b) =~= crlf_lines(a));
    } else {
        lemma_crlf_lines_concat(a, b.drop_last());
        assert((a + b).drop_last() =~= a + b.drop_last());
        assert((a + b).last() == b.last());
        assert(crlf_lines(a + b) =~= crlf_lines(a) + crlf_lines(b));
    }
}

/// Splitting a template loses exactly the old content of its ENTITIES
/// section: the template's lines (each ended by CR LF) are the prefix, the
/// lines strictly between the ENTITIES header and its ENDSEC, then the suffix.
pub proof fn lemma_template_split_parts(t: Seq<char>)
    ensures
        ({
            let ls = template_lines(t);
            match (find_entities(ls, 0), template_split(t)) {
                (Some(i), Ok((p, s))) => {
                    let j = find_endsec(ls, i + 4).unwrap();
                    &&& i + 4 <= j
                    &&& crlf_lines(ls) == p + crlf_lines(ls.subrange(i + 4, j)) + s
                },
                _ => true,
            }
        }),
{
    let ls = template_lines(t);
    lemma_find_entities_bounds(ls, 0);
    if let Some(i) = find_entities(ls, 0) {
        lemma_find_endsec_bounds(ls, i + 4);
        if let Some(j) = find_endsec(ls, i + 4) {
            let a = ls.take(i + 4);
            let m = ls.subrange(i + 4, j);
            let z = ls.skip(j);
            assert(ls =~= a + m + z);
            lemma_crlf_lines_concat(a + m, z);
            lemma_crlf_lines_concat(a, m);
        }
    }
}

/// Each entity the writer writes is a single entity: its first pair (code
/// 0) names it LINE or ARC, and no other of its pairs has code 0, so a reader
/// sees it start there and end where the next entity starts.
pub proof fn lemma_entities_are_single(
    handle: Seq<char>,
    layer: Seq<char>,
    a: (Seq<char>, Seq<char>),
    b: (Seq<char>, Seq<char>),
    radius: Seq<char>,
    start_deg: Seq<char>,
    end_deg: Seq<char>,
)
    ensures
        line_pairs(handle, layer, a, b)[0] == (0i32, "LINE"@),
        forall|k: int|
            1 <= k < line_pairs(handle, layer, a, b).len() ==> (#[trigger] line_pairs(
                handle,
                layer,
                a,
                b,
            )[k]).0 != 0,
        arc_pairs(handle, layer, a, radius, start_deg, end_deg)[0] == (0i32, "ARC"@),
        forall|k: int|
            1 <= k < arc_pairs(handle, layer, a, radius, start_deg, end_deg).len() ==> (
            #[trigger] arc_pairs(handle, layer, a, radius, start_deg, end_deg)[k]).0 != 0,
{
}

/// The search for the ENTITIES header stops at the first one: no header
/// stands between where the search starts and the index it gives.
pub proof fn lemma_find_entities_first(ls: Seq<Seq<char>>, k: int)
    ensures
        find_entities(ls, k) matches Some(i) ==> forall|m: int|
            k <= m < i ==> !is_entities_header(ls, m),
        find_entities(ls, k) is None ==> forall|m: int|
            0 <= k <= m && m + 3 < ls.len() ==> !is_entities_header(ls, m),
    decreases ls.len() - k,
{
    if k >= 0 && k + 3 < ls.len() && !is_entities_header(ls, k) {
        lemma_find_entities_first(ls, k + 1);
    }
}

/// The search for ENDSEC stops at the first one: no ENDSEC stands between
/// where the search starts and the index it gives.
pub proof fn lemma_find_endsec_first(ls: Seq<Seq<char>>, k: int)
    ensures
        find_endsec(ls, k) matches Some(j) ==> forall|m: int| k <= m < j ==> !is_endsec(ls, m),
        find_endsec(ls, k) is None ==> forall|m: int|
            0 <= k <= m && m + 1 < ls.len() ==> !is_endsec(ls, m),
    decreases ls.len() - k,
{
    if k >= 0 && k + 1 < ls.len() && !is_endsec(ls, k) {
        lemma_find_endsec_first(ls, k + 1);
    }
}

/// A template splits at its first ENTITIES header and at the first ENDSEC
/// after it: the prefix is the lines up to and including that header, the
/// suffix the lines from that ENDSEC on, and the lines dropped between them
/// hold no ENDSEC; any section after ENTITIES stays in the suffix. Without a
/// header, or without an ENDSEC after it, the split fails.
pub proof fn lemma_template_split_first_endsec(t: Seq<char>)
    ensures
        ({
            let ls = template_lines(t);
            match template_split(t) {
                Ok((p, s)) => exists|i: int, j: int|
                    #![trigger is_entities_header(ls, i), is_endsec(ls, j)]
                    0 <= i && i + 4 <= j && j + 1 < ls.len() && is_entities_header(ls, i)
                        && is_endsec(ls, j) && (forall|m: int|
                        0 <= m < i ==> !is_entities_header(ls, m)) && (forall|m: int|
                        i + 4 <= m < j ==> !is_endsec(ls, m)) && p == crlf_lines(ls.take(i + 4))
                        && s == crlf_lines(ls.skip(j)),
                Err(_) => (forall|m: int| 0 <= m && m + 3 < ls.len() ==> !is_entities_header(ls, m))
                    || exists|i: int|
                    #![trigger is_entities_header(ls, i)]
                    0 <= i && is_entities_header(ls, i) && (forall|m: int|
                        i + 4 <= m && m + 1 < ls.len() ==> !is_endsec(ls, m)),
            }
        }),
{
    let ls = template_lines(t);
    lemma_find_entities_bounds(ls, 0);
    lemma_find_entities_first(ls, 0);
    if let Some(i) = find_entities(ls, 0) {
        lemma_find_endsec_bounds(ls, i + 4);
        lemma_find_endsec_first(ls, i + 4);
        if let Some(j) = find_endsec(ls, i + 4) {
            assert(is_entities_header(ls, i) && is_endsec(ls, j));
        } else {
            assert(is_entities_header(ls, i));
        }
    }
}

} // verus!
