//! Character-level helpers shared by the DXF reader and writer: Unicode
//! whitespace trimming, decimal and hexadecimal rendering of integers and the
//! `i32` grammar of `str::parse`.
use vstd::prelude::*;

verus! {

/// The Unicode `White_Space` property, which `char::is_whitespace` tests.
pub open spec fn is_ws(c: char) -> bool {
    let u = c as u32;
    ||| 0x09 <= u <= 0x0d
    ||| u == 0x20
    ||| u == 0x85
    ||| u == 0xa0
    ||| u == 0x1680
    ||| 0x2000 <= u <= 0x200a
    ||| u == 0x2028
    ||| u == 0x2029
    ||| u == 0x202f
    ||| u == 0x205f
    ||| u == 0x3000
}

/// `s` without its trailing whitespace (`str::trim_end`).
pub open spec fn trim_end(s: Seq<char>) -> Seq<char>
    decreases s.len(),
{
    if s.len() > 0 && is_ws(s.last()) {
        trim_end(s.drop_last())
    } else {
        s
    }
}

/// `s` without its leading whitespace (`str::trim_start`).
pub open spec fn trim_start(s: Seq<char>) -> Seq<char>
    decreases s.len(),
{
    if s.len() > 0 && is_ws(s[0]) {
        trim_start(s.drop_first())
    } else {
        s
    }
}

/// `s` without leading and trailing whitespace (`str::trim`).
pub open spec fn trim(s: Seq<char>) -> Seq<char> {
    trim_start(trim_end(s))
}

/// The character of the digit `d` in base 16, upper case (`0`..`9`, `A`..`F`).
pub open spec fn digit_char(d: int) -> char {
    if d < 10 {
        (48 + d) as char
    } else {
        (55 + d) as char
    }
}

/// The decimal digits of `n`, most significant first, without leading zeros.
pub open spec fn dec_text(n: nat) -> Seq<char>
    decreases n,
{
    if n < 10 {
        seq![digit_char(n as int)]
    } else {
        dec_text(n / 10).push(digit_char((n % 10) as int))
    }
}

/// The upper-case hexadecimal digits of `n`, without leading zeros (`{:X}` formatting).
pub open spec fn hex_text(n: nat) -> Seq<char>
    decreases n,
{
    if n < 16 {
        seq![digit_char(n as int)]
    } else {
        hex_text(n / 16).push(digit_char((n % 16) as int))
    }
}

/// Decimal rendering of an integer, with a leading `-` when negative (`{}` formatting).
pub open spec fn int_text(n: int) -> Seq<char> {
    if n < 0 {
        seq!['-'] + dec_text((-n) as nat)
    } else {
        dec_text(n as nat)
    }
}

pub open spec fn is_digit(c: char) -> bool {
    48 <= (c as u32) <= 57
}

pub open spec fn all_digits(s: Seq<char>) -> bool {
    forall|i: int| 0 <= i < s.len() ==> is_digit(#[trigger] s[i])
}

/// The value of a string of decimal digits.
pub open spec fn digits_value(s: Seq<char>) -> int
    decreases s.len(),
{
    if s.len() == 0 {
        0
    } else {
        digits_value(s.drop_last()) * 10 + ((s.last() as u32) - 48)
    }
}

/// What `str::parse::<i32>` accepts: an optional `+` or `-`, then one or more
/// ASCII digits, with a value that fits in `i32`; anything else is an error.
pub open spec fn i32_from_str(s: Seq<char>) -> Option<i32> {
    let signed = s.len() > 0 && (s[0] == '-' || s[0] == '+');
    let body = if signed {
        s.drop_first()
    } else {
        s
    };
    let magnitude = digits_value(body);
    let v = if s.len() > 0 && s[0] == '-' {
        -magnitude
    } else {
        magnitude
    };
    if body.len() == 0 || !all_digits(body) || v < i32::MIN || v > i32::MAX {
        None
    } else {
        Some(v as i32)
    }
}

/// `s.trim().parse::<i32>().unwrap_or(0)`.
pub open spec fn i32_or_zero(s: Seq<char>) -> i32 {
    match i32_from_str(trim(s)) {
        Some(v) => v,
        None => 0,
    }
}

/// `String::push`: appends one character at the end.
#[verifier::external_body]
pub(crate) fn push_char(s: &mut String, c: char)
    ensures
        final(s)@ == old(s)@.push(c),
{
    s.push(c)
}

/// The characters of `s`, in order.
pub fn chars_of(s: &str) -> (out: Vec<char>)
    ensures
        out@ == s@,
{
    let mut out: Vec<char> = Vec::new();
    for c in it: s.chars()
        invariant
            out@ == it.seq().take(it.index() as int),
    {
        out.push(c);
    }
    out
}

/// Appends the characters `cs[from..to]` to `s`.
pub(crate) fn push_chars(s: &mut String, cs: &Vec<char>, from: usize, to: usize)
    requires
        from <= to <= cs.len(),
    ensures
        final(s)@ == old(s)@ + cs@.subrange(from as int, to as int),
{
    let mut k = from;
    while k < to
        invariant
            from <= k <= to <= cs.len(),
            s@ == old(s)@ + cs@.subrange(from as int, k as int),
        decreases to - k,
    {
        push_char(s, cs[k]);
        k += 1;
        assert(s@ =~= old(s)@ + cs@.subrange(from as int, k as int));
    }
}

/// A new `String` holding `cs[from..to]`.
pub fn string_of(cs: &Vec<char>, from: usize, to: usize) -> (s: String)
    requires
        from <= to <= cs.len(),
    ensures
        s@ == cs@.subrange(from as int, to as int),
{
    let mut s = String::new();
    push_chars(&mut s, cs, from, to);
    assert(s@ =~= cs@.subrange(from as int, to as int));
    s
}

/// Appends all of `t` to `s`.
pub fn push_str(s: &mut String, t: &str)
    ensures
        final(s)@ == old(s)@ + t@,
{
    let cs = chars_of(t);
    push_chars(s, &cs, 0, cs.len());
    assert(cs@.subrange(0, cs@.len() as int) =~= t@);
}

/// `char::is_whitespace`.
pub fn is_whitespace(c: char) -> (b: bool)
    ensures
        b == is_ws(c),
{
    let u = c as u32;
    (0x09 <= u && u <= 0x0d) || u == 0x20 || u == 0x85 || u == 0xa0 || u == 0x1680 || (0x2000
        <= u && u <= 0x200a) || u == 0x2028 || u == 0x2029 || u == 0x202f || u == 0x205f || u
        == 0x3000
}

pub proof fn lemma_trim_end_take(s: Seq<char>, e: int)
    requires
        0 <= e <= s.len(),
        forall|k: int| e <= k < s.len() ==> is_ws(#[trigger] s[k]),
    ensures
        trim_end(s) == trim_end(s.take(e)),
    decreases s.len(),
{
    if e < s.len() {
        assert(s.drop_last().take(e) =~= s.take(e));
        lemma_trim_end_take(s.drop_last(), e);
    } else {
        assert(s.take(e) =~= s);
    }
}

pub proof fn lemma_trim_start_skip(s: Seq<char>, b: int)
    requires
        0 <= b <= s.len(),
        forall|k: int| 0 <= k < b ==> is_ws(#[trigger] s[k]),
    ensures
        trim_start(s) == trim_start(s.skip(b)),
    decreases b,
{
    if b > 0 {
        assert(s.drop_first().skip(b - 1) =~= s.skip(b));
        assert forall|k: int| 0 <= k < b - 1 implies is_ws(#[trigger] s.drop_first()[k]) by {
            assert(s.drop_first()[k] == s[k + 1]);
        }
        lemma_trim_start_skip(s.drop_first(), b - 1);
    } else {
        assert(s.skip(0) =~= s);
    }
}

/// The bounds of `trim(cs)` inside `cs`; `e` is also the end of `trim_end(cs)`.
pub fn trim_bounds(cs: &Vec<char>) -> (r: (usize, usize))
    ensures
        r.0 <= r.1 <= cs.len(),
        trim(cs@) == cs@.subrange(r.0 as int, r.1 as int),
        trim_end(cs@) == cs@.take(r.1 as int),
{
    let mut e = cs.len();
    while e > 0 && is_whitespace(cs[e - 1])
        invariant
            e <= cs.len(),
            forall|k: int| e <= k < cs.len() ==> is_ws(#[trigger] cs@[k]),
        decreases e,
    {
        e -= 1;
    }
    proof {
        lemma_trim_end_take(cs@, e as int);
        let t = cs@.take(e as int);
        if e > 0 {
            assert(t.last() == cs@[e - 1]);
        } else {
            assert(t.len() == 0);
        }
        assert(trim_end(t) == t);
    }
    let mut b: usize = 0;
    while b < e && is_whitespace(cs[b])
        invariant
            b <= e <= cs.len(),
            forall|k: int| 0 <= k < b ==> is_ws(#[trigger] cs@[k]),
        decreases e - b,
    {
        b += 1;
    }
    proof {
        let t = cs@.take(e as int);
        assert forall|k: int| 0 <= k < b implies is_ws(#[trigger] t[k]) by {
            assert(t[k] == cs@[k]);
        }
        lemma_trim_start_skip(t, b as int);
        let u = t.skip(b as int);
        assert(u =~= cs@.subrange(b as int, e as int));
        if b < e {
            assert(u[0] == cs@[b as int]);
        } else {
            assert(u.len() == 0);
        }
        assert(trim_start(u) == u);
    }
    (b, e)
}

/// Whether `trim(cs)` equals `lit`.
pub fn chars_trimmed_eq(cs: &Vec<char>, lit: &str) -> (r: bool)
    ensures
        r == (trim(cs@) == lit@),
{
    let ls = chars_of(lit);
    let (b, e) = trim_bounds(cs);
    if e - b != ls.len() {
        return false;
    }
    let mut k: usize = 0;
    while k < ls.len()
        invariant
            b <= e <= cs.len(),
            e - b == ls.len(),
            k <= ls.len(),
            ls@ == lit@,
            trim(cs@) == cs@.subrange(b as int, e as int),
            forall|m: int| 0 <= m < k ==> cs@[b + m] == ls@[m],
        decreases ls.len() - k,
    {
        if cs[b + k] != ls[k] {
            assert(cs@.subrange(b as int, e as int)[k as int] != lit@[k as int]);
            return false;
        }
        k += 1;
    }
    assert(cs@.subrange(b as int, e as int) =~= ls@);
    true
}

/// Whether `trim(s)` equals `lit`.
pub fn trimmed_eq(s: &str, lit: &str) -> (r: bool)
    ensures
        r == (trim(s@) == lit@),
{
    let cs = chars_of(s);
    chars_trimmed_eq(&cs, lit)
}

/// A new `String` holding `lit`.
pub fn string_from(lit: &str) -> (s: String)
    ensures
        s@ == lit@,
{
    let mut s = String::new();
    push_str(&mut s, lit);
    assert(s@ =~= lit@);
    s
}

/// The character of the digit `d`.
pub fn digit(d: u64) -> (c: char)
    requires
        d < 16,
    ensures
        c == digit_char(d as int),
{
    let b: u8 = if d < 10 {
        48 + d as u8
    } else {
        55 + d as u8
    };
    b as char
}

/// Appends the decimal digits of `n`.
pub fn push_decimal(s: &mut String, n: u64)
    ensures
        final(s)@ == old(s)@ + dec_text(n as nat),
    decreases n,
{
    if n >= 10 {
        push_decimal(s, n / 10);
    }
    push_char(s, digit(n % 10));
    assert(s@ =~= old(s)@ + dec_text(n as nat));
}

/// Appends the upper-case hexadecimal digits of `n`.
pub fn push_hex(s: &mut String, n: u64)
    ensures
        final(s)@ == old(s)@ + hex_text(n as nat),
    decreases n,
{
    if n >= 16 {
        push_hex(s, n / 16);
    }
    push_char(s, digit(n % 16));
    assert(s@ =~= old(s)@ + hex_text(n as nat));
}

/// Appends the decimal rendering of `n` (`{}` formatting of an `i32`).
pub fn push_i32(s: &mut String, n: i32)
    ensures
        final(s)@ == old(s)@ + int_text(n as int),
{
    if n < 0 {
        push_char(s, '-');
        let m: u64 = (-(n as i64)) as u64;
        push_decimal(s, m);
        assert(s@ =~= old(s)@ + int_text(n as int));
    } else {
        push_decimal(s, n as u64);
    }
}

/// Appends the decimal rendering of `n` (`{}` formatting of a `usize`).
pub fn push_usize(s: &mut String, n: usize)
    ensures
        final(s)@ == old(s)@ + int_text(n as int),
{
    push_decimal(s, n as u64);
}

pub proof fn lemma_digits_value_nonneg(s: Seq<char>)
    requires
        all_digits(s),
    ensures
        digits_value(s) >= 0,
    decreases s.len(),
{
    if s.len() > 0 {
        assert(is_digit(s[s.len() - 1]));
        lemma_digits_value_nonneg(s.drop_last());
    }
}

/// Digits added at the end never make the value smaller.
pub proof fn lemma_digits_value_prefix(s: Seq<char>, k: int)
    requires
        all_digits(s),
        0 <= k <= s.len(),
    ensures
        digits_value(s.take(k)) <= digits_value(s),
    decreases s.len(),
{
    if k < s.len() {
        assert(s.drop_last().take(k) =~= s.take(k));
        assert(is_digit(s[s.len() - 1]));
        lemma_digits_value_prefix(s.drop_last(), k);
        lemma_digits_value_nonneg(s.drop_last());
    } else {
        assert(s.take(k) =~= s);
    }
}

/// `str::parse::<i32>` on `cs[from..to]`.
pub fn parse_i32_chars(cs: &Vec<char>, from: usize, to: usize) -> (r: Option<i32>)
    requires
        from <= to <= cs.len(),
    ensures
        r == i32_from_str(cs@.subrange(from as int, to as int)),
{
    let ghost s = cs@.subrange(from as int, to as int);
    let mut pos = from;
    let neg = pos < to && cs[pos] == '-';
    if pos < to && (cs[pos] == '-' || cs[pos] == '+') {
        pos += 1;
    }
    let ghost body = cs@.subrange(pos as int, to as int);
    assert(body =~= (if s.len() > 0 && (s[0] == '-' || s[0] == '+') {
        s.drop_first()
    } else {
        s
    }));
    assert(neg == (s.len() > 0 && s[0] == '-'));
    if pos == to {
        return None;
    }
    let mut acc: i64 = 0;
    let mut k = pos;
    while k < to
        invariant
            from <= pos <= k <= to <= cs.len(),
            body == cs@.subrange(pos as int, to as int),
            s == cs@.subrange(from as int, to as int),
            body == (if s.len() > 0 && (s[0] == '-' || s[0] == '+') {
                s.drop_first()
            } else {
                s
            }),
            neg == (s.len() > 0 && s[0] == '-'),
            pos < to,
            all_digits(cs@.subrange(pos as int, k as int)),
            acc == digits_value(cs@.subrange(pos as int, k as int)),
            0 <= acc <= 2147483648,
        decreases to - k,
    {
        let c = cs[k];
        let u = c as u32;
        if u < 48 || u > 57 {
            assert(!is_digit(body[k - pos]));
            return None;
        }
        let ghost prev = cs@.subrange(pos as int, k as int);
        let next_acc = acc * 10 + (u - 48) as i64;
        k += 1;
        let ghost cur = cs@.subrange(pos as int, k as int);
        assert(cur.drop_last() =~= prev);
        assert(all_digits(cur)) by {
            assert forall|m: int| 0 <= m < cur.len() implies is_digit(#[trigger] cur[m]) by {
                if m < cur.len() - 1 {
                    assert(cur[m] == prev[m]);
                }
            }
        }
        if next_acc > 2147483648 {
            proof {
                if all_digits(body) {
                    assert(body.take((k - pos) as int) =~= cur);
                    lemma_digits_value_prefix(body, (k - pos) as int);
                }
            }
            return None;
        }
        acc = next_acc;
    }
    assert(cs@.subrange(pos as int, k as int) =~= body);
    if neg {
        Some((-acc) as i32)
    } else if acc > 2147483647 {
        None
    } else {
        Some(acc as i32)
    }
}

/// `s.trim().parse::<i32>().unwrap_or(0)`.
pub fn parse_i32(s: &str) -> (v: i32)
    ensures
        v == i32_or_zero(s@),
{
    let cs = chars_of(s);
    let (b, e) = trim_bounds(&cs);
    match parse_i32_chars(&cs, b, e) {
        Some(v) => v,
        None => 0,
    }
}

/// One step of splitting text at `\n`: the finished lines and the line being read.
pub open spec fn split_step(acc: (Seq<Seq<char>>, Seq<char>), c: char) -> (
    Seq<Seq<char>>,
    Seq<char>,
) {
    if c == '\n' {
        (acc.0.push(acc.1), Seq::empty())
    } else {
        (acc.0, acc.1.push(c))
    }
}

pub open spec fn split_acc(t: Seq<char>) -> (Seq<Seq<char>>, Seq<char>)
    decreases t.len(),
{
    if t.len() == 0 {
        (Seq::empty(), Seq::empty())
    } else {
        split_step(split_acc(t.drop_last()), t.last())
    }
}

/// The pieces of `t` between `\n` characters (`str::split('\n')`): always
/// at least one, the last one being empty when `t` ends with `\n`.
pub open spec fn split_pieces(t: Seq<char>) -> Seq<Seq<char>> {
    let (done, cur) = split_acc(t);
    done.push(cur)
}

/// `text.split('\n')`, each piece as its characters.
pub fn split_newlines(text: &str) -> (pieces: Vec<Vec<char>>)
    ensures
        pieces.len() == split_pieces(text@).len(),
        pieces.len() >= 1,
        forall|k: int| 0 <= k < pieces.len() ==> #[trigger] pieces@[k]@ == split_pieces(text@)[k],
{
    let mut lines: Vec<Vec<char>> = Vec::new();
    let mut cur: Vec<char> = Vec::new();
    for c in it: text.chars()
        invariant
            ({
                let acc = split_acc(text@.take(it.index() as int));
                &&& it.seq() == text@
                &&& cur@ == acc.1
                &&& lines.len() == acc.0.len()
                &&& forall|k: int| 0 <= k < lines.len() ==> #[trigger] lines@[k]@ == acc.0[k]
            }),
    {
        let ghost pre = text@.take(it.index() as int);
        let ghost post = text@.take(it.index() + 1);
        proof {
            assert(post.drop_last() =~= pre);
            assert(post.last() == c);
        }
        if c == '\n' {
            lines.push(cur);
            cur = Vec::new();
            assert(cur@ =~= Seq::<char>::empty());
        } else {
            cur.push(c);
        }
        proof {
            let acc = split_acc(post);
            assert(acc == split_step(split_acc(pre), c));
            assert forall|k: int| 0 <= k < lines.len() implies #[trigger] lines@[k]@ == acc.0[k] by {}
        }
    }
    assert(text@.take(text@.len() as int) =~= text@);
    lines.push(cur);
    lines
}

pub proof fn lemma_digit_char(d: int)
    requires
        0 <= d < 16,
    ensures
        digit_char(d) as u32 == if d < 10 {
            48 + d
        } else {
            55 + d
        },
{
}

pub proof fn lemma_dec_text(n: nat)
    ensures
        dec_text(n).len() > 0,
        all_digits(dec_text(n)),
        digits_value(dec_text(n)) == n,
    decreases n,
{
    lemma_digit_char((n % 10) as int);
    let t = dec_text(n);
    assert(t.last() == digit_char((n % 10) as int));
    assert(n == (n / 10) * 10 + n % 10) by (nonlinear_arith);
    if n >= 10 {
        lemma_dec_text(n / 10);
        assert(t.drop_last() =~= dec_text(n / 10));
        assert forall|i: int| 0 <= i < t.len() implies is_digit(#[trigger] t[i]) by {
            if i < t.len() - 1 {
                assert(t[i] == dec_text(n / 10)[i]);
            }
        }
    } else {
        assert(t.drop_last() =~= Seq::<char>::empty());
        assert(digits_value(t.drop_last()) == 0);
    }
    assert(digits_value(t) == digits_value(t.drop_last()) * 10 + ((t.last() as u32) - 48));
}

pub proof fn lemma_hex_text_len(n: nat)
    ensures
        hex_text(n).len() > 0,
        n >= 16 ==> hex_text(n).len() > 1,
    decreases n,
{
    if n >= 16 {
        lemma_hex_text_len(n / 16);
    }
}

/// Distinct numbers have distinct hexadecimal renderings.
pub proof fn lemma_hex_text_injective(a: nat, b: nat)
    requires
        hex_text(a) == hex_text(b),
    ensures
        a == b,
    decreases a,
{
    lemma_hex_text_len(a);
    lemma_hex_text_len(b);
    lemma_digit_char((a % 16) as int);
    lemma_digit_char((b % 16) as int);
    let ta = hex_text(a);
    let tb = hex_text(b);
    assert(ta.last() == tb.last());
    assert(a % 16 == b % 16);
    if a >= 16 && b >= 16 {
        assert(ta.drop_last() =~= hex_text(a / 16));
        assert(tb.drop_last() =~= hex_text(b / 16));
        lemma_hex_text_injective(a / 16, b / 16);
    }
}

/// Reading the decimal rendering of an `i32` as an `i32` gives it back.
pub proof fn lemma_int_text_parses(n: i32)
    ensures
        i32_or_zero(int_text(n as int)) == n,
{
    let s = int_text(n as int);
    let m: nat = if n < 0 {
        (-n) as nat
    } else {
        n as nat
    };
    lemma_dec_text(m);
    let d = dec_text(m);
    lemma_digit_char((m % 10) as int);
    assert(is_digit(d[0]));
    assert(is_digit(d.last()));
    if n < 0 {
        assert(s =~= seq!['-'] + d);
        assert(s.drop_first() =~= d);
    } else {
        assert(s == d);
    }
    assert(s.last() == d.last());
    assert(trim_end(s) == s);
    assert(trim_start(s) == s);
    assert(trim(s) == s);
}

/// Trimming the start of a text keeps its last character when that is not
/// whitespace.
pub proof fn lemma_trim_start_suffix(s: Seq<char>)
    requires
        s.len() > 0,
        !is_ws(s.last()),
    ensures
        trim_start(s).len() > 0,
        trim_start(s).last() == s.last(),
    decreases s.len(),
{
    if is_ws(s[0]) {
        assert(s.len() > 1);
        assert(s.drop_first().last() == s.last());
        lemma_trim_start_suffix(s.drop_first());
    }
}

pub proof fn lemma_trim_end_len(s: Seq<char>)
    ensures
        trim_end(s).len() <= s.len(),
        trim_end(s) == s && s.len() > 0 ==> !is_ws(s.last()),
    decreases s.len(),
{
    if s.len() > 0 && is_ws(s.last()) {
        lemma_trim_end_len(s.drop_last());
    }
}

} // verus!
