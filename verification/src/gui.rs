//! State of the conversion window: the chosen files, the log shown to the
//! user, and whether a conversion runs. The window, the file dialog and the
//! worker thread live outside; they hand this state plain values.
use crate::dxf_write::views;
use crate::text::{chars_of, int_text, push_char, push_str, push_usize};
use vstd::prelude::*;

verus! {

/// The pieces of `t` between `/` characters, and the piece being read.
pub open spec fn slash_acc(t: Seq<char>) -> (Seq<Seq<char>>, Seq<char>)
    decreases t.len(),
{
    if t.len() == 0 {
        (Seq::empty(), Seq::empty())
    } else {
        let acc = slash_acc(t.drop_last());
        if t.last() == '/' {
            (acc.0.push(acc.1), Seq::empty())
        } else {
            (acc.0, acc.1.push(t.last()))
        }
    }
}

/// The pieces of `t` between `/` characters; always at least one.
pub open spec fn slash_pieces(t: Seq<char>) -> Seq<Seq<char>> {
    let (done, cur) = slash_acc(t);
    done.push(cur)
}

/// The pieces that name something: not empty (repeated or trailing `/`) and
/// not `.`.
pub open spec fn normal_parts(ps: Seq<Seq<char>>) -> Seq<Seq<char>>
    decreases ps.len(),
{
    if ps.len() == 0 {
        seq![]
    } else {
        let r = normal_parts(ps.drop_last());
        let l = ps.last();
        if l.len() == 0 || l == seq!['.'] {
            r
        } else {
            r.push(l)
        }
    }
}

/// The components of a path as `Path::components` gives them on Unix, where
/// `/` is the only separator and there are no prefixes: a root (`/`) when the path starts with `/`, or a current
/// directory (`.`) when its first piece is `.`; then every piece that is
/// neither empty nor `.`, so that repeated separators, a trailing separator
/// and inner `.` pieces make no difference.
pub open spec fn path_components(p: Seq<char>) -> Seq<Seq<char>> {
    let pieces = slash_pieces(p);
    let head = if p.len() > 0 && p[0] == '/' {
        seq![seq!['/']]
    } else if pieces[0] == seq!['.'] {
        seq![seq!['.']]
    } else {
        seq![]
    };
    head + normal_parts(pieces)
}

/// Two paths are the same path: equal component by component, which is how
/// `PathBuf` compares on Unix (Windows separators and drive prefixes are not
/// modelled).
pub open spec fn same_path(a: Seq<char>, b: Seq<char>) -> bool {
    path_components(a) == path_components(b)
}

/// Some path of `files` is the same path as `p`.
pub open spec fn has_path(files: Seq<Seq<char>>, p: Seq<char>) -> bool {
    exists|k: int| #![trigger files[k]] 0 <= k < files.len() && same_path(files[k], p)
}

/// `files` with each path of `picked` added at the end, in order, unless the
/// same path is already there.
pub open spec fn add_new(files: Seq<Seq<char>>, picked: Seq<Seq<char>>) -> Seq<Seq<char>>
    decreases picked.len(),
{
    if picked.len() == 0 {
        files
    } else {
        let f = add_new(files, picked.drop_last());
        if has_path(f, picked.last()) {
            f
        } else {
            f.push(picked.last())
        }
    }
}

/// No path occurs twice.
pub open spec fn no_dup(s: Seq<Seq<char>>) -> bool {
    forall|i: int, j: int| 0 <= i < j < s.len() ==> !same_path(s[i], s[j])
}

/// Adding picked files keeps the files already chosen, first and in order;
/// afterwards every picked file is chosen (as a path), every chosen file was
/// chosen before or picked, and a list without repeats stays without repeats.
pub proof fn lemma_add_new(files: Seq<Seq<char>>, picked: Seq<Seq<char>>)
    ensures
        add_new(files, picked).len() >= files.len(),
        add_new(files, picked).take(files.len() as int) == files,
        forall|k: int| 0 <= k < picked.len() ==> has_path(add_new(files, picked), #[trigger] picked[k]),
        forall|x: Seq<char>| #[trigger]
            add_new(files, picked).contains(x) ==> files.contains(x) || picked.contains(x),
        no_dup(files) ==> no_dup(add_new(files, picked)),
    decreases picked.len(),
{
    if picked.len() > 0 {
        let q = picked.drop_last();
        let p = picked.last();
        lemma_add_new(files, q);
        let f = add_new(files, q);
        let g = add_new(files, picked);
        if has_path(f, p) {
            assert(g == f);
        } else {
            assert(g == f.push(p));
            assert(g.take(files.len() as int) =~= f.take(files.len() as int));
            assert(g[g.len() - 1] == p);
        }
        assert forall|k: int| 0 <= k < picked.len() implies has_path(g, #[trigger] picked[k]) by {
            if k < q.len() {
                assert(q[k] == picked[k]);
                assert(has_path(f, q[k]));
                let m = choose|m: int| 0 <= m < f.len() && same_path(f[m], q[k]);
                assert(g[m] == f[m]);
            } else {
                if !has_path(f, p) {
                    assert(g[g.len() - 1] == p);
                    assert(same_path(g[g.len() - 1], p));
                }
            }
        }
        assert forall|x: Seq<char>| #[trigger] g.contains(x) implies files.contains(x)
            || picked.contains(x) by {
            let m = choose|m: int| 0 <= m < g.len() && g[m] == x;
            if m < f.len() {
                assert(f[m] == x);
                assert(f.contains(x));
                if q.contains(x) {
                    let r = choose|r: int| 0 <= r < q.len() && q[r] == x;
                    assert(picked[r] == x);
                }
            } else {
                assert(x == p);
                assert(picked[picked.len() - 1] == x);
            }
        }
        if no_dup(files) && !has_path(f, p) {
            assert forall|i: int, j: int| 0 <= i < j < g.len() implies !same_path(g[i], g[j]) by {
                if j == g.len() - 1 {
                    assert(g[i] == f[i]);
                    if same_path(g[i], g[j]) {
                        assert(same_path(f[i], p));
                    }
                } else {
                    assert(g[i] == f[i] && g[j] == f[j]);
                }
            }
        }
    }
}

/// Whether `a` and `b` hold the same characters.
fn chars_equal(a: &Vec<char>, b: &Vec<char>) -> (r: bool)
    ensures
        r == (a@ == b@),
{
    if a.len() != b.len() {
        return false;
    }
    let mut k: usize = 0;
    while k < a.len()
        invariant
            a.len() == b.len(),
            k <= a.len(),
            forall|m: int| 0 <= m < k ==> a@[m] == b@[m],
        decreases a.len() - k,
    {
        if a[k] != b[k] {
            return false;
        }
        k += 1;
    }
    assert(a@ =~= b@);
    true
}

/// Whether `a` and `b` are the same lists of components.
fn components_equal(a: &Vec<Vec<char>>, b: &Vec<Vec<char>>) -> (r: bool)
    ensures
        r == (views(a@) == views(b@)),
{
    if a.len() != b.len() {
        assert(views(a@).len() != views(b@).len());
        return false;
    }
    let mut k: usize = 0;
    while k < a.len()
        invariant
            a.len() == b.len(),
            k <= a.len(),
            forall|m: int| 0 <= m < k ==> a@[m]@ == b@[m]@,
        decreases a.len() - k,
    {
        if !chars_equal(&a[k], &b[k]) {
            assert(views(a@)[k as int] != views(b@)[k as int]);
            return false;
        }
        k += 1;
    }
    assert(views(a@) =~= views(b@));
    true
}

/// A list holding the single character `c`.
fn one_char(c: char) -> (v: Vec<char>)
    ensures
        v@ == seq![c],
{
    let mut v: Vec<char> = Vec::new();
    v.push(c);
    assert(v@ =~= seq![c]);
    v
}

/// The components of the path `s`.
pub fn components(s: &str) -> (r: Vec<Vec<char>>)
    ensures
        views(r@) == path_components(s@),
{
    let cs = chars_of(s);
    let mut pieces: Vec<Vec<char>> = Vec::new();
    let mut cur: Vec<char> = Vec::new();
    let mut k: usize = 0;
    while k < cs.len()
        invariant
            k <= cs.len(),
            cs@ == s@,
            slash_acc(cs@.take(k as int)) == (views(pieces@), cur@),
        decreases cs.len() - k,
    {
        let c = cs[k];
        proof {
            assert(cs@.take(k + 1).drop_last() =~= cs@.take(k as int));
            assert(cs@.take(k + 1).last() == c);
        }
        if c == '/' {
            let ghost before = views(pieces@);
            let ghost line = cur@;
            pieces.push(cur);
            cur = Vec::new();
            assert(views(pieces@) =~= before.push(line));
            assert(cur@ =~= Seq::<char>::empty());
        } else {
            cur.push(c);
        }
        k += 1;
    }
    assert(cs@.take(k as int) =~= s@);
    let ghost before = views(pieces@);
    let ghost line = cur@;
    pieces.push(cur);
    assert(views(pieces@) =~= before.push(line));
    let ghost ps = slash_pieces(s@);
    assert(views(pieces@) == ps);
    let mut r: Vec<Vec<char>> = Vec::new();
    if cs.len() > 0 && cs[0] == '/' {
        r.push(one_char('/'));
    } else {
        let first = &pieces[0];
        if first.len() == 1 && first[0] == '.' {
            assert(first@ =~= seq!['.']);
            r.push(one_char('.'));
        } else {
            assert(first@ != seq!['.']);
        }
    }
    let ghost head = views(r@);
    assert(head + normal_parts(ps.take(0)) =~= head);
    let mut j: usize = 0;
    while j < pieces.len()
        invariant
            j <= pieces.len(),
            views(pieces@) == ps,
            views(r@) == head + normal_parts(ps.take(j as int)),
        decreases pieces.len() - j,
    {
        let piece = &pieces[j];
        proof {
            assert(ps.take(j + 1).drop_last() =~= ps.take(j as int));
            assert(ps.take(j + 1).last() == piece@);
        }
        let is_dot = piece.len() == 1 && piece[0] == '.';
        proof {
            if is_dot {
                assert(piece@ =~= seq!['.']);
            } else if piece@.len() == 1 {
                assert(piece@[0] != '.');
                assert(piece@ != seq!['.']);
            }
        }
        if piece.len() != 0 && !is_dot {
            let ghost before_r = views(r@);
            r.push(piece.clone());
            assert(views(r@) =~= before_r.push(piece@));
        }
        j += 1;
        assert(views(r@) =~= head + normal_parts(ps.take(j as int)));
    }
    assert(ps.take(j as int) =~= ps);
    r
}

/// Each line followed by a line feed.
pub open spec fn log_text(lines: Seq<Seq<char>>) -> Seq<char>
    decreases lines.len(),
{
    if lines.len() == 0 {
        seq![]
    } else {
        log_text(lines.drop_last()) + lines.last() + seq!['\n']
    }
}

/// The log line that opens a conversion of `n` files with tolerance `tol`.
pub open spec fn start_line(n: int, tol: Seq<char>) -> Seq<char> {
    "---- Start: "@ + int_text(n) + " plik(ow), tol="@ + tol + " ----"@
}

/// The message by which the worker says that it has finished.
pub open spec fn done_message() -> Seq<char> {
    "__DONE__"@
}

/// The index of the first finishing message in `msgs`, or their number.
pub open spec fn done_at(msgs: Seq<Seq<char>>, k: int) -> int
    decreases msgs.len() - k,
{
    if k >= msgs.len() {
        msgs.len() as int
    } else if msgs[k] == done_message() {
        k
    } else {
        done_at(msgs, k + 1)
    }
}

/// What one poll of the worker decided.
pub struct PollOutcome {
    /// The worker has finished (or is gone): its channel can be dropped.
    pub done: bool,
    /// The window should be redrawn soon to poll again.
    pub repaint: bool,
}

pub struct App {
    pub files: Vec<String>,
    pub log: String,
    pub busy: bool,
}

impl Default for App {
    fn default() -> (a: Self)
        ensures
            a.files@.len() == 0,
            a.log@ == Seq::<char>::empty(),
            !a.busy,
    {
        App { files: Vec::new(), log: String::new(), busy: false }
    }
}

impl App {
    /// Adds a line to the log.
    pub fn append_log(&mut self, line: &str)
        ensures
            final(self).log@ == old(self).log@ + line@ + seq!['\n'],
            final(self).files == old(self).files,
            final(self).busy == old(self).busy,
    {
        push_str(&mut self.log, line);
        push_char(&mut self.log, '\n');
    }

    /// Whether some chosen file is the same path as `p`.
    fn has_file(&self, p: &String) -> (r: bool)
        ensures
            r == has_path(self.files.deep_view(), p@),
    {
        let pc = components(p.as_str());
        let mut k: usize = 0;
        while k < self.files.len()
            invariant
                k <= self.files.len(),
                views(pc@) == path_components(p@),
                forall|m: int| 0 <= m < k ==> !same_path(#[trigger] self.files@[m]@, p@),
            decreases self.files.len() - k,
        {
            let fc = components(self.files[k].as_str());
            if components_equal(&fc, &pc) {
                assert(self.files.deep_view()[k as int] == self.files@[k as int]@);
                return true;
            }
            k += 1;
        }
        assert forall|m: int| 0 <= m < self.files.deep_view().len() implies !same_path(
            self.files.deep_view()[m],
            p@,
        ) by {
            assert(self.files.deep_view()[m] == self.files@[m]@);
        }
        false
    }

    /// Adds the files chosen in the file dialog (nothing when it was
    /// cancelled), skipping those that are the same path as one already chosen.
    pub fn pick_files(&mut self, picked: Option<Vec<String>>)
        ensures
            final(self).files.deep_view() == match picked {
                Some(ps) => add_new(old(self).files.deep_view(), ps.deep_view()),
                None => old(self).files.deep_view(),
            },
            final(self).log == old(self).log,
            final(self).busy == old(self).busy,
    {
        if let Some(ps) = picked {
            let ghost q = ps.deep_view();
            let mut k: usize = 0;
            while k < ps.len()
                invariant
                    k <= ps.len(),
                    q == ps.deep_view(),
                    self.files.deep_view() == add_new(old(self).files.deep_view(), q.take(k as int)),
                    self.log == old(self).log,
                    self.busy == old(self).busy,
                decreases ps.len() - k,
            {
                let p = ps[k].clone();
                let ghost before = self.files.deep_view();
                proof {
                    assert(q.take(k + 1).drop_last() =~= q.take(k as int));
                    assert(q.take(k + 1).last() == p@);
                }
                if !self.has_file(&p) {
                    self.files.push(p);
                    assert(self.files.deep_view() =~= before.push(p@));
                }
                k += 1;
            }
            assert(q.take(k as int) =~= q);
        }
    }

    /// Starts a conversion of the chosen files unless one runs or none is
    /// chosen: marks the window busy, logs the start and gives the files to
    /// convert.
    pub fn start_convert(&mut self, tolerance: &str) -> (r: Option<Vec<String>>)
        ensures
            if old(self).busy || old(self).files.len() == 0 {
                &&& r is None
                &&& final(self).files == old(self).files
                &&& final(self).log == old(self).log
                &&& final(self).busy == old(self).busy
            } else {
                &&& r matches Some(fs) && fs.deep_view() == old(self).files.deep_view()
                &&& final(self).files == old(self).files
                &&& final(self).busy
                &&& final(self).log@ == old(self).log@ + start_line(
                    old(self).files.len() as int,
                    tolerance@,
                ) + seq!['\n']
            },
    {
        if self.busy || self.files.len() == 0 {
            return None;
        }
        self.busy = true;
        let files = self.files.clone();
        let mut line = String::new();
        push_str(&mut line, "---- Start: ");
        push_usize(&mut line, self.files.len());
        push_str(&mut line, " plik(ow), tol=");
        push_str(&mut line, tolerance);
        push_str(&mut line, " ----");
        assert(line@ =~= start_line(self.files.len() as int, tolerance@));
        self.append_log(line.as_str());
        proof {
            assert forall|m: int| 0 <= m < files.len() implies files@[m]@ == self.files@[m]@ by {}
            assert(files.deep_view() =~= old(self).files.deep_view());
        }
        Some(files)
    }

    /// Takes in the messages the worker sent since the last poll, up to the
    /// finishing one, and whether the worker's channel is closed: logs each
    /// message; when the worker is done, clears the busy mark and logs
    /// `Gotowe.`.
    pub fn poll_worker(&mut self, received: Vec<String>, disconnected: bool) -> (r: PollOutcome)
        ensures
            ({
                let msgs = received.deep_view();
                let k = done_at(msgs, 0);
                let done = k < msgs.len() || disconnected;
                &&& r.done == done
                &&& final(self).log@ == old(self).log@ + log_text(msgs.take(k)) + if done {
                    "Gotowe.\n"@
                } else {
                    seq![]
                }
                &&& final(self).busy == (old(self).busy && !done)
                &&& r.repaint == (!done && old(self).busy)
                &&& final(self).files == old(self).files
            }),
    {
        let ghost msgs = received.deep_view();
        let mut k: usize = 0;
        let mut done = false;
        while k < received.len()
            invariant_except_break
                done_at(msgs, 0) == done_at(msgs, k as int),
                !done,
            invariant
                k <= received.len(),
                msgs == received.deep_view(),
                self.log@ == old(self).log@ + log_text(msgs.take(k as int)),
                self.files == old(self).files,
                self.busy == old(self).busy,
            ensures
                k == done_at(msgs, 0),
                done == (k < msgs.len()),
            decreases received.len() - k,
        {
            if self.received_is_done(&received[k]) {
                done = true;
                break;
            }
            self.append_log(received[k].as_str());
            proof {
                assert(msgs.take(k + 1).drop_last() =~= msgs.take(k as int));
            }
            k += 1;
        }
        let done = done || disconnected;
        if done {
            self.busy = false;
            self.append_log("Gotowe.");
            proof {
                reveal_strlit("Gotowe.");
                reveal_strlit("Gotowe.\n");
            }
            assert(self.log@ =~= old(self).log@ + log_text(msgs.take(k as int)) + "Gotowe.\n"@);
        } else {
            assert(self.log@ =~= old(self).log@ + log_text(msgs.take(k as int)) + Seq::<char>::empty());
        }
        PollOutcome { done, repaint: !done && self.busy }
    }

    /// Whether `msg` is the worker's finishing message.
    fn received_is_done(&self, msg: &String) -> (r: bool)
        ensures
            r == (msg@ == done_message()),
    {
        let d = crate::text::string_from("__DONE__");
        *msg == d
    }
}

} // verus!
