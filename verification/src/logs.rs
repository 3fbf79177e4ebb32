//! Log lines of managed resources: a bounded per-resource buffer that keeps
//! the newest lines, snapshots of it, and merging the logs of several
//! containers into one time-ordered view.
use std::collections::VecDeque;
use vstd::prelude::*;

use crate::text::{chars_of, push_all, slice_of, starts_with, starts_with_exec, string_of};

verus! {

/// One line of output of a resource; `ts` counts nanoseconds since the Unix
/// epoch, `stream` is `stdout`, `stderr` or `journal`.
#[derive(Debug, Clone)]
pub struct LogLine {
    pub ts: i64,
    pub stream: String,
    pub line: String,
}

/// A log line as plain values.
pub open spec fn line_view(l: LogLine) -> (i64, Seq<char>, Seq<char>) {
    (l.ts, l.stream@, l.line@)
}

pub open spec fn lines_view(s: Seq<LogLine>) -> Seq<(i64, Seq<char>, Seq<char>)> {
    Seq::new(s.len(), |i: int| line_view(s[i]))
}

pub proof fn lemma_lines_view_push(s: Seq<LogLine>, x: LogLine)
    ensures
        lines_view(s.push(x)) == lines_view(s).push(line_view(x)),
{
    assert(lines_view(s.push(x)) =~= lines_view(s).push(line_view(x)));
}

fn copy_line(l: &LogLine) -> (r: LogLine)
    ensures
        line_view(r) == line_view(*l),
{
    LogLine { ts: l.ts, stream: l.stream.clone(), line: l.line.clone() }
}

// ---------------------------------------------------------------------------
// Byte lengths
// ---------------------------------------------------------------------------
/// Number of bytes of `c` in UTF-8.
pub open spec fn utf8_len(c: char) -> nat {
    if (c as u32) < 0x80 {
        1
    } else if (c as u32) < 0x800 {
        2
    } else if (c as u32) < 0x10000 {
        3
    } else {
        4
    }
}

/// Number of bytes of `s` in UTF-8 (what `str::len` reports).
pub open spec fn byte_len(s: Seq<char>) -> nat
    decreases s.len(),
{
    if s.len() == 0 {
        0
    } else {
        byte_len(s.drop_last()) + utf8_len(s.last())
    }
}

/// The longest prefix of `s` that fits in `max` bytes.
pub open spec fn bytes_prefix(s: Seq<char>, max: nat) -> Seq<char>
    decreases s.len(),
{
    if byte_len(s) <= max || s.len() == 0 {
        s
    } else {
        bytes_prefix(s.drop_last(), max)
    }
}

/// Cutting `s` to `max` bytes ends on a character boundary (or needs no cut).
pub open spec fn cut_ok(s: Seq<char>, max: nat) -> bool {
    byte_len(s) <= max || byte_len(bytes_prefix(s, max)) == max
}

/// Marker appended to a line that was cut.
pub open spec fn truncation_marker() -> Seq<char> {
    "... [truncated]"@
}

/// A line as the buffer stores it: cut to `max` bytes and marked when longer.
pub open spec fn stored_text(s: Seq<char>, max: nat) -> Seq<char> {
    if byte_len(s) > max {
        bytes_prefix(s, max) + truncation_marker()
    } else {
        s
    }
}

fn utf8_len_exec(c: char) -> (r: usize)
    ensures
        r == utf8_len(c),
{
    let u = c as u32;
    if u < 0x80 {
        1
    } else if u < 0x800 {
        2
    } else if u < 0x10000 {
        3
    } else {
        4
    }
}

/// Byte length of each prefix, bounded: returns the largest `k` whose prefix
/// fits in `max` bytes, and whether the whole text fits.
proof fn lemma_bytes_prefix_fits(s: Seq<char>, max: nat)
    ensures
        byte_len(bytes_prefix(s, max)) <= max,
    decreases s.len(),
{
    if !(byte_len(s) <= max || s.len() == 0) {
        lemma_bytes_prefix_fits(s.drop_last(), max);
    }
}

proof fn lemma_byte_len_take_mono(s: Seq<char>, i: int, j: int)
    requires
        0 <= i <= j <= s.len(),
    ensures
        byte_len(s.take(i)) <= byte_len(s.take(j)),
    decreases j - i,
{
    if i < j {
        lemma_byte_len_take_mono(s, i, j - 1);
        assert(s.take(j).drop_last() =~= s.take(j - 1));
    }
}

/// Whether `s` can be cut to `max` bytes (see `cut_ok`).
pub fn cut_ok_exec(s: &str, max: usize) -> (r: bool)
    ensures
        r == cut_ok(s@, max as nat),
{
    let c = chars_of(s);
    let (k, fits) = prefix_within(&c, max);
    if fits {
        return true;
    }
    proof {
        lemma_bytes_prefix_fits(c@, max as nat);
    }
    let mut used: usize = 0;
    let mut i: usize = 0;
    while i < k
        invariant
            i <= k <= c@.len(),
            used == byte_len(c@.take(i as int)),
            byte_len(c@.take(k as int)) <= max,
        decreases k - i,
    {
        proof {
            assert(c@.take(i + 1).drop_last() =~= c@.take(i as int));
            lemma_byte_len_take_mono(c@, i + 1, k as int);
        }
        used = used + utf8_len_exec(c[i]);
        i += 1;
    }
    used == max
}

fn prefix_within(s: &[char], max: usize) -> (r: (usize, bool))
    ensures
        r.0 <= s@.len(),
        s@.take(r.0 as int) == bytes_prefix(s@, max as nat),
        r.1 == (byte_len(s@) <= max),
        r.1 ==> r.0 == s@.len(),
{
    let mut k: usize = 0;
    let mut used: usize = 0;
    let mut full = false;
    while k < s.len() && !full
        invariant
            k <= s@.len(),
            used == byte_len(s@.take(k as int)),
            used <= max,
            full ==> k < s@.len() && byte_len(s@.take(k + 1)) > max,
        decreases s.len() - k + (if full { 0int } else { 1int }),
    {
        let w = utf8_len_exec(s[k]);
        proof {
            assert(s@.take(k + 1).drop_last() =~= s@.take(k as int));
        }
        if w > max - used {
            full = true;
        } else {
            used += w;
            k += 1;
        }
    }
    proof {
        lemma_bytes_prefix_stop(s@, k as int, max as nat);
    }
    (k, k == s.len())
}

proof fn lemma_byte_len_mono(s: Seq<char>, a: int, b: int)
    requires
        0 <= a <= b <= s.len(),
    ensures
        byte_len(s.take(a)) <= byte_len(s.take(b)),
    decreases b - a,
{
    if a < b {
        assert(s.take(b).drop_last() =~= s.take(b - 1));
        lemma_byte_len_mono(s, a, b - 1);
    }
}

/// If the first `k` characters fit in `max` bytes and one more does not (or
/// there is none), the first `k` characters are the longest fitting prefix.
proof fn lemma_bytes_prefix_stop(s: Seq<char>, k: int, max: nat)
    requires
        0 <= k <= s.len(),
        byte_len(s.take(k)) <= max,
        k < s.len() ==> byte_len(s.take(k + 1)) > max,
    ensures
        s.take(k) == bytes_prefix(s, max),
        (byte_len(s) <= max) == (k == s.len()),
    decreases s.len(),
{
    if k == s.len() {
        assert(s.take(k) =~= s);
    } else {
        lemma_byte_len_mono(s, k + 1, s.len() as int);
        assert(s.take(s.len() as int) =~= s);
        assert(byte_len(s) > max);
        let t = s.drop_last();
        assert(t.take(k) =~= s.take(k));
        if k + 1 <= t.len() {
            assert(t.take(k + 1) =~= s.take(k + 1));
        }
        lemma_bytes_prefix_stop(t, k, max);
    }
}

// ---------------------------------------------------------------------------
// The bounded buffer
// ---------------------------------------------------------------------------
/// Most lines a buffer made with `max_lines` holds (at least one).
pub open spec fn capacity(max_lines: nat) -> nat {
    if max_lines == 0 {
        1
    } else {
        max_lines
    }
}

/// The lines after pushing `x`: the oldest goes when the buffer is full.
pub open spec fn after_push(
    lines: Seq<(i64, Seq<char>, Seq<char>)>,
    max_lines: nat,
    x: (i64, Seq<char>, Seq<char>),
) -> Seq<(i64, Seq<char>, Seq<char>)> {
    if lines.len() >= max_lines && lines.len() > 0 {
        lines.drop_first().push(x)
    } else {
        lines.push(x)
    }
}

/// Lines newer than `since` (all lines when there is no bound).
pub open spec fn newer_than(
    lines: Seq<(i64, Seq<char>, Seq<char>)>,
    since: Option<i64>,
) -> Seq<(i64, Seq<char>, Seq<char>)>
    decreases lines.len(),
{
    if lines.len() == 0 {
        Seq::empty()
    } else {
        let rest = newer_than(lines.drop_last(), since);
        match since {
            Some(s) => if lines.last().0 > s {
                rest.push(lines.last())
            } else {
                rest
            },
            None => rest.push(lines.last()),
        }
    }
}

/// The last `n` entries of `s` (all of them when there are fewer).
pub open spec fn last_n<A>(s: Seq<A>, n: nat) -> Seq<A> {
    if s.len() > n {
        s.skip(s.len() - n)
    } else {
        s
    }
}

/// Bounded log of one resource: keeps the newest `max_lines` lines, each cut
/// to `max_line_bytes` bytes.
pub struct ResourceLogBuffer {
    max_lines: usize,
    max_line_bytes: usize,
    lines: VecDeque<LogLine>,
}

impl ResourceLogBuffer {
    pub closed spec fn spec_max_lines(&self) -> nat {
        self.max_lines as nat
    }

    pub closed spec fn spec_max_line_bytes(&self) -> nat {
        self.max_line_bytes as nat
    }

    /// The lines held, oldest first.
    pub closed spec fn contents(&self) -> Seq<(i64, Seq<char>, Seq<char>)> {
        lines_view(self.lines@)
    }

    /// The buffer never holds more than its capacity.
    pub closed spec fn wf(&self) -> bool {
        self.lines@.len() <= capacity(self.max_lines as nat)
    }

    pub fn new(max_lines: usize, max_line_bytes: usize) -> (r: Self)
        ensures
            r.wf(),
            r.contents() == Seq::<(i64, Seq<char>, Seq<char>)>::empty(),
            r.spec_max_lines() == max_lines,
            r.spec_max_line_bytes() == max_line_bytes,
    {
        let r = ResourceLogBuffer { max_lines, max_line_bytes, lines: VecDeque::new() };
        proof {
            assert(lines_view(r.lines@) =~= Seq::<(i64, Seq<char>, Seq<char>)>::empty());
        }
        r
    }

    /// Stores `log` (cut to the byte limit, marked `... [truncated]` when cut),
    /// dropping the oldest line when full; returns the line as stored.
    pub fn push(&mut self, log: LogLine) -> (r: LogLine)
        requires
            old(self).wf(),
            cut_ok(log.line@, old(self).spec_max_line_bytes()),
        ensures
            final(self).wf(),
            final(self).spec_max_lines() == old(self).spec_max_lines(),
            final(self).spec_max_line_bytes() == old(self).spec_max_line_bytes(),
            line_view(r) == (log.ts, log.stream@, stored_text(log.line@, old(self).spec_max_line_bytes())),
            final(self).contents() == after_push(old(self).contents(), old(self).spec_max_lines(), line_view(r)),
    {
        let chars = chars_of(log.line.as_str());
        let (k, fits) = prefix_within(&chars, self.max_line_bytes);
        let text = if fits {
            log.line
        } else {
            let mut cut = slice_of(&chars, 0, k);
            let marker = chars_of("... [truncated]");
            push_all(&mut cut, &marker);
            string_of(&cut)
        };
        let stored = LogLine { ts: log.ts, stream: log.stream, line: text };
        let out = copy_line(&stored);
        if self.lines.len() >= self.max_lines && self.lines.len() > 0 {
            let ghost before = self.lines@;
            let _ = self.lines.pop_front();
            proof {
                assert(lines_view(self.lines@) =~= lines_view(before).drop_first());
            }
        }
        proof {
            lemma_lines_view_push(self.lines@, stored);
        }
        self.lines.push_back(stored);
        out
    }

    /// The lines newer than `since` (all when `None`), at most the last `tail`.
    pub fn get_snapshot(&self, tail: usize, since: Option<i64>) -> (r: Vec<LogLine>)
        ensures
            lines_view(r@) == last_n(newer_than(self.contents(), since), tail as nat),
    {
        let mut filtered: Vec<LogLine> = Vec::new();
        let mut i: usize = 0;
        while i < self.lines.len()
            invariant
                i <= self.lines@.len(),
                lines_view(filtered@) == newer_than(lines_view(self.lines@).take(i as int), since),
            decreases self.lines.len() - i,
        {
            let l = &self.lines[i];
            proof {
                assert(lines_view(self.lines@).take(i + 1).drop_last() =~= lines_view(
                    self.lines@,
                ).take(i as int));
            }
            let keep = match since {
                Some(s) => l.ts > s,
                None => true,
            };
            if keep {
                let c = copy_line(l);
                proof {
                    lemma_lines_view_push(filtered@, c);
                }
                filtered.push(c);
            }
            i += 1;
        }
        proof {
            assert(lines_view(self.lines@).take(self.lines@.len() as int) =~= lines_view(
                self.lines@,
            ));
        }
        keep_last(filtered, tail)
    }
}

/// The last `n` lines of `v`.
pub fn keep_last(v: Vec<LogLine>, n: usize) -> (r: Vec<LogLine>)
    ensures
        lines_view(r@) == last_n(lines_view(v@), n as nat),
{
    if v.len() <= n {
        return v;
    }
    let start = v.len() - n;
    let mut r: Vec<LogLine> = Vec::new();
    let mut i: usize = start;
    while i < v.len()
        invariant
            start <= i <= v@.len(),
            start == v@.len() - n,
            lines_view(r@) == lines_view(v@).subrange(start as int, i as int),
        decreases v.len() - i,
    {
        let c = copy_line(&v[i]);
        proof {
            lemma_lines_view_push(r@, c);
            assert(lines_view(v@).subrange(start as int, i + 1) =~= lines_view(v@).subrange(
                start as int,
                i as int,
            ).push(line_view(v@[i as int])));
        }
        r.push(c);
        i += 1;
    }
    proof {
        assert(lines_view(v@).subrange(start as int, v@.len() as int) =~= lines_view(v@).skip(
            start as int,
        ));
    }
    r
}

/// What a fresh buffer holds after the lines `pushed` were pushed in order.
pub open spec fn replay(
    max_lines: nat,
    max_bytes: nat,
    pushed: Seq<(i64, Seq<char>, Seq<char>)>,
) -> Seq<(i64, Seq<char>, Seq<char>)>
    decreases pushed.len(),
{
    if pushed.len() == 0 {
        Seq::empty()
    } else {
        let x = pushed.last();
        after_push(
            replay(max_lines, max_bytes, pushed.drop_last()),
            max_lines,
            (x.0, x.1, stored_text(x.2, max_bytes)),
        )
    }
}

/// Each pushed line as the buffer stores it.
pub open spec fn stored_lines(
    max_bytes: nat,
    pushed: Seq<(i64, Seq<char>, Seq<char>)>,
) -> Seq<(i64, Seq<char>, Seq<char>)> {
    Seq::new(pushed.len(), |i: int| (pushed[i].0, pushed[i].1, stored_text(pushed[i].2, max_bytes)))
}

/// A buffer holds exactly the newest lines pushed into it, as many as its
/// capacity allows, oldest first.
pub proof fn lemma_buffer_keeps_newest(
    max_lines: nat,
    max_bytes: nat,
    pushed: Seq<(i64, Seq<char>, Seq<char>)>,
)
    ensures
        replay(max_lines, max_bytes, pushed) == last_n(
            stored_lines(max_bytes, pushed),
            capacity(max_lines),
        ),
        replay(max_lines, max_bytes, pushed).len() <= capacity(max_lines),
    decreases pushed.len(),
{
    if pushed.len() > 0 {
        let prev = pushed.drop_last();
        lemma_buffer_keeps_newest(max_lines, max_bytes, prev);
        let sp = stored_lines(max_bytes, prev);
        let s = stored_lines(max_bytes, pushed);
        assert(s =~= sp.push(s.last()));
        let cap = capacity(max_lines);
        let old_buf = last_n(sp, cap);
        if sp.len() > cap {
            assert(old_buf.len() == cap);
            assert(last_n(s, cap) =~= old_buf.drop_first().push(s.last()));
        } else if sp.len() == cap {
            assert(old_buf == sp);
            if sp.len() > 0 {
                assert(last_n(s, cap) =~= sp.drop_first().push(s.last()));
            }
        } else {
            assert(last_n(s, cap) =~= sp.push(s.last()));
        }
    }
}

// ---------------------------------------------------------------------------
// Merged views of several logs
// ---------------------------------------------------------------------------
/// Text of a line shown under `prefix`: unchanged when it already starts with
/// it, else the prefix, a space and the text.
pub open spec fn prefixed(prefix: Seq<char>, text: Seq<char>) -> Seq<char> {
    if starts_with(text, prefix) {
        text
    } else {
        prefix + seq![' '] + text
    }
}

/// `[service|container]`, the prefix of a container's lines in a merged log.
pub open spec fn container_prefix(service: Seq<char>, container: Seq<char>) -> Seq<char> {
    seq!['['] + service + seq!['|'] + container + seq![']']
}

pub fn container_prefix_exec(service: &str, container: &str) -> (r: Vec<char>)
    ensures
        r@ == container_prefix(service@, container@),
{
    let mut r: Vec<char> = vec!['['];
    push_all(&mut r, &chars_of(service));
    r.push('|');
    push_all(&mut r, &chars_of(container));
    r.push(']');
    proof {
        assert(r@ =~= container_prefix(service@, container@));
    }
    r
}

/// The lines shown under `prefix`.
pub open spec fn prefix_lines(
    prefix: Seq<char>,
    lines: Seq<(i64, Seq<char>, Seq<char>)>,
) -> Seq<(i64, Seq<char>, Seq<char>)> {
    Seq::new(lines.len(), |i: int| (lines[i].0, lines[i].1, prefixed(prefix, lines[i].2)))
}

/// Appends `lines` to `out`, each shown under `prefix`.
pub fn append_prefixed(out: &mut Vec<LogLine>, prefix: &[char], lines: &Vec<LogLine>)
    ensures
        lines_view(final(out)@) == lines_view(old(out)@) + prefix_lines(prefix@, lines_view(lines@)),
{
    let mut i: usize = 0;
    while i < lines.len()
        invariant
            i <= lines@.len(),
            lines_view(out@) == lines_view(old(out)@) + prefix_lines(prefix@, lines_view(lines@)).take(
                i as int,
            ),
        decreases lines.len() - i,
    {
        let l = &lines[i];
        let text = chars_of(l.line.as_str());
        let shown = if starts_with_exec(&text, prefix) {
            l.line.clone()
        } else {
            let mut t: Vec<char> = slice_of(prefix, 0, prefix.len());
            t.push(' ');
            push_all(&mut t, &text);
            proof {
                assert(t@ =~= prefix@ + seq![' '] + text@);
            }
            string_of(&t)
        };
        let nl = LogLine { ts: l.ts, stream: l.stream.clone(), line: shown };
        proof {
            lemma_lines_view_push(out@, nl);
            assert(prefix_lines(prefix@, lines_view(lines@)).take(i + 1) =~= prefix_lines(
                prefix@,
                lines_view(lines@),
            ).take(i as int).push(line_view(nl)));
        }
        out.push(nl);
        i += 1;
    }
    proof {
        assert(prefix_lines(prefix@, lines_view(lines@)).take(lines@.len() as int) =~= prefix_lines(
            prefix@,
            lines_view(lines@),
        ));
    }
}

/// Appends copies of `lines` to `out`.
pub fn append_lines(out: &mut Vec<LogLine>, lines: &Vec<LogLine>)
    ensures
        lines_view(final(out)@) == lines_view(old(out)@) + lines_view(lines@),
{
    let mut i: usize = 0;
    while i < lines.len()
        invariant
            i <= lines@.len(),
            lines_view(out@) == lines_view(old(out)@) + lines_view(lines@).take(i as int),
        decreases lines.len() - i,
    {
        let c = copy_line(&lines[i]);
        proof {
            lemma_lines_view_push(out@, c);
            assert(lines_view(lines@).take(i + 1) =~= lines_view(lines@).take(i as int).push(
                line_view(c),
            ));
        }
        out.push(c);
        i += 1;
    }
    proof {
        assert(lines_view(lines@).take(lines@.len() as int) =~= lines_view(lines@));
    }
}

/// Inserts `x` into the time-ordered `s` after every line not newer than it.
pub open spec fn insert_by_time(
    s: Seq<(i64, Seq<char>, Seq<char>)>,
    x: (i64, Seq<char>, Seq<char>),
) -> Seq<(i64, Seq<char>, Seq<char>)>
    decreases s.len(),
{
    if s.len() == 0 || s.last().0 <= x.0 {
        s.push(x)
    } else {
        insert_by_time(s.drop_last(), x).push(s.last())
    }
}

/// `s` ordered by time; lines with the same time keep their order.
pub open spec fn sort_by_time(s: Seq<(i64, Seq<char>, Seq<char>)>) -> Seq<(i64, Seq<char>, Seq<char>)>
    decreases s.len(),
{
    if s.len() == 0 {
        Seq::empty()
    } else {
        insert_by_time(sort_by_time(s.drop_last()), s.last())
    }
}

pub open spec fn time_ordered(s: Seq<(i64, Seq<char>, Seq<char>)>) -> bool {
    forall|i: int, j: int| 0 <= i <= j < s.len() ==> s[i].0 <= s[j].0
}

proof fn lemma_insert_by_time(s: Seq<(i64, Seq<char>, Seq<char>)>, x: (i64, Seq<char>, Seq<char>))
    requires
        time_ordered(s),
    ensures
        time_ordered(insert_by_time(s, x)),
        insert_by_time(s, x).len() == s.len() + 1,
        forall|i: int|
            0 <= i < insert_by_time(s, x).len() ==> (#[trigger] insert_by_time(s, x)[i] == x
                || s.contains(insert_by_time(s, x)[i])),
    decreases s.len(),
{
    if s.len() > 0 && s.last().0 > x.0 {
        let t = s.drop_last();
        assert(time_ordered(t));
        lemma_insert_by_time(t, x);
        let r = insert_by_time(t, x);
        assert forall|i: int| 0 <= i < r.len() implies r[i].0 <= s.last().0 by {
            if r[i] != x {
                let j = choose|j: int| 0 <= j < t.len() && t[j] == r[i];
                assert(s[j] == t[j]);
            }
        }
        assert forall|i: int|
            0 <= i < insert_by_time(s, x).len() implies (#[trigger] insert_by_time(s, x)[i] == x
            || s.contains(insert_by_time(s, x)[i])) by {
            if i < r.len() {
                if r[i] != x {
                    let j = choose|j: int| 0 <= j < t.len() && t[j] == r[i];
                    assert(s[j] == t[j]);
                }
            } else {
                assert(s[s.len() - 1] == s.last());
            }
        }
    } else {
        assert forall|i: int|
            0 <= i < insert_by_time(s, x).len() implies (#[trigger] insert_by_time(s, x)[i] == x
            || s.contains(insert_by_time(s, x)[i])) by {
            if i < s.len() {
                assert(s.contains(s[i]));
            }
        }
    }
}

/// A merged log is ordered by time and holds as many lines as went in.
pub proof fn lemma_sort_by_time_ordered(s: Seq<(i64, Seq<char>, Seq<char>)>)
    ensures
        time_ordered(sort_by_time(s)),
        sort_by_time(s).len() == s.len(),
    decreases s.len(),
{
    if s.len() > 0 {
        lemma_sort_by_time_ordered(s.drop_last());
        lemma_insert_by_time(sort_by_time(s.drop_last()), s.last());
    }
}

/// Orders `v` by time, keeping the order of lines with equal times.
pub fn sort_lines_by_time(v: Vec<LogLine>) -> (r: Vec<LogLine>)
    ensures
        lines_view(r@) == sort_by_time(lines_view(v@)),
{
    let mut r: Vec<LogLine> = Vec::new();
    let mut i: usize = 0;
    while i < v.len()
        invariant
            i <= v@.len(),
            lines_view(r@) == sort_by_time(lines_view(v@).take(i as int)),
        decreases v.len() - i,
    {
        let x = copy_line(&v[i]);
        proof {
            assert(lines_view(v@).take(i + 1).drop_last() =~= lines_view(v@).take(i as int));
        }
        // position after every line not newer than x
        let mut p: usize = r.len();
        let ghost rv = lines_view(r@);
        proof {
            assert(rv.take(p as int) =~= rv);
            assert(rv.skip(p as int) =~= Seq::<(i64, Seq<char>, Seq<char>)>::empty());
            assert(insert_by_time(rv, line_view(x)) =~= insert_by_time(rv.take(p as int), line_view(x))
                + rv.skip(p as int));
        }
        while p > 0 && r[p - 1].ts > x.ts
            invariant
                p <= r@.len(),
                rv == lines_view(r@),
                insert_by_time(rv, line_view(x)) == insert_by_time(rv.take(p as int), line_view(x))
                    + rv.skip(p as int),
            decreases p,
        {
            proof {
                assert(rv.take(p as int).drop_last() =~= rv.take(p - 1));
                assert(rv.take(p as int).last() == rv[p - 1]);
                assert(rv.skip(p - 1) =~= seq![rv[p - 1]] + rv.skip(p as int));
                assert(insert_by_time(rv.take(p - 1), line_view(x)).push(rv[p - 1]) + rv.skip(
                    p as int,
                ) =~= insert_by_time(rv.take(p - 1), line_view(x)) + rv.skip(p - 1));
            }
            p -= 1;
        }
        proof {
            assert(insert_by_time(rv.take(p as int), line_view(x)) == rv.take(p as int).push(
                line_view(x),
            ));
        }
        let ghost before = r@;
        r.insert(p, x);
        proof {
            assert(lines_view(r@) =~= rv.take(p as int).push(line_view(x)) + rv.skip(p as int));
        }
        i += 1;
    }
    proof {
        assert(lines_view(v@).take(v@.len() as int) =~= lines_view(v@));
    }
    r
}

/// Lines of several logs merged into one: ordered by time, the last `tail`.
pub open spec fn merged_tail(lines: Seq<(i64, Seq<char>, Seq<char>)>, tail: nat) -> Seq<
    (i64, Seq<char>, Seq<char>),
> {
    last_n(sort_by_time(lines), tail)
}

pub fn merge_tail(v: Vec<LogLine>, tail: usize) -> (r: Vec<LogLine>)
    ensures
        lines_view(r@) == merged_tail(lines_view(v@), tail as nat),
{
    let s = sort_lines_by_time(v);
    keep_last(s, tail)
}

} // verus!
