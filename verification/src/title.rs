//! Deterministic title/volume parsing. No AI, no external data: naming and
//! splitting use fixed rules and filesystem structure only.
use vstd::prelude::*;

use crate::paths::{sanitize_chars, sanitized};
use crate::text::{
    all_digits, all_ws, all_ws_exec, ascii_alnum, chars_of, digit_run, digit_run_exec, ends_with,
    ends_with_exec, fmt_dec, fmt_pad2, is_ascii_alnum, is_ascii_digit, is_ws, lemma_digit_run,
    lemma_find_contains, lower_chars, lower_seq, occurs_at, occurs_at_exec, parse_u32,
    parse_u32_exec, push_all, push_dec, push_pad2, rfind, rfind_exec, slice_of, string_of,
    trim_end, trim_end_len, trim_start, trim_start_off, whitespace, contains, contains_exec,
    lemma_rfind_below, rfind_below, starts_with_exec, starts_with,
};

verus! {

/// Parts of a multi-part volume (上 / 中 / 下).
#[derive(Debug, Clone, Copy, PartialEq, Eq, Hash)]
pub enum Part {
    First,
    Second,
    Third,
}

impl Part {
    pub open spec fn spec_number(self) -> u32 {
        match self {
            Part::First => 1,
            Part::Second => 2,
            Part::Third => 3,
        }
    }

    #[verifier::when_used_as_spec(spec_number)]
    pub fn number(self) -> (n: u32)
        ensures
            n == self.spec_number(),
    {
        match self {
            Part::First => 1,
            Part::Second => 2,
            Part::Third => 3,
        }
    }
}

/// Identity of a volume for grouping/dedup purposes.
#[derive(Debug, Clone, PartialEq, Eq, Hash)]
pub enum VolumeKey {
    Number(u32),
    Part(Part),
    Extra { label: String },
    Unknown,
}

/// Mathematical value of a [`VolumeKey`].
pub enum KeyView {
    Number(u32),
    Part(Part),
    Extra(Seq<char>),
    Unknown,
}

impl View for VolumeKey {
    type V = KeyView;

    open spec fn view(&self) -> KeyView {
        match self {
            VolumeKey::Number(n) => KeyView::Number(*n),
            VolumeKey::Part(p) => KeyView::Part(*p),
            VolumeKey::Extra { label } => KeyView::Extra(label@),
            VolumeKey::Unknown => KeyView::Unknown,
        }
    }
}

/// Confidence of a volume classification.
#[derive(Debug, Clone, Copy, PartialEq, Eq)]
pub enum Confidence {
    High,
    Low,
}

/// Anything at or above this number at the tail of a name is treated as a
/// year/episode/page count, not a volume number.
pub const MAX_VOLUME_NUMBER: u32 = 500;

// ---------------------------------------------------------------------------
// Fixed vocabularies
// ---------------------------------------------------------------------------
/// Keywords that mark a volume as non-mainline (never merged with the main
/// series numbers), in priority order.
pub open spec fn extra_keyword(i: int) -> Seq<char> {
    if i == 0 {
        seq!['外', '伝']
    } else if i == 1 {
        seq!['特', '装']
    } else if i == 2 {
        seq!['特', '典']
    } else if i == 3 {
        seq!['画', '集']
    } else if i == 4 {
        seq!['お', 'ま', 'け']
    } else {
        seq!['番', '外']
    }
}

fn extra_keyword_exec(i: usize) -> (r: Vec<char>)
    requires
        i < 6,
    ensures
        r@ == extra_keyword(i as int),
{
    if i == 0 {
        vec!['外', '伝']
    } else if i == 1 {
        vec!['特', '装']
    } else if i == 2 {
        vec!['特', '典']
    } else if i == 3 {
        vec!['画', '集']
    } else if i == 4 {
        vec!['お', 'ま', 'け']
    } else {
        vec!['番', '外']
    }
}

/// Suffixes that indicate the first/second/third part of a volume, in the
/// order they are tried.
pub open spec fn part_suffix(i: int) -> Seq<char> {
    if i == 0 {
        seq!['上', '巻']
    } else if i == 1 {
        seq!['中', '巻']
    } else if i == 2 {
        seq!['下', '巻']
    } else if i == 3 {
        seq!['上']
    } else if i == 4 {
        seq!['中']
    } else {
        seq!['下']
    }
}

pub open spec fn part_of_suffix(i: int) -> Part {
    if i % 3 == 0 {
        Part::First
    } else if i % 3 == 1 {
        Part::Second
    } else {
        Part::Third
    }
}

fn part_suffix_exec(i: usize) -> (r: (Vec<char>, Part))
    requires
        i < 6,
    ensures
        r.0@ == part_suffix(i as int),
        r.1 == part_of_suffix(i as int),
{
    if i == 0 {
        (vec!['上', '巻'], Part::First)
    } else if i == 1 {
        (vec!['中', '巻'], Part::Second)
    } else if i == 2 {
        (vec!['下', '巻'], Part::Third)
    } else if i == 3 {
        (vec!['上'], Part::First)
    } else if i == 4 {
        (vec!['中'], Part::Second)
    } else {
        (vec!['下'], Part::Third)
    }
}

pub open spec fn volume_word() -> Seq<char> {
    seq!['v', 'o', 'l', 'u', 'm', 'e']
}

pub open spec fn vol_word() -> Seq<char> {
    seq!['v', 'o', 'l']
}

// ---------------------------------------------------------------------------
// Digit normalisation
// ---------------------------------------------------------------------------
pub open spec fn norm_digit_char(c: char) -> char {
    if '０' <= c && c <= '９' {
        ((c as u32) - ('０' as u32) + ('0' as u32)) as char
    } else if c == '〇' {
        '0'
    } else {
        c
    }
}

/// Full-width digits (and 〇) turned into ASCII digits.
pub open spec fn normalized_digits(s: Seq<char>) -> Seq<char> {
    Seq::new(s.len(), |i: int| norm_digit_char(s[i]))
}

fn norm_digit_exec(c: char) -> (r: char)
    ensures
        r == norm_digit_char(c),
{
    if '０' <= c && c <= '９' {
        let d: u8 = (c as u32 - '０' as u32) as u8;
        (d + 48u8) as char
    } else if c == '〇' {
        '0'
    } else {
        c
    }
}

fn normalize_digit_chars(s: &[char]) -> (r: Vec<char>)
    ensures
        r@ == normalized_digits(s@),
{
    let mut r: Vec<char> = Vec::new();
    let mut i: usize = 0;
    while i < s.len()
        invariant
            i <= s.len(),
            r@ == normalized_digits(s@.take(i as int)),
        decreases s.len() - i,
    {
        let c = norm_digit_exec(s[i]);
        r.push(c);
        i += 1;
        proof {
            assert(normalized_digits(s@.take(i as int)) =~= normalized_digits(s@.take(i - 1)).push(
                c,
            ));
        }
    }
    proof {
        assert(s@.take(s.len() as int) =~= s@);
    }
    r
}

/// Normalize full-width digits (and 〇) to ASCII digits.
pub fn normalize_digits(s: &str) -> (r: String)
    ensures
        r@ == normalized_digits(s@),
{
    let v = chars_of(s);
    let n = normalize_digit_chars(&v);
    string_of(&n)
}

// ---------------------------------------------------------------------------
// Rule 1: 第n巻 / 第n話 at the start
// ---------------------------------------------------------------------------
pub open spec fn is_counter_char(c: char) -> bool {
    c == '巻' || c == '話'
}

/// `第` + digits + `巻`/`話` at the start of `n`: the number, when it fits in `u32`.
pub open spec fn chapter_number(n: Seq<char>) -> Option<u32> {
    if n.len() > 0 && n[0] == '第' {
        let rest = n.drop_first();
        let d = digit_run(rest) as int;
        if d > 0 && d < rest.len() && is_counter_char(rest[d]) {
            parse_u32(rest.take(d))
        } else {
            None
        }
    } else {
        None
    }
}

fn chapter_number_exec(n: &[char]) -> (r: Option<u32>)
    ensures
        r == chapter_number(n@),
{
    if n.len() == 0 || n[0] != '第' {
        return None;
    }
    let d = digit_run_exec(n, 1);
    proof {
        assert(n@.skip(1) =~= n@.drop_first());
    }
    if d > 0 && 1 + d < n.len() && (n[1 + d] == '巻' || n[1 + d] == '話') {
        let digits = slice_of(n, 1, 1 + d);
        proof {
            assert(digits@ =~= n@.drop_first().take(d as int));
            assert(n@.drop_first()[d as int] == n@[1 + d]);
        }
        parse_u32_exec(&digits)
    } else {
        proof {
            if 1 + d < n.len() {
                assert(n@.drop_first()[d as int] == n@[1 + d]);
            }
        }
        None
    }
}

// ---------------------------------------------------------------------------
// Rule 2: vol / volume / v followed by digits
// ---------------------------------------------------------------------------
/// Text after `pos + len` with leading whitespace, one optional `.`, and
/// whitespace again removed.
pub open spec fn after_vol_word(low: Seq<char>, end: int) -> Seq<char> {
    let a = trim_start(low.skip(end));
    if a.len() > 0 && a[0] == '.' {
        trim_start(a.drop_first())
    } else {
        a
    }
}

/// Number following an occurrence of `pat` at `pos` in the lowered name.
pub open spec fn vol_number_at(low: Seq<char>, pat: Seq<char>, pos: int) -> Option<u32> {
    if occurs_at(low, pat, pos) {
        let a = after_vol_word(low, pos + pat.len());
        let d = digit_run(a) as int;
        if d > 0 {
            parse_u32(a.take(d))
        } else {
            None
        }
    } else {
        None
    }
}

/// First occurrence of `pat` at or after `i` that is followed by a usable number.
pub open spec fn first_vol_number(low: Seq<char>, pat: Seq<char>, i: int) -> Option<u32>
    decreases low.len() + 1 - i,
{
    if i < 0 || i > low.len() {
        None
    } else {
        match vol_number_at(low, pat, i) {
            Some(v) => Some(v),
            None => first_vol_number(low, pat, i + 1),
        }
    }
}

/// A character whose lower case is an ASCII letter or digit: one itself, or
/// the Kelvin sign, which lower-cases to `k` (no other non-ASCII character
/// lower-cases to one ending in ASCII).
pub open spec fn lowers_to_alnum(c: char) -> bool {
    is_ascii_alnum(c) || c == '\u{212A}'
}

/// Bare `v` + digits at `i`: the `v` is not preceded by a character whose
/// lower case ends in an ASCII letter or digit, and it is followed by at
/// least two digits, or by one digit that ends the name.
pub open spec fn bare_v_number_at(low: Seq<char>, i: int) -> Option<u32> {
    if 0 <= i < low.len() && low[i] == 'v' && (i == 0 || !lowers_to_alnum(low[i - 1])) {
        let d = digit_run(low.skip(i + 1)) as int;
        if d >= 2 || (d == 1 && i + 2 == low.len()) {
            parse_u32(low.subrange(i + 1, i + 1 + d))
        } else {
            None
        }
    } else {
        None
    }
}

pub open spec fn first_bare_v_number(low: Seq<char>, i: int) -> Option<u32>
    decreases low.len() + 1 - i,
{
    if i < 0 || i >= low.len() {
        None
    } else {
        match bare_v_number_at(low, i) {
            Some(v) => Some(v),
            None => first_bare_v_number(low, i + 1),
        }
    }
}

/// `volume` / `vol` / `v` + number anywhere in the (ASCII-lowered) name.
pub open spec fn vol_number(low: Seq<char>) -> Option<u32> {
    match first_vol_number(low, volume_word(), 0) {
        Some(v) => Some(v),
        None => match first_vol_number(low, vol_word(), 0) {
            Some(v) => Some(v),
            None => first_bare_v_number(low, 0),
        },
    }
}

fn after_vol_word_exec(low: &[char], end: usize) -> (r: Vec<char>)
    requires
        end <= low@.len(),
    ensures
        r@ == after_vol_word(low@, end as int),
{
    let tail = slice_of(low, end, low.len());
    let k = trim_start_off(&tail);
    proof {
        assert(tail@ =~= low@.skip(end as int));
    }
    if k < tail.len() && tail[k] == '.' {
        let rest = slice_of(&tail, k + 1, tail.len());
        let k2 = trim_start_off(&rest);
        proof {
            assert(rest@ =~= tail@.skip(k as int).drop_first());
        }
        slice_of(&rest, k2, rest.len())
    } else {
        slice_of(&tail, k, tail.len())
    }
}

fn vol_number_at_exec(low: &[char], pat: &[char], pos: usize) -> (r: Option<u32>)
    ensures
        r == vol_number_at(low@, pat@, pos as int),
{
    if !occurs_at_exec(low, pat, pos) {
        return None;
    }
    let len = low.len();
    proof {
        assert(pos + pat@.len() <= len);
    }
    let a = after_vol_word_exec(low, pos + pat.len());
    let d = digit_run_exec(&a, 0);
    proof {
        assert(a@.skip(0) =~= a@);
    }
    if d > 0 {
        let digits = slice_of(&a, 0, d);
        parse_u32_exec(&digits)
    } else {
        None
    }
}

fn first_vol_number_exec(low: &[char], pat: &[char]) -> (r: Option<u32>)
    ensures
        r == first_vol_number(low@, pat@, 0),
{
    let mut i: usize = 0;
    loop
        invariant
            i <= low@.len(),
            first_vol_number(low@, pat@, 0) == first_vol_number(low@, pat@, i as int),
        decreases low@.len() - i,
    {
        let v = vol_number_at_exec(low, pat, i);
        if v.is_some() {
            return v;
        }
        if i == low.len() {
            proof {
                assert(first_vol_number(low@, pat@, i + 1) is None);
            }
            return None;
        }
        i += 1;
    }
}

fn bare_v_number_at_exec(low: &[char], i: usize) -> (r: Option<u32>)
    requires
        i < low@.len(),
    ensures
        r == bare_v_number_at(low@, i as int),
{
    if low[i] != 'v' {
        return None;
    }
    if i > 0 && (ascii_alnum(low[i - 1]) || low[i - 1] == '\u{212A}') {
        return None;
    }
    let d = digit_run_exec(low, i + 1);
    if d >= 2 || (d == 1 && i + 2 == low.len()) {
        let digits = slice_of(low, i + 1, i + 1 + d);
        parse_u32_exec(&digits)
    } else {
        None
    }
}

fn first_bare_v_number_exec(low: &[char]) -> (r: Option<u32>)
    ensures
        r == first_bare_v_number(low@, 0),
{
    let mut i: usize = 0;
    while i < low.len()
        invariant
            i <= low@.len(),
            first_bare_v_number(low@, 0) == first_bare_v_number(low@, i as int),
        decreases low@.len() - i,
    {
        let v = bare_v_number_at_exec(low, i);
        if v.is_some() {
            return v;
        }
        i += 1;
    }
    None
}

fn find_vol_number(low: &[char]) -> (r: Option<u32>)
    ensures
        r == vol_number(low@),
{
    let w1: Vec<char> = vec!['v', 'o', 'l', 'u', 'm', 'e'];
    let a = first_vol_number_exec(low, &w1);
    if a.is_some() {
        return a;
    }
    let w2: Vec<char> = vec!['v', 'o', 'l'];
    let b = first_vol_number_exec(low, &w2);
    if b.is_some() {
        return b;
    }
    first_bare_v_number_exec(low)
}

// ---------------------------------------------------------------------------
// Rule 3: 上 / 中 / 下 at the end
// ---------------------------------------------------------------------------
pub open spec fn is_open_bracket(c: char) -> bool {
    c == '(' || c == '（'
}

pub open spec fn is_close_bracket(c: char) -> bool {
    c == ')' || c == '）'
}

/// `t` without one closing bracket at its end.
pub open spec fn strip_close(t: Seq<char>) -> Seq<char> {
    if t.len() > 0 && is_close_bracket(t.last()) {
        t.drop_last()
    } else {
        t
    }
}

/// The `i`-th part suffix ends `inner` and stands alone: it is the whole
/// text, or preceded by whitespace, an opening bracket or `巻`.
pub open spec fn part_suffix_matches(inner: Seq<char>, i: int) -> bool {
    let sfx = part_suffix(i);
    ends_with(inner, sfx) && {
        let rest = inner.take(inner.len() - sfx.len());
        rest.len() == 0 || is_ws(rest.last()) || is_open_bracket(rest.last()) || rest.last() == '巻'
    }
}

pub open spec fn part_from(inner: Seq<char>, i: int) -> Option<Part>
    decreases 6 - i,
{
    if i < 0 || i >= 6 {
        None
    } else if part_suffix_matches(inner, i) {
        Some(part_of_suffix(i))
    } else {
        part_from(inner, i + 1)
    }
}

/// 上 / 中 / 下 at the very end (optionally inside parentheses).
pub open spec fn find_part(n: Seq<char>) -> Option<Part> {
    part_from(strip_close(trim_end(n)), 0)
}

fn strip_close_exec(t: &[char]) -> (r: Vec<char>)
    ensures
        r@ == strip_close(t@),
{
    if t.len() > 0 && (t[t.len() - 1] == ')' || t[t.len() - 1] == '）') {
        slice_of(t, 0, t.len() - 1)
    } else {
        slice_of(t, 0, t.len())
    }
}

fn part_from_exec(inner: &[char]) -> (r: Option<Part>)
    ensures
        r == part_from(inner@, 0),
{
    let mut i: usize = 0;
    while i < 6
        invariant
            i <= 6,
            part_from(inner@, 0) == part_from(inner@, i as int),
        decreases 6 - i,
    {
        let (sfx, part) = part_suffix_exec(i);
        if ends_with_exec(inner, &sfx) {
            let rest_len = inner.len() - sfx.len();
            proof {
                assert(inner@.take(rest_len as int).len() == rest_len);
            }
            if rest_len == 0 {
                return Some(part);
            }
            let c = inner[rest_len - 1];
            proof {
                assert(inner@.take(rest_len as int).last() == c);
            }
            if whitespace(c) || c == '(' || c == '（' || c == '巻' {
                return Some(part);
            }
        }
        i += 1;
    }
    None
}

fn find_part_exec(n: &[char]) -> (r: Option<Part>)
    ensures
        r == find_part(n@),
{
    let k = trim_end_len(n);
    let t = slice_of(n, 0, k);
    let inner = strip_close_exec(&t);
    part_from_exec(&inner)
}

// ---------------------------------------------------------------------------
// Rule 4: trailing number below 500
// ---------------------------------------------------------------------------
/// The text after the last ASCII space, else after the last ideographic
/// space, else the whole text.
pub open spec fn last_segment(t: Seq<char>) -> Seq<char> {
    match rfind(t, seq![' ']) {
        Some(i) => t.skip(i + 1),
        None => match rfind(t, seq!['　']) {
            Some(i) => t.skip(i + 1),
            None => t,
        },
    }
}

/// Trailing integer after whitespace or inside parentheses, below
/// `MAX_VOLUME_NUMBER`.
pub open spec fn trailing_number(n: Seq<char>) -> Option<u32> {
    let t = trim_end(n);
    let inner = if t.len() > 0 && is_close_bracket(t.last()) {
        trim_end(t.drop_last())
    } else {
        t
    };
    let seg = last_segment(inner);
    let num = if seg.len() > 0 && is_open_bracket(seg[0]) {
        seg.drop_first()
    } else {
        seg
    };
    if num.len() == 0 || !all_digits(num) {
        None
    } else {
        match parse_u32(num) {
            Some(v) => if v < MAX_VOLUME_NUMBER {
                Some(v)
            } else {
                None
            },
            None => None,
        }
    }
}

proof fn lemma_rfind_single(t: Seq<char>, c: char, i: int)
    requires
        0 <= i < t.len(),
        t[i] == c,
        forall|m: int| i < m < t.len() ==> t[m] != c,
    ensures
        rfind(t, seq![c]) == Some(i),
{
    lemma_rfind_below(t, seq![c], t.len() + 1int);
    assert(occurs_at(t, seq![c], i)) by {
        assert(t.subrange(i, i + 1) =~= seq![c]);
    }
    match rfind(t, seq![c]) {
        Some(j) => {
            if j != i {
                assert(t.subrange(j, j + 1)[0] == t[j]);
                assert(j > i);
            }
        },
        None => {},
    }
}

proof fn lemma_rfind_single_none(t: Seq<char>, c: char)
    requires
        forall|m: int| 0 <= m < t.len() ==> t[m] != c,
    ensures
        rfind(t, seq![c]) is None,
{
    lemma_rfind_below(t, seq![c], t.len() + 1int);
    match rfind(t, seq![c]) {
        Some(j) => {
            assert(t.subrange(j, j + 1)[0] == t[j]);
        },
        None => {},
    }
}

/// A name that ends in a number after an ASCII space, or after an
/// ideographic space (U+3000) when the name holds no ASCII space, has that
/// number as its trailing number when it is below 500: `アオのハコ　7` and
/// `アオのハコ 7` both give 7.
pub proof fn lemma_trailing_number_after_space(s: Seq<char>, sep: char, d: Seq<char>, v: u32)
    requires
        sep == ' ' || sep == '\u{3000}',
        forall|m: int| 0 <= m < s.len() ==> s[m] != ' ',
        d.len() > 0,
        forall|m: int| 0 <= m < d.len() ==> '0' <= #[trigger] d[m] && d[m] <= '9',
        parse_u32(d) == Some(v),
        v < 500,
    ensures
        trailing_number(s + seq![sep] + d) == Some(v),
{
    let t = s + seq![sep] + d;
    let k = s.len() as int;
    assert(t[k] == sep);
    assert forall|m: int| k < m < t.len() implies t[m] != ' ' && t[m] != '\u{3000}' by {
        assert(t[m] == d[m - k - 1]);
    }
    assert(!is_ws(t.last())) by {
        assert(t.last() == d[d.len() - 1]);
    }
    assert(trim_end(t) == t);
    assert(!is_close_bracket(t.last())) by {
        assert(t.last() == d[d.len() - 1]);
    }
    if sep == ' ' {
        lemma_rfind_single(t, ' ', k);
    } else {
        assert forall|m: int| 0 <= m < t.len() implies t[m] != ' ' by {
            if m < k {
                assert(t[m] == s[m]);
            }
        }
        lemma_rfind_single_none(t, ' ');
        lemma_rfind_single(t, '\u{3000}', k);
    }
    assert(t.skip(k + 1) =~= d);
    assert(last_segment(t) == d);
    assert(!is_open_bracket(d[0]));
    assert(all_digits(d));
    assert(MAX_VOLUME_NUMBER == 500);
}

fn last_segment_exec(t: &[char]) -> (r: Vec<char>)
    ensures
        r@ == last_segment(t@),
        r@.len() <= t@.len(),
        r@ == t@.skip(t@.len() - r@.len()),
{
    let len = t.len();
    let sp: Vec<char> = vec![' '];
    let isp: Vec<char> = vec!['　'];
    proof {
        assert(sp@ =~= seq![' ']);
        assert(isp@ =~= seq!['　']);
        lemma_rfind_below(t@, sp@, t@.len() as int + 1);
        lemma_rfind_below(t@, isp@, t@.len() as int + 1);
    }
    match rfind_exec(t, &sp) {
        Some(i) => {
            proof {
                assert(rfind(t@, sp@) == Some(i as int));
                assert(occurs_at(t@, sp@, i as int));
            }
            let r = slice_of(t, i + 1, t.len());
            proof {
                assert(r@ =~= t@.skip(t@.len() - r@.len()));
            }
            r
        },
        None => match rfind_exec(t, &isp) {
            Some(i) => {
                proof {
                    assert(occurs_at(t@, isp@, i as int));
                }
                let r = slice_of(t, i + 1, t.len());
                proof {
                    assert(r@ =~= t@.skip(t@.len() - r@.len()));
                }
                r
            },
            None => {
                let r = slice_of(t, 0, t.len());
                proof {
                    assert(r@ =~= t@.skip(0));
                }
                r
            },
        },
    }
}

fn all_digits_exec(s: &[char]) -> (r: bool)
    ensures
        r == all_digits(s@),
{
    let k = digit_run_exec(s, 0);
    proof {
        assert(s@.skip(0) =~= s@);
        lemma_digit_run(s@);
    }
    if k == s.len() {
        proof {
            assert(s@.take(k as int) =~= s@);
        }
        true
    } else {
        false
    }
}

fn trailing_number_exec(n: &[char]) -> (r: Option<u32>)
    ensures
        r == trailing_number(n@),
{
    let k = trim_end_len(n);
    let t = slice_of(n, 0, k);
    let inner = if t.len() > 0 && (t[t.len() - 1] == ')' || t[t.len() - 1] == '）') {
        let d = slice_of(&t, 0, t.len() - 1);
        let k2 = trim_end_len(&d);
        slice_of(&d, 0, k2)
    } else {
        t
    };
    let seg = last_segment_exec(&inner);
    let num = if seg.len() > 0 && (seg[0] == '(' || seg[0] == '（') {
        slice_of(&seg, 1, seg.len())
    } else {
        seg
    };
    proof {
        if seg@.len() > 0 && is_open_bracket(seg@[0]) {
            assert(num@ =~= seg@.drop_first());
        }
    }
    if num.len() == 0 || !all_digits_exec(&num) {
        return None;
    }
    match parse_u32_exec(&num) {
        Some(v) => if v < MAX_VOLUME_NUMBER {
            Some(v)
        } else {
            None
        },
        None => None,
    }
}

// ---------------------------------------------------------------------------
// Rule 5: extra keywords
// ---------------------------------------------------------------------------
/// First extra keyword (in priority order, from index `i`) that occurs in `n`.
pub open spec fn extra_from(n: Seq<char>, i: int) -> Option<int>
    decreases 6 - i,
{
    if i < 0 || i >= 6 {
        None
    } else if contains(n, extra_keyword(i)) {
        Some(i)
    } else {
        extra_from(n, i + 1)
    }
}

fn extra_from_exec(n: &[char]) -> (r: Option<usize>)
    ensures
        r matches Some(i) ==> extra_from(n@, 0) == Some(i as int) && i < 6,
        r is None ==> extra_from(n@, 0) is None,
{
    let mut i: usize = 0;
    while i < 6
        invariant
            i <= 6,
            extra_from(n@, 0) == extra_from(n@, i as int),
        decreases 6 - i,
    {
        let kw = extra_keyword_exec(i);
        if contains_exec(n, &kw) {
            return Some(i);
        }
        i += 1;
    }
    None
}

// ---------------------------------------------------------------------------
// parse_volume
// ---------------------------------------------------------------------------
/// The volume key of a folder or archive name. Fixed priority:
/// 第n巻/第n話 > vol(n)/v(n) > 上/中/下 > trailing number < 500 > extra keyword > Unknown.
pub open spec fn volume_key_of(name: Seq<char>) -> KeyView {
    let n = normalized_digits(name);
    match chapter_number(n) {
        Some(v) => KeyView::Number(v),
        None => match vol_number(lower_seq(n)) {
            Some(v) => KeyView::Number(v),
            None => match find_part(n) {
                Some(p) => KeyView::Part(p),
                None => match trailing_number(n) {
                    Some(v) => KeyView::Number(v),
                    None => match extra_from(n, 0) {
                        Some(i) => KeyView::Extra(extra_keyword(i)),
                        None => KeyView::Unknown,
                    },
                },
            },
        },
    }
}

/// Parse a volume key from a folder or archive name (letters compared
/// without regard to ASCII case).
pub fn parse_volume(name: &str) -> (k: VolumeKey)
    ensures
        k@ == volume_key_of(name@),
{
    let raw = chars_of(name);
    parse_volume_chars(&raw)
}

pub fn parse_volume_chars(raw: &[char]) -> (k: VolumeKey)
    ensures
        k@ == volume_key_of(raw@),
{
    let n = normalize_digit_chars(raw);
    if let Some(v) = chapter_number_exec(&n) {
        return VolumeKey::Number(v);
    }
    let low = lower_chars(&n);
    if let Some(v) = find_vol_number(&low) {
        return VolumeKey::Number(v);
    }
    if let Some(p) = find_part_exec(&n) {
        return VolumeKey::Part(p);
    }
    if let Some(v) = trailing_number_exec(&n) {
        return VolumeKey::Number(v);
    }
    if let Some(i) = extra_from_exec(&n) {
        let kw = extra_keyword_exec(i);
        return VolumeKey::Extra { label: string_of(&kw) };
    }
    VolumeKey::Unknown
}


// ---------------------------------------------------------------------------
// strip_volume_token
// ---------------------------------------------------------------------------
/// Step 1: the last `第` is followed by digits and `巻`/`話`: cut there.
pub open spec fn cut_chapter(t: Seq<char>) -> Option<int> {
    match rfind(t, seq!['第']) {
        Some(pos) => {
            let rest = t.skip(pos + 1);
            let d = digit_run(rest) as int;
            if d > 0 && d < rest.len() && is_counter_char(rest[d]) {
                Some(pos)
            } else {
                None
            }
        },
        None => None,
    }
}

/// Step 2: the last `pat` in the lowered name is followed (after spaces and
/// an optional `.`) by digits only: cut there.
pub open spec fn cut_vol(low: Seq<char>, pat: Seq<char>) -> Option<int> {
    match rfind(low, pat) {
        Some(pos) => {
            let a = after_vol_word(low, pos + pat.len());
            let d = digit_run(a) as int;
            if d > 0 && a.len() == d {
                Some(pos)
            } else {
                None
            }
        },
        None => None,
    }
}

/// Step 3: the last `v` in the lowered name is followed by digits only: cut there.
pub open spec fn cut_v(low: Seq<char>) -> Option<int> {
    match rfind(low, seq!['v']) {
        Some(pos) => {
            let a = low.skip(pos + 1);
            let d = digit_run(a) as int;
            if d > 0 && a.len() == d {
                Some(pos)
            } else {
                None
            }
        },
        None => None,
    }
}

/// Step 5: first part suffix (in order) that ends `t`, from index `i`.
pub open spec fn part_suffix_end_from(t: Seq<char>, i: int) -> Option<int>
    decreases 6 - i,
{
    if i < 0 || i >= 6 {
        None
    } else if ends_with(t, part_suffix(i)) {
        Some(t.len() - part_suffix(i).len())
    } else {
        part_suffix_end_from(t, i + 1)
    }
}

/// Step 6: extra keyword `i` ends `t` (up to whitespace) at its last occurrence.
pub open spec fn extra_cut_at(t: Seq<char>, i: int) -> Option<int> {
    match rfind(t, extra_keyword(i)) {
        Some(pos) => if all_ws(t.skip(pos + extra_keyword(i).len())) {
            Some(pos)
        } else {
            None
        },
        None => None,
    }
}

pub open spec fn extra_cut_from(t: Seq<char>, i: int) -> Option<int>
    decreases 6 - i,
{
    if i < 0 || i >= 6 {
        None
    } else {
        match extra_cut_at(t, i) {
            Some(c) => Some(c),
            None => extra_cut_from(t, i + 1),
        }
    }
}

/// Where the trailing volume token of `name` starts (if it has one); `t`
/// is the trimmed, digit-normalised name and `low` its lowered form.
pub open spec fn volume_token_cut(t: Seq<char>, low: Seq<char>) -> Option<int> {
    match cut_chapter(t) {
        Some(c) => Some(c),
        None => match cut_vol(low, volume_word()) {
            Some(c) => Some(c),
            None => match cut_vol(low, vol_word()) {
                Some(c) => Some(c),
                None => match cut_v(low) {
                    Some(c) => Some(c),
                    None => if trailing_number(t) is Some {
                        Some(t.len() - last_segment(t).len())
                    } else {
                        match (if find_part(t) is Some {
                            part_suffix_end_from(t, 0)
                        } else {
                            None
                        }) {
                            Some(c) => Some(c),
                            None => extra_cut_from(t, 0),
                        }
                    },
                },
            },
        },
    }
}

/// The series-ish name left when the trailing volume token is removed.
pub open spec fn stripped_name(name: Seq<char>) -> Seq<char> {
    let n = normalized_digits(name);
    let t = trim_end(n);
    match volume_token_cut(t, lower_seq(n)) {
        Some(c) => trim_end(t.take(c)),
        None => t,
    }
}

proof fn lemma_pattern_within_trimmed(n: Seq<char>, k: int, p: Seq<char>, pos: int)
    requires
        0 <= k <= n.len(),
        all_ws(n.skip(k)),
        occurs_at(lower_seq(n), p, pos),
        p.len() > 0,
        !is_ws(p.last()),
    ensures
        pos + p.len() <= k,
{
    if pos + p.len() > k {
        let idx = pos + p.len() - 1;
        assert(lower_seq(n).subrange(pos, pos + p.len())[p.len() - 1] == lower_seq(n)[idx]);
        assert(n.skip(k)[idx - k] == n[idx]);
        assert(is_ws(n[idx]));
    }
}

fn cut_chapter_exec(t: &[char]) -> (r: Option<usize>)
    ensures
        r matches Some(c) ==> cut_chapter(t@) == Some(c as int) && c <= t@.len(),
        r is None ==> cut_chapter(t@) is None,
{
    let len = t.len();
    let pat: Vec<char> = vec!['第'];
    proof {
        assert(pat@ =~= seq!['第']);
        lemma_rfind_below(t@, pat@, t@.len() as int + 1);
    }
    match rfind_exec(t, &pat) {
        Some(pos) => {
            proof {
                assert(occurs_at(t@, pat@, pos as int));
                assert(t@.skip(pos + 1) =~= t@.skip(pos + 1));
            }
            let d = digit_run_exec(t, pos + 1);
            if d > 0 && pos + 1 + d < len && (t[pos + 1 + d] == '巻' || t[pos + 1 + d] == '話') {
                proof {
                    assert(t@.skip(pos + 1)[d as int] == t@[pos + 1 + d]);
                }
                Some(pos)
            } else {
                proof {
                    if pos + 1 + d < len {
                        assert(t@.skip(pos + 1)[d as int] == t@[pos + 1 + d]);
                    }
                }
                None
            }
        },
        None => None,
    }
}

fn cut_vol_exec(low: &[char], pat: &[char]) -> (r: Option<usize>)
    ensures
        r matches Some(c) ==> cut_vol(low@, pat@) == Some(c as int) && occurs_at(
            low@,
            pat@,
            c as int,
        ),
        r is None ==> cut_vol(low@, pat@) is None,
{
    let len = low.len();
    proof {
        lemma_rfind_below(low@, pat@, low@.len() as int + 1);
    }
    match rfind_exec(low, pat) {
        Some(pos) => {
            proof {
                assert(occurs_at(low@, pat@, pos as int));
                assert(pos + pat@.len() <= len);
            }
            let a = after_vol_word_exec(low, pos + pat.len());
            let d = digit_run_exec(&a, 0);
            proof {
                assert(a@.skip(0) =~= a@);
            }
            if d > 0 && a.len() == d {
                Some(pos)
            } else {
                None
            }
        },
        None => None,
    }
}

fn cut_v_exec(low: &[char]) -> (r: Option<usize>)
    ensures
        r matches Some(c) ==> cut_v(low@) == Some(c as int) && occurs_at(low@, seq!['v'], c as int),
        r is None ==> cut_v(low@) is None,
{
    let len = low.len();
    let pat: Vec<char> = vec!['v'];
    proof {
        assert(pat@ =~= seq!['v']);
        lemma_rfind_below(low@, pat@, low@.len() as int + 1);
    }
    match rfind_exec(low, &pat) {
        Some(pos) => {
            proof {
                assert(occurs_at(low@, pat@, pos as int));
            }
            let d = digit_run_exec(low, pos + 1);
            if d > 0 && pos + 1 + d == len {
                Some(pos)
            } else {
                None
            }
        },
        None => None,
    }
}

fn part_suffix_end_exec(t: &[char]) -> (r: Option<usize>)
    ensures
        r matches Some(c) ==> part_suffix_end_from(t@, 0) == Some(c as int) && c <= t@.len(),
        r is None ==> part_suffix_end_from(t@, 0) is None,
{
    let mut i: usize = 0;
    while i < 6
        invariant
            i <= 6,
            part_suffix_end_from(t@, 0) == part_suffix_end_from(t@, i as int),
        decreases 6 - i,
    {
        let (sfx, _part) = part_suffix_exec(i);
        if ends_with_exec(t, &sfx) {
            return Some(t.len() - sfx.len());
        }
        i += 1;
    }
    None
}

fn extra_cut_exec(t: &[char]) -> (r: Option<usize>)
    ensures
        r matches Some(c) ==> extra_cut_from(t@, 0) == Some(c as int) && c <= t@.len(),
        r is None ==> extra_cut_from(t@, 0) is None,
{
    let len = t.len();
    let mut i: usize = 0;
    while i < 6
        invariant
            i <= 6,
            len == t@.len(),
            extra_cut_from(t@, 0) == extra_cut_from(t@, i as int),
        decreases 6 - i,
    {
        let kw = extra_keyword_exec(i);
        proof {
            lemma_rfind_below(t@, kw@, t@.len() as int + 1);
        }
        match rfind_exec(t, &kw) {
            Some(pos) => {
                proof {
                    assert(occurs_at(t@, kw@, pos as int));
                }
                let after = slice_of(t, pos + kw.len(), len);
                proof {
                    assert(after@ =~= t@.skip(pos + kw@.len()));
                }
                if all_ws_exec(&after) {
                    return Some(pos);
                }
            },
            None => {},
        }
        i += 1;
    }
    None
}

/// Strip a trailing volume token from a series-ish name.
///
/// Examples: `アオのハコ 7` -> `アオのハコ`, `foo v01` -> `foo`,
/// `foo 第1巻` -> `foo`, `foo 外伝` -> `foo`.
pub fn strip_volume_token(name: &str) -> (r: String)
    ensures
        r@ == stripped_name(name@),
{
    let raw = chars_of(name);
    let out = strip_volume_token_chars(&raw);
    string_of(&out)
}

pub fn strip_volume_token_chars(raw: &[char]) -> (r: Vec<char>)
    ensures
        r@ == stripped_name(raw@),
{
    let n = normalize_digit_chars(raw);
    let k = trim_end_len(&n);
    let t = slice_of(&n, 0, k);
    let low = lower_chars(&n);
    let ghost cut = volume_token_cut(t@, low@);
    let c: Option<usize> = match cut_chapter_exec(&t) {
        Some(c) => Some(c),
        None => {
            let w1: Vec<char> = vec!['v', 'o', 'l', 'u', 'm', 'e'];
            match cut_vol_exec(&low, &w1) {
                Some(c) => {
                    proof {
                        lemma_pattern_within_trimmed(n@, k as int, w1@, c as int);
                    }
                    Some(c)
                },
                None => {
                    let w2: Vec<char> = vec!['v', 'o', 'l'];
                    match cut_vol_exec(&low, &w2) {
                        Some(c) => {
                            proof {
                                lemma_pattern_within_trimmed(n@, k as int, w2@, c as int);
                            }
                            Some(c)
                        },
                        None => match cut_v_exec(&low) {
                            Some(c) => {
                                proof {
                                    lemma_pattern_within_trimmed(n@, k as int, seq!['v'], c as int);
                                }
                                Some(c)
                            },
                            None => {
                                if trailing_number_exec(&t).is_some() {
                                    let seg = last_segment_exec(&t);
                                    Some(t.len() - seg.len())
                                } else {
                                    let p = if find_part_exec(&t).is_some() {
                                        part_suffix_end_exec(&t)
                                    } else {
                                        None
                                    };
                                    match p {
                                        Some(c) => Some(c),
                                        None => extra_cut_exec(&t),
                                    }
                                }
                            },
                        },
                    }
                },
            }
        },
    };
    proof {
        assert(trim_end(t@) == t@) by {
            assert(t@ =~= n@.take(k as int));
        }
    }
    match c {
        Some(c) => {
            proof {
                assert(cut == Some(c as int));
            }
            let head = slice_of(&t, 0, c);
            let e = trim_end_len(&head);
            slice_of(&head, 0, e)
        },
        None => t,
    }
}

// ---------------------------------------------------------------------------
// Longest common prefix
// ---------------------------------------------------------------------------
/// Longest common prefix of two texts.
pub open spec fn lcp2(a: Seq<char>, b: Seq<char>) -> Seq<char>
    decreases a.len(),
{
    if a.len() > 0 && b.len() > 0 && a[0] == b[0] {
        seq![a[0]] + lcp2(a.drop_first(), b.drop_first())
    } else {
        seq![]
    }
}

/// Longest common prefix of all `names` (empty for no names).
pub open spec fn common_prefix(names: Seq<Seq<char>>) -> Seq<char>
    decreases names.len(),
{
    if names.len() == 0 {
        seq![]
    } else if names.len() == 1 {
        names[0]
    } else {
        lcp2(common_prefix(names.drop_last()), names.last())
    }
}

pub open spec fn is_prefix(p: Seq<char>, s: Seq<char>) -> bool {
    p.len() <= s.len() && s.take(p.len() as int) == p
}

proof fn lemma_lcp2_take(a: Seq<char>, b: Seq<char>, m: int)
    requires
        0 <= m <= a.len(),
        m <= b.len(),
        a.take(m) == b.take(m),
        m == a.len() || m == b.len() || a[m] != b[m],
    ensures
        lcp2(a, b) == a.take(m),
    decreases a.len(),
{
    if m > 0 {
        assert(a.take(m)[0] == a[0]);
        assert(b.take(m)[0] == b[0]);
        assert forall|i: int| 0 <= i < m - 1 implies a.drop_first()[i] == #[trigger] b.drop_first()[i] by {
            assert(a.take(m)[i + 1] == a[i + 1]);
            assert(b.take(m)[i + 1] == b[i + 1]);
            assert(a.drop_first()[i] == a[i + 1]);
            assert(b.drop_first()[i] == b[i + 1]);
        }
        assert(a.drop_first().take(m - 1) =~= b.drop_first().take(m - 1));
        if m < a.len() && m < b.len() {
            assert(a.drop_first()[m - 1] == a[m]);
            assert(b.drop_first()[m - 1] == b[m]);
        }
        lemma_lcp2_take(a.drop_first(), b.drop_first(), m - 1);
        assert(a[0] == b[0]);
        assert(lcp2(a, b) == seq![a[0]] + lcp2(a.drop_first(), b.drop_first()));
        assert(a.take(m) =~= seq![a[0]] + a.drop_first().take(m - 1));
    } else {
        assert(lcp2(a, b) =~= Seq::<char>::empty());
        assert(a.take(0) =~= Seq::<char>::empty());
    }
}

/// The longest common prefix of two texts is a prefix of both, and every
/// common prefix of both is a prefix of it.
pub proof fn lemma_lcp2_is_longest(a: Seq<char>, b: Seq<char>)
    ensures
        is_prefix(lcp2(a, b), a),
        is_prefix(lcp2(a, b), b),
        forall|p: Seq<char>| is_prefix(p, a) && is_prefix(p, b) ==> is_prefix(p, lcp2(a, b)),
    decreases a.len(),
{
    if a.len() > 0 && b.len() > 0 && a[0] == b[0] {
        lemma_lcp2_is_longest(a.drop_first(), b.drop_first());
        let r = lcp2(a.drop_first(), b.drop_first());
        assert(a.take(r.len() as int + 1) =~= seq![a[0]] + a.drop_first().take(r.len() as int));
        assert(b.take(r.len() as int + 1) =~= seq![b[0]] + b.drop_first().take(r.len() as int));
        assert forall|p: Seq<char>| is_prefix(p, a) && is_prefix(p, b) implies is_prefix(
            p,
            lcp2(a, b),
        ) by {
            if p.len() > 0 {
                let q = p.drop_first();
                assert(a.drop_first().take(q.len() as int) =~= a.take(p.len() as int).drop_first());
                assert(b.drop_first().take(q.len() as int) =~= b.take(p.len() as int).drop_first());
                assert(is_prefix(q, a.drop_first()));
                assert(is_prefix(q, b.drop_first()));
                assert(is_prefix(q, r));
                assert(p[0] == a[0]) by {
                    assert(a.take(p.len() as int)[0] == a[0]);
                }
                assert(lcp2(a, b).take(p.len() as int) =~= seq![a[0]] + r.take(q.len() as int));
                assert(p =~= seq![p[0]] + q);
            } else {
                assert(lcp2(a, b).take(0) =~= p);
            }
        }
    } else {
        assert(a.take(0) =~= Seq::<char>::empty());
        assert(b.take(0) =~= Seq::<char>::empty());
        assert forall|p: Seq<char>| is_prefix(p, a) && is_prefix(p, b) implies is_prefix(
            p,
            lcp2(a, b),
        ) by {
            if p.len() > 0 {
                assert(a.take(p.len() as int)[0] == p[0]);
                assert(b.take(p.len() as int)[0] == p[0]);
            }
            assert(lcp2(a, b).take(0) =~= p);
        }
    }
}

/// Law: the common prefix of a list of names is a prefix of every name, and
/// every text that is a prefix of all the names is a prefix of it.
pub proof fn lemma_common_prefix_is_longest(names: Seq<Seq<char>>)
    requires
        names.len() > 0,
    ensures
        forall|i: int| 0 <= i < names.len() ==> is_prefix(common_prefix(names), #[trigger] names[i]),
        forall|p: Seq<char>|
            (forall|i: int| 0 <= i < names.len() ==> is_prefix(p, #[trigger] names[i])) ==> is_prefix(
                p,
                common_prefix(names),
            ),
    decreases names.len(),
{
    if names.len() == 1 {
        assert(names[0].take(names[0].len() as int) =~= names[0]);
        assert forall|p: Seq<char>|
            (forall|i: int| 0 <= i < names.len() ==> is_prefix(p, #[trigger] names[i])) implies is_prefix(
                p,
                common_prefix(names),
            ) by {
            assert(is_prefix(p, names[0]));
        }
    } else {
        let init = names.drop_last();
        lemma_common_prefix_is_longest(init);
        let c = common_prefix(init);
        lemma_lcp2_is_longest(c, names.last());
        let r = lcp2(c, names.last());
        assert forall|i: int| 0 <= i < names.len() implies is_prefix(r, #[trigger] names[i]) by {
            if i < names.len() - 1 {
                assert(names[i] == init[i]);
                assert(is_prefix(c, init[i]));
                assert(names[i].take(r.len() as int) =~= c.take(r.len() as int));
            }
        }
        assert forall|p: Seq<char>|
            (forall|i: int| 0 <= i < names.len() ==> is_prefix(p, #[trigger] names[i])) implies is_prefix(
                p,
                common_prefix(names),
            ) by {
            assert forall|i: int| 0 <= i < init.len() implies is_prefix(p, #[trigger] init[i]) by {
                assert(init[i] == names[i]);
            }
            assert(is_prefix(p, names[names.len() - 1]));
        }
    }
}

/// Law: the common prefix depends only on which names are given, not on
/// their order or on how often each is given.
pub proof fn lemma_common_prefix_ignores_order(a: Seq<Seq<char>>, b: Seq<Seq<char>>)
    requires
        forall|x: Seq<char>| a.contains(x) <==> b.contains(x),
    ensures
        common_prefix(a) == common_prefix(b),
{
    if a.len() == 0 || b.len() == 0 {
        if a.len() > 0 {
            assert(a.contains(a[0]));
        }
        if b.len() > 0 {
            assert(b.contains(b[0]));
        }
    } else {
        lemma_common_prefix_is_longest(a);
        lemma_common_prefix_is_longest(b);
        let ca = common_prefix(a);
        let cb = common_prefix(b);
        assert forall|j: int| 0 <= j < b.len() implies is_prefix(ca, #[trigger] b[j]) by {
            assert(b.contains(b[j]));
            let i = choose|i: int| 0 <= i < a.len() && a[i] == b[j];
            assert(is_prefix(ca, a[i]));
        }
        assert forall|i: int| 0 <= i < a.len() implies is_prefix(cb, #[trigger] a[i]) by {
            assert(a.contains(a[i]));
            let j = choose|j: int| 0 <= j < b.len() && b[j] == a[i];
            assert(is_prefix(cb, b[j]));
        }
        assert(is_prefix(ca, cb));
        assert(is_prefix(cb, ca));
        assert(cb.take(cb.len() as int) =~= cb);
    }
}

/// Longest common prefix of `a` and `b`.
fn lcp2_exec(a: &[char], b: &[char]) -> (r: Vec<char>)
    ensures
        r@ == lcp2(a@, b@),
{
    let mut m: usize = 0;
    while m < a.len() && m < b.len() && a[m] == b[m]
        invariant
            m <= a@.len(),
            m <= b@.len(),
            a@.take(m as int) == b@.take(m as int),
        decreases a.len() - m,
    {
        proof {
            assert(a@.take(m + 1) =~= a@.take(m as int).push(a@[m as int]));
            assert(b@.take(m + 1) =~= b@.take(m as int).push(b@[m as int]));
        }
        m += 1;
    }
    proof {
        lemma_lcp2_take(a@, b@, m as int);
    }
    slice_of(a, 0, m)
}

pub open spec fn views_of(names: Seq<&str>) -> Seq<Seq<char>> {
    Seq::new(names.len(), |i: int| names[i]@)
}

/// Longest common prefix of the given strings (empty when there are none).
pub fn longest_common_prefix(names: &[&str]) -> (r: String)
    ensures
        r@ == common_prefix(views_of(names@)),
{
    if names.len() == 0 {
        return String::new();
    }
    let ghost all = views_of(names@);
    let mut prefix = chars_of(names[0]);
    let mut i: usize = 1;
    proof {
        assert(all.take(1).drop_last().len() == 0);
    }
    while i < names.len()
        invariant
            1 <= i <= names@.len(),
            all == views_of(names@),
            prefix@ == common_prefix(all.take(i as int)),
        decreases names.len() - i,
    {
        let s = chars_of(names[i]);
        prefix = lcp2_exec(&prefix, &s);
        i += 1;
        proof {
            assert(all.take(i as int).drop_last() =~= all.take(i - 1));
        }
    }
    proof {
        assert(all.take(names.len() as int) =~= all);
    }
    string_of(&prefix)
}


// ---------------------------------------------------------------------------
// Output file names
// ---------------------------------------------------------------------------
pub open spec fn cbz_suffix() -> Seq<char> {
    seq!['.', 'c', 'b', 'z']
}

/// Output file name for a volume: `{series} v{nn}.cbz`,
/// `{series} extra-{label}.cbz`, or the sanitised raw name for unknown volumes.
pub open spec fn volume_file_name_of(series: Seq<char>, key: KeyView, raw: Seq<char>) -> Seq<char> {
    match key {
        KeyView::Number(n) => sanitized(series) + seq![' ', 'v'] + fmt_pad2(n as nat) + cbz_suffix(),
        KeyView::Part(p) => sanitized(series) + seq![' ', 'v'] + fmt_pad2(p.spec_number() as nat)
            + cbz_suffix(),
        KeyView::Extra(label) => sanitized(series) + seq![' ', 'e', 'x', 't', 'r', 'a', '-']
            + sanitized(label) + cbz_suffix(),
        KeyView::Unknown => sanitized(raw) + cbz_suffix(),
    }
}

/// The volumes 上, 中 and 下 of a series are named `{series} v01.cbz`,
/// `{series} v02.cbz` and `{series} v03.cbz` (series made safe as a file
/// name), whatever their raw names; so the three never share a file name.
pub proof fn lemma_part_file_names(series: Seq<char>, raw1: Seq<char>, raw2: Seq<char>, raw3: Seq<char>)
    ensures
        volume_file_name_of(series, KeyView::Part(Part::First), raw1) == sanitized(series) + " v01.cbz"@,
        volume_file_name_of(series, KeyView::Part(Part::Second), raw2) == sanitized(series) + " v02.cbz"@,
        volume_file_name_of(series, KeyView::Part(Part::Third), raw3) == sanitized(series) + " v03.cbz"@,
        volume_file_name_of(series, KeyView::Part(Part::First), raw1) != volume_file_name_of(
            series,
            KeyView::Part(Part::Second),
            raw2,
        ),
        volume_file_name_of(series, KeyView::Part(Part::Second), raw2) != volume_file_name_of(
            series,
            KeyView::Part(Part::Third),
            raw3,
        ),
        volume_file_name_of(series, KeyView::Part(Part::First), raw1) != volume_file_name_of(
            series,
            KeyView::Part(Part::Third),
            raw3,
        ),
{
    reveal_strlit(" v01.cbz");
    reveal_strlit(" v02.cbz");
    reveal_strlit(" v03.cbz");
    let p = sanitized(series);
    let a = volume_file_name_of(series, KeyView::Part(Part::First), raw1);
    let b = volume_file_name_of(series, KeyView::Part(Part::Second), raw2);
    let c = volume_file_name_of(series, KeyView::Part(Part::Third), raw3);
    assert(a =~= p + " v01.cbz"@);
    assert(b =~= p + " v02.cbz"@);
    assert(c =~= p + " v03.cbz"@);
    assert(a[p.len() + 3int] == '1');
    assert(b[p.len() + 3int] == '2');
    assert(c[p.len() + 3int] == '3');
}

/// Output filename for a volume: `{series} v{nn}.cbz`, `{series} extra-{label}.cbz`,
/// or the sanitized raw name for unknown volumes.
pub fn volume_file_name(series: &str, key: &VolumeKey, raw_name: &str) -> (r: String)
    ensures
        r@ == volume_file_name_of(series@, key@, raw_name@),
{
    let s = chars_of(series);
    let r = volume_file_name_chars(&s, key, &chars_of(raw_name));
    string_of(&r)
}

pub fn volume_file_name_chars(series: &[char], key: &VolumeKey, raw: &[char]) -> (r: Vec<char>)
    ensures
        r@ == volume_file_name_of(series@, key@, raw@),
{
    let cbz: Vec<char> = vec!['.', 'c', 'b', 'z'];
    match key {
        VolumeKey::Number(n) => {
            let mut out = sanitize_chars(series);
            out.push(' ');
            out.push('v');
            push_pad2(&mut out, *n as u64);
            push_all(&mut out, &cbz);
            proof {
                assert(out@ =~= volume_file_name_of(series@, key@, raw@));
            }
            out
        },
        VolumeKey::Part(p) => {
            let mut out = sanitize_chars(series);
            out.push(' ');
            out.push('v');
            push_pad2(&mut out, p.number() as u64);
            push_all(&mut out, &cbz);
            proof {
                assert(out@ =~= volume_file_name_of(series@, key@, raw@));
            }
            out
        },
        VolumeKey::Extra { label } => {
            let mut out = sanitize_chars(series);
            let extra: Vec<char> = vec![' ', 'e', 'x', 't', 'r', 'a', '-'];
            push_all(&mut out, &extra);
            let l = sanitize_chars(&chars_of(label.as_str()));
            push_all(&mut out, &l);
            push_all(&mut out, &cbz);
            proof {
                assert(out@ =~= volume_file_name_of(series@, key@, raw@));
            }
            out
        },
        VolumeKey::Unknown => {
            let mut out = sanitize_chars(raw);
            push_all(&mut out, &cbz);
            out
        },
    }
}

} // verus!
