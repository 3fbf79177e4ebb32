//! Path rules (Unix paths, `/`-separated): components, lexical cleaning,
//! joining archive entry names under a directory without escaping it, output
//! file names of converted archives and numbered alternatives to taken names.
use vstd::prelude::*;

use crate::error::ConvertError;
use crate::text::{
    char_views, chars_of, control, debug_str, debug_text, is_control, lemma_char_views_push,
    push_all, slice_of, split_acc, split_exec, split_on, str_views, string_of,
};

verus! {

/// Characters that are replaced by a space in output file names.
pub open spec fn is_reserved_name_char(c: char) -> bool {
    c == '/' || c == '\\' || c == ':' || c == '*' || c == '?' || c == '"' || c == '<' || c == '>'
        || c == '|'
}

/// Name with reserved characters turned into spaces and control characters removed.
pub open spec fn sanitize_map(s: Seq<char>) -> Seq<char>
    decreases s.len(),
{
    if s.len() == 0 {
        s
    } else {
        let c = s.last();
        let head = sanitize_map(s.drop_last());
        if is_reserved_name_char(c) {
            head.push(' ')
        } else if is_control(c) {
            head
        } else {
            head.push(c)
        }
    }
}

/// `s` without its trailing run of `.` and ` ` characters.
pub open spec fn trim_end_dot_space(s: Seq<char>) -> Seq<char>
    decreases s.len(),
{
    if s.len() > 0 && (s.last() == '.' || s.last() == ' ') {
        trim_end_dot_space(s.drop_last())
    } else {
        s
    }
}

/// What `sanitize_filename` returns for `s`.
pub open spec fn sanitized(s: Seq<char>) -> Seq<char> {
    trim_end_dot_space(sanitize_map(s))
}

/// A character that sanitizing keeps as it is.
pub open spec fn name_safe(c: char) -> bool {
    !is_reserved_name_char(c) && !is_control(c)
}

proof fn lemma_sanitize_map_safe(s: Seq<char>)
    ensures
        forall|i: int| 0 <= i < sanitize_map(s).len() ==> name_safe(#[trigger] sanitize_map(s)[i]),
    decreases s.len(),
{
    if s.len() > 0 {
        lemma_sanitize_map_safe(s.drop_last());
        let h = sanitize_map(s.drop_last());
        assert(' ' as u32 == 0x20);
        assert forall|i: int| 0 <= i < sanitize_map(s).len() implies name_safe(
            #[trigger] sanitize_map(s)[i],
        ) by {
            if i < h.len() {
                assert(sanitize_map(s)[i] == h[i]);
            }
        }
    }
}

proof fn lemma_sanitize_map_keeps_safe(u: Seq<char>)
    requires
        forall|i: int| 0 <= i < u.len() ==> name_safe(#[trigger] u[i]),
    ensures
        sanitize_map(u) == u,
    decreases u.len(),
{
    if u.len() > 0 {
        assert(name_safe(u[u.len() - 1]));
        lemma_sanitize_map_keeps_safe(u.drop_last());
        assert(u.drop_last().push(u.last()) =~= u);
    }
}

proof fn lemma_trim_end_dot_space(x: Seq<char>)
    ensures
        trim_end_dot_space(x).len() <= x.len(),
        trim_end_dot_space(x) == x.take(trim_end_dot_space(x).len() as int),
        trim_end_dot_space(x).len() == 0 || (trim_end_dot_space(x).last() != '.'
            && trim_end_dot_space(x).last() != ' '),
    decreases x.len(),
{
    if x.len() > 0 && (x.last() == '.' || x.last() == ' ') {
        lemma_trim_end_dot_space(x.drop_last());
        let t = trim_end_dot_space(x.drop_last());
        assert(x.drop_last().take(t.len() as int) =~= x.take(t.len() as int));
    } else {
        assert(x.take(x.len() as int) =~= x);
    }
}

/// Sanitizing a sanitized name changes nothing: the result holds no reserved
/// or control character and does not end in `.` or ` `.
pub proof fn lemma_sanitized_is_stable(s: Seq<char>)
    ensures
        sanitized(sanitized(s)) == sanitized(s),
        forall|i: int| 0 <= i < sanitized(s).len() ==> name_safe(#[trigger] sanitized(s)[i]),
        sanitized(s).len() == 0 || (sanitized(s).last() != '.' && sanitized(s).last() != ' '),
{
    let t = sanitize_map(s);
    lemma_sanitize_map_safe(s);
    lemma_trim_end_dot_space(t);
    let r = trim_end_dot_space(t);
    assert forall|i: int| 0 <= i < r.len() implies name_safe(#[trigger] r[i]) by {
        assert(r[i] == t.take(r.len() as int)[i]);
        assert(t.take(r.len() as int)[i] == t[i]);
    }
    lemma_sanitize_map_keeps_safe(r);
}

/// Sanitizing turns each of the nine characters `/ \ : * ? " < > |` into a
/// space, drops control characters (U+0000..U+001F, U+007F..U+009F) and keeps
/// every other character: for a name without control characters, the
/// sanitized name is a prefix of the name with those nine characters made
/// spaces, and nothing but dots and spaces is cut from its end.  No
/// character of a sanitized name is one of the nine or a control character.
pub proof fn lemma_sanitize_replaces_reserved(s: Seq<char>)
    ensures
        forall|i: int|
            0 <= i < sanitized(s).len() ==> {
                let c = #[trigger] sanitized(s)[i];
                &&& c != '/' && c != '\\' && c != ':' && c != '*' && c != '?'
                &&& c != '"' && c != '<' && c != '>' && c != '|'
                &&& (c as u32) > 0x1F
                &&& !(0x7F <= (c as u32) && (c as u32) <= 0x9F)
            },
        (forall|i: int|
            0 <= i < s.len() ==> (#[trigger] s[i] as u32) > 0x1F && !(0x7F <= (s[i] as u32) && (
            s[i] as u32) <= 0x9F)) ==> {
            let m = Seq::new(
                s.len(),
                |i: int|
                    if s[i] == '/' || s[i] == '\\' || s[i] == ':' || s[i] == '*' || s[i] == '?'
                        || s[i] == '"' || s[i] == '<' || s[i] == '>' || s[i] == '|' {
                        ' '
                    } else {
                        s[i]
                    },
            );
            &&& sanitized(s).len() <= m.len()
            &&& sanitized(s) == m.take(sanitized(s).len() as int)
            &&& forall|j: int|
                sanitized(s).len() <= j < m.len() ==> (#[trigger] m[j] == '.' || m[j] == ' ')
        },
{
    lemma_sanitized_is_stable(s);
    assert forall|i: int| 0 <= i < sanitized(s).len() implies {
        let c = #[trigger] sanitized(s)[i];
        &&& c != '/' && c != '\\' && c != ':' && c != '*' && c != '?'
        &&& c != '"' && c != '<' && c != '>' && c != '|'
        &&& (c as u32) > 0x1F
        &&& !(0x7F <= (c as u32) && (c as u32) <= 0x9F)
    } by {
        assert(name_safe(sanitized(s)[i]));
    }
    if forall|i: int|
        0 <= i < s.len() ==> (#[trigger] s[i] as u32) > 0x1F && !(0x7F <= (s[i] as u32) && (
        s[i] as u32) <= 0x9F) {
        let m = Seq::new(
            s.len(),
            |i: int|
                if s[i] == '/' || s[i] == '\\' || s[i] == ':' || s[i] == '*' || s[i] == '?'
                    || s[i] == '"' || s[i] == '<' || s[i] == '>' || s[i] == '|' {
                    ' '
                } else {
                    s[i]
                },
        );
        lemma_sanitize_map_no_control(s);
        assert(sanitize_map(s) =~= m);
        lemma_trim_end_dot_space(m);
        lemma_trim_end_cut(m);
    }
}

proof fn lemma_sanitize_map_no_control(s: Seq<char>)
    requires
        forall|i: int|
            0 <= i < s.len() ==> (#[trigger] s[i] as u32) > 0x1F && !(0x7F <= (s[i] as u32) && (
            s[i] as u32) <= 0x9F),
    ensures
        sanitize_map(s).len() == s.len(),
        forall|i: int|
            0 <= i < s.len() ==> #[trigger] sanitize_map(s)[i] == if s[i] == '/' || s[i] == '\\'
                || s[i] == ':' || s[i] == '*' || s[i] == '?' || s[i] == '"' || s[i] == '<' || s[i]
                == '>' || s[i] == '|' {
                ' '
            } else {
                s[i]
            },
    decreases s.len(),
{
    if s.len() > 0 {
        let h = s.drop_last();
        assert forall|i: int|
            0 <= i < h.len() implies (#[trigger] h[i] as u32) > 0x1F && !(0x7F <= (h[i] as u32) && (
            h[i] as u32) <= 0x9F) by {
            assert(h[i] == s[i]);
        }
        lemma_sanitize_map_no_control(h);
        let c = s[s.len() - 1];
        assert(!is_control(c));
        assert forall|i: int| 0 <= i < s.len() implies #[trigger] sanitize_map(s)[i] == if s[i]
            == '/' || s[i] == '\\' || s[i] == ':' || s[i] == '*' || s[i] == '?' || s[i] == '"'
            || s[i] == '<' || s[i] == '>' || s[i] == '|' {
            ' '
        } else {
            s[i]
        } by {
            if i < h.len() {
                assert(h[i] == s[i]);
                assert(sanitize_map(s)[i] == sanitize_map(h)[i]);
            }
        }
    }
}

proof fn lemma_trim_end_cut(x: Seq<char>)
    ensures
        forall|j: int|
            trim_end_dot_space(x).len() <= j < x.len() ==> (#[trigger] x[j] == '.' || x[j] == ' '),
    decreases x.len(),
{
    if x.len() > 0 && (x.last() == '.' || x.last() == ' ') {
        lemma_trim_end_cut(x.drop_last());
        assert forall|j: int|
            trim_end_dot_space(x).len() <= j < x.len() implies (#[trigger] x[j] == '.' || x[j]
            == ' ') by {
            if j < x.len() - 1 {
                assert(x[j] == x.drop_last()[j]);
            }
        }
    }
}

pub fn reserved_name_char(c: char) -> (r: bool)
    ensures
        r == is_reserved_name_char(c),
{
    c == '/' || c == '\\' || c == ':' || c == '*' || c == '?' || c == '"' || c == '<' || c == '>'
        || c == '|'
}

pub fn sanitize_chars(s: &[char]) -> (r: Vec<char>)
    ensures
        r@ == sanitized(s@),
{
    let mut out: Vec<char> = Vec::new();
    let mut i: usize = 0;
    while i < s.len()
        invariant
            i <= s.len(),
            out@ == sanitize_map(s@.take(i as int)),
        decreases s.len() - i,
    {
        let c = s[i];
        proof {
            assert(s@.take(i + 1).drop_last() =~= s@.take(i as int));
        }
        if reserved_name_char(c) {
            out.push(' ');
        } else if !control(c) {
            out.push(c);
        }
        i += 1;
    }
    proof {
        assert(s@.take(s.len() as int) =~= s@);
    }
    let mut k: usize = out.len();
    proof {
        assert(out@.take(k as int) =~= out@);
    }
    while k > 0 && (out[k - 1] == '.' || out[k - 1] == ' ')
        invariant
            k <= out@.len(),
            trim_end_dot_space(out@) == trim_end_dot_space(out@.take(k as int)),
        decreases k,
    {
        proof {
            assert(out@.take(k as int).drop_last() =~= out@.take(k - 1));
        }
        k -= 1;
    }
    slice_of(&out, 0, k)
}

/// Replaces `/ \ : * ? " < > |` with spaces, drops control characters and
/// trims trailing dots and spaces, so the result is usable as a file name.
pub fn sanitize_filename(s: &str) -> (r: String)
    ensures
        r@ == sanitized(s@),
{
    let v = chars_of(s);
    let r = sanitize_chars(&v);
    string_of(&r)
}


// ---------------------------------------------------------------------------
// Components
// ---------------------------------------------------------------------------
/// The root component, `/`.
pub open spec fn root_comp() -> Seq<char> {
    seq!['/']
}

/// The current-directory component, `.`.
pub open spec fn cur_comp() -> Seq<char> {
    seq!['.']
}

/// The parent-directory component, `..`.
pub open spec fn parent_comp() -> Seq<char> {
    seq!['.', '.']
}

/// The segments that name something: neither empty nor `.`.
pub open spec fn keep_segs(ss: Seq<Seq<char>>) -> Seq<Seq<char>>
    decreases ss.len(),
{
    if ss.len() == 0 {
        Seq::empty()
    } else {
        let r = keep_segs(ss.drop_last());
        let x = ss.last();
        if x.len() == 0 || x == cur_comp() {
            r
        } else {
            r.push(x)
        }
    }
}

/// Component before the named segments: `/` for an absolute path, `.` for
/// a relative path whose first segment is `.`.
pub open spec fn lead_comp(p: Seq<char>) -> Seq<Seq<char>> {
    if p.len() > 0 && p[0] == '/' {
        seq![root_comp()]
    } else if split_on(p, '/')[0] == cur_comp() {
        seq![cur_comp()]
    } else {
        Seq::empty()
    }
}

/// Components of a path (`Path::components`): `/`, `.` and `..` stand for the
/// root, current and parent directory.
pub open spec fn path_comps(p: Seq<char>) -> Seq<Seq<char>> {
    lead_comp(p) + keep_segs(split_on(p, '/'))
}

fn keep_segs_exec(ss: &Vec<Vec<char>>) -> (r: Vec<Vec<char>>)
    ensures
        char_views(r@) == keep_segs(char_views(ss@)),
{
    let mut r: Vec<Vec<char>> = Vec::new();
    let mut i: usize = 0;
    while i < ss.len()
        invariant
            i <= ss@.len(),
            char_views(r@) == keep_segs(char_views(ss@).take(i as int)),
        decreases ss.len() - i,
    {
        proof {
            assert(char_views(ss@).take(i + 1).drop_last() =~= char_views(ss@).take(i as int));
        }
        let x = &ss[i];
        if !(x.len() == 0 || (x.len() == 1 && x[0] == '.')) {
            let c = slice_of(x, 0, x.len());
            proof {
                assert(c@ =~= x@);
                lemma_char_views_push(r@, c);
            }
            r.push(c);
        } else {
            proof {
                if x.len() == 1 {
                    assert(x@ =~= cur_comp());
                }
            }
        }
        i += 1;
    }
    proof {
        assert(char_views(ss@).take(ss@.len() as int) =~= char_views(ss@));
    }
    r
}

/// The components of `p`.
pub fn components(p: &[char]) -> (r: Vec<Vec<char>>)
    ensures
        char_views(r@) == path_comps(p@),
{
    let segs = split_exec(p, '/');
    let kept = keep_segs_exec(&segs);
    let mut r: Vec<Vec<char>> = Vec::new();
    proof {
        lemma_split_nonempty(p@, '/');
        assert(char_views(segs@)[0] == segs@[0]@);
    }
    if p.len() > 0 && p[0] == '/' {
        let x = vec!['/'];
        proof {
            assert(x@ =~= seq!['/']);
            assert(r@.push(x) =~= seq![x]);
            lemma_char_views_push(r@, x);
            assert(char_views(r@.push(x)) =~= lead_comp(p@));
        }
        r.push(x);
    } else if segs.len() > 0 && segs[0].len() == 1 && segs[0][0] == '.' {
        let x = vec!['.'];
        proof {
            assert(x@ =~= seq!['.']);
            assert(r@.push(x) =~= seq![x]);
            assert(segs@[0]@ =~= cur_comp());
            lemma_char_views_push(r@, x);
            assert(char_views(r@.push(x)) =~= lead_comp(p@));
        }
        r.push(x);
    } else {
        proof {
            if segs@[0]@ == cur_comp() {
                assert(segs@[0]@.len() == 1 && segs@[0]@[0] == '.');
            }
            assert(char_views(r@) =~= lead_comp(p@));
        }
    }
    let ghost lead = r@;
    let mut i: usize = 0;
    while i < kept.len()
        invariant
            i <= kept@.len(),
            char_views(r@) == lead_comp(p@) + char_views(kept@).take(i as int),
        decreases kept.len() - i,
    {
        let c = slice_of(&kept[i], 0, kept[i].len());
        proof {
            assert(c@ =~= kept@[i as int]@);
            lemma_char_views_push(r@, c);
            assert(char_views(kept@).take(i + 1) =~= char_views(kept@).take(i as int).push(c@));
        }
        r.push(c);
        i += 1;
    }
    proof {
        assert(char_views(kept@).take(kept@.len() as int) =~= char_views(kept@));
    }
    r
}

pub proof fn lemma_split_nonempty(s: Seq<char>, sep: char)
    ensures
        split_on(s, sep).len() >= 1,
{
}

// ---------------------------------------------------------------------------
// Lexical cleaning
// ---------------------------------------------------------------------------
/// One component of lexical cleaning: `.` is dropped, `..` removes the last
/// named component (never the root), anything else is appended.
pub open spec fn lex_step(acc: Seq<Seq<char>>, c: Seq<char>) -> Seq<Seq<char>> {
    if c == cur_comp() {
        acc
    } else if c == parent_comp() {
        if acc.len() > 0 && acc.last() != root_comp() {
            acc.drop_last()
        } else {
            acc
        }
    } else {
        acc.push(c)
    }
}

pub open spec fn lex(cs: Seq<Seq<char>>) -> Seq<Seq<char>>
    decreases cs.len(),
{
    if cs.len() == 0 {
        Seq::empty()
    } else {
        lex_step(lex(cs.drop_last()), cs.last())
    }
}

/// Components joined by `/`.
pub open spec fn join_slash(cs: Seq<Seq<char>>) -> Seq<char>
    decreases cs.len(),
{
    if cs.len() == 0 {
        Seq::empty()
    } else if cs.len() == 1 {
        cs[0]
    } else {
        join_slash(cs.drop_last()) + seq!['/'] + cs.last()
    }
}

/// The path made of the components `cs` (as `PathBuf::push` builds it).
pub open spec fn render(cs: Seq<Seq<char>>) -> Seq<char> {
    if cs.len() > 0 && cs[0] == root_comp() {
        seq!['/'] + join_slash(cs.drop_first())
    } else {
        join_slash(cs)
    }
}

/// `p` with `.` components dropped and `..` resolved against what precedes it.
pub open spec fn lexicleaned(p: Seq<char>) -> Seq<char> {
    render(lex(path_comps(p)))
}

fn is_comp(c: &Vec<char>, a: char, b: Option<char>) -> (r: bool)
    ensures
        r == match b {
            Some(bb) => c@ == seq![a, bb],
            None => c@ == seq![a],
        },
{
    match b {
        Some(bb) => {
            let r = c.len() == 2 && c[0] == a && c[1] == bb;
            proof {
                if c@.len() == 2 && c@[0] == a && c@[1] == bb {
                    assert(c@ =~= seq![a, bb]);
                }
            }
            r
        },
        None => {
            let r = c.len() == 1 && c[0] == a;
            proof {
                if c@.len() == 1 && c@[0] == a {
                    assert(c@ =~= seq![a]);
                }
            }
            r
        },
    }
}

fn lex_exec(cs: &Vec<Vec<char>>) -> (r: Vec<Vec<char>>)
    ensures
        char_views(r@) == lex(char_views(cs@)),
{
    let mut acc: Vec<Vec<char>> = Vec::new();
    let mut i: usize = 0;
    while i < cs.len()
        invariant
            i <= cs@.len(),
            char_views(acc@) == lex(char_views(cs@).take(i as int)),
        decreases cs.len() - i,
    {
        proof {
            assert(char_views(cs@).take(i + 1).drop_last() =~= char_views(cs@).take(i as int));
        }
        let c = &cs[i];
        if is_comp(c, '.', None) {
        } else if is_comp(c, '.', Some('.')) {
            if acc.len() > 0 && !is_comp(&acc[acc.len() - 1], '/', None) {
                let ghost before = acc@;
                acc.pop();
                proof {
                    assert(char_views(acc@) =~= char_views(before).drop_last());
                }
            }
        } else {
            let x = slice_of(c, 0, c.len());
            proof {
                assert(x@ =~= c@);
                lemma_char_views_push(acc@, x);
            }
            acc.push(x);
        }
        i += 1;
    }
    proof {
        assert(char_views(cs@).take(cs@.len() as int) =~= char_views(cs@));
    }
    acc
}

fn join_slash_exec(cs: &Vec<Vec<char>>, from: usize) -> (r: Vec<char>)
    requires
        from <= cs@.len(),
    ensures
        r@ == join_slash(char_views(cs@).skip(from as int)),
{
    let mut r: Vec<char> = Vec::new();
    let mut i: usize = from;
    while i < cs.len()
        invariant
            from <= i <= cs@.len(),
            r@ == join_slash(char_views(cs@).subrange(from as int, i as int)),
        decreases cs.len() - i,
    {
        let ghost part = char_views(cs@).subrange(from as int, i + 1);
        proof {
            assert(part.drop_last() =~= char_views(cs@).subrange(from as int, i as int));
        }
        if i > from {
            r.push('/');
        } else {
            proof {
                assert(r@ =~= Seq::<char>::empty());
            }
        }
        push_all(&mut r, &cs[i]);
        proof {
            if i > from {
                assert(r@ =~= join_slash(part.drop_last()) + seq!['/'] + part.last());
            } else {
                assert(r@ =~= part[0]);
            }
        }
        i += 1;
    }
    proof {
        assert(char_views(cs@).subrange(from as int, cs@.len() as int) =~= char_views(cs@).skip(
            from as int,
        ));
    }
    r
}

fn render_exec(cs: &Vec<Vec<char>>) -> (r: Vec<char>)
    ensures
        r@ == render(char_views(cs@)),
{
    if cs.len() > 0 && is_comp(&cs[0], '/', None) {
        let mut r = vec!['/'];
        let tail = join_slash_exec(cs, 1);
        push_all(&mut r, &tail);
        proof {
            assert(char_views(cs@).skip(1) =~= char_views(cs@).drop_first());
            assert(r@ =~= seq!['/'] + tail@);
        }
        r
    } else {
        proof {
            assert(char_views(cs@).skip(0) =~= char_views(cs@));
        }
        join_slash_exec(cs, 0)
    }
}

/// Lexically cleans a path: drops `.` components and resolves `..` against
/// the preceding component (a `..` at the top is dropped).
pub fn lexiclean(p: &str) -> (r: String)
    ensures
        r@ == lexicleaned(p@),
{
    let c = chars_of(p);
    let cs = components(&c);
    let l = lex_exec(&cs);
    let out = render_exec(&l);
    string_of(&out)
}

/// The normal form of a path: the canonical path the file system reports
/// (`canonical`, when the path exists and could be resolved), else the
/// lexically cleaned path.
pub fn normalize(p: &str, canonical: Option<String>) -> (r: String)
    ensures
        r@ == match canonical {
            Some(c) => c@,
            None => lexicleaned(p@),
        },
{
    match canonical {
        Some(c) => c,
        None => lexiclean(p),
    }
}

// ---------------------------------------------------------------------------
// Joining archive entries under a directory
// ---------------------------------------------------------------------------
/// `base` joined with the relative path `rel` (`Path::join`).
pub open spec fn join_path(base: Seq<char>, rel: Seq<char>) -> Seq<char> {
    if base.len() > 0 && base.last() != '/' {
        base + seq!['/'] + rel
    } else {
        base + rel
    }
}

/// `a` begins with the components `b`.
pub open spec fn comps_prefix(a: Seq<Seq<char>>, b: Seq<Seq<char>>) -> bool {
    b.len() <= a.len() && a.take(b.len() as int) == b
}

/// Result of joining the archive entry name `rel` under `base`: the joined
/// path, or the text of the `UnsafePath` error.
pub open spec fn safe_join_result(base: Seq<char>, rel: Seq<char>) -> Result<Seq<char>, Seq<char>> {
    if rel.len() > 0 && rel[0] == '/' {
        Err("absolute path in archive: "@ + debug_text(rel))
    } else if path_comps(rel).contains(parent_comp()) {
        Err("parent traversal in archive: "@ + debug_text(rel))
    } else if !comps_prefix(lex(path_comps(join_path(base, rel))), lex(path_comps(base))) {
        Err("path escapes temp dir: "@ + debug_text(rel))
    } else {
        Ok(join_path(base, rel))
    }
}

fn contains_parent(cs: &Vec<Vec<char>>) -> (r: bool)
    ensures
        r == char_views(cs@).contains(parent_comp()),
{
    let mut i: usize = 0;
    while i < cs.len()
        invariant
            i <= cs@.len(),
            forall|j: int| 0 <= j < i ==> cs@[j]@ != parent_comp(),
        decreases cs.len() - i,
    {
        if is_comp(&cs[i], '.', Some('.')) {
            proof {
                assert(char_views(cs@)[i as int] == parent_comp());
            }
            return true;
        }
        i += 1;
    }
    proof {
        if char_views(cs@).contains(parent_comp()) {
            let j = choose|j: int| 0 <= j < char_views(cs@).len() && char_views(cs@)[j] == parent_comp();
            assert(cs@[j]@ == parent_comp());
        }
    }
    false
}

pub(crate) fn comps_prefix_exec(a: &Vec<Vec<char>>, b: &Vec<Vec<char>>) -> (r: bool)
    ensures
        r == comps_prefix(char_views(a@), char_views(b@)),
{
    if b.len() > a.len() {
        return false;
    }
    let mut i: usize = 0;
    while i < b.len()
        invariant
            i <= b@.len() <= a@.len(),
            char_views(a@).take(i as int) == char_views(b@).take(i as int),
        decreases b.len() - i,
    {
        if !crate::text::chars_equal(&a[i], &b[i]) {
            proof {
                assert(char_views(a@).take(b@.len() as int)[i as int] != char_views(b@)[i as int]);
            }
            return false;
        }
        proof {
            assert(char_views(a@).take(i + 1) =~= char_views(a@).take(i as int).push(a@[i as int]@));
            assert(char_views(b@).take(i + 1) =~= char_views(b@).take(i as int).push(b@[i as int]@));
        }
        i += 1;
    }
    proof {
        assert(char_views(b@).take(b@.len() as int) =~= char_views(b@));
    }
    true
}

fn unsafe_path(prefix: &str, rel: &str) -> (e: ConvertError)
    ensures
        e == ConvertError::UnsafePath(e->UnsafePath_0),
        (e->UnsafePath_0)@ == prefix@ + debug_text(rel@),
{
    let mut m = chars_of(prefix);
    let d = debug_str(rel);
    push_all(&mut m, &chars_of(d.as_str()));
    ConvertError::UnsafePath(string_of(&m))
}

pub(crate) fn join_path_exec(base: &[char], rel: &[char]) -> (r: Vec<char>)
    ensures
        r@ == join_path(base@, rel@),
{
    let mut r = slice_of(base, 0, base.len());
    if base.len() > 0 && base[base.len() - 1] != '/' {
        r.push('/');
    }
    push_all(&mut r, rel);
    proof {
        assert(base@.subrange(0, base@.len() as int) =~= base@);
    }
    r
}

/// Joins the archive entry name `rel` under `base`; an absolute name, a name
/// with a `..` component, or one that would leave `base` is refused as an
/// unsafe path.
pub fn safe_join(base: &str, rel: &str) -> (r: Result<String, ConvertError>)
    ensures
        match r {
            Ok(p) => safe_join_result(base@, rel@) == Ok::<Seq<char>, Seq<char>>(p@),
            Err(e) => e is UnsafePath && safe_join_result(base@, rel@) == Err::<Seq<char>, Seq<char>>(
                e->UnsafePath_0@,
            ),
        },
{
    let rc = chars_of(rel);
    if rc.len() > 0 && rc[0] == '/' {
        let e = unsafe_path("absolute path in archive: ", rel);
        return Err(e);
    }
    let rel_comps = components(&rc);
    if contains_parent(&rel_comps) {
        let e = unsafe_path("parent traversal in archive: ", rel);
        return Err(e);
    }
    let bc = chars_of(base);
    let joined = join_path_exec(&bc, &rc);
    let base_norm = lex_exec(&components(&bc));
    let joined_norm = lex_exec(&components(&joined));
    if !comps_prefix_exec(&joined_norm, &base_norm) {
        let e = unsafe_path("path escapes temp dir: ", rel);
        return Err(e);
    }
    Ok(string_of(&joined))
}


// ---------------------------------------------------------------------------
// File names, extensions, parents
// ---------------------------------------------------------------------------
/// Last component of `p` when it names something (`Path::file_name`).
pub open spec fn file_name_of(p: Seq<char>) -> Option<Seq<char>> {
    let cs = path_comps(p);
    if cs.len() > 0 && cs.last() != root_comp() && cs.last() != cur_comp() && cs.last()
        != parent_comp() {
        Some(cs.last())
    } else {
        None
    }
}

/// `p` without its last component (`Path::parent`).
pub open spec fn parent_of(p: Seq<char>) -> Option<Seq<char>> {
    let cs = path_comps(p);
    if cs.len() > 0 && cs.last() != root_comp() {
        Some(render(cs.drop_last()))
    } else {
        None
    }
}

/// Text after the last `.` of a file name, when the name has a `.` after
/// its first character (`Path::extension`).
pub open spec fn extension_of(name: Seq<char>) -> Option<Seq<char>> {
    if name == parent_comp() {
        None
    } else {
        match crate::text::rfind(name, seq!['.']) {
            Some(i) => if i > 0 {
                Some(name.skip(i + 1))
            } else {
                None
            },
            None => None,
        }
    }
}

pub fn file_name(p: &[char]) -> (r: Option<Vec<char>>)
    ensures
        match r {
            Some(n) => file_name_of(p@) == Some(n@),
            None => file_name_of(p@) is None,
        },
{
    let cs = components(p);
    if cs.len() == 0 {
        return None;
    }
    let last = &cs[cs.len() - 1];
    if is_comp(last, '/', None) || is_comp(last, '.', None) || is_comp(last, '.', Some('.')) {
        None
    } else {
        Some(slice_of(last, 0, last.len()))
    }
}

pub fn parent(p: &[char]) -> (r: Option<Vec<char>>)
    ensures
        match r {
            Some(n) => parent_of(p@) == Some(n@),
            None => parent_of(p@) is None,
        },
{
    let mut cs = components(p);
    if cs.len() == 0 || is_comp(&cs[cs.len() - 1], '/', None) {
        return None;
    }
    let ghost before = cs@;
    cs.pop();
    proof {
        assert(char_views(cs@) =~= char_views(before).drop_last());
    }
    Some(render_exec(&cs))
}

pub fn extension(name: &[char]) -> (r: Option<Vec<char>>)
    ensures
        match r {
            Some(e) => extension_of(name@) == Some(e@),
            None => extension_of(name@) is None,
        },
{
    if name.len() == 2 && name[0] == '.' && name[1] == '.' {
        proof {
            assert(name@ =~= parent_comp());
        }
        return None;
    }
    proof {
        if name@ == parent_comp() {
            assert(name@.len() == 2);
        }
    }
    let dot = vec!['.'];
    proof {
        assert(dot@ =~= seq!['.']);
        crate::text::lemma_rfind_below(name@, dot@, name@.len() as int + 1);
    }
    match crate::text::rfind_exec(name, &dot) {
        Some(i) => {
            if i > 0 {
                proof {
                    assert(crate::text::occurs_at(name@, dot@, i as int));
                }
                Some(slice_of(name, i + 1, name.len()))
            } else {
                None
            }
        },
        None => None,
    }
}

// ---------------------------------------------------------------------------
// Output names of converted archives
// ---------------------------------------------------------------------------
/// File extensions of archives.
pub open spec fn archive_exts() -> Seq<Seq<char>> {
    seq![
        "zip"@, "cbz"@, "rar"@, "cbr"@, "7z"@, "cb7"@, "gz"@, "bz2"@, "xz"@, "zst"@, "zstd"@,
        "lzh"@, "lha"@, "cab"@, "iso"@, "tar"@, "tgz"@, "tbz2"@, "txz"@, "lz"@, "lzma"@, "lz4"@,
        "cpio"@, "ar"@, "xar"@, "warc"@,
    ]
}

/// Compressed-tar suffixes, tried in this order.
pub open spec fn tar_exts() -> Seq<Seq<char>> {
    seq!["tar.gz"@, "tar.xz"@, "tar.zst"@, "tar.zstd"@, "tar.bz2"@, "tar.lzma"@, "tar.lz"@]
}

/// Whether `e` is one of `list`.
fn in_list(list: &Vec<&str>, e: &[char]) -> (r: bool)
    ensures
        r == Seq::new(list@.len(), |i: int| list@[i]@).contains(e@),
{
    let ghost lv = Seq::new(list@.len(), |i: int| list@[i]@);
    let mut i: usize = 0;
    while i < list.len()
        invariant
            i <= list@.len(),
            lv == Seq::new(list@.len(), |i: int| list@[i]@),
            forall|j: int| 0 <= j < i ==> lv[j] != e@,
        decreases list.len() - i,
    {
        if crate::text::eq_lit(e, list[i]) {
            proof {
                assert(lv[i as int] == e@);
            }
            return true;
        }
        i += 1;
    }
    false
}

fn archive_ext_list() -> (r: Vec<&'static str>)
    ensures
        Seq::new(r@.len(), |i: int| r@[i]@) == archive_exts(),
{
    let r = vec![
        "zip", "cbz", "rar", "cbr", "7z", "cb7", "gz", "bz2", "xz", "zst", "zstd", "lzh", "lha",
        "cab", "iso", "tar", "tgz", "tbz2", "txz", "lz", "lzma", "lz4", "cpio", "ar", "xar", "warc",
    ];
    proof {
        assert(Seq::new(r@.len(), |i: int| r@[i]@) =~= archive_exts());
    }
    r
}

fn tar_ext_list() -> (r: Vec<&'static str>)
    ensures
        Seq::new(r@.len(), |i: int| r@[i]@) == tar_exts(),
{
    let r = vec!["tar.gz", "tar.xz", "tar.zst", "tar.zstd", "tar.bz2", "tar.lzma", "tar.lz"];
    proof {
        assert(Seq::new(r@.len(), |i: int| r@[i]@) =~= tar_exts());
    }
    r
}

/// `s` without its trailing run of `.`.
pub open spec fn trim_end_dots(s: Seq<char>) -> Seq<char>
    decreases s.len(),
{
    if s.len() > 0 && s.last() == '.' {
        trim_end_dots(s.drop_last())
    } else {
        s
    }
}

fn trim_end_dots_exec(s: &[char]) -> (r: Vec<char>)
    ensures
        r@ == trim_end_dots(s@),
{
    let mut k: usize = s.len();
    proof {
        assert(s@.take(k as int) =~= s@);
    }
    while k > 0 && s[k - 1] == '.'
        invariant
            k <= s@.len(),
            trim_end_dots(s@) == trim_end_dots(s@.take(k as int)),
        decreases k,
    {
        proof {
            assert(s@.take(k as int).drop_last() =~= s@.take(k - 1));
        }
        k -= 1;
    }
    slice_of(s, 0, k)
}

/// First compressed-tar suffix of `lower` (from `exts` on) that leaves a
/// non-empty base once trailing dots are trimmed: that base.
pub open spec fn tar_base(lower: Seq<char>, exts: Seq<Seq<char>>) -> Option<Seq<char>>
    decreases exts.len(),
{
    if exts.len() == 0 {
        None
    } else {
        let e = exts[0];
        let t = trim_end_dots(lower.take(lower.len() - e.len()));
        if crate::text::ends_with(lower, e) && t.len() > 0 {
            Some(t)
        } else {
            tar_base(lower, exts.drop_first())
        }
    }
}

/// Base name of the output of converting `input`: its file name without a
/// compressed-tar suffix (the base then lower-cased) or an archive
/// extension; other names are kept whole.
pub open spec fn output_base_of(input: Seq<char>) -> Seq<char> {
    let name = match file_name_of(input) {
        Some(n) => n,
        None => input,
    };
    let lower = crate::text::lower_seq(name);
    match tar_base(lower, tar_exts()) {
        Some(b) => b,
        None => match crate::text::rfind(lower, seq!['.']) {
            Some(dot) => if archive_exts().contains(lower.skip(dot + 1)) && dot > 0 {
                name.take(dot)
            } else {
                name
            },
            None => name,
        },
    }
}

fn tar_base_exec(lower: &[char]) -> (r: Option<Vec<char>>)
    ensures
        match r {
            Some(b) => tar_base(lower@, tar_exts()) == Some(b@),
            None => tar_base(lower@, tar_exts()) is None,
        },
{
    let exts = tar_ext_list();
    let ghost ev = Seq::new(exts@.len(), |i: int| exts@[i]@);
    let mut i: usize = 0;
    proof {
        assert(ev.skip(0) =~= ev);
    }
    while i < exts.len()
        invariant
            i <= exts@.len(),
            ev == Seq::new(exts@.len(), |i: int| exts@[i]@),
            ev == tar_exts(),
            tar_base(lower@, tar_exts()) == tar_base(lower@, ev.skip(i as int)),
        decreases exts.len() - i,
    {
        let e = chars_of(exts[i]);
        proof {
            assert(ev.skip(i as int)[0] == e@);
            assert(ev.skip(i as int).drop_first() =~= ev.skip(i + 1));
        }
        if crate::text::ends_with_exec(lower, &e) {
            let t = trim_end_dots_exec(&slice_of(lower, 0, lower.len() - e.len()));
            if t.len() > 0 {
                return Some(t);
            }
        }
        i += 1;
    }
    None
}

/// Base name for the output of converting the archive `input`.
pub fn output_base(input: &str) -> (r: String)
    ensures
        r@ == output_base_of(input@),
{
    let ic = chars_of(input);
    let name = match file_name(&ic) {
        Some(n) => n,
        None => ic,
    };
    let lower = crate::text::lower_chars(&name);
    if let Some(b) = tar_base_exec(&lower) {
        return string_of(&b);
    }
    let lower_len = lower.len();
    let dot = vec!['.'];
    proof {
        assert(dot@ =~= seq!['.']);
        crate::text::lemma_rfind_below(lower@, dot@, lower@.len() as int + 1);
    }
    match crate::text::rfind_exec(&lower, &dot) {
        Some(d) => {
            proof {
                assert(crate::text::occurs_at(lower@, dot@, d as int));
            }
            let ext = slice_of(&lower, d + 1, lower_len);
            let exts = archive_ext_list();
            if in_list(&exts, &ext) && d > 0 {
                string_of(&slice_of(&name, 0, d))
            } else {
                string_of(&name)
            }
        },
        None => string_of(&name),
    }
}

/// Output file name: the base name with `.cbz`.
pub open spec fn output_stem_of(input: Seq<char>) -> Seq<char> {
    output_base_of(input) + ".cbz"@
}

pub fn output_stem(input: &str) -> (r: String)
    ensures
        r@ == output_stem_of(input@),
{
    let b = output_base(input);
    let mut v = chars_of(b.as_str());
    push_all(&mut v, &chars_of(".cbz"));
    string_of(&v)
}

/// Whether the path's extension names an archive format (case-insensitive).
pub open spec fn has_archive_ext(path: Seq<char>) -> bool {
    match file_name_of(path) {
        Some(n) => match extension_of(n) {
            Some(e) => archive_exts().contains(crate::text::lower_seq(e)),
            None => false,
        },
        None => false,
    }
}

pub fn has_archive_extension(path: &str) -> (r: bool)
    ensures
        r == has_archive_ext(path@),
{
    let pc = chars_of(path);
    match file_name(&pc) {
        Some(n) => match extension(&n) {
            Some(e) => {
                let l = crate::text::lower_chars(&e);
                let exts = archive_ext_list();
                in_list(&exts, &l)
            },
            None => false,
        },
        None => false,
    }
}

// ---------------------------------------------------------------------------
// Numbered alternatives to a taken name
// ---------------------------------------------------------------------------
/// `name` with ` (n)` before its extension (after the whole name when it has
/// no `.` past its first character).
pub open spec fn numbered_name(name: Seq<char>, n: nat) -> Seq<char> {
    let tag = " ("@ + crate::text::fmt_dec(n) + ")"@;
    match crate::text::rfind(name, seq!['.']) {
        Some(i) => if i > 0 {
            name.take(i) + tag + name.skip(i)
        } else {
            name + tag
        },
        None => name + tag,
    }
}

fn numbered_name_exec(name: &[char], n: u64) -> (r: Vec<char>)
    ensures
        r@ == numbered_name(name@, n as nat),
{
    let len = name.len();
    let dot = vec!['.'];
    proof {
        assert(dot@ =~= seq!['.']);
        crate::text::lemma_rfind_below(name@, dot@, name@.len() as int + 1);
    }
    let split_at = match crate::text::rfind_exec(name, &dot) {
        Some(i) => {
            proof {
                assert(crate::text::occurs_at(name@, dot@, i as int));
            }
            if i > 0 {
                i
            } else {
                len
            }
        },
        None => len,
    };
    let mut r = slice_of(name, 0, split_at);
    let mut tag: Vec<char> = chars_of(" (");
    crate::text::push_dec(&mut tag, n);
    tag.push(')');
    proof {
        reveal_strlit(" (");
        reveal_strlit(")");
        assert(tag@ =~= " ("@ + crate::text::fmt_dec(n as nat) + ")"@);
    }
    push_all(&mut r, &tag);
    let rest = slice_of(name, split_at, len);
    push_all(&mut r, &rest);
    proof {
        let t = " ("@ + crate::text::fmt_dec(n as nat) + ")"@;
        if split_at == len {
            assert(name@.take(len as int) =~= name@);
            assert(rest@ =~= Seq::<char>::empty());
            assert(r@ =~= name@ + t);
        } else {
            assert(r@ =~= name@.take(split_at as int) + t + name@.skip(split_at as int));
        }
    }
    r
}

/// `p` with ` (n)` inserted before the extension of its file name.
pub open spec fn suffixed_path(p: Seq<char>, n: nat) -> Seq<char> {
    let dir = match parent_of(p) {
        Some(d) => d,
        None => cur_comp(),
    };
    let name = match file_name_of(p) {
        Some(f) => f,
        None => Seq::empty(),
    };
    join_path(dir, numbered_name(name, n))
}

pub fn suffix_path(p: &str, n: u64) -> (r: String)
    ensures
        r@ == suffixed_path(p@, n as nat),
{
    let pc = chars_of(p);
    let dot_dir = vec!['.'];
    proof {
        assert(dot_dir@ =~= cur_comp());
    }
    let dir = match parent(&pc) {
        Some(d) => d,
        None => dot_dir,
    };
    let name = match file_name(&pc) {
        Some(f) => f,
        None => Vec::new(),
    };
    let nn = numbered_name_exec(&name, n);
    string_of(&join_path_exec(&dir, &nn))
}

/// The `i`-th candidate for a free destination: `dest` itself first, then
/// `dest` with ` (1)`, ` (2)`, ... inserted before the extension of its name.
pub open spec fn dest_candidate(dest: Seq<char>, i: nat) -> Seq<char> {
    if i == 0 {
        dest
    } else {
        let dir = match parent_of(dest) {
            Some(d) => d,
            None => cur_comp(),
        };
        let name = match file_name_of(dest) {
            Some(f) => f,
            None => dest,
        };
        join_path(dir, numbered_name(name, i))
    }
}

/// Candidate `i` for a destination that does not clash with an existing
/// file; the caller tries `i = 0, 1, 2, ...` until one is free.
pub fn unique_dest(dest: &str, i: u64) -> (r: String)
    ensures
        r@ == dest_candidate(dest@, i as nat),
{
    if i == 0 {
        return dest.to_owned();
    }
    let pc = chars_of(dest);
    let dot_dir = vec!['.'];
    proof {
        assert(dot_dir@ =~= cur_comp());
    }
    let dir = match parent(&pc) {
        Some(d) => d,
        None => dot_dir,
    };
    let name = match file_name(&pc) {
        Some(f) => f,
        None => chars_of(dest),
    };
    let nn = numbered_name_exec(&name, i);
    string_of(&join_path_exec(&dir, &nn))
}

/// Different numbers give different numbered names.
pub proof fn lemma_numbered_name_injective(name: Seq<char>, a: nat, b: nat)
    requires
        numbered_name(name, a) == numbered_name(name, b),
    ensures
        a == b,
{
    let fa = crate::text::fmt_dec(a);
    let fb = crate::text::fmt_dec(b);
    crate::text::lemma_fmt_dec(a);
    crate::text::lemma_fmt_dec(b);
    let head = match crate::text::rfind(name, seq!['.']) {
        Some(i) => if i > 0 {
            name.take(i)
        } else {
            name
        },
        None => name,
    };
    let tail = match crate::text::rfind(name, seq!['.']) {
        Some(i) => if i > 0 {
            name.skip(i)
        } else {
            Seq::<char>::empty()
        },
        None => Seq::<char>::empty(),
    };
    let pre = head + " ("@;
    reveal_strlit(" (");
    reveal_strlit(")");
    let sa = pre + fa + ")"@ + tail;
    let sb = pre + fb + ")"@ + tail;
    assert(numbered_name(name, a) =~= sa);
    assert(numbered_name(name, b) =~= sb);
    let k = pre.len() as int;
    if fa.len() < fb.len() {
        assert(sa[k + fa.len() as int] == ')');
        assert(sb[k + fa.len() as int] == fb[fa.len() as int]);
        assert(crate::text::is_ascii_digit(fb[fa.len() as int]));
    } else if fb.len() < fa.len() {
        assert(sb[k + fb.len() as int] == ')');
        assert(sa[k + fb.len() as int] == fa[fb.len() as int]);
        assert(crate::text::is_ascii_digit(fa[fb.len() as int]));
    } else {
        assert(fa =~= sa.subrange(k, k + fa.len() as int));
        assert(fb =~= sb.subrange(k, k + fb.len() as int));
        crate::text::lemma_fmt_dec_injective(a, b);
    }
}

/// The numbered candidates for a destination are pairwise different, so
/// trying them in turn ends once one is free.
pub proof fn lemma_dest_candidates_distinct(dest: Seq<char>, i: nat, j: nat)
    requires
        i != j,
        i > 0,
        j > 0,
    ensures
        dest_candidate(dest, i) != dest_candidate(dest, j),
{
    {
        let dir = match parent_of(dest) {
            Some(d) => d,
            None => cur_comp(),
        };
        let name = match file_name_of(dest) {
            Some(f) => f,
            None => dest,
        };
        let ni = numbered_name(name, i);
        let nj = numbered_name(name, j);
        let sep = if dir.len() > 0 && dir.last() != '/' {
            dir + seq!['/']
        } else {
            dir
        };
        assert(dest_candidate(dest, i) =~= sep + ni);
        assert(dest_candidate(dest, j) =~= sep + nj);
        if dest_candidate(dest, i) == dest_candidate(dest, j) {
            assert(ni.len() == nj.len());
            assert(ni =~= (sep + ni).skip(sep.len() as int));
            assert(nj =~= (sep + nj).skip(sep.len() as int));
            lemma_numbered_name_injective(name, i, j);
        }
    }
}

proof fn lemma_taken_candidates_bound(dest: Seq<char>, taken: Seq<Seq<char>>, i: nat)
    requires
        forall|j: nat| 1 <= j <= i ==> taken.contains(#[trigger] dest_candidate(dest, j)),
    ensures
        i <= taken.len(),
{
    let c = Seq::new(i, |k: int| dest_candidate(dest, (k + 1) as nat));
    assert(c.no_duplicates()) by {
        assert forall|a: int, b: int| 0 <= a < c.len() && 0 <= b < c.len() && a != b implies c[a]
            != c[b] by {
            lemma_dest_candidates_distinct(dest, (a + 1) as nat, (b + 1) as nat);
        }
    }
    c.unique_seq_to_set();
    taken.lemma_cardinality_of_set();
    assert forall|x: Seq<char>| c.to_set().contains(x) implies taken.to_set().contains(x) by {
        let k = choose|k: int| 0 <= k < c.len() && c[k] == x;
        assert(taken.contains(dest_candidate(dest, (k + 1) as nat)));
    }
    vstd::set_lib::lemma_len_subset(c.to_set(), taken.to_set());
}

/// The first candidate destination for `dest` (`dest` itself, then its
/// numbered alternatives in turn) that is not among the `taken` paths,
/// with its number.
pub fn first_free_dest(dest: &str, taken: &Vec<String>) -> (r: (String, u64))
    requires
        taken@.len() < u64::MAX,
    ensures
        r.0@ == dest_candidate(dest@, r.1 as nat),
        !str_views(taken@).contains(r.0@),
        forall|j: nat| j < r.1 ==> str_views(taken@).contains(#[trigger] dest_candidate(dest@, j)),
{
    let mut i: u64 = 0;
    loop
        invariant
            taken@.len() < u64::MAX,
            i <= taken@.len() + 1,
            forall|j: nat| j < i ==> str_views(taken@).contains(#[trigger] dest_candidate(dest@, j)),
        decreases taken@.len() + 1 - i,
    {
        let cand = unique_dest(dest, i);
        if !crate::collectors::listed(taken, cand.as_str()) {
            return (cand, i);
        }
        proof {
            lemma_taken_candidates_bound(dest@, str_views(taken@), i as nat);
        }
        i += 1;
    }
}

// ---------------------------------------------------------------------------
// Why a joined entry stays under its directory
// ---------------------------------------------------------------------------
proof fn lemma_split_acc_concat(x: Seq<char>, y: Seq<char>)
    ensures
        split_acc(x + seq!['/'] + y, '/') == (split_on(x, '/') + split_acc(y, '/').0, split_acc(
            y,
            '/',
        ).1),
    decreases y.len(),
{
    let xs = x + seq!['/'];
    if y.len() == 0 {
        assert(x + seq!['/'] + y =~= xs);
        assert(xs.drop_last() =~= x);
    } else {
        lemma_split_acc_concat(x, y.drop_last());
        assert((x + seq!['/'] + y).drop_last() =~= x + seq!['/'] + y.drop_last());
        let (d, c) = split_acc(y.drop_last(), '/');
        if y.last() == '/' {
            assert(split_on(x, '/') + d.push(c) =~= (split_on(x, '/') + d).push(c));
        }
    }
}

proof fn lemma_split_concat(x: Seq<char>, y: Seq<char>)
    ensures
        split_on(x + seq!['/'] + y, '/') == split_on(x, '/') + split_on(y, '/'),
{
    lemma_split_acc_concat(x, y);
    let (d, c) = split_acc(y, '/');
    assert((split_on(x, '/') + d).push(c) =~= split_on(x, '/') + d.push(c));
}

proof fn lemma_keep_concat(a: Seq<Seq<char>>, b: Seq<Seq<char>>)
    ensures
        keep_segs(a + b) == keep_segs(a) + keep_segs(b),
    decreases b.len(),
{
    if b.len() == 0 {
        assert(a + b =~= a);
        assert(keep_segs(a) + keep_segs(b) =~= keep_segs(a));
    } else {
        lemma_keep_concat(a, b.drop_last());
        assert((a + b).drop_last() =~= a + b.drop_last());
        assert((a + b).last() == b.last());
        let x = b.last();
        if !(x.len() == 0 || x == cur_comp()) {
            assert(keep_segs(a) + keep_segs(b.drop_last()).push(x) =~= (keep_segs(a) + keep_segs(
                b.drop_last(),
            )).push(x));
        }
    }
}

/// Pieces of a split contain no separator.
proof fn lemma_split_pieces(s: Seq<char>)
    ensures
        forall|i: int|
            0 <= i < split_on(s, '/').len() ==> !(#[trigger] split_on(s, '/')[i]).contains('/'),
    decreases s.len(),
{
    if s.len() > 0 {
        lemma_split_pieces(s.drop_last());
        let (d, c) = split_acc(s.drop_last(), '/');
        assert forall|i: int| 0 <= i < split_on(s, '/').len() implies !(#[trigger] split_on(
            s,
            '/',
        )[i]).contains('/') by {
            if s.last() == '/' {
                if i < d.len() {
                    assert(split_on(s, '/')[i] == split_on(s.drop_last(), '/')[i]);
                } else if i == d.len() {
                    assert(split_on(s, '/')[i] == split_on(s.drop_last(), '/')[i]);
                }
            } else {
                if i < d.len() {
                    assert(split_on(s, '/')[i] == split_on(s.drop_last(), '/')[i]);
                } else {
                    assert(split_on(s, '/')[i] == c.push(s.last()));
                    assert(!c.contains('/')) by {
                        assert(c == split_on(s.drop_last(), '/')[d.len() as int]);
                    }
                    if c.push(s.last()).contains('/') {
                        let k = choose|k: int| 0 <= k < c.push(s.last()).len() && c.push(s.last())[k] == '/';
                        assert(c.contains(c[k]));
                    }
                }
            }
        }
    }
}

/// Named segments: non-empty, not `.`, without a separator.
proof fn lemma_keep_members(ss: Seq<Seq<char>>)
    requires
        forall|i: int| 0 <= i < ss.len() ==> !(#[trigger] ss[i]).contains('/'),
    ensures
        forall|i: int|
            0 <= i < keep_segs(ss).len() ==> {
                let x = #[trigger] keep_segs(ss)[i];
                &&& x.len() > 0
                &&& x != cur_comp()
                &&& !x.contains('/')
            },
    decreases ss.len(),
{
    if ss.len() > 0 {
        assert forall|i: int| 0 <= i < ss.drop_last().len() implies !(#[trigger] ss.drop_last()[
            i
        ]).contains('/') by {
            assert(ss.drop_last()[i] == ss[i]);
        }
        lemma_keep_members(ss.drop_last());
        assert(ss.last() == ss[ss.len() - 1]);
        let r = keep_segs(ss.drop_last());
        assert forall|i: int| 0 <= i < keep_segs(ss).len() implies {
            let x = #[trigger] keep_segs(ss)[i];
            &&& x.len() > 0
            &&& x != cur_comp()
            &&& !x.contains('/')
        } by {
            if i < r.len() {
                assert(keep_segs(ss)[i] == r[i]);
            } else {
                assert(keep_segs(ss)[i] == ss.last());
            }
        }
    }
}

/// Appending components that are neither `.`, `..` nor the root to the
/// input of cleaning appends them to its output.
proof fn lemma_lex_concat(a: Seq<Seq<char>>, b: Seq<Seq<char>>)
    requires
        forall|i: int|
            0 <= i < b.len() ==> #[trigger] b[i] != cur_comp() && b[i] != parent_comp() && b[i]
                != root_comp(),
    ensures
        lex(a + b) == lex(a) + b,
    decreases b.len(),
{
    if b.len() == 0 {
        assert(a + b =~= a);
        assert(lex(a) + b =~= lex(a));
    } else {
        assert forall|i: int| 0 <= i < b.drop_last().len() implies #[trigger] b.drop_last()[i]
            != cur_comp() && b.drop_last()[i] != parent_comp() && b.drop_last()[i] != root_comp() by {
            assert(b.drop_last()[i] == b[i]);
        }
        lemma_lex_concat(a, b.drop_last());
        assert((a + b).drop_last() =~= a + b.drop_last());
        assert((a + b).last() == b.last());
        assert(b.last() == b[b.len() - 1]);
        assert((lex(a) + b.drop_last()).push(b.last()) =~= lex(a) + b);
    }
}

proof fn lemma_path_comps_join(base: Seq<char>, rel: Seq<char>)
    requires
        !(rel.len() > 0 && rel[0] == '/'),
        !path_comps(rel).contains(parent_comp()),
    ensures
        lex(path_comps(join_path(base, rel))) == lex(path_comps(base)) + keep_segs(split_on(rel, '/')),
{
    let k = keep_segs(split_on(rel, '/'));
    lemma_split_pieces(rel);
    lemma_keep_members(split_on(rel, '/'));
    assert forall|i: int| 0 <= i < k.len() implies #[trigger] k[i] != cur_comp() && k[i]
        != parent_comp() && k[i] != root_comp() by {
        if k[i] == root_comp() {
            assert(k[i][0] == '/');
            assert(k[i].contains('/'));
        }
        if k[i] == parent_comp() {
            assert(path_comps(rel)[lead_comp(rel).len() + i] == k[i]);
        }
    }
    lemma_split_nonempty(rel, '/');
    if base.len() == 0 {
        assert(join_path(base, rel) =~= rel);
        lemma_lex_concat(lead_comp(rel), k);
        assert(lex(Seq::<Seq<char>>::empty()) == Seq::<Seq<char>>::empty());
        if lead_comp(rel).len() > 0 {
            assert(lead_comp(rel) == seq![cur_comp()]);
            assert(seq![cur_comp()].drop_last() =~= Seq::<Seq<char>>::empty());
        }
        assert(lex(lead_comp(rel)) =~= Seq::<Seq<char>>::empty());
        assert(split_on(base, '/') =~= seq![Seq::<char>::empty()]);
        assert(seq![Seq::<char>::empty()].drop_last() =~= Seq::<Seq<char>>::empty());
        reveal_with_fuel(keep_segs, 2);
        assert(keep_segs(split_on(base, '/')) =~= Seq::<Seq<char>>::empty());
        assert(path_comps(base) =~= Seq::<Seq<char>>::empty());
        assert(Seq::<Seq<char>>::empty() + k =~= k);
    } else {
        let x = if base.last() == '/' {
            base.drop_last()
        } else {
            base
        };
        let j = join_path(base, rel);
        assert(j =~= x + seq!['/'] + rel);
        lemma_split_concat(x, rel);
        lemma_split_nonempty(x, '/');
        let sx = split_on(x, '/');
        if base.last() == '/' {
            assert(base =~= x + seq!['/'] + Seq::<char>::empty());
            lemma_split_concat(x, Seq::<char>::empty());
            assert(split_on(Seq::<char>::empty(), '/') =~= seq![Seq::<char>::empty()]);
            lemma_keep_concat(sx, seq![Seq::<char>::empty()]);
            assert(seq![Seq::<char>::empty()].drop_last() =~= Seq::<Seq<char>>::empty());
            reveal_with_fuel(keep_segs, 2);
            assert(keep_segs(seq![Seq::<char>::empty()]) =~= Seq::<Seq<char>>::empty());
            assert(keep_segs(split_on(base, '/')) =~= keep_segs(sx));
            assert(split_on(base, '/')[0] == sx[0]);
        } else {
            assert(split_on(base, '/') == sx);
        }
        lemma_keep_concat(sx, split_on(rel, '/'));
        assert(split_on(j, '/')[0] == sx[0]);
        assert(j[0] == base[0]);
        assert(lead_comp(j) == lead_comp(base));
        assert(path_comps(j) =~= path_comps(base) + k);
        lemma_lex_concat(path_comps(base), k);
    }
}

/// Joining an archive entry name under a directory succeeds exactly when the
/// name is relative and has no `..` component; the result then lies under the
/// directory, also after cleaning both.
pub proof fn lemma_safe_join_stays_inside(base: Seq<char>, rel: Seq<char>)
    ensures
        safe_join_result(base, rel) is Ok <==> !(rel.len() > 0 && rel[0] == '/') && !path_comps(
            rel,
        ).contains(parent_comp()),
        safe_join_result(base, rel) is Ok ==> comps_prefix(
            lex(path_comps(safe_join_result(base, rel)->Ok_0)),
            lex(path_comps(base)),
        ),
{
    if !(rel.len() > 0 && rel[0] == '/') && !path_comps(rel).contains(parent_comp()) {
        lemma_path_comps_join(base, rel);
        let b = lex(path_comps(base));
        let k = keep_segs(split_on(rel, '/'));
        assert((b + k).take(b.len() as int) =~= b);
    }
}

} // verus!
