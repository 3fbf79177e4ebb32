//! ComicInfo.xml: reading the few tags that matter (series, volume, number,
//! title) and filling in missing ones.  The document has a tiny fixed shape
//! (no attributes, no namespaces), so tags are found by their text; tag
//! names match case-insensitively (ASCII).
use vstd::prelude::*;

use crate::text::{
    chars_of, find, find_exec, lower_chars, lower_seq, parse_u32, parse_u32_exec, push_all,
    slice_of, string_of, trim, trim_chars, trim_end, trim_start,
};

verus! {

/// Values read from a ComicInfo.xml.
#[derive(Debug, Clone, Default)]
pub struct ComicInfo {
    pub series: Option<String>,
    pub volume: Option<u32>,
    pub number: Option<u32>,
    pub title: Option<String>,
}

impl ComicInfo {
    /// The effective volume number: `<Volume>` first, then `<Number>`.
    pub fn volume_number(&self) -> (r: Option<u32>)
        ensures
            r == match self.volume {
                Some(v) => Some(v),
                None => self.number,
            },
    {
        match self.volume {
            Some(v) => Some(v),
            None => self.number,
        }
    }
}

/// `<tag>`.
pub open spec fn open_tag(tag: Seq<char>) -> Seq<char> {
    seq!['<'] + tag + seq!['>']
}

/// `</tag>`.
pub open spec fn close_tag(tag: Seq<char>) -> Seq<char> {
    seq!['<', '/'] + tag + seq!['>']
}

/// Where the text between the first `<tag>` and the `</tag>` after it lies
/// (`tag` in lower case; the document is matched case-insensitively).
pub open spec fn tag_span(xml: Seq<char>, tag: Seq<char>) -> Option<(int, int)> {
    let lower = lower_seq(xml);
    match find(lower, open_tag(tag)) {
        Some(start) => {
            let after = start + open_tag(tag).len();
            match find(lower.skip(after), close_tag(tag)) {
                Some(rel) => Some((after, after + rel)),
                None => None,
            }
        },
        None => None,
    }
}

/// Trimmed text of a simple `<tag>text</tag>` pair, when non-empty.
pub open spec fn tag_text(xml: Seq<char>, tag: Seq<char>) -> Option<Seq<char>> {
    match tag_span(xml, tag) {
        Some((a, b)) => {
            let v = trim(xml.subrange(a, b));
            if v.len() > 0 {
                Some(v)
            } else {
                None
            }
        },
        None => None,
    }
}

fn tag_chars(tag: &str, close: bool) -> (r: Vec<char>)
    ensures
        r@ == if close {
            close_tag(tag@)
        } else {
            open_tag(tag@)
        },
{
    let mut r: Vec<char> = vec!['<'];
    if close {
        r.push('/');
    }
    push_all(&mut r, &chars_of(tag));
    r.push('>');
    proof {
        if close {
            assert(r@ =~= close_tag(tag@));
        } else {
            assert(r@ =~= open_tag(tag@));
        }
    }
    r
}

fn tag_span_exec(xml: &[char], tag: &str) -> (r: Option<(usize, usize)>)
    ensures
        match r {
            Some((a, b)) => tag_span(xml@, tag@) == Some((a as int, b as int)) && a <= b
                <= xml@.len(),
            None => tag_span(xml@, tag@) is None,
        },
{
    let len = xml.len();
    let lower = lower_chars(xml);
    let open = tag_chars(tag, false);
    let close = tag_chars(tag, true);
    proof {
        crate::text::lemma_find_from(lower@, open@, 0);
    }
    match find_exec(&lower, &open) {
        Some(start) => {
            proof {
                assert(crate::text::occurs_at(lower@, open@, start as int));
            }
            let after = start + open.len();
            let rest = slice_of(&lower, after, len);
            proof {
                assert(rest@ =~= lower@.skip(after as int));
                crate::text::lemma_find_from(rest@, close@, 0);
            }
            match find_exec(&rest, &close) {
                Some(rel) => {
                    proof {
                        assert(crate::text::occurs_at(rest@, close@, rel as int));
                    }
                    Some((after, after + rel))
                },
                None => None,
            }
        },
        None => None,
    }
}

/// Text of a simple `<tag>text</tag>` pair (tag case-insensitive), trimmed;
/// `None` when missing or empty.
pub fn tag_value(xml: &str, tag: &str) -> (r: Option<String>)
    ensures
        match r {
            Some(v) => tag_text(xml@, tag@) == Some(v@),
            None => tag_text(xml@, tag@) is None,
        },
{
    let x = chars_of(xml);
    match tag_span_exec(&x, tag) {
        Some((a, b)) => {
            let v = trim_chars(&slice_of(&x, a, b));
            if v.len() > 0 {
                Some(string_of(&v))
            } else {
                None
            }
        },
        None => None,
    }
}

/// A tag's value read as a number (`None` when missing or not a `u32`).
pub open spec fn tag_number(xml: Seq<char>, tag: Seq<char>) -> Option<u32> {
    match tag_text(xml, tag) {
        Some(v) => parse_u32(v),
        None => None,
    }
}

fn tag_number_exec(xml: &str, tag: &str) -> (r: Option<u32>)
    ensures
        r == tag_number(xml@, tag@),
{
    match tag_value(xml, tag) {
        Some(v) => parse_u32_exec(&chars_of(v.as_str())),
        None => None,
    }
}

/// Reads Series, Volume, Number and Title from ComicInfo.xml text.
pub fn parse(xml: &str) -> (r: ComicInfo)
    ensures
        match r.series {
            Some(s) => tag_text(xml@, "series"@) == Some(s@),
            None => tag_text(xml@, "series"@) is None,
        },
        r.volume == tag_number(xml@, "volume"@),
        r.number == tag_number(xml@, "number"@),
        match r.title {
            Some(s) => tag_text(xml@, "title"@) == Some(s@),
            None => tag_text(xml@, "title"@) is None,
        },
{
    ComicInfo {
        series: tag_value(xml, "series"),
        volume: tag_number_exec(xml, "volume"),
        number: tag_number_exec(xml, "number"),
        title: tag_value(xml, "title"),
    }
}

// ---------------------------------------------------------------------------
// Writing
// ---------------------------------------------------------------------------
/// XML text escaping of one character.
pub open spec fn escape_char(c: char) -> Seq<char> {
    if c == '&' {
        "&amp;"@
    } else if c == '<' {
        "&lt;"@
    } else if c == '>' {
        "&gt;"@
    } else {
        seq![c]
    }
}

/// `s` with `&`, `<` and `>` escaped for XML text content.
pub open spec fn escaped(s: Seq<char>) -> Seq<char>
    decreases s.len(),
{
    if s.len() == 0 {
        Seq::empty()
    } else {
        escaped(s.drop_last()) + escape_char(s.last())
    }
}

fn escape_chars(s: &[char]) -> (r: Vec<char>)
    ensures
        r@ == escaped(s@),
{
    let mut r: Vec<char> = Vec::new();
    let mut i: usize = 0;
    while i < s.len()
        invariant
            i <= s@.len(),
            r@ == escaped(s@.take(i as int)),
        decreases s.len() - i,
    {
        let c = s[i];
        proof {
            assert(s@.take(i + 1).drop_last() =~= s@.take(i as int));
        }
        if c == '&' {
            push_all(&mut r, &chars_of("&amp;"));
        } else if c == '<' {
            push_all(&mut r, &chars_of("&lt;"));
        } else if c == '>' {
            push_all(&mut r, &chars_of("&gt;"));
        } else {
            r.push(c);
            proof {
                assert(r@ =~= escaped(s@.take(i as int)) + seq![c]);
            }
        }
        i += 1;
    }
    proof {
        assert(s@.take(s@.len() as int) =~= s@);
    }
    r
}

/// Escapes `&`, `<` and `>` for XML text content.
pub fn escape(s: &str) -> (r: String)
    ensures
        r@ == escaped(s@),
{
    string_of(&escape_chars(&chars_of(s)))
}

/// `xml` with the tag `tag` given the text `value`: an empty `<tag></tag>`
/// is filled; a non-empty one is kept; without the pair, the tag is added
/// before `</ComicInfo>` (when there is one).
pub open spec fn filled(xml: Seq<char>, tag: Seq<char>, value: Seq<char>) -> Seq<char> {
    let lower = lower_seq(xml);
    match tag_span(xml, lower_seq(tag)) {
        Some((a, b)) => if trim(xml.subrange(a, b)).len() == 0 {
            xml.take(a) + escaped(value) + xml.skip(b)
        } else {
            xml
        },
        None => match find(lower, "</comicinfo>"@) {
            Some(p) => xml.take(p) + "\n  <"@ + tag + ">"@ + escaped(value) + "</"@ + tag + ">"@
                + xml.skip(p),
            None => xml,
        },
    }
}

/// Gives the tag `tag` the text `value` in `xml` (see `filled`).
pub fn fill_tag(xml: &str, tag: &str, value: &str) -> (r: String)
    ensures
        r@ == filled(xml@, tag@, value@),
{
    let x = chars_of(xml);
    let len = x.len();
    let tl = string_of(&lower_chars(&chars_of(tag)));
    match tag_span_exec(&x, tl.as_str()) {
        Some((a, b)) => {
            let inner = trim_chars(&slice_of(&x, a, b));
            if inner.len() == 0 {
                let mut out = slice_of(&x, 0, a);
                push_all(&mut out, &escape_chars(&chars_of(value)));
                push_all(&mut out, &slice_of(&x, b, len));
                proof {
                    assert(out@ =~= x@.take(a as int) + escaped(value@) + x@.skip(b as int));
                }
                return string_of(&out);
            }
            return xml.to_owned();
        },
        None => {},
    }
    let lower = lower_chars(&x);
    let close = chars_of("</comicinfo>");
    proof {
        crate::text::lemma_find_from(lower@, close@, 0);
    }
    match find_exec(&lower, &close) {
        Some(p) => {
            proof {
                assert(crate::text::occurs_at(lower@, close@, p as int));
            }
            let mut out = slice_of(&x, 0, p);
            push_all(&mut out, &chars_of("\n  <"));
            push_all(&mut out, &chars_of(tag));
            push_all(&mut out, &chars_of(">"));
            push_all(&mut out, &escape_chars(&chars_of(value)));
            push_all(&mut out, &chars_of("</"));
            push_all(&mut out, &chars_of(tag));
            push_all(&mut out, &chars_of(">"));
            push_all(&mut out, &slice_of(&x, p, len));
            proof {
                assert(out@ =~= x@.take(p as int) + "\n  <"@ + tag@ + ">"@ + escaped(value@) + "</"@
                    + tag@ + ">"@ + x@.skip(p as int));
            }
            string_of(&out)
        },
        None => xml.to_owned(),
    }
}

/// A fresh ComicInfo.xml with Series, Volume (when known) and Title.
pub open spec fn generated(series: Seq<char>, volume: Option<u32>, title: Seq<char>) -> Seq<char> {
    "<?xml version=\"1.0\"?>\n<ComicInfo>\n  <Series>"@ + escaped(series) + "</Series>\n"@ + match volume {
        Some(v) => "  <Volume>"@ + crate::text::fmt_dec(v as nat) + "</Volume>\n"@,
        None => Seq::empty(),
    } + "  <Title>"@ + escaped(title) + "</Title>\n"@ + "</ComicInfo>\n"@
}

/// Text of the ComicInfo.xml to write, given the existing one (`None` when
/// there is none): generated when missing or blank, else with empty or
/// missing Series, Volume and Title filled in.
pub open spec fn ensured(
    existing: Option<Seq<char>>,
    series: Seq<char>,
    volume: Option<u32>,
    title: Seq<char>,
) -> Seq<char> {
    let xml = match existing {
        Some(x) => x,
        None => Seq::empty(),
    };
    if trim(xml).len() == 0 {
        generated(series, volume, title)
    } else {
        let a = filled(xml, "Series"@, series);
        let b = match volume {
            Some(v) => filled(a, "Volume"@, crate::text::fmt_dec(v as nat)),
            None => a,
        };
        filled(b, "Title"@, title)
    }
}

proof fn lemma_trim_end_prefix(s: Seq<char>) -> (k: int)
    ensures
        0 <= k <= s.len(),
        trim_end(s) == s.take(k),
        crate::text::all_ws(s.skip(k)),
    decreases s.len(),
{
    if s.len() > 0 && crate::text::is_ws(s.last()) {
        let k = lemma_trim_end_prefix(s.drop_last());
        assert(s.drop_last().take(k) =~= s.take(k));
        assert forall|i: int| 0 <= i < s.skip(k).len() implies crate::text::is_ws(#[trigger] s.skip(k)[i]) by {
            if k + i < s.len() - 1 {
                assert(s.skip(k)[i] == s.drop_last().skip(k)[i]);
            } else {
                assert(s.skip(k)[i] == s.last());
            }
        }
        k
    } else {
        assert(s.take(s.len() as int) =~= s);
        s.len() as int
    }
}

proof fn lemma_trim_start_empty(s: Seq<char>)
    ensures
        trim_start(s).len() == 0 <==> crate::text::all_ws(s),
    decreases s.len(),
{
    if s.len() > 0 && crate::text::is_ws(s[0]) {
        lemma_trim_start_empty(s.drop_first());
        if crate::text::all_ws(s) {
            assert forall|i: int| 0 <= i < s.drop_first().len() implies crate::text::is_ws(#[trigger] s.drop_first()[i]) by {
                assert(s.drop_first()[i] == s[i + 1]);
            }
        }
        if trim_start(s).len() == 0 {
            assert forall|i: int| 0 <= i < s.len() implies crate::text::is_ws(#[trigger] s[i]) by {
                if i > 0 {
                    assert(s[i] == s.drop_first()[i - 1]);
                }
            }
        }
    }
}

/// Text with a non-blank part is not blank.
proof fn lemma_blank_parts(xml: Seq<char>, a: int, b: int)
    requires
        0 <= a <= b <= xml.len(),
        trim(xml.subrange(a, b)).len() > 0,
    ensures
        trim(xml).len() > 0,
{
    let sub = xml.subrange(a, b);
    let ks = lemma_trim_end_prefix(sub);
    lemma_trim_start_empty(sub.take(ks));
    let kx = lemma_trim_end_prefix(xml);
    lemma_trim_start_empty(xml.take(kx));
    if trim(xml).len() == 0 {
        // then every character of `xml` is whitespace, so is every one of `sub`
        assert forall|i: int| 0 <= i < xml.len() implies crate::text::is_ws(#[trigger] xml[i]) by {
            if i < kx {
                assert(xml[i] == xml.take(kx)[i]);
            } else {
                assert(xml[i] == xml.skip(kx)[i - kx]);
            }
        }
        assert forall|i: int| 0 <= i < sub.take(ks).len() implies crate::text::is_ws(#[trigger] sub.take(ks)[i]) by {
            assert(sub.take(ks)[i] == xml[a + i]);
        }
    }
}

proof fn lemma_tag_span_bounds(xml: Seq<char>, tag: Seq<char>)
    ensures
        tag_span(xml, tag) matches Some((a, b)) ==> 0 <= a <= b <= xml.len(),
{
    let lower = lower_seq(xml);
    crate::text::lemma_find_from(lower, open_tag(tag), 0);
    if let Some(start) = find(lower, open_tag(tag)) {
        let after = start + open_tag(tag).len();
        crate::text::lemma_find_from(lower.skip(after), close_tag(tag), 0);
    }
}

/// An existing ComicInfo.xml whose Series and Title have text, and whose
/// Volume has text when a volume is given, is written back unchanged.
pub proof fn lemma_complete_comicinfo_kept(xml: Seq<char>, series: Seq<char>, volume: Option<u32>, title: Seq<char>)
    requires
        tag_text(xml, "series"@) is Some,
        tag_text(xml, "title"@) is Some,
        volume is Some ==> tag_text(xml, "volume"@) is Some,
    ensures
        ensured(Some(xml), series, volume, title) == xml,
{
    reveal_strlit("Series");
    reveal_strlit("series");
    reveal_strlit("Volume");
    reveal_strlit("volume");
    reveal_strlit("Title");
    reveal_strlit("title");
    assert(lower_seq("Series"@) =~= "series"@);
    assert(lower_seq("Volume"@) =~= "volume"@);
    assert(lower_seq("Title"@) =~= "title"@);
    let (a, b) = tag_span(xml, "series"@)->0;
    lemma_tag_span_bounds(xml, "series"@);
    lemma_blank_parts(xml, a, b);
    if let Some(v) = volume {
        lemma_tag_span_bounds(xml, "volume"@);
    }
    lemma_tag_span_bounds(xml, "title"@);
}

pub fn ensure_text(existing: Option<String>, series: &str, volume: Option<u32>, title: &str) -> (r:
    String)
    ensures
        r@ == ensured(
            match existing {
                Some(x) => Some(x@),
                None => None,
            },
            series@,
            volume,
            title@,
        ),
{
    let xml = match existing {
        Some(x) => x,
        None => String::new(),
    };
    let xc = chars_of(xml.as_str());
    if trim_chars(&xc).len() == 0 {
        let mut out = chars_of("<?xml version=\"1.0\"?>\n<ComicInfo>\n  <Series>");
        push_all(&mut out, &escape_chars(&chars_of(series)));
        push_all(&mut out, &chars_of("</Series>\n"));
        let ghost after_series = out@;
        if let Some(v) = volume {
            push_all(&mut out, &chars_of("  <Volume>"));
            crate::text::push_dec(&mut out, v as u64);
            push_all(&mut out, &chars_of("</Volume>\n"));
        }
        let ghost after_volume = out@;
        push_all(&mut out, &chars_of("  <Title>"));
        push_all(&mut out, &escape_chars(&chars_of(title)));
        push_all(&mut out, &chars_of("</Title>\n"));
        push_all(&mut out, &chars_of("</ComicInfo>\n"));
        proof {
            let vpart = match volume {
                Some(v) => "  <Volume>"@ + crate::text::fmt_dec(v as nat) + "</Volume>\n"@,
                None => Seq::<char>::empty(),
            };
            assert(after_volume =~= after_series + vpart);
            assert(out@ =~= generated(series@, volume, title@));
        }
        return string_of(&out);
    }
    let a = fill_tag(xml.as_str(), "Series", series);
    let b = match volume {
        Some(v) => {
            let mut d: Vec<char> = Vec::new();
            crate::text::push_dec(&mut d, v as u64);
            proof {
                assert(d@ =~= crate::text::fmt_dec(v as nat));
            }
            fill_tag(a.as_str(), "Volume", string_of(&d).as_str())
        },
        None => a,
    };
    fill_tag(b.as_str(), "Title", title)
}

} // verus!
