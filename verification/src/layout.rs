//! Volume-unit detection over an extracted tree, and duplicate-volume
//! merging. Deterministic rules only: the tree is read from disk by the
//! caller, every decision about it is made here.
use vstd::prelude::*;

use crate::comicinfo::tag_number;
use crate::config::MangaConfig;
use crate::text::{chars_equal, chars_of, contains, contains_exec, eq_lit, lower_chars, lower_seq};
use crate::title::{parse_volume, volume_key_of, Confidence, KeyView, VolumeKey};

verus! {

/// Where a volume unit's pages live on disk.
#[derive(Debug)]
pub enum VolumeSource {
    Directory(String),
    Archive(String),
}

/// Mathematical value of a [`VolumeSource`].
pub enum SourceView {
    Directory(Seq<char>),
    Archive(Seq<char>),
}

impl View for VolumeSource {
    type V = SourceView;

    open spec fn view(&self) -> SourceView {
        match self {
            VolumeSource::Directory(p) => SourceView::Directory(p@),
            VolumeSource::Archive(p) => SourceView::Archive(p@),
        }
    }
}

/// One detected volume unit.
#[derive(Debug)]
pub struct VolumeUnit {
    pub source: VolumeSource,
    /// Directory that contains the pages (staging root for this volume).
    pub dir: String,
    /// Folder or archive stem name this unit was detected from.
    pub raw_name: String,
    pub page_count: u32,
    pub byte_size: u64,
    pub volume_key: VolumeKey,
    pub confidence: Confidence,
}

/// Mathematical value of a [`VolumeUnit`].
pub struct UnitView {
    pub source: SourceView,
    pub dir: Seq<char>,
    pub raw_name: Seq<char>,
    pub page_count: u32,
    pub byte_size: u64,
    pub key: KeyView,
    pub confidence: Confidence,
}

impl View for VolumeUnit {
    type V = UnitView;

    open spec fn view(&self) -> UnitView {
        UnitView {
            source: self.source@,
            dir: self.dir@,
            raw_name: self.raw_name@,
            page_count: self.page_count,
            byte_size: self.byte_size,
            key: self.volume_key@,
            confidence: self.confidence,
        }
    }
}

pub open spec fn unit_views(us: Seq<VolumeUnit>) -> Seq<UnitView> {
    Seq::new(us.len(), |i: int| us[i]@)
}

/// One directory of an extracted tree, as read from disk: its path and
/// name, the image files and bytes directly inside it, the text of a
/// `ComicInfo.xml` directly inside it, and its subdirectories.
pub struct DirTree {
    pub path: String,
    pub name: String,
    pub direct_images: usize,
    pub direct_bytes: u64,
    pub comicinfo: Option<String>,
    pub children: Vec<DirTree>,
}

// ---------------------------------------------------------------------------
// Measures of a tree
// ---------------------------------------------------------------------------
/// Images in a directory and all its descendants.
pub open spec fn total_images(t: DirTree) -> nat
    decreases t,
{
    (t.direct_images + forest_images(t.children@)) as nat
}

/// Images in a list of subtrees.
pub open spec fn forest_images(ts: Seq<DirTree>) -> nat
    decreases ts,
{
    if ts.len() == 0 {
        0
    } else {
        forest_images(ts.subrange(0, ts.len() - 1)) + total_images(ts[ts.len() - 1])
    }
}

/// Bytes of the files in a directory and all its descendants.
pub open spec fn total_bytes(t: DirTree) -> nat
    decreases t,
{
    (t.direct_bytes + forest_bytes(t.children@)) as nat
}

/// Bytes in a list of subtrees.
pub open spec fn forest_bytes(ts: Seq<DirTree>) -> nat
    decreases ts,
{
    if ts.len() == 0 {
        0
    } else {
        forest_bytes(ts.subrange(0, ts.len() - 1)) + total_bytes(ts[ts.len() - 1])
    }
}

// ---------------------------------------------------------------------------
// Volume detection
// ---------------------------------------------------------------------------
/// Names of directories that hold a volume's pages one level down
/// (`Vol 01/images/...`, `Vol 01/本編/...`), compared without regard to
/// ASCII case; such directories are never volumes themselves.
pub open spec fn image_dir_name(name: Seq<char>) -> bool {
    let l = lower_seq(name);
    ||| l == "images"@
    ||| l == "image"@
    ||| l == "pages"@
    ||| l == "page"@
    ||| l == "scans"@
    ||| l == "scan"@
    ||| l == "本編"@
}

pub fn is_image_dir_name(name: &str) -> (r: bool)
    ensures
        r == image_dir_name(name@),
{
    let l = lower_chars(&chars_of(name));
    let r = eq_lit(&l, "images") || eq_lit(&l, "image") || eq_lit(&l, "pages") || eq_lit(&l, "page")
        || eq_lit(&l, "scans") || eq_lit(&l, "scan") || eq_lit(&l, "本編");
    r
}

/// Images of the subtrees among `ts` whose names mark image folders.
pub open spec fn image_dir_images(ts: Seq<DirTree>) -> nat
    decreases ts.len(),
{
    if ts.len() == 0 {
        0
    } else {
        image_dir_images(ts.drop_last()) + if image_dir_name(ts.last().name@) {
            total_images(ts.last())
        } else {
            0
        }
    }
}

/// Pages a directory offers as a volume: its own images and those of its
/// image folders.
pub open spec fn candidate_pages(t: DirTree) -> nat {
    (t.direct_images + image_dir_images(t.children@)) as nat
}

/// A directory is a volume when it is not an image folder, offers at least
/// `threshold` pages, and no subdirectory of it is a volume (so wrapper
/// folders are unwrapped).
pub open spec fn is_unit(t: DirTree, threshold: nat) -> bool
    decreases t,
{
    &&& !image_dir_name(t.name@)
    &&& candidate_pages(t) >= threshold
    &&& !any_unit(t.children@, threshold)
}

/// Some tree of `ts` is a volume.
pub open spec fn any_unit(ts: Seq<DirTree>, threshold: nat) -> bool
    decreases ts,
{
    if ts.len() == 0 {
        false
    } else {
        any_unit(ts.subrange(0, ts.len() - 1), threshold) || is_unit(ts[ts.len() - 1], threshold)
    }
}

/// The volume number a `ComicInfo.xml` gives: `<Volume>`, else `<Number>`.
pub open spec fn comicinfo_volume(xml: Seq<char>) -> Option<u32> {
    match tag_number(xml, "volume"@) {
        Some(v) => Some(v),
        None => tag_number(xml, "number"@),
    }
}

/// A unit's key: the `ComicInfo.xml` volume number wins, else the name is
/// parsed.
pub open spec fn resolved_key(comicinfo: Option<Seq<char>>, raw_name: Seq<char>) -> KeyView {
    match comicinfo {
        Some(xml) => match comicinfo_volume(xml) {
            Some(n) => KeyView::Number(n),
            None => volume_key_of(raw_name),
        },
        None => volume_key_of(raw_name),
    }
}

pub open spec fn opt_view(o: Option<String>) -> Option<Seq<char>> {
    match o {
        Some(s) => Some(s@),
        None => None,
    }
}

/// The unit a volume directory becomes, named `raw_name`.
pub open spec fn unit_of(t: DirTree, raw_name: Seq<char>) -> UnitView {
    let key = resolved_key(opt_view(t.comicinfo), raw_name);
    UnitView {
        source: SourceView::Directory(t.path@),
        dir: t.path@,
        raw_name,
        page_count: total_images(t) as u32,
        byte_size: total_bytes(t) as u64,
        key,
        confidence: if key is Unknown {
            Confidence::Low
        } else {
            Confidence::High
        },
    }
}

/// The units of a tree, deepest first: those of its subdirectories, then
/// the directory itself (named `raw_name`) when it is a volume.
pub open spec fn subtree_units(t: DirTree, threshold: nat, raw_name: Seq<char>) -> Seq<UnitView>
    decreases t,
{
    forest_units(t.children@, threshold) + if is_unit(t, threshold) {
        seq![unit_of(t, raw_name)]
    } else {
        Seq::empty()
    }
}

/// The units of a list of subtrees, each named by its folder name.
pub open spec fn forest_units(ts: Seq<DirTree>, threshold: nat) -> Seq<UnitView>
    decreases ts,
{
    if ts.len() == 0 {
        Seq::empty()
    } else {
        forest_units(ts.subrange(0, ts.len() - 1), threshold) + subtree_units(
            ts[ts.len() - 1],
            threshold,
            ts[ts.len() - 1].name@,
        )
    }
}

/// Image folders are never volumes, and neither is a folder with a volume
/// directly inside it (a wrapper).
pub proof fn lemma_what_is_never_a_unit(t: DirTree, threshold: nat)
    requires
        image_dir_name(t.name@) || any_unit(t.children@, threshold),
    ensures
        !is_unit(t, threshold),
{
}

proof fn lemma_forest_images_prefix(ts: Seq<DirTree>, i: int)
    requires
        0 <= i <= ts.len(),
    ensures
        forest_images(ts.subrange(0, i)) <= forest_images(ts),
    decreases ts.len(),
{
    if i < ts.len() {
        let d = ts.subrange(0, ts.len() - 1);
        lemma_forest_images_prefix(d, i);
        assert(d.subrange(0, i) =~= ts.subrange(0, i));
    } else {
        assert(ts.subrange(0, i) =~= ts);
    }
}

proof fn lemma_forest_bytes_prefix(ts: Seq<DirTree>, i: int)
    requires
        0 <= i <= ts.len(),
    ensures
        forest_bytes(ts.subrange(0, i)) <= forest_bytes(ts),
    decreases ts.len(),
{
    if i < ts.len() {
        let d = ts.subrange(0, ts.len() - 1);
        lemma_forest_bytes_prefix(d, i);
        assert(d.subrange(0, i) =~= ts.subrange(0, i));
    } else {
        assert(ts.subrange(0, i) =~= ts);
    }
}

proof fn lemma_image_dir_images_le(ts: Seq<DirTree>)
    ensures
        image_dir_images(ts) <= forest_images(ts),
    decreases ts.len(),
{
    if ts.len() > 0 {
        lemma_image_dir_images_le(ts.drop_last());
        assert(ts.drop_last() =~= ts.subrange(0, ts.len() - 1));
    }
}

/// Collects the units of `t` (named `raw_name`) after those already in
/// `out`; returns the tree's image and byte totals and whether it is a
/// volume itself.
fn scan(t: &DirTree, threshold: usize, raw_name: &str, out: &mut Vec<VolumeUnit>) -> (r: (usize, u64, bool))
    requires
        total_images(*t) <= usize::MAX,
        total_bytes(*t) <= u64::MAX,
    ensures
        r.0 == total_images(*t),
        r.1 == total_bytes(*t),
        r.2 == is_unit(*t, threshold as nat),
        unit_views(final(out)@) == unit_views(old(out)@) + subtree_units(*t, threshold as nat, raw_name@),
    decreases t,
{
    let ghost kids = t.children@;
    let ghost start = unit_views(out@);
    let mut images: usize = t.direct_images;
    let mut bytes: u64 = t.direct_bytes;
    let mut candidate: usize = t.direct_images;
    let mut child_unit = false;
    let mut i: usize = 0;
    proof {
        assert(kids.subrange(0, 0) =~= Seq::<DirTree>::empty());
    }
    while i < t.children.len()
        invariant
            kids == t.children@,
            i <= kids.len(),
            total_images(*t) <= usize::MAX,
            total_bytes(*t) <= u64::MAX,
            images == t.direct_images + forest_images(kids.subrange(0, i as int)),
            bytes == t.direct_bytes + forest_bytes(kids.subrange(0, i as int)),
            candidate == t.direct_images + image_dir_images(kids.subrange(0, i as int)),
            child_unit == any_unit(kids.subrange(0, i as int), threshold as nat),
            unit_views(out@) == start + forest_units(kids.subrange(0, i as int), threshold as nat),
        decreases kids.len() - i,
    {
        let c = &t.children[i];
        let ghost pre = kids.subrange(0, i as int);
        let ghost next = kids.subrange(0, i + 1);
        proof {
            assert(next.subrange(0, i as int) =~= pre);
            assert(next[i as int] == kids[i as int]);
            assert(next.drop_last() =~= pre);
            lemma_forest_images_prefix(kids, i + 1);
            lemma_forest_bytes_prefix(kids, i + 1);
            lemma_image_dir_images_le(next);
            assert(total_images(*t) == t.direct_images + forest_images(kids));
            assert(total_bytes(*t) == t.direct_bytes + forest_bytes(kids));
        }
        let (ci, cb, cu) = scan(c, threshold, c.name.as_str(), out);
        images = images + ci;
        bytes = bytes + cb;
        if is_image_dir_name(c.name.as_str()) {
            candidate = candidate + ci;
        }
        child_unit = child_unit || cu;
        proof {
            assert(start + forest_units(pre, threshold as nat) + subtree_units(kids[i as int], threshold as nat, kids[i as int].name@)
                =~= start + forest_units(next, threshold as nat));
        }
        i = i + 1;
    }
    proof {
        assert(kids.subrange(0, kids.len() as int) =~= kids);
        assert(images == total_images(*t));
        assert(bytes == total_bytes(*t));
        assert(candidate == candidate_pages(*t));
        assert(child_unit == any_unit(t.children@, threshold as nat));
    }
    let unit = !is_image_dir_name(t.name.as_str()) && candidate >= threshold && !child_unit;
    if unit {
        let key = resolve_key(&t.comicinfo, raw_name);
        let confidence = match key {
            VolumeKey::Unknown => Confidence::Low,
            _ => Confidence::High,
        };
        out.push(
            VolumeUnit {
                source: VolumeSource::Directory(t.path.clone()),
                dir: t.path.clone(),
                raw_name: raw_name.to_owned(),
                page_count: images as u32,
                byte_size: bytes,
                volume_key: key,
                confidence,
            },
        );
        proof {
            assert(is_unit(*t, threshold as nat));
            let u = unit_of(*t, raw_name@);
            assert(out@.last()@ == u);
            assert(unit_views(out@) =~= unit_views(old(out)@) + forest_units(kids, threshold as nat) + seq![u]);
            assert(unit_views(out@) =~= start + subtree_units(*t, threshold as nat, raw_name@));
        }
    } else {
        proof {
            assert(unit_views(out@) =~= start + subtree_units(*t, threshold as nat, raw_name@));
        }
    }
    (images, bytes, unit)
}

/// Volume key for a unit: the `ComicInfo.xml` `<Volume>`/`<Number>` wins,
/// otherwise the folder or archive name is parsed.
pub fn resolve_key(comicinfo: &Option<String>, raw_name: &str) -> (k: VolumeKey)
    ensures
        k@ == resolved_key(opt_view(*comicinfo), raw_name@),
{
    if let Some(xml) = comicinfo {
        let ci = crate::comicinfo::parse(xml.as_str());
        if let Some(n) = ci.volume_number() {
            return VolumeKey::Number(n);
        }
    }
    parse_volume(raw_name)
}

// ---------------------------------------------------------------------------
// Processing order
// ---------------------------------------------------------------------------
/// Lexicographic order of texts by character code (the order of `str`'s `<`,
/// since UTF-8 keeps the order of code points).
pub open spec fn lex_lt(a: Seq<char>, b: Seq<char>) -> bool
    decreases a.len(),
{
    if b.len() == 0 {
        false
    } else if a.len() == 0 {
        true
    } else if a[0] != b[0] {
        (a[0] as u32) < (b[0] as u32)
    } else {
        lex_lt(a.drop_first(), b.drop_first())
    }
}

proof fn lemma_lex_lt_asym(a: Seq<char>, b: Seq<char>)
    ensures
        lex_lt(a, b) ==> !lex_lt(b, a),
    decreases a.len(),
{
    if a.len() > 0 && b.len() > 0 && a[0] == b[0] {
        lemma_lex_lt_asym(a.drop_first(), b.drop_first());
    }
}

pub fn lex_lt_exec(a: &[char], b: &[char]) -> (r: bool)
    ensures
        r == lex_lt(a@, b@),
{
    let mut i: usize = 0;
    proof {
        assert(a@.skip(0) =~= a@);
        assert(b@.skip(0) =~= b@);
    }
    while i < a.len() && i < b.len() && a[i] == b[i]
        invariant
            i <= a@.len(),
            i <= b@.len(),
            lex_lt(a@, b@) == lex_lt(a@.skip(i as int), b@.skip(i as int)),
        decreases a.len() - i,
    {
        proof {
            assert(a@.skip(i as int).drop_first() =~= a@.skip(i + 1));
            assert(b@.skip(i as int).drop_first() =~= b@.skip(i + 1));
        }
        i += 1;
    }
    if i == b.len() {
        false
    } else if i == a.len() {
        true
    } else {
        (a[i] as u32) < (b[i] as u32)
    }
}

/// Processing order of a unit: numbers, then parts, extras (by label),
/// unknowns (by name).
pub open spec fn order_rank(u: UnitView) -> (u8, u32, Seq<char>) {
    match u.key {
        KeyView::Number(n) => (0u8, n, Seq::empty()),
        KeyView::Part(p) => (1u8, p.spec_number(), Seq::empty()),
        KeyView::Extra(label) => (2u8, 0u32, label),
        KeyView::Unknown => (3u8, 0u32, u.raw_name),
    }
}

/// `a` is ordered strictly after `b`.
pub open spec fn comes_after(a: UnitView, b: UnitView) -> bool {
    let x = order_rank(a);
    let y = order_rank(b);
    ||| x.0 > y.0
    ||| x.0 == y.0 && x.1 > y.1
    ||| x.0 == y.0 && x.1 == y.1 && lex_lt(y.2, x.2)
}

/// `s` with `x` placed after every unit not ordered after it.
pub open spec fn insert_unit(s: Seq<UnitView>, x: UnitView) -> Seq<UnitView>
    decreases s.len(),
{
    if s.len() == 0 || !comes_after(s.last(), x) {
        s.push(x)
    } else {
        insert_unit(s.drop_last(), x).push(s.last())
    }
}

/// `s` in processing order; units of equal order keep their order.
pub open spec fn sort_units(s: Seq<UnitView>) -> Seq<UnitView>
    decreases s.len(),
{
    if s.len() == 0 {
        Seq::empty()
    } else {
        insert_unit(sort_units(s.drop_last()), s.last())
    }
}

/// No unit is ordered after the one that follows it.
pub open spec fn units_ordered(s: Seq<UnitView>) -> bool {
    forall|i: int, j: int| #![trigger s[i], s[j]] 0 <= i && j == i + 1 && j < s.len() ==> !comes_after(s[i], s[j])
}

proof fn lemma_comes_after_asym(a: UnitView, b: UnitView)
    ensures
        comes_after(a, b) ==> !comes_after(b, a),
{
    lemma_lex_lt_asym(order_rank(b).2, order_rank(a).2);
}

proof fn lemma_insert_unit(s: Seq<UnitView>, x: UnitView)
    requires
        units_ordered(s),
    ensures
        units_ordered(insert_unit(s, x)),
        insert_unit(s, x).to_multiset() == s.to_multiset().insert(x),
        insert_unit(s, x).len() == s.len() + 1,
        insert_unit(s, x).last() == x || (s.len() > 0 && insert_unit(s, x).last() == s.last()),
    decreases s.len(),
{
    broadcast use vstd::seq_lib::group_to_multiset_ensures;

    if s.len() == 0 || !comes_after(s.last(), x) {
        let r = s.push(x);
        assert forall|i: int, j: int| #![trigger r[i], r[j]] 0 <= i && j == i + 1 && j < r.len() implies !comes_after(r[i], r[j]) by {
            if j < s.len() {
                assert(s[i] == r[i] && s[j] == r[j]);
            } else {
                assert(r[i] == s.last());
            }
        }
    } else {
        let t = s.drop_last();
        assert(units_ordered(t)) by {
            assert forall|i: int, j: int| #![trigger t[i], t[j]] 0 <= i && j == i + 1 && j < t.len() implies !comes_after(t[i], t[j]) by {
                assert(s[i] == t[i] && s[j] == t[j]);
            }
        }
        lemma_insert_unit(t, x);
        let q = insert_unit(t, x);
        let r = q.push(s.last());
        assert(!comes_after(q.last(), s.last())) by {
            lemma_comes_after_asym(s.last(), x);
            if t.len() > 0 && q.last() == t.last() {
                assert(t.last() == s[s.len() - 2]);
            }
        }
        assert forall|i: int, j: int| #![trigger r[i], r[j]] 0 <= i && j == i + 1 && j < r.len() implies !comes_after(r[i], r[j]) by {
            if j < q.len() {
                assert(q[i] == r[i] && q[j] == r[j]);
            } else {
                assert(r[i] == q.last());
            }
        }
        assert(s =~= t.push(s.last()));
    }
}

/// Sorting into processing order yields an ordered rearrangement of the
/// same units.
pub proof fn lemma_sort_units(s: Seq<UnitView>)
    ensures
        units_ordered(sort_units(s)),
        sort_units(s).to_multiset() == s.to_multiset(),
    decreases s.len(),
{
    broadcast use vstd::seq_lib::group_to_multiset_ensures;

    if s.len() > 0 {
        lemma_sort_units(s.drop_last());
        lemma_insert_unit(sort_units(s.drop_last()), s.last());
        assert(s =~= s.drop_last().push(s.last()));
    }
}

/// Processing order of a unit as a key: numbers, then parts, extras (by
/// label), unknowns (by name).
pub fn unit_order(u: &VolumeUnit) -> (r: (u8, u32, String))
    ensures
        (r.0, r.1, r.2@) == order_rank(u@),
{
    match &u.volume_key {
        VolumeKey::Number(n) => (0, *n, String::new()),
        VolumeKey::Part(p) => (1, p.number(), String::new()),
        VolumeKey::Extra { label } => (2, 0, label.clone()),
        VolumeKey::Unknown => (3, 0, u.raw_name.clone()),
    }
}

fn comes_after_exec(a: &VolumeUnit, b: &VolumeUnit) -> (r: bool)
    ensures
        r == comes_after(a@, b@),
{
    let x = unit_order(a);
    let y = unit_order(b);
    if x.0 != y.0 {
        x.0 > y.0
    } else if x.1 != y.1 {
        x.1 > y.1
    } else {
        lex_lt_exec(&chars_of(y.2.as_str()), &chars_of(x.2.as_str()))
    }
}

proof fn lemma_unit_views_insert(s: Seq<VolumeUnit>, p: int, x: VolumeUnit)
    requires
        0 <= p <= s.len(),
    ensures
        unit_views(s.insert(p, x)) == unit_views(s).take(p).push(x@) + unit_views(s).skip(p),
{
    assert(unit_views(s.insert(p, x)) =~= unit_views(s).take(p).push(x@) + unit_views(s).skip(p));
}

/// Puts units into processing order, keeping the order of units whose
/// order is equal.
pub fn sort_by_order(v: Vec<VolumeUnit>) -> (r: Vec<VolumeUnit>)
    ensures
        unit_views(r@) == sort_units(unit_views(v@)),
{
    let ghost all = unit_views(v@);
    let mut src = v;
    let mut r: Vec<VolumeUnit> = Vec::new();
    let ghost mut done: int = 0;
    proof {
        assert(all.take(0) =~= Seq::<UnitView>::empty());
        assert(unit_views(src@) =~= all.skip(0));
    }
    while src.len() > 0
        invariant
            0 <= done <= all.len(),
            unit_views(src@) == all.skip(done),
            unit_views(r@) == sort_units(all.take(done)),
        decreases src.len(),
    {
        let x = src.remove(0);
        proof {
            assert(unit_views(src@) =~= all.skip(done + 1)) by {
                assert(all.skip(done).drop_first() =~= all.skip(done + 1));
            }
            assert(x@ == all[done]) by {
                assert(all.skip(done)[0] == all[done]);
            }
            assert(all.take(done + 1).drop_last() =~= all.take(done));
            assert(all.take(done + 1).last() == all[done]);
        }
        let ghost rv = unit_views(r@);
        let mut p: usize = r.len();
        proof {
            assert(rv.take(p as int) =~= rv);
            assert(rv.skip(p as int) =~= Seq::<UnitView>::empty());
            assert(insert_unit(rv, x@) =~= insert_unit(rv.take(p as int), x@) + rv.skip(p as int));
        }
        while p > 0 && comes_after_exec(&r[p - 1], &x)
            invariant
                p <= r@.len(),
                rv == unit_views(r@),
                insert_unit(rv, x@) == insert_unit(rv.take(p as int), x@) + rv.skip(p as int),
            decreases p,
        {
            proof {
                assert(rv.take(p as int).drop_last() =~= rv.take(p - 1));
                assert(rv.take(p as int).last() == rv[p - 1]);
                assert(rv[p - 1] == r@[p - 1]@);
                assert(rv.skip(p - 1) =~= seq![rv[p - 1]] + rv.skip(p as int));
                assert(insert_unit(rv.take(p - 1), x@).push(rv[p - 1]) + rv.skip(p as int)
                    =~= insert_unit(rv.take(p - 1), x@) + rv.skip(p - 1));
            }
            p -= 1;
        }
        proof {
            if p > 0 {
                assert(rv.take(p as int).last() == rv[p - 1]);
                assert(rv[p - 1] == r@[p - 1]@);
            }
            assert(insert_unit(rv.take(p as int), x@) == rv.take(p as int).push(x@));
            lemma_unit_views_insert(r@, p as int, x);
        }
        r.insert(p, x);
        proof {
            done = done + 1;
        }
    }
    proof {
        assert(all.skip(done).len() == 0);
        assert(all.take(done) =~= all);
    }
    r
}

/// Detects the volume units of an extracted tree rooted at `root`, in
/// processing order. `outer_stem` names the root when it is a unit itself
/// (a flat input). A directory is a volume when it holds at least
/// `manga_image_threshold` images directly, or one level below in image
/// folders, and none of its subdirectories is a volume.
pub fn find_volumes(root: &DirTree, cfg: &MangaConfig, outer_stem: &str) -> (r: Vec<VolumeUnit>)
    requires
        total_images(*root) <= usize::MAX,
        total_bytes(*root) <= u64::MAX,
    ensures
        unit_views(r@) == sort_units(subtree_units(*root, cfg.manga_image_threshold as nat, outer_stem@)),
{
    let mut units: Vec<VolumeUnit> = Vec::new();
    let _ = scan(root, cfg.manga_image_threshold, outer_stem, &mut units);
    proof {
        assert(unit_views(Seq::<VolumeUnit>::empty()) =~= Seq::<UnitView>::empty());
        assert(unit_views(units@) =~= subtree_units(*root, cfg.manga_image_threshold as nat, outer_stem@));
    }
    sort_by_order(units)
}

// ---------------------------------------------------------------------------
// Duplicate volumes
// ---------------------------------------------------------------------------
/// A folded name that looks like a duplicate copy (scan copies, alternative
/// rips).
pub open spec fn dup_word(l: Seq<char>) -> bool {
    ||| contains(l, "コピー"@)
    ||| contains(l, "copy"@)
    ||| contains(l, "scan"@)
    ||| contains(l, "alt"@)
    ||| contains(l, "仮"@)
}

/// 1 for a duplicate-looking name, else 0. Names are folded by ASCII case:
/// no letter of the keywords is the lower case of a non-ASCII letter, so
/// full case folding decides the same.
pub open spec fn dup_penalty(u: UnitView) -> nat {
    if dup_word(lower_seq(u.raw_name)) {
        1
    } else {
        0
    }
}

fn dup_penalty_exec(u: &VolumeUnit) -> (r: usize)
    ensures
        r == dup_penalty(u@),
{
    let l = lower_chars(&chars_of(u.raw_name.as_str()));
    if contains_exec(&l, &chars_of("コピー")) || contains_exec(&l, &chars_of("copy"))
        || contains_exec(&l, &chars_of("scan")) || contains_exec(&l, &chars_of("alt"))
        || contains_exec(&l, &chars_of("仮")) {
        1
    } else {
        0
    }
}

/// `a` ranks strictly before `b` as the copy to keep: more pages, then more
/// bytes, then a cleaner name, then the smaller name.
pub open spec fn better_than(a: UnitView, b: UnitView) -> bool {
    ||| a.page_count > b.page_count
    ||| a.page_count == b.page_count && a.byte_size > b.byte_size
    ||| a.page_count == b.page_count && a.byte_size == b.byte_size && dup_penalty(a) < dup_penalty(b)
    ||| a.page_count == b.page_count && a.byte_size == b.byte_size && dup_penalty(a) == dup_penalty(b)
        && lex_lt(a.raw_name, b.raw_name)
}

/// Whether `a` ranks strictly before `b` as the copy to keep.
pub fn better(a: &VolumeUnit, b: &VolumeUnit) -> (r: bool)
    ensures
        r == better_than(a@, b@),
{
    let pa = dup_penalty_exec(a);
    let pb = dup_penalty_exec(b);
    a.page_count > b.page_count || (a.page_count == b.page_count && (a.byte_size > b.byte_size || (
    a.byte_size == b.byte_size && (pa < pb || (pa == pb && lex_lt_exec(
        &chars_of(a.raw_name.as_str()),
        &chars_of(b.raw_name.as_str()),
    ))))))
}

/// The copy kept from a group: the first of those no other copy ranks
/// before.
pub open spec fn best_of(g: Seq<UnitView>) -> UnitView
    decreases g.len(),
{
    if g.len() <= 1 {
        g[0]
    } else {
        let b = best_of(g.drop_last());
        if better_than(g.last(), b) {
            g.last()
        } else {
            b
        }
    }
}

pub open spec fn max_pages(g: Seq<UnitView>) -> u32
    decreases g.len(),
{
    if g.len() == 0 {
        0
    } else {
        let m = max_pages(g.drop_last());
        if g.last().page_count > m {
            g.last().page_count
        } else {
            m
        }
    }
}

pub open spec fn min_pages(g: Seq<UnitView>) -> u32
    decreases g.len(),
{
    if g.len() == 0 {
        0
    } else if g.len() == 1 {
        g[0].page_count
    } else {
        let m = min_pages(g.drop_last());
        if g.last().page_count < m {
            g.last().page_count
        } else {
            m
        }
    }
}

/// Copies of a volume whose page counts differ by more than 10 pages and
/// more than a fifth of the largest, none of them duplicate-looking, are
/// distinct releases (a normal and a special edition).
pub open spec fn distinct_releases(g: Seq<UnitView>) -> bool {
    let diff = max_pages(g) - min_pages(g);
    &&& forall|i: int| 0 <= i < g.len() ==> dup_penalty(#[trigger] g[i]) == 0
    &&& diff > 10
    &&& diff > max_pages(g) / 5
}

pub open spec fn with_low(u: UnitView) -> UnitView {
    UnitView { confidence: Confidence::Low, ..u }
}

/// What a group of units sharing a key becomes: a single unit stays; distinct
/// releases are all kept with low confidence; otherwise the best copy alone.
pub open spec fn resolve_group(g: Seq<UnitView>) -> Seq<UnitView> {
    if g.len() <= 1 {
        g
    } else if distinct_releases(g) {
        Seq::new(g.len(), |i: int| with_low(g[i]))
    } else {
        seq![best_of(g)]
    }
}

/// The units of `s` with key `k`, in order.
pub open spec fn with_key(s: Seq<UnitView>, k: KeyView) -> Seq<UnitView>
    decreases s.len(),
{
    if s.len() == 0 {
        Seq::empty()
    } else {
        with_key(s.drop_last(), k) + if s.last().key == k {
            seq![s.last()]
        } else {
            Seq::empty()
        }
    }
}

/// No unit before position `i` has the key of unit `i`.
pub open spec fn first_of_key(s: Seq<UnitView>, i: int) -> bool {
    forall|j: int| 0 <= j < i ==> #[trigger] s[j].key != s[i].key
}

/// The resolved groups of the keys first met among the first `n` units.
pub open spec fn grouped(s: Seq<UnitView>, n: int) -> Seq<UnitView>
    decreases n,
{
    if n <= 0 {
        Seq::empty()
    } else {
        grouped(s, n - 1) + if first_of_key(s, n - 1) {
            resolve_group(with_key(s, s[n - 1].key))
        } else {
            Seq::empty()
        }
    }
}

/// What deduplication makes of `s`.
pub open spec fn deduped(s: Seq<UnitView>, enabled: bool) -> Seq<UnitView> {
    if enabled {
        sort_units(grouped(s, s.len() as int))
    } else {
        s
    }
}

pub fn keys_equal(a: &VolumeKey, b: &VolumeKey) -> (r: bool)
    ensures
        r == (a@ == b@),
{
    match (a, b) {
        (VolumeKey::Number(x), VolumeKey::Number(y)) => *x == *y,
        (VolumeKey::Part(x), VolumeKey::Part(y)) => x.number() == y.number(),
        (VolumeKey::Extra { label: x }, VolumeKey::Extra { label: y }) => chars_equal(
            &chars_of(x.as_str()),
            &chars_of(y.as_str()),
        ),
        (VolumeKey::Unknown, VolumeKey::Unknown) => true,
        _ => false,
    }
}

fn copy_key(k: &VolumeKey) -> (r: VolumeKey)
    ensures
        r@ == k@,
{
    match k {
        VolumeKey::Number(n) => VolumeKey::Number(*n),
        VolumeKey::Part(p) => VolumeKey::Part(*p),
        VolumeKey::Extra { label } => VolumeKey::Extra { label: label.clone() },
        VolumeKey::Unknown => VolumeKey::Unknown,
    }
}

/// A copy of a unit.
pub fn copy_unit(u: &VolumeUnit) -> (r: VolumeUnit)
    ensures
        r@ == u@,
{
    VolumeUnit {
        source: match &u.source {
            VolumeSource::Directory(p) => VolumeSource::Directory(p.clone()),
            VolumeSource::Archive(p) => VolumeSource::Archive(p.clone()),
        },
        dir: u.dir.clone(),
        raw_name: u.raw_name.clone(),
        page_count: u.page_count,
        byte_size: u.byte_size,
        volume_key: copy_key(&u.volume_key),
        confidence: u.confidence,
    }
}

fn collect_group(units: &Vec<VolumeUnit>, key: &VolumeKey) -> (g: Vec<VolumeUnit>)
    ensures
        unit_views(g@) == with_key(unit_views(units@), key@),
{
    let ghost s = unit_views(units@);
    let mut g: Vec<VolumeUnit> = Vec::new();
    let mut k: usize = 0;
    proof {
        assert(unit_views(g@) =~= with_key(s.take(0), key@));
    }
    while k < units.len()
        invariant
            s == unit_views(units@),
            k <= units@.len(),
            unit_views(g@) == with_key(s.take(k as int), key@),
        decreases units.len() - k,
    {
        proof {
            assert(s.take(k + 1).drop_last() =~= s.take(k as int));
            assert(s.take(k + 1).last() == units@[k as int]@);
        }
        if keys_equal(&units[k].volume_key, key) {
            let c = copy_unit(&units[k]);
            g.push(c);
            proof {
                assert(unit_views(g@) =~= with_key(s.take(k as int), key@) + seq![c@]);
            }
        }
        k += 1;
    }
    proof {
        assert(s.take(units@.len() as int) =~= s);
    }
    g
}

proof fn lemma_best_of_in(g: Seq<UnitView>)
    requires
        g.len() > 0,
    ensures
        g.contains(best_of(g)),
    decreases g.len(),
{
    if g.len() > 1 {
        lemma_best_of_in(g.drop_last());
        if !better_than(g.last(), best_of(g.drop_last())) {
            let j = choose|j: int| 0 <= j < g.drop_last().len() && g.drop_last()[j] == best_of(g.drop_last());
            assert(g[j] == best_of(g));
        } else {
            assert(g[g.len() - 1] == best_of(g));
        }
    } else {
        assert(g[0] == best_of(g));
    }
}

/// Appends what the group `g` (units sharing a key) resolves to.
fn resolve_into(g: Vec<VolumeUnit>, out: &mut Vec<VolumeUnit>)
    requires
        g@.len() > 0,
    ensures
        unit_views(final(out)@) == unit_views(old(out)@) + resolve_group(unit_views(g@)),
{
    let ghost gv = unit_views(g@);
    let ghost start = unit_views(out@);
    if g.len() <= 1 {
        let mut g = g;
        let x = g.pop().unwrap();
        out.push(x);
        proof {
            assert(unit_views(out@) =~= start + gv);
        }
        return;
    }
    let mut max: u32 = 0;
    let mut min: u32 = g[0].page_count;
    let mut clean = true;
    let mut best: usize = 0;
    let mut k: usize = 0;
    while k < g.len()
        invariant
            gv == unit_views(g@),
            gv.len() > 1,
            k <= gv.len(),
            best < gv.len(),
            k > 0 ==> max == max_pages(gv.take(k as int)),
            k == 0 ==> max == 0,
            k > 0 ==> min == min_pages(gv.take(k as int)),
            k == 0 ==> min == gv[0].page_count,
            clean == forall|i: int| 0 <= i < k ==> dup_penalty(#[trigger] gv[i]) == 0,
            k > 0 ==> gv[best as int] == best_of(gv.take(k as int)),
            k == 0 ==> best == 0,
        decreases gv.len() - k,
    {
        let ghost t = gv.take(k + 1);
        proof {
            assert(t.drop_last() =~= gv.take(k as int));
            assert(t.last() == gv[k as int]);
            assert(gv[k as int] == g@[k as int]@);
            assert(gv[best as int] == g@[best as int]@);
            if k == 0 {
                assert(t.len() == 1);
                assert(max_pages(t.drop_last()) == 0);
            }
        }
        let pc = g[k].page_count;
        if pc > max {
            max = pc;
        }
        if k > 0 && pc < min {
            min = pc;
        }
        if dup_penalty_exec(&g[k]) != 0 {
            clean = false;
        }
        if k > 0 {
            let wins = better(&g[k], &g[best]);
            if wins {
                best = k;
            }
        }
        proof {
            assert forall|i: int| 0 <= i < k + 1 implies dup_penalty(#[trigger] gv[i]) == 0 || !clean by {}
        }
        k += 1;
    }
    proof {
        assert(gv.take(gv.len() as int) =~= gv);
    }
    let diff: u32 = max - min;
    if clean && diff > 10 && diff > max / 5 {
        let mut k: usize = 0;
        let mut src = g;
        proof {
            assert(gv.len() == g@.len());
        }
        while src.len() > 0
            invariant
                k <= gv.len(),
                gv.len() <= usize::MAX,
                unit_views(src@) == gv.skip(k as int),
                unit_views(out@) == start + Seq::new(k as nat, |i: int| with_low(gv[i])),
            decreases src.len(),
        {
            proof {
                assert(unit_views(src@).len() == src@.len());
                assert(gv.skip(k as int)[0] == gv[k as int]);
                assert(gv.skip(k as int).drop_first() =~= gv.skip(k + 1));
                assert(src@[0]@ == gv[k as int]);
            }
            let ghost before = src@;
            let mut x = src.remove(0);
            proof {
                assert(unit_views(src@) =~= unit_views(before).drop_first());
            }
            x.confidence = Confidence::Low;
            proof {
                assert(x@ == with_low(gv[k as int]));
            }
            let ghost prev = out@;
            out.push(x);
            proof {
                assert(unit_views(out@) =~= unit_views(prev).push(with_low(gv[k as int])));
                assert(Seq::new((k + 1) as nat, |i: int| with_low(gv[i])) =~= Seq::new(k as nat, |i: int| with_low(gv[i])).push(with_low(gv[k as int])));
            }
            k += 1;
            proof {
                assert(unit_views(src@) =~= gv.skip(k as int));
                assert(unit_views(out@) =~= start + Seq::new(k as nat, |i: int| with_low(gv[i])));
            }
        }
        proof {
            assert(gv.skip(k as int).len() == 0);
            assert(unit_views(out@) =~= start + resolve_group(gv));
        }
    } else {
        let w = copy_unit(&g[best]);
        out.push(w);
        proof {
            assert(w@ == gv[best as int]);
            assert(unit_views(out@) =~= start + resolve_group(gv));
        }
    }
}

/// Merges units that share a volume key: the copy with the most pages
/// (then bytes, then the cleanest name) is kept. Copies whose page counts
/// differ by more than a fifth and more than 10 pages, none of them
/// duplicate-looking, are distinct releases: all are kept, with low
/// confidence. The result is in processing order; with deduplication off
/// the units are returned as they are.
pub fn dedupe(units: Vec<VolumeUnit>, cfg: &MangaConfig) -> (r: Vec<VolumeUnit>)
    ensures
        unit_views(r@) == deduped(unit_views(units@), cfg.dedupe_volumes),
{
    if !cfg.dedupe_volumes {
        return units;
    }
    let ghost s = unit_views(units@);
    let mut out: Vec<VolumeUnit> = Vec::new();
    let mut i: usize = 0;
    proof {
        assert(unit_views(out@) =~= grouped(s, 0));
    }
    while i < units.len()
        invariant
            s == unit_views(units@),
            i <= s.len(),
            unit_views(out@) == grouped(s, i as int),
        decreases s.len() - i,
    {
        let mut first = true;
        let mut j: usize = 0;
        while j < i
            invariant
                s == unit_views(units@),
                j <= i < s.len(),
                first == forall|jj: int| 0 <= jj < j ==> #[trigger] s[jj].key != s[i as int].key,
            decreases i - j,
        {
            proof {
                assert(s[j as int] == units@[j as int]@);
                assert(s[i as int] == units@[i as int]@);
            }
            let same = keys_equal(&units[j].volume_key, &units[i].volume_key);
            proof {
                assert(same == (s[j as int].key == s[i as int].key));
            }
            if same {
                first = false;
            }
            j += 1;
        }
        proof {
            assert(s[i as int] == units@[i as int]@);
        }
        if first {
            let g = collect_group(&units, &units[i].volume_key);
            proof {
                assert(with_key(s, s[i as int].key).len() > 0) by {
                    lemma_with_key_has(s, i as int);
                }
            }
            resolve_into(g, &mut out);
        }
        i += 1;
    }
    sort_by_order(out)
}

proof fn lemma_with_key_has(s: Seq<UnitView>, i: int)
    requires
        0 <= i < s.len(),
    ensures
        with_key(s, s[i].key).len() > 0,
    decreases s.len(),
{
    if i < s.len() - 1 {
        lemma_with_key_has(s.drop_last(), i);
    }
}

// ---------------------------------------------------------------------------
// What deduplication leaves
// ---------------------------------------------------------------------------
/// No two units share a key unless both have low confidence.
pub open spec fn shared_keys_low(s: Seq<UnitView>) -> bool {
    forall|i: int, j: int|
        #![trigger s[i], s[j]]
        0 <= i < s.len() && 0 <= j < s.len() && i != j && s[i].key == s[j].key
            ==> s[i].confidence == Confidence::Low
}

spec fn low_against(t: Seq<UnitView>, x: UnitView) -> bool {
    forall|i: int|
        0 <= i < t.len() && (#[trigger] t[i]).key == x.key ==> t[i].confidence == Confidence::Low
            && x.confidence == Confidence::Low
}

proof fn lemma_insert_keeps_low(t: Seq<UnitView>, x: UnitView)
    requires
        shared_keys_low(t),
        low_against(t, x),
    ensures
        shared_keys_low(insert_unit(t, x)),
        insert_unit(t, x).to_multiset() == t.to_multiset().insert(x),
    decreases t.len(),
{
    broadcast use vstd::seq_lib::group_to_multiset_ensures;

    if t.len() == 0 || !comes_after(t.last(), x) {
        let r = t.push(x);
        assert forall|i: int, j: int|
            #![trigger r[i], r[j]]
            0 <= i < r.len() && 0 <= j < r.len() && i != j && r[i].key == r[j].key implies r[i].confidence
            == Confidence::Low by {
            if i < t.len() && j < t.len() {
                assert(r[i] == t[i] && r[j] == t[j]);
            } else if i < t.len() {
                assert(r[i] == t[i]);
            } else {
                assert(r[j] == t[j]);
            }
        }
    } else {
        let td = t.drop_last();
        let tl = t.last();
        assert(shared_keys_low(td)) by {
            assert forall|i: int, j: int|
                #![trigger td[i], td[j]]
                0 <= i < td.len() && 0 <= j < td.len() && i != j && td[i].key == td[j].key implies td[i].confidence
                == Confidence::Low by {
                assert(td[i] == t[i] && td[j] == t[j]);
            }
        }
        assert(low_against(td, x)) by {
            assert forall|i: int| 0 <= i < td.len() && (#[trigger] td[i]).key == x.key implies td[i].confidence
                == Confidence::Low && x.confidence == Confidence::Low by {
                assert(td[i] == t[i]);
            }
        }
        lemma_insert_keeps_low(td, x);
        let q = insert_unit(td, x);
        let r = q.push(tl);
        assert(t =~= td.push(tl));
        assert forall|i: int|
            0 <= i < q.len() && (#[trigger] q[i]).key == tl.key implies q[i].confidence
            == Confidence::Low && tl.confidence == Confidence::Low by {
            assert(q.to_multiset().count(q[i]) > 0);
            if q[i] == x {
                assert(t[t.len() - 1] == tl);
            } else {
                assert(td.contains(q[i]));
                let j = choose|j: int| 0 <= j < td.len() && td[j] == q[i];
                assert(t[j] == q[i]);
                assert(t[t.len() - 1] == tl);
            }
        }
        assert forall|i: int, j: int|
            #![trigger r[i], r[j]]
            0 <= i < r.len() && 0 <= j < r.len() && i != j && r[i].key == r[j].key implies r[i].confidence
            == Confidence::Low by {
            if i < q.len() && j < q.len() {
                assert(r[i] == q[i] && r[j] == q[j]);
            } else if i < q.len() {
                assert(r[i] == q[i]);
            } else {
                assert(r[j] == q[j]);
            }
        }
    }
}

proof fn lemma_sort_keeps_low(s: Seq<UnitView>)
    requires
        shared_keys_low(s),
    ensures
        shared_keys_low(sort_units(s)),
    decreases s.len(),
{
    broadcast use vstd::seq_lib::group_to_multiset_ensures;

    if s.len() > 0 {
        let sd = s.drop_last();
        let sl = s.last();
        assert(shared_keys_low(sd)) by {
            assert forall|i: int, j: int|
                #![trigger sd[i], sd[j]]
                0 <= i < sd.len() && 0 <= j < sd.len() && i != j && sd[i].key == sd[j].key implies sd[i].confidence
                == Confidence::Low by {
                assert(sd[i] == s[i] && sd[j] == s[j]);
            }
        }
        lemma_sort_keeps_low(sd);
        lemma_sort_units(sd);
        let t = sort_units(sd);
        assert forall|i: int| 0 <= i < t.len() && (#[trigger] t[i]).key == sl.key implies t[i].confidence
            == Confidence::Low && sl.confidence == Confidence::Low by {
            assert(t.to_multiset().count(t[i]) > 0);
            assert(sd.contains(t[i]));
            let j = choose|j: int| 0 <= j < sd.len() && sd[j] == t[i];
            assert(s[j] == t[i]);
            assert(s[s.len() - 1] == sl);
        }
        lemma_insert_keeps_low(t, sl);
    }
}

proof fn lemma_with_key_keys(s: Seq<UnitView>, k: KeyView)
    ensures
        forall|i: int| 0 <= i < with_key(s, k).len() ==> (#[trigger] with_key(s, k)[i]).key == k,
    decreases s.len(),
{
    if s.len() > 0 {
        lemma_with_key_keys(s.drop_last(), k);
        let a = with_key(s.drop_last(), k);
        assert forall|i: int| 0 <= i < with_key(s, k).len() implies (#[trigger] with_key(s, k)[i]).key == k by {
            if i < a.len() {
                assert(with_key(s, k)[i] == a[i]);
            }
        }
    }
}

proof fn lemma_resolve_group_keys(g: Seq<UnitView>, k: KeyView)
    requires
        forall|i: int| 0 <= i < g.len() ==> (#[trigger] g[i]).key == k,
    ensures
        forall|i: int| 0 <= i < resolve_group(g).len() ==> (#[trigger] resolve_group(g)[i]).key == k,
        shared_keys_low(resolve_group(g)),
{
    let r = resolve_group(g);
    if g.len() > 1 && !distinct_releases(g) {
        lemma_best_of_in(g);
    }
}

proof fn lemma_grouped_keys(s: Seq<UnitView>, n: int)
    requires
        0 <= n <= s.len(),
    ensures
        shared_keys_low(grouped(s, n)),
        forall|i: int|
            0 <= i < grouped(s, n).len() ==> exists|m: int|
                0 <= m < n && (#[trigger] grouped(s, n)[i]).key == s[m].key,
    decreases n,
{
    if n > 0 {
        lemma_grouped_keys(s, n - 1);
        let a = grouped(s, n - 1);
        let r = grouped(s, n);
        if first_of_key(s, n - 1) {
            let k = s[n - 1].key;
            let b = resolve_group(with_key(s, k));
            lemma_with_key_keys(s, k);
            lemma_resolve_group_keys(with_key(s, k), k);
            assert(r =~= a + b);
            assert forall|i: int|
                0 <= i < r.len() implies exists|m: int| 0 <= m < n && (#[trigger] r[i]).key == s[m].key by {
                if i < a.len() {
                    assert(r[i] == a[i]);
                    let m = choose|m: int| 0 <= m < n - 1 && a[i].key == s[m].key;
                    assert(0 <= m < n && r[i].key == s[m].key);
                } else {
                    assert(r[i] == b[i - a.len()]);
                    assert(r[i].key == s[n - 1].key);
                }
            }
            assert forall|i: int, j: int|
                #![trigger r[i], r[j]]
                0 <= i < r.len() && 0 <= j < r.len() && i != j && r[i].key == r[j].key implies r[i].confidence
                == Confidence::Low by {
                if i < a.len() && j < a.len() {
                    assert(r[i] == a[i] && r[j] == a[j]);
                } else if i >= a.len() && j >= a.len() {
                    assert(r[i] == b[i - a.len()] && r[j] == b[j - a.len()]);
                } else if i < a.len() {
                    assert(r[i] == a[i] && r[j] == b[j - a.len()]);
                    let m = choose|m: int| 0 <= m < n - 1 && a[i].key == s[m].key;
                    assert(s[m].key != s[n - 1].key);
                } else {
                    assert(r[j] == a[j] && r[i] == b[i - a.len()]);
                    let m = choose|m: int| 0 <= m < n - 1 && a[j].key == s[m].key;
                    assert(s[m].key != s[n - 1].key);
                }
            }
        } else {
            assert(r =~= a);
            assert forall|i: int|
                0 <= i < r.len() implies exists|m: int| 0 <= m < n && (#[trigger] r[i]).key == s[m].key by {
                assert(r[i] == a[i]);
                let m = choose|m: int| 0 <= m < n - 1 && a[i].key == s[m].key;
                assert(0 <= m < n && r[i].key == s[m].key);
            }
        }
    }
}

/// After deduplication, units that still share a volume key are distinct
/// releases: every one of them has low confidence (so it goes to review).
pub proof fn lemma_dedupe_leaves_distinct_releases(s: Seq<UnitView>)
    ensures
        shared_keys_low(deduped(s, true)),
{
    lemma_grouped_keys(s, s.len() as int);
    lemma_sort_keeps_low(grouped(s, s.len() as int));
}

proof fn lemma_grouped_covers(s: Seq<UnitView>, n: int)
    requires
        0 <= n <= s.len(),
    ensures
        forall|i: int|
            0 <= i < n ==> exists|j: int|
                0 <= j < grouped(s, n).len() && (#[trigger] grouped(s, n)[j]).key == (#[trigger] s[i]).key,
    decreases n,
{
    if n > 0 {
        lemma_grouped_covers(s, n - 1);
        let a = grouped(s, n - 1);
        let r = grouped(s, n);
        let k = s[n - 1].key;
        let b = if first_of_key(s, n - 1) {
            resolve_group(with_key(s, k))
        } else {
            Seq::empty()
        };
        assert(r =~= a + b);
        assert forall|i: int| 0 <= i < n implies exists|j: int|
            0 <= j < r.len() && (#[trigger] r[j]).key == (#[trigger] s[i]).key by {
            if i < n - 1 {
                let j = choose|j: int| 0 <= j < a.len() && (#[trigger] a[j]).key == s[i].key;
                assert(r[j] == a[j]);
            } else if first_of_key(s, n - 1) {
                lemma_with_key_has(s, n - 1);
                lemma_with_key_keys(s, k);
                lemma_resolve_group_keys(with_key(s, k), k);
                assert(b.len() > 0);
                assert(r[a.len() as int] == b[0]);
            } else {
                let m = choose|m: int| 0 <= m < n - 1 && #[trigger] s[m].key == s[n - 1].key;
                let j = choose|j: int| 0 <= j < a.len() && (#[trigger] a[j]).key == s[m].key;
                assert(r[j] == a[j]);
            }
        }
    }
}

proof fn lemma_sort_same_members(g: Seq<UnitView>)
    ensures
        forall|x: UnitView| g.contains(x) <==> #[trigger] sort_units(g).contains(x),
{
    broadcast use vstd::seq_lib::group_to_multiset_ensures;

    lemma_sort_units(g);
    assert forall|x: UnitView| g.contains(x) <==> #[trigger] sort_units(g).contains(x) by {
        assert(g.contains(x) <==> g.to_multiset().count(x) > 0);
        assert(sort_units(g).contains(x) <==> sort_units(g).to_multiset().count(x) > 0);
    }
}

/// Deduplication loses no volume and invents none: every key of the input
/// is the key of some unit kept, and every unit kept has the key of some
/// unit of the input.
pub proof fn lemma_dedupe_keeps_every_key(s: Seq<UnitView>)
    ensures
        forall|i: int|
            0 <= i < s.len() ==> exists|j: int|
                0 <= j < deduped(s, true).len() && (#[trigger] deduped(s, true)[j]).key == (#[trigger] s[i]).key,
        forall|j: int|
            0 <= j < deduped(s, true).len() ==> exists|i: int|
                0 <= i < s.len() && (#[trigger] deduped(s, true)[j]).key == (#[trigger] s[i]).key,
{
    let g = grouped(s, s.len() as int);
    let r = deduped(s, true);
    assert(r == sort_units(g));
    lemma_sort_same_members(g);
    assert forall|i: int| 0 <= i < s.len() implies exists|j: int|
        0 <= j < r.len() && (#[trigger] r[j]).key == (#[trigger] s[i]).key by {
        lemma_grouped_covers(s, s.len() as int);
        let j = choose|j: int| 0 <= j < g.len() && (#[trigger] g[j]).key == s[i].key;
        assert(g.contains(g[j]));
        assert(r.contains(g[j]));
        let jj = choose|jj: int| 0 <= jj < r.len() && r[jj] == g[j];
        assert(r[jj].key == s[i].key);
    }
    assert forall|j: int| 0 <= j < r.len() implies exists|i: int|
        0 <= i < s.len() && (#[trigger] r[j]).key == (#[trigger] s[i]).key by {
        lemma_grouped_keys(s, s.len() as int);
        assert(r.contains(r[j]));
        assert(g.contains(r[j]));
        let jj = choose|jj: int| 0 <= jj < g.len() && g[jj] == r[j];
        let m = choose|m: int| 0 <= m < s.len() && (#[trigger] g[jj]).key == s[m].key;
        assert(r[j].key == s[m].key);
    }
}

/// Longest common prefix of all volume raw names (series-name fallback).
pub fn common_series(units: &[VolumeUnit]) -> (r: String)
    ensures
        r@ == crate::title::common_prefix(Seq::new(units@.len(), |i: int| units@[i].raw_name@)),
{
    let mut names: Vec<&str> = Vec::new();
    let mut i: usize = 0;
    while i < units.len()
        invariant
            i <= units@.len(),
            names@.len() == i,
            forall|k: int| 0 <= k < i ==> (#[trigger] names@[k])@ == units@[k].raw_name@,
        decreases units.len() - i,
    {
        names.push(units[i].raw_name.as_str());
        i += 1;
    }
    let r = crate::title::longest_common_prefix(&names);
    proof {
        assert(crate::title::views_of(names@) =~= Seq::new(units@.len(), |i: int| units@[i].raw_name@));
    }
    r
}

} // verus!
