//! CBZ packaging rules: entry names inside the archive and the temporary
//! name a CBZ is written under before it is moved into place.
use vstd::prelude::*;

use crate::paths::{components, join_slash, path_comps};
use crate::text::{char_views, chars_of, fmt_dec, push_all, push_dec, string_of};

verus! {

/// Name of a file inside the CBZ: its path relative to the staging folder,
/// components joined by `/`.
pub open spec fn entry_name_of(rel: Seq<char>) -> Seq<char> {
    join_slash(path_comps(rel))
}

pub fn entry_name(rel: &str) -> (r: String)
    ensures
        r@ == entry_name_of(rel@),
{
    let cs = components(&chars_of(rel));
    let mut r: Vec<char> = Vec::new();
    let mut i: usize = 0;
    while i < cs.len()
        invariant
            i <= cs@.len(),
            r@ == join_slash(char_views(cs@).take(i as int)),
        decreases cs.len() - i,
    {
        let ghost t = char_views(cs@).take(i + 1);
        proof {
            assert(t.drop_last() =~= char_views(cs@).take(i as int));
        }
        if i > 0 {
            r.push('/');
        } else {
            proof {
                assert(r@ =~= Seq::<char>::empty());
            }
        }
        push_all(&mut r, &cs[i]);
        proof {
            if i > 0 {
                assert(r@ =~= join_slash(t.drop_last()) + seq!['/'] + t.last());
            } else {
                assert(r@ =~= t[0]);
            }
        }
        i += 1;
    }
    proof {
        assert(char_views(cs@).take(cs@.len() as int) =~= char_views(cs@));
    }
    string_of(&r)
}

/// Temporary name of the `n`-th CBZ written by process `pid`.
pub open spec fn tmp_name_of(pid: u32, n: u64) -> Seq<char> {
    ".mop-manga-tmp-"@ + fmt_dec(pid as nat) + "-"@ + fmt_dec(n as nat) + ".cbz"@
}

pub fn tmp_name(pid: u32, n: u64) -> (r: String)
    ensures
        r@ == tmp_name_of(pid, n),
{
    let mut v = chars_of(".mop-manga-tmp-");
    push_dec(&mut v, pid as u64);
    push_all(&mut v, &chars_of("-"));
    push_dec(&mut v, n);
    push_all(&mut v, &chars_of(".cbz"));
    string_of(&v)
}

/// Different counters give different temporary names.
pub proof fn lemma_tmp_names_distinct(pid: u32, a: u64, b: u64)
    requires
        a != b,
    ensures
        tmp_name_of(pid, a) != tmp_name_of(pid, b),
{
    let head = ".mop-manga-tmp-"@ + fmt_dec(pid as nat) + "-"@;
    let fa = fmt_dec(a as nat);
    let fb = fmt_dec(b as nat);
    crate::text::lemma_fmt_dec(a as nat);
    crate::text::lemma_fmt_dec(b as nat);
    reveal_strlit(".cbz");
    let sa = head + fa + ".cbz"@;
    let sb = head + fb + ".cbz"@;
    assert(tmp_name_of(pid, a) =~= sa);
    assert(tmp_name_of(pid, b) =~= sb);
    let k = head.len() as int;
    if sa == sb {
        if fa.len() < fb.len() {
            assert(sa[k + fa.len() as int] == '.');
            assert(sb[k + fa.len() as int] == fb[fa.len() as int]);
            assert(crate::text::is_ascii_digit(fb[fa.len() as int]));
        } else if fb.len() < fa.len() {
            assert(sb[k + fb.len() as int] == '.');
            assert(sa[k + fb.len() as int] == fa[fb.len() as int]);
            assert(crate::text::is_ascii_digit(fa[fb.len() as int]));
        } else {
            assert(fa =~= sa.subrange(k, k + fa.len() as int));
            assert(fb =~= sb.subrange(k, k + fb.len() as int));
            crate::text::lemma_fmt_dec_injective(a as nat, b as nat);
        }
    }
}

} // verus!
