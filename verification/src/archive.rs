//! Extraction rules: limits on what an archive may unpack to, which entries
//! are skipped or refused, where each entry goes, and byte accounting.
use vstd::prelude::*;

use crate::error::ConvertError;
use crate::paths::{safe_join, safe_join_result};
use crate::text::{
    chars_of, debug_str, debug_text, ends_with, eq_lit, lower_chars, lower_seq, push_all,
    starts_with, string_of,
};

verus! {

/// Limits applied while extracting an archive.
#[derive(Debug, Clone)]
pub struct ExtractLimits {
    pub max_extracted_size_gib: u64,
    pub max_file_count: usize,
    pub reject_symlinks: bool,
    pub remove_macos_metadata: bool,
}

impl Default for ExtractLimits {
    fn default() -> (r: Self)
        ensures
            r.max_extracted_size_gib == 20,
            r.max_file_count == 5000,
            r.reject_symlinks,
            r.remove_macos_metadata,
    {
        ExtractLimits {
            max_extracted_size_gib: 20,
            max_file_count: 5000,
            reject_symlinks: true,
            remove_macos_metadata: true,
        }
    }
}

/// How many files one extraction wrote.
#[derive(Debug, Clone)]
pub struct ExtractResult {
    pub file_count: usize,
}

/// Running totals of an extraction against its limits.
#[derive(Debug, Clone)]
pub struct ExtractTracker {
    pub total_bytes: u64,
    pub file_count: usize,
    pub max_bytes: u64,
    pub max_files: usize,
}

/// `gib` gibibytes in bytes, saturated at `u64::MAX`.
pub open spec fn gib_bytes(gib: u64) -> u64 {
    if gib * 1073741824 > u64::MAX {
        u64::MAX
    } else {
        (gib * 1073741824) as u64
    }
}

impl ExtractTracker {
    pub fn new(limits: &ExtractLimits) -> (r: Self)
        ensures
            r.total_bytes == 0,
            r.file_count == 0,
            r.max_bytes == gib_bytes(limits.max_extracted_size_gib),
            r.max_files == limits.max_file_count,
    {
        ExtractTracker {
            total_bytes: 0,
            file_count: 0,
            max_bytes: match limits.max_extracted_size_gib.checked_mul(1073741824u64) {
                Some(b) => b,
                None => u64::MAX,
            },
            max_files: limits.max_file_count,
        }
    }

    /// Counts `n` more bytes written (saturating); refuses once the total
    /// passes the limit.
    pub fn add_bytes(&mut self, n: u64) -> (r: Result<(), ConvertError>)
        ensures
            final(self).file_count == old(self).file_count,
            final(self).max_bytes == old(self).max_bytes,
            final(self).max_files == old(self).max_files,
            final(self).total_bytes == if old(self).total_bytes + n > u64::MAX {
                u64::MAX
            } else {
                (old(self).total_bytes + n) as u64
            },
            r is Ok <==> final(self).total_bytes <= final(self).max_bytes,
            r matches Err(e) ==> e == ConvertError::LimitExceeded(e->LimitExceeded_0) && (
            e->LimitExceeded_0)@ == "extracted size exceeded limit ("@ + crate::text::fmt_dec(
                final(self).total_bytes as nat,
            ) + " bytes)"@,
    {
        self.total_bytes = self.total_bytes.saturating_add(n);
        if self.total_bytes > self.max_bytes {
            let mut m = chars_of("extracted size exceeded limit (");
            crate::text::push_dec(&mut m, self.total_bytes);
            push_all(&mut m, &chars_of(" bytes)"));
            return Err(ConvertError::LimitExceeded(string_of(&m)));
        }
        Ok(())
    }

    /// Counts one more file written.
    pub fn file_done(&mut self)
        requires
            old(self).file_count < old(self).max_files,
        ensures
            final(self).file_count == old(self).file_count + 1,
            final(self).total_bytes == old(self).total_bytes,
            final(self).max_bytes == old(self).max_bytes,
            final(self).max_files == old(self).max_files,
    {
        self.file_count += 1;
    }
}

/// Part of `s` after its last `/` (all of `s` without one).
pub open spec fn last_segment(s: Seq<char>) -> Seq<char> {
    match crate::text::rfind(s, seq!['/']) {
        Some(i) => s.skip(i + 1),
        None => s,
    }
}

/// macOS metadata: the `__MACOSX` folder and what is in it, `.DS_Store`,
/// `.AppleDouble` and `._*` files (case-insensitive).
pub open spec fn macos_metadata(name: Seq<char>) -> bool {
    let lower = lower_seq(name);
    let base = last_segment(lower);
    ||| lower == "__macosx"@
    ||| starts_with(lower, "__macosx/"@)
    ||| base == ".ds_store"@
    ||| base == ".appledouble"@
    ||| starts_with(base, "._"@)
}

pub fn is_macos_metadata(name: &str) -> (r: bool)
    ensures
        r == macos_metadata(name@),
{
    let lower = lower_chars(&chars_of(name));
    let len = lower.len();
    let slash = vec!['/'];
    proof {
        assert(slash@ =~= seq!['/']);
        crate::text::lemma_rfind_below(lower@, slash@, lower@.len() as int + 1);
    }
    let base = match crate::text::rfind_exec(&lower, &slash) {
        Some(i) => {
            proof {
                assert(crate::text::occurs_at(lower@, slash@, i as int));
            }
            crate::text::slice_of(&lower, i + 1, len)
        },
        None => crate::text::slice_of(&lower, 0, len),
    };
    proof {
        assert(lower@.subrange(0, len as int) =~= lower@);
    }
    eq_lit(&lower, "__macosx") || crate::text::starts_with_exec(&lower, &chars_of("__macosx/"))
        || eq_lit(&base, ".ds_store") || eq_lit(&base, ".appledouble")
        || crate::text::starts_with_exec(&base, &chars_of("._"))
}

/// Type of an archive entry; `Other` carries the name of the type.
#[derive(Debug, Clone)]
pub enum EntryType {
    Directory,
    RegularFile,
    SymbolicLink,
    Other(String),
}

/// What to do with one archive entry.
#[derive(Debug, Clone)]
pub enum EntryAction {
    /// Leave it out.
    Skip,
    /// Write its data to this path.
    Extract(String),
}

/// An error as its variant and text, for comparing errors by content
/// (variants numbered in declaration order).
pub open spec fn error_view(e: ConvertError) -> (int, Seq<char>) {
    match e {
        ConvertError::PasswordRequired => (0, Seq::empty()),
        ConvertError::PasswordInvalid(m) => (1, m@),
        ConvertError::Open(m) => (2, m@),
        ConvertError::UnsupportedFileType(m) => (3, m@),
        ConvertError::UnsafePath(m) => (4, m@),
        ConvertError::LimitExceeded(m) => (5, m@),
        ConvertError::AnimatedNotSupported(m) => (6, m@),
        ConvertError::OutputExists => (7, Seq::empty()),
        ConvertError::Convert(m) => (8, m@),
        ConvertError::Io(m) => (9, m@),
    }
}

/// Decision on one entry named `name` while extracting under `dest`: skipped
/// metadata and directories, refused links and special files, refused
/// encrypted entries without a password, the file-count limit, then the
/// destination path (which may be refused as unsafe).  Errors as in
/// `error_view`.
pub open spec fn entry_decision(
    limits: ExtractLimits,
    tracker: ExtractTracker,
    dest: Seq<char>,
    name: Seq<char>,
    ty: EntryType,
    encrypted: bool,
    has_password: bool,
) -> Result<Option<Seq<char>>, (int, Seq<char>)> {
    if limits.remove_macos_metadata && macos_metadata(name) {
        Ok(None)
    } else {
        match ty {
            EntryType::Directory => Ok(None),
            EntryType::SymbolicLink => if limits.reject_symlinks {
                Err((4, "symlink in archive: "@ + debug_text(name)))
            } else {
                Ok(None)
            },
            EntryType::Other(t) => Err((3, debug_text(name) + ": "@ + t@)),
            EntryType::RegularFile => if encrypted && !has_password {
                Err((0, Seq::empty()))
            } else if tracker.file_count >= tracker.max_files {
                Err((5, "entry count would exceed "@ + crate::text::fmt_dec(tracker.max_files as nat)))
            } else {
                match safe_join_result(dest, name) {
                    Ok(p) => Ok(Some(p)),
                    Err(m) => Err((4, m)),
                }
            },
        }
    }
}

fn concat_text(parts: &[&str]) -> (r: String)
    ensures
        r@ == crate::text::concat_all(Seq::new(parts@.len(), |i: int| parts@[i]@)),
{
    let ghost pv = Seq::new(parts@.len(), |i: int| parts@[i]@);
    let mut v: Vec<char> = Vec::new();
    let mut i: usize = 0;
    while i < parts.len()
        invariant
            i <= parts@.len(),
            pv == Seq::new(parts@.len(), |i: int| parts@[i]@),
            v@ == crate::text::concat_all(pv.take(i as int)),
        decreases parts.len() - i,
    {
        push_all(&mut v, &chars_of(parts[i]));
        proof {
            assert(pv.take(i + 1).drop_last() =~= pv.take(i as int));
        }
        i += 1;
    }
    proof {
        assert(pv.take(parts@.len() as int) =~= pv);
    }
    string_of(&v)
}

/// Decides what to do with one archive entry (see `entry_decision`).
pub fn admit_entry(
    limits: &ExtractLimits,
    tracker: &ExtractTracker,
    dest: &str,
    name: &str,
    ty: &EntryType,
    encrypted: bool,
    has_password: bool,
) -> (r: Result<EntryAction, ConvertError>)
    ensures
        match r {
            Ok(EntryAction::Skip) => Ok(None),
            Ok(EntryAction::Extract(p)) => Ok(Some(p@)),
            Err(e) => Err(error_view(e)),
        } == entry_decision(*limits, *tracker, dest@, name@, *ty, encrypted, has_password),
{
    if limits.remove_macos_metadata && is_macos_metadata(name) {
        return Ok(EntryAction::Skip);
    }
    match ty {
        EntryType::Directory => Ok(EntryAction::Skip),
        EntryType::SymbolicLink => {
            if limits.reject_symlinks {
                let d = debug_str(name);
                let m = concat_text(&["symlink in archive: ", d.as_str()]);
                proof {
                    reveal_with_fuel(crate::text::concat_all, 3);
                }
                Err(ConvertError::UnsafePath(m))
            } else {
                Ok(EntryAction::Skip)
            }
        },
        EntryType::Other(t) => {
            let d = debug_str(name);
            let m = concat_text(&[d.as_str(), ": ", t.as_str()]);
            proof {
                reveal_with_fuel(crate::text::concat_all, 4);
            }
            Err(ConvertError::UnsupportedFileType(m))
        },
        EntryType::RegularFile => {
            if encrypted && !has_password {
                return Err(ConvertError::PasswordRequired);
            }
            if tracker.file_count >= tracker.max_files {
                let mut m = chars_of("entry count would exceed ");
                crate::text::push_dec(&mut m, tracker.max_files as u64);
                return Err(ConvertError::LimitExceeded(string_of(&m)));
            }
            match safe_join(dest, name) {
                Ok(p) => Ok(EntryAction::Extract(p)),
                Err(e) => Err(e),
            }
        },
    }
}

/// The error for a failed read of entry data: a wrong password when the
/// archive had encrypted entries and a password was given, else a
/// conversion failure naming the entry.
pub open spec fn read_failure(
    msg: Seq<char>,
    encrypted_seen: bool,
    has_password: bool,
    name: Seq<char>,
) -> (int, Seq<char>) {
    if encrypted_seen && has_password {
        (1, msg)
    } else {
        (8, "reading data for "@ + debug_text(name) + ": "@ + msg)
    }
}

pub fn read_error(msg: &str, encrypted_seen: bool, has_password: bool, name: &str) -> (e: ConvertError)
    ensures
        error_view(e) == read_failure(msg@, encrypted_seen, has_password, name@),
{
    if encrypted_seen && has_password {
        return ConvertError::PasswordInvalid(msg.to_owned());
    }
    let d = debug_str(name);
    let m = concat_text(&["reading data for ", d.as_str(), ": ", msg]);
    proof {
        reveal_with_fuel(crate::text::concat_all, 5);
    }
    ConvertError::Convert(m)
}

} // verus!
