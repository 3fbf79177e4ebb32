//! Archive inspection report: one line per entry read from an archive,
//! with counts of the encrypted ones.
use vstd::prelude::*;

use crate::text::{chars_of, push_all, string_of};

verus! {

/// Type of an archive entry as the archive library reports it.
#[derive(Debug, Clone, Copy, PartialEq, Eq, Structural)]
pub enum FileKind {
    RegularFile,
    Directory,
    SymbolicLink,
    BlockDevice,
    CharacterDevice,
    Fifo,
    Socket,
    Unknown,
}

/// Short name of an entry type.
pub open spec fn kind_name(ft: FileKind) -> Seq<char> {
    match ft {
        FileKind::RegularFile => "file"@,
        FileKind::Directory => "dir"@,
        FileKind::SymbolicLink => "symlink"@,
        FileKind::BlockDevice => "block"@,
        FileKind::CharacterDevice => "char"@,
        FileKind::Fifo => "fifo"@,
        FileKind::Socket => "socket"@,
        FileKind::Unknown => "unknown"@,
    }
}

pub fn type_str(ft: FileKind) -> (r: &'static str)
    ensures
        r@ == kind_name(ft),
{
    match ft {
        FileKind::RegularFile => "file",
        FileKind::Directory => "dir",
        FileKind::SymbolicLink => "symlink",
        FileKind::BlockDevice => "block",
        FileKind::CharacterDevice => "char",
        FileKind::Fifo => "fifo",
        FileKind::Socket => "socket",
        FileKind::Unknown => "unknown",
    }
}

/// An entry as read from an archive (an absent path name is empty).
pub struct RawEntry {
    pub pathname: String,
    pub file_type: FileKind,
    pub size: i64,
    pub encrypted: bool,
}

/// One line of the report.
#[derive(Debug)]
pub struct InspectEntry {
    pub name: String,
    pub entry_type: String,
    pub size: i64,
    pub encrypted: bool,
}

/// The report on an archive.
#[derive(Debug)]
pub struct InspectResult {
    pub path: String,
    pub total_entries: usize,
    pub encrypted_entries: usize,
    pub any_encrypted: bool,
    pub entries: Vec<InspectEntry>,
}

/// Name shown for an entry: its path name, `<unnamed>` when it has none.
pub open spec fn shown_name(n: Seq<char>) -> Seq<char> {
    if n.len() == 0 {
        "<unnamed>"@
    } else {
        n
    }
}

/// The report line of an entry matches the entry read.
pub open spec fn reports(line: InspectEntry, raw: RawEntry) -> bool {
    &&& line.name@ == shown_name(raw.pathname@)
    &&& line.entry_type@ == kind_name(raw.file_type)
    &&& line.size == raw.size
    &&& line.encrypted == raw.encrypted
}

/// Number of encrypted entries.
pub open spec fn encrypted_count(es: Seq<RawEntry>) -> nat
    decreases es.len(),
{
    if es.len() == 0 {
        0
    } else {
        encrypted_count(es.drop_last()) + if es.last().encrypted {
            1nat
        } else {
            0nat
        }
    }
}

proof fn lemma_encrypted_count_le(es: Seq<RawEntry>)
    ensures
        encrypted_count(es) <= es.len(),
    decreases es.len(),
{
    if es.len() > 0 {
        lemma_encrypted_count_le(es.drop_last());
    }
}

/// `cannot open <path> as an archive`.
pub open spec fn open_error(path: Seq<char>) -> Seq<char> {
    "cannot open "@ + path + " as an archive"@
}

/// The report on the archive at `path`, from the entries read from it
/// (`None` when it could not be opened as an archive).
pub fn inspect(path: &str, listing: Option<Vec<RawEntry>>) -> (r: Result<InspectResult, String>)
    ensures
        match listing {
            None => r matches Err(m) && m@ == open_error(path@),
            Some(es) => r matches Ok(res) && {
                &&& res.path@ == path@
                &&& res.total_entries == es@.len()
                &&& res.encrypted_entries == encrypted_count(es@)
                &&& res.any_encrypted == (encrypted_count(es@) > 0)
                &&& res.entries@.len() == es@.len()
                &&& forall|i: int| 0 <= i < es@.len() ==> reports(#[trigger] res.entries@[i], es@[i])
            },
        },
{
    let es = match listing {
        None => {
            let mut v = chars_of("cannot open ");
            push_all(&mut v, &chars_of(path));
            push_all(&mut v, &chars_of(" as an archive"));
            return Err(string_of(&v));
        },
        Some(es) => es,
    };
    let mut entries: Vec<InspectEntry> = Vec::new();
    let mut encrypted_entries: usize = 0;
    let mut any_encrypted = false;
    let mut i: usize = 0;
    while i < es.len()
        invariant
            i <= es@.len(),
            entries@.len() == i,
            encrypted_entries == encrypted_count(es@.take(i as int)),
            any_encrypted == (encrypted_count(es@.take(i as int)) > 0),
            forall|k: int| 0 <= k < i ==> reports(#[trigger] entries@[k], es@[k]),
        decreases es.len() - i,
    {
        let e = &es[i];
        proof {
            assert(es@.take(i + 1).drop_last() =~= es@.take(i as int));
            lemma_encrypted_count_le(es@.take(i as int));
        }
        if e.encrypted {
            any_encrypted = true;
            encrypted_entries += 1;
        }
        let name = if e.pathname.as_str().is_empty() {
            "<unnamed>".to_owned()
        } else {
            e.pathname.clone()
        };
        entries.push(
            InspectEntry {
                name,
                entry_type: type_str(e.file_type).to_owned(),
                size: e.size,
                encrypted: e.encrypted,
            },
        );
        i += 1;
    }
    proof {
        assert(es@.take(es@.len() as int) =~= es@);
    }
    Ok(
        InspectResult {
            path: path.to_owned(),
            total_entries: es.len(),
            encrypted_entries,
            any_encrypted,
            entries,
        },
    )
}

} // verus!
