use vstd::prelude::*;
use crate::text::owned;

verus! {

/// How a file changed between two trees.
#[allow(non_camel_case_types, clippy::upper_case_acronyms)]
#[derive(PartialEq, Eq, Structural, Clone, Copy, Debug)]
pub enum FileChangeStatus {
    ADDED,
    MODIFIED,
    DELETED,
}

impl FileChangeStatus {
    /// The one-letter code of the status.
    pub open spec fn initial_spec(&self) -> char {
        match self {
            FileChangeStatus::ADDED => 'A',
            FileChangeStatus::MODIFIED => 'M',
            FileChangeStatus::DELETED => 'D',
        }
    }

    /// The one-letter code of the status: `A`, `M` or `D`.
    pub fn initial(&self) -> (r: char)
        ensures
            r == self.initial_spec(),
    {
        match self {
            FileChangeStatus::ADDED => 'A',
            FileChangeStatus::MODIFIED => 'M',
            FileChangeStatus::DELETED => 'D',
        }
    }
}

/// A changed file, by path relative to the work tree and absolute path.
#[derive(Clone, Debug)]
pub struct FileChange {
    pub relative_path: String,
    pub absolute_path: String,
    pub status: FileChangeStatus,
}

/// A changed file with its text before and after.
#[derive(Clone, Debug)]
pub struct FileDiff {
    pub file_change: FileChange,
    pub content_before: String,
    pub content_after: String,
}

/// A saved state of a workspace: its folder and the commit that holds it.
#[derive(Clone, Debug)]
pub struct Checkpoint {
    pub workspace_folder: String,
    pub commit_hash: String,
}

/// What `text_hash` gives a text.
pub uninterp spec fn md5_hex_of(s: Seq<char>) -> Seq<char>;

/// Lower-case hex MD5 digest of the text's UTF-8 bytes.
/// Relies on md5::compute and the digest's `LowerHex` formatting.
#[verifier::external_body]
fn text_hash(s: &str) -> (r: String)
    ensures
        r@ == md5_hex_of(s@),
{
    format!("{:x}", md5::compute(s))
}

impl Checkpoint {
    /// Hash naming the checkpoint's workspace folder.
    pub fn workspace_hash(&self) -> (r: String)
        ensures
            r@ == md5_hex_of(self.workspace_folder@),
    {
        text_hash(self.workspace_folder.as_str())
    }
}

/// Kind of a change that the version-control library reports for one file.
#[derive(PartialEq, Eq, Structural, Clone, Copy, Debug)]
pub enum DeltaKind {
    Unmodified,
    Added,
    Deleted,
    Modified,
    Renamed,
    Copied,
    Ignored,
    Untracked,
    Typechange,
    Unreadable,
    Conflicted,
}

/// One reported change: its kind and, where known, the old and new paths as
/// (relative, absolute).
#[derive(Clone, Debug)]
pub struct Delta {
    pub kind: DeltaKind,
    pub old_paths: Option<(String, String)>,
    pub new_paths: Option<(String, String)>,
}

/// A file change as plain text: relative path, absolute path, status.
pub open spec fn change_model(c: FileChange) -> (Seq<char>, Seq<char>, FileChangeStatus) {
    (c.relative_path@, c.absolute_path@, c.status)
}

/// The change with status `st` at the given paths.
pub open spec fn at(p: (String, String), st: FileChangeStatus) -> (Seq<char>, Seq<char>, FileChangeStatus) {
    (p.0@, p.1@, st)
}

/// The file changes one delta stands for, or `None` when a path it needs is missing.
pub open spec fn delta_changes(d: Delta) -> Option<Seq<(Seq<char>, Seq<char>, FileChangeStatus)>> {
    match d.kind {
        DeltaKind::Added | DeltaKind::Copied | DeltaKind::Untracked => match d.new_paths {
            Some(p) => Some(seq![at(p, FileChangeStatus::ADDED)]),
            None => None,
        },
        DeltaKind::Modified | DeltaKind::Conflicted => match d.new_paths {
            Some(p) => Some(seq![at(p, FileChangeStatus::MODIFIED)]),
            None => None,
        },
        DeltaKind::Deleted => match d.old_paths {
            Some(p) => Some(seq![at(p, FileChangeStatus::DELETED)]),
            None => None,
        },
        DeltaKind::Typechange | DeltaKind::Renamed => {
            let a = match d.old_paths {
                Some(p) => seq![at(p, FileChangeStatus::DELETED)],
                None => Seq::empty(),
            };
            let b = match d.new_paths {
                Some(p) => seq![at(p, FileChangeStatus::ADDED)],
                None => Seq::empty(),
            };
            Some(a + b)
        },
        _ => Some(Seq::empty()),
    }
}

/// The file changes of the first `k` deltas, or the index of the first delta that
/// lacks a path it needs.
pub open spec fn deltas_changes(ds: Seq<Delta>, k: int) -> Result<
    Seq<(Seq<char>, Seq<char>, FileChangeStatus)>,
    int,
>
    decreases k,
{
    if k <= 0 {
        Ok(Seq::empty())
    } else {
        match deltas_changes(ds, k - 1) {
            Ok(prev) => match delta_changes(ds[k - 1]) {
                Some(cs) => Ok(prev + cs),
                None => Err(k - 1),
            },
            Err(e) => Err(e),
        }
    }
}

/// The message for a delta that lacks a path it needs.
pub open spec fn missing_path_message(d: Delta) -> Seq<char> {
    if d.kind == DeltaKind::Deleted {
        "Failed to get old file path for file deleted"@
    } else {
        "Failed to get new file path for file added"@
    }
}

fn make_change(p: &(String, String), st: FileChangeStatus) -> (r: FileChange)
    ensures
        change_model(r) == at(*p, st),
{
    FileChange { relative_path: p.0.clone(), absolute_path: p.1.clone(), status: st }
}

/// Turn the reported deltas into file changes: additions, copies and untracked files are
/// added, modifications and conflicts modified, deletions deleted; a rename or type change
/// is a deletion of the old path and an addition of the new; unchanged, ignored and
/// unreadable entries give nothing. A delta that lacks the path it needs is an error.
pub fn file_changes_from_deltas(ds: &Vec<Delta>) -> (r: Result<Vec<FileChange>, String>)
    ensures
        match deltas_changes(ds@, ds@.len() as int) {
            Ok(cs) => r is Ok && r->Ok_0@.len() == cs.len() && forall|i: int|
                0 <= i < cs.len() ==> change_model(#[trigger] r->Ok_0@[i]) == cs[i],
            Err(k) => r is Err && 0 <= k < ds@.len() && r->Err_0@ == missing_path_message(ds@[k]),
        },
{
    let mut out: Vec<FileChange> = Vec::new();
    let mut k: usize = 0;
    while k < ds.len()
        invariant
            k <= ds@.len(),
            deltas_changes(ds@, k as int) is Ok,
            out@.len() == deltas_changes(ds@, k as int)->Ok_0.len(),
            forall|i: int|
                0 <= i < out@.len() ==> change_model(#[trigger] out@[i]) == deltas_changes(
                    ds@,
                    k as int,
                )->Ok_0[i],
        decreases ds@.len() - k,
    {
        let d = &ds[k];
        let ghost prev = deltas_changes(ds@, k as int)->Ok_0;
        let ghost out0 = out@;
        match d.kind {
            DeltaKind::Added | DeltaKind::Copied | DeltaKind::Untracked => match &d.new_paths {
                Some(p) => out.push(make_change(p, FileChangeStatus::ADDED)),
                None => {
                    proof { lemma_err_stays(ds@, k as int + 1, ds@.len() as int); }
                    return Err(owned("Failed to get new file path for file added"));
                },
            },
            DeltaKind::Modified | DeltaKind::Conflicted => match &d.new_paths {
                Some(p) => out.push(make_change(p, FileChangeStatus::MODIFIED)),
                None => {
                    proof { lemma_err_stays(ds@, k as int + 1, ds@.len() as int); }
                    return Err(owned("Failed to get new file path for file added"));
                },
            },
            DeltaKind::Deleted => match &d.old_paths {
                Some(p) => out.push(make_change(p, FileChangeStatus::DELETED)),
                None => {
                    proof { lemma_err_stays(ds@, k as int + 1, ds@.len() as int); }
                    return Err(owned("Failed to get old file path for file deleted"));
                },
            },
            DeltaKind::Typechange | DeltaKind::Renamed => {
                match &d.old_paths {
                    Some(p) => out.push(make_change(p, FileChangeStatus::DELETED)),
                    None => {},
                }
                match &d.new_paths {
                    Some(p) => out.push(make_change(p, FileChangeStatus::ADDED)),
                    None => {},
                }
            },
            _ => {},
        }
        proof {
            let cs = delta_changes(ds@[k as int])->Some_0;
            assert(deltas_changes(ds@, k as int + 1) == Ok::<Seq<(Seq<char>, Seq<char>, FileChangeStatus)>, int>(prev + cs));
            assert forall|i: int| 0 <= i < out@.len() implies change_model(#[trigger] out@[i]) == (prev + cs)[i] by {
                if i < out0.len() {
                    assert(out@[i] == out0[i]);
                }
            }
        }
        k += 1;
    }
    Ok(out)
}

proof fn lemma_err_stays(ds: Seq<Delta>, k: int, m: int)
    requires
        0 < k <= m,
        deltas_changes(ds, k) is Err,
    ensures
        deltas_changes(ds, m) == deltas_changes(ds, k),
    decreases m - k,
{
    if m > k {
        lemma_err_stays(ds, k, m - 1);
    }
}

} // verus!
