//! Where a job's per-chunk checkpoints live and which files count as one.

use vstd::prelude::*;
use crate::digits::{padded, push_padded};
use crate::paths::{join_path, path_join};
use crate::text::{push_str_chars, str_chars};

verus! {

/// The checkpoint format version this library writes and reads.
pub const CHECKPOINT_VERSION: u32 = 1;

/// `<temp_dir>/<job_id>/checkpoints`.
pub open spec fn checkpoint_dir_of(temp_dir: Seq<char>, job_id: Seq<char>) -> Seq<char> {
    path_join(path_join(temp_dir, job_id), "checkpoints"@)
}

/// The directory holding a job's checkpoints.
pub fn checkpoint_dir(temp_dir: &str, job_id: &str) -> (r: String)
    ensures
        r@ == checkpoint_dir_of(temp_dir@, job_id@),
{
    let a = join_path(temp_dir, job_id);
    join_path(a.as_str(), "checkpoints")
}

/// `chunk_NNN.json`, the index padded to three digits.
pub open spec fn checkpoint_name(index: nat) -> Seq<char> {
    "chunk_"@ + padded(index, 3) + ".json"@
}

/// The file name of a chunk's checkpoint.
pub fn checkpoint_file_name(index: u32) -> (r: String)
    ensures
        r@ == checkpoint_name(index as nat),
{
    let mut s = String::new();
    push_str_chars(&mut s, "chunk_");
    push_padded(&mut s, index as u64, 3);
    push_str_chars(&mut s, ".json");
    s
}

/// The name a checkpoint is written under before it is renamed into place.
pub fn checkpoint_temp_name(index: u32) -> (r: String)
    ensures
        r@ == checkpoint_name(index as nat) + ".tmp"@,
{
    let mut s = checkpoint_file_name(index);
    push_str_chars(&mut s, ".tmp");
    s
}

/// `s` ends with `suffix`.
pub open spec fn ends_with(s: Seq<char>, suffix: Seq<char>) -> bool {
    suffix.len() <= s.len() && s.subrange(s.len() - suffix.len(), s.len() as int) == suffix
}

/// Whether `s` ends with `suffix`.
pub fn ends_with_str(s: &str, suffix: &str) -> (b: bool)
    ensures
        b == ends_with(s@, suffix@),
{
    let a = str_chars(s);
    let b = str_chars(suffix);
    if b.len() > a.len() {
        return false;
    }
    let off = a.len() - b.len();
    let mut i: usize = 0;
    while i < b.len()
        invariant
            i <= b.len(),
            off + b.len() == a.len(),
            a@ == s@,
            b@ == suffix@,
            forall|j: int| 0 <= j < i ==> a@[off + j] == b@[j],
        decreases b.len() - i,
    {
        if a[off + i] != b[i] {
            assert(s@.subrange(s@.len() - suffix@.len(), s@.len() as int)[i as int] != suffix@[i as int]);
            return false;
        }
        i = i + 1;
    }
    assert(s@.subrange(s@.len() - suffix@.len(), s@.len() as int) =~= suffix@);
    true
}

/// A directory entry is read as a checkpoint when it is a `.json` file that
/// is not a leftover `.tmp` of an interrupted write.
pub fn is_checkpoint_file(name: &str) -> (b: bool)
    ensures
        b == (ends_with(name@, ".json"@) && !ends_with(name@, ".tmp"@)),
{
    ends_with_str(name, ".json") && !ends_with_str(name, ".tmp")
}

/// A checkpoint is used only when written in this library's format version.
pub fn checkpoint_version_ok(version: u32) -> (b: bool)
    ensures
        b == (version == CHECKPOINT_VERSION),
{
    version == CHECKPOINT_VERSION
}

} // verus!

verus! {

/// A checkpoint written in place is read back; one still under its
/// temporary name, from an interrupted write, is not.
pub proof fn lemma_checkpoint_names_are_recognized(index: nat)
    ensures
        ends_with(checkpoint_name(index), ".json"@),
        !ends_with(checkpoint_name(index), ".tmp"@),
        !ends_with(checkpoint_name(index) + ".tmp"@, ".json"@),
        ends_with(checkpoint_name(index) + ".tmp"@, ".tmp"@),
{
    reveal_strlit(".json");
    reveal_strlit(".tmp");
    reveal_strlit("chunk_");
    let n = checkpoint_name(index);
    let a = "chunk_"@ + padded(index, 3);
    assert(n == a + ".json"@);
    assert(n.subrange(n.len() - 5, n.len() as int) =~= ".json"@);
    assert(n.subrange(n.len() - 4, n.len() as int)[0] == 'j');
    let t = n + ".tmp"@;
    assert(t.subrange(t.len() - 4, t.len() as int) =~= ".tmp"@);
    assert(t.subrange(t.len() - 5, t.len() as int)[0] == 'n');
}

} // verus!
