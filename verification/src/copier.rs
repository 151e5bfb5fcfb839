//! The copy decision: given what the file system reports about a resolved jar
//! and its destination, classify the step as a copy or as one of the two
//! tolerated skips. The file system itself is the caller's business.

use vstd::prelude::*;

verus! {

/// The per-path result of the copy phase.
#[derive(Clone, Copy, Debug, PartialEq, Eq, Structural)]
pub enum CopyOutcome {
    /// The source jar exists and nothing sits at the destination: copy it.
    Copied,
    /// The source jar is absent or not a regular file: skip, not fatal.
    SkippedMissingSource,
    /// A file of the same name already sits at the destination: skip, never
    /// overwrite, not fatal.
    SkippedDestinationExists,
}

/// What the copy phase does with one resolved jar path.
pub open spec fn copy_outcome_spec(source_is_file: bool, dest_exists: bool) -> CopyOutcome {
    if !source_is_file {
        CopyOutcome::SkippedMissingSource
    } else if dest_exists {
        CopyOutcome::SkippedDestinationExists
    } else {
        CopyOutcome::Copied
    }
}

/// Decides the outcome for one jar: `source_is_file` says whether the source
/// path exists and is a regular file, `dest_exists` whether anything already
/// sits at the destination path.
pub fn copy_outcome(source_is_file: bool, dest_exists: bool) -> (r: CopyOutcome)
    ensures
        r == copy_outcome_spec(source_is_file, dest_exists),
{
    if !source_is_file {
        CopyOutcome::SkippedMissingSource
    } else if dest_exists {
        CopyOutcome::SkippedDestinationExists
    } else {
        CopyOutcome::Copied
    }
}

/// The index of the last occurrence of `c` in `s`, or `-1` when there is
/// none.
pub open spec fn last_index_of(s: Seq<char>, c: char) -> int
    decreases s.len(),
{
    if s.len() == 0 {
        -1
    } else if s[s.len() - 1] == c {
        s.len() - 1
    } else {
        last_index_of(s.drop_last(), c)
    }
}

/// What `last_index_of` finds: a position of `c` with none after it, or `-1`
/// when `c` does not occur.
pub proof fn lemma_last_index_of(s: Seq<char>, c: char)
    ensures
        -1 <= last_index_of(s, c) < s.len(),
        last_index_of(s, c) >= 0 ==> s[last_index_of(s, c)] == c,
        forall|p: int| last_index_of(s, c) < p < s.len() ==> s[p] != c,
    decreases s.len(),
{
    if s.len() > 0 && s[s.len() - 1] != c {
        lemma_last_index_of(s.drop_last(), c);
        assert forall|p: int| last_index_of(s, c) < p < s.len() implies s[p] != c by {
            if p < s.len() - 1 {
                assert(s.drop_last()[p] != c);
            }
        }
    }
}

/// The file name of a path: what follows its last separator, or the whole
/// path when it has none.
pub open spec fn file_name_spec(p: Seq<char>) -> Seq<char> {
    p.subrange(last_index_of(p, '/') + 1, p.len() as int)
}

/// Extracts the file name of `path`.
pub fn file_name(path: &str) -> (r: String)
    ensures
        r@ == file_name_spec(path@),
{
    let n = path.unicode_len();
    let mut k: usize = n;
    while k > 0
        invariant
            k <= n == path@.len(),
            forall|p: int| k <= p < n ==> path@[p] != '/',
        decreases k,
    {
        k = k - 1;
        if path.get_char(k) == '/' {
            proof {
                lemma_last_index_of(path@, '/');
                assert(last_index_of(path@, '/') == k as int);
            }
            return path.substring_char(k + 1, n).to_owned();
        }
    }
    proof {
        lemma_last_index_of(path@, '/');
        assert(last_index_of(path@, '/') == -1);
        assert(path@.subrange(0, n as int) =~= path@);
    }
    path.to_owned()
}

/// The destination of one jar: the file name of the resolved source path,
/// placed directly inside the destination directory.
pub fn dest_path(target_dir: &str, jar_path: &str) -> (r: String)
    ensures
        r@ == target_dir@ + seq!['/'] + file_name_spec(jar_path@),
{
    let name = file_name(jar_path);
    let mut out = target_dir.to_owned();
    out.append("/");
    out.append(name.as_str());
    proof {
        reveal_strlit("/");
        assert(out@ =~= target_dir@ + seq!['/'] + file_name_spec(jar_path@));
    }
    out
}

} // verus!
