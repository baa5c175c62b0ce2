//! The decision rules of the atomic file-commit protocol: the staging
//! path, whether to commit, and the error type.  The filesystem calls
//! themselves live outside; they follow exactly what is decided here.

use vstd::prelude::*;

verus! {

/// Why replacing a file failed.
#[derive(Debug)]
pub enum ReplaceFileError {
    /// A filesystem step failed; the message describes it.
    Io(String),
    /// The file's modification time changed between open and commit.
    ModifiedTimeChanged,
}

impl ReplaceFileError {
    /// A human-readable description, one line.
    pub fn message(&self) -> (r: String)
        ensures
            self matches ReplaceFileError::Io(e) ==> r@ == e@,
            self is ModifiedTimeChanged ==> r@ == (
            "the file's \"modified\" timestamp unexpectedly changed")@,
    {
        match self {
            ReplaceFileError::Io(e) => e.clone(),
            ReplaceFileError::ModifiedTimeChanged => "the file's \"modified\" timestamp unexpectedly changed".to_owned(),
        }
    }
}

impl From<String> for ReplaceFileError {
    fn from(e: String) -> (r: Self) {
        ReplaceFileError::Io(e)
    }
}

impl vstd::std_specs::convert::FromSpecImpl<String> for ReplaceFileError {
    open spec fn obeys_from_spec() -> bool {
        true
    }

    open spec fn from_spec(e: String) -> Self {
        ReplaceFileError::Io(e)
    }
}

/// What the commit step must do.
#[derive(Copy, Clone, Debug, PartialEq, Eq, Structural)]
pub enum CommitDecision {
    /// The caller asked not to replace the file: discard the staged file
    /// and report success.
    Discard,
    /// Link the staged file and rename it over the target.
    Commit,
    /// The target changed concurrently: discard and report the error.
    RejectModified,
}

/// Decide the commit, from the caller's wish, the modification time
/// expected (when one was captured at discovery), and the time read back
/// just before committing.  A changed time is reported, never overwritten.
pub fn commit_decision(do_replace: bool, expected: Option<i128>, latest: i128) -> (r:
    CommitDecision)
    ensures
        !do_replace ==> r == CommitDecision::Discard,
        do_replace && (expected matches Some(t) && t != latest) ==> r
            == CommitDecision::RejectModified,
        do_replace && (expected is None || expected == Some(latest)) ==> r
            == CommitDecision::Commit,
{
    if !do_replace {
        CommitDecision::Discard
    } else {
        match expected {
            Some(t) => {
                if t != latest {
                    CommitDecision::RejectModified
                } else {
                    CommitDecision::Commit
                }
            },
            None => CommitDecision::Commit,
        }
    }
}

/// The permission bits to give the staged file: the original's mode with
/// the file-type bits (the topmost octal digits, `0o170000`) masked out,
/// restricted to the caller's mask, so the staged file keeps only the
/// original's user/group/other permission bits.
pub fn permission_bits(mode: u32, mask: u32) -> (r: u32)
    ensures
        r == (mode & !0o170000u32) & mask,
{
    (mode & !0o170000u32) & mask
}

/// The fixed suffix of the staging link: `.asdf123.tmp`.
pub open spec fn staging_suffix() -> Seq<u8> {
    seq![46u8, 97u8, 115u8, 100u8, 102u8, 49u8, 50u8, 51u8, 46u8, 116u8, 109u8, 112u8]
}

/// The index where the file name begins: just after the last `/`.
pub open spec fn file_name_start(path: Seq<u8>) -> int
    decreases path.len(),
{
    if path.len() == 0 {
        0
    } else if path.last() == 47 {
        path.len() as int
    } else {
        file_name_start(path.drop_last())
    }
}

/// Whether the file name has an extension: a dot somewhere after its
/// first byte.
pub open spec fn has_extension(path: Seq<u8>) -> bool {
    exists|i: int| file_name_start(path) < i < path.len() && #[trigger] path[i] == 46
}

/// The staging path: the original path with the fixed suffix appended to
/// its extension — so the suffix is simply appended, with one more dot in
/// between when the file name has no extension.
pub open spec fn staging_path_spec(path: Seq<u8>) -> Seq<u8> {
    if has_extension(path) {
        path + staging_suffix()
    } else {
        path + seq![46u8] + staging_suffix()
    }
}

/// Compute the staging path for a target path (as bytes).
pub fn staging_path(path: &[u8]) -> (r: Vec<u8>)
    ensures
        r@ == staging_path_spec(path@),
{
    // find the start of the file name
    let mut name_start: usize = 0;
    let mut i: usize = 0;
    proof {
        assert(path@.take(0) =~= Seq::<u8>::empty());
    }
    while i < path.len()
        invariant
            0 <= name_start <= i <= path@.len(),
            name_start == file_name_start(path@.take(i as int)),
        decreases path@.len() - i,
    {
        proof {
            let t = path@.take(i + 1);
            assert(t.drop_last() =~= path@.take(i as int));
            assert(t.last() == path@[i as int]);
        }
        if path[i] == 47 {
            name_start = i + 1;
        }
        i += 1;
    }
    proof {
        assert(path@.take(path@.len() as int) =~= path@);
    }
    // an extension needs a dot after the first byte of the file name
    let mut has_ext = false;
    let mut k: usize = if name_start < path.len() {
        name_start + 1
    } else {
        path.len()
    };
    let ghost mut dot: int = 0;
    while k < path.len()
        invariant
            name_start < k || k == path@.len(),
            k <= path@.len(),
            name_start == file_name_start(path@),
            has_ext ==> name_start < dot < k && path@[dot] == 46,
            !has_ext ==> forall|m: int| name_start < m < k ==> path@[m] != 46,
        decreases path@.len() - k,
    {
        if path[k] == 46 {
            has_ext = true;
            proof {
                dot = k as int;
            }
        }
        k += 1;
    }
    let mut r: Vec<u8> = Vec::new();
    r.extend_from_slice(path);
    if !has_ext {
        r.push(46);
    }
    r.push(46);
    r.push(97);
    r.push(115);
    r.push(100);
    r.push(102);
    r.push(49);
    r.push(50);
    r.push(51);
    r.push(46);
    r.push(116);
    r.push(109);
    r.push(112);
    proof {
        if has_ext {
            assert(has_extension(path@));
            assert(r@ =~= path@ + staging_suffix());
        } else {
            assert(!has_extension(path@)) by {
                if has_extension(path@) {
                    let ii = choose|i: int|
                        file_name_start(path@) < i < path@.len() && #[trigger] path@[i] == 46;
                    assert(path@[ii] != 46);
                }
            }
            assert(r@ =~= path@ + seq![46u8] + staging_suffix());
        }
    }
    r
}

} // verus!
