//! File-state guards: validated value types asserting that a filesystem path
//! exists and has, or lacks, the ciphertext marker extension (`.age`), and the
//! computation of the counterpart path (marker stripped or appended).
//!
//! Paths are modelled as byte strings. The file name is the part after the
//! last `/`; the extension is the part of the file name after its last `.`,
//! provided that dot is not the file name's first byte. This mirrors how the
//! platform path type finds extensions for ordinary relative and absolute
//! paths. Construction is the sole validation checkpoint: whether the path
//! exists on disk is a fact the caller establishes at the boundary and hands
//! in as a boolean snapshot.

use vstd::prelude::*;

use crate::error::AgeError;
use crate::util::lit_bytes;

verus! {

/// Byte value of `/`.
pub const SLASH: u8 = 47;

/// Byte value of `.`.
pub const DOT: u8 = 46;

/// Index of the last occurrence of `b` in `s`, or `-1` if `b` does not occur.
pub open spec fn last_pos(s: Seq<u8>, b: u8) -> int
    decreases s.len(),
{
    if s.len() == 0 {
        -1
    } else if s[s.len() - 1] == b {
        s.len() - 1
    } else {
        last_pos(s.drop_last(), b)
    }
}

pub proof fn lemma_last_pos(s: Seq<u8>, b: u8)
    ensures
        -1 <= last_pos(s, b) < s.len(),
        last_pos(s, b) >= 0 ==> s[last_pos(s, b)] == b,
        forall|i: int| last_pos(s, b) < i < s.len() ==> s[i] != b,
    decreases s.len(),
{
    if s.len() > 0 && s[s.len() - 1] != b {
        lemma_last_pos(s.drop_last(), b);
        assert(forall|i: int| 0 <= i < s.len() - 1 ==> s.drop_last()[i] == s[i]);
    }
}

pub proof fn lemma_last_pos_unique(s: Seq<u8>, b: u8, n: int)
    requires
        -1 <= n < s.len(),
        n >= 0 ==> s[n] == b,
        forall|i: int| n < i < s.len() ==> s[i] != b,
    ensures
        last_pos(s, b) == n,
    decreases s.len(),
{
    if s.len() == 0 {
    } else if s[s.len() - 1] == b {
        assert(n == s.len() - 1);
    } else {
        assert(n < s.len() - 1);
        assert(forall|i: int| 0 <= i < s.len() - 1 ==> s.drop_last()[i] == s[i]);
        lemma_last_pos_unique(s.drop_last(), b, n);
    }
}

/// Index in `p` where the file name begins: one past the last `/`.
pub open spec fn fname_start(p: Seq<u8>) -> int {
    last_pos(p, SLASH) + 1
}

/// The file name of `p`: everything after the last `/`.
pub open spec fn file_name(p: Seq<u8>) -> Seq<u8> {
    p.skip(fname_start(p))
}

/// Index, within the file name, of the dot introducing the extension.
pub open spec fn ext_dot(p: Seq<u8>) -> int {
    last_pos(file_name(p), DOT)
}

/// Whether `p` has an extension: its file name has a `.` past its first byte.
pub open spec fn has_extension(p: Seq<u8>) -> bool {
    ext_dot(p) > 0
}

/// The extension of `p`: the file-name bytes after the last dot.
pub open spec fn extension(p: Seq<u8>) -> Seq<u8> {
    file_name(p).skip(ext_dot(p) + 1)
}

/// The marker extension, compared byte-wise and case-insensitively.
pub open spec fn is_age_ext(e: Seq<u8>) -> bool {
    &&& e.len() == 3
    &&& (e[0] == 97 || e[0] == 65)
    &&& (e[1] == 103 || e[1] == 71)
    &&& (e[2] == 101 || e[2] == 69)
}

/// Whether `p` carries the ciphertext marker extension.
pub open spec fn has_age_ext(p: Seq<u8>) -> bool {
    has_extension(p) && is_age_ext(extension(p))
}

/// `p` with its extension (and the dot) removed; `p` itself if it has none.
pub open spec fn strip_marker(p: Seq<u8>) -> Seq<u8> {
    if has_extension(p) {
        p.take(fname_start(p) + ext_dot(p))
    } else {
        p
    }
}

/// `p` with the marker extension appended to its file name.
pub open spec fn append_marker(p: Seq<u8>) -> Seq<u8> {
    p + lit_bytes(".age")
}

/// Whether `p` ends in a usable file name: non-empty and neither `.` nor `..`.
pub open spec fn valid_file_name(p: Seq<u8>) -> bool {
    &&& file_name(p).len() > 0
    &&& file_name(p) != seq![DOT]
    &&& file_name(p) != seq![DOT, DOT]
}

/// The condition under which the age-file guard accepts a path snapshot.
pub open spec fn age_file_ok(path: Seq<u8>, present: bool) -> bool {
    present && has_age_ext(path)
}

/// The condition under which the plain-file guard accepts a path snapshot.
pub open spec fn plain_file_ok(path: Seq<u8>, present: bool) -> bool {
    present && !has_age_ext(path)
}

/// Guard disjointness: for any path that exists, exactly one of the age-file
/// guard and the plain-file guard accepts it.
pub proof fn lemma_guard_disjointness(path: Seq<u8>)
    ensures
        age_file_ok(path, true) != plain_file_ok(path, true),
{
}

/// Path pairing: whenever a path's extension is exactly the marker,
/// stripping the marker and appending it again restores the original path.
pub proof fn lemma_path_pairing(p: Seq<u8>)
    requires
        has_extension(p),
        extension(p) == lit_bytes("age"),
    ensures
        append_marker(strip_marker(p)) == p,
{
    reveal_strlit("age");
    reveal_strlit(".age");
    let start = fname_start(p);
    let f = file_name(p);
    let d = ext_dot(p);
    lemma_last_pos(p, SLASH);
    lemma_last_pos(f, DOT);
    assert(f[d] == DOT);
    assert(extension(p).len() == 3);
    assert(p.len() == start + d + 4);
    assert(lit_bytes("age").len() == 3);
    assert(lit_bytes(".age").len() == 4);
    assert(lit_bytes(".age")[0] == DOT && lit_bytes(".age")[1] == 97 && lit_bytes(".age")[2]
        == 103 && lit_bytes(".age")[3] == 101);
    assert(f[d + 1] == 97 && f[d + 2] == 103 && f[d + 3] == 101) by {
        assert(extension(p)[0] == 97 && extension(p)[1] == 103 && extension(p)[2] == 101);
        assert(extension(p)[0] == f[d + 1]);
        assert(extension(p)[1] == f[d + 2]);
        assert(extension(p)[2] == f[d + 3]);
    }
    assert(forall|i: int| 0 <= i < f.len() ==> f[i] == p[start + i]);
    assert(append_marker(strip_marker(p)) =~= p);
}

/// Finds the last occurrence of `b` in `s`.
fn find_last(s: &[u8], b: u8) -> (r: Option<usize>)
    ensures
        match r {
            Some(i) => last_pos(s@, b) == i as int && i < s@.len(),
            None => last_pos(s@, b) == -1,
        },
{
    let mut i: usize = s.len();
    while i > 0
        invariant
            0 <= i <= s@.len(),
            forall|j: int| i <= j < s@.len() ==> s@[j] != b,
        decreases i,
    {
        i = i - 1;
        if s[i] == b {
            proof {
                lemma_last_pos_unique(s@, b, i as int);
            }
            return Some(i);
        }
    }
    proof {
        lemma_last_pos_unique(s@, b, -1);
    }
    None
}

/// Whether the path in `s` carries the marker extension.
pub fn path_has_age_ext(s: &[u8]) -> (r: bool)
    ensures
        r == has_age_ext(s@),
{
    let slen = s.len();
    let start: usize = match find_last(s, SLASH) {
        Some(i) => i + 1,
        None => 0,
    };
    let fname = vstd::slice::slice_subrange(s, start, slen);
    assert(fname@ == file_name(s@));
    let d = match find_last(fname, DOT) {
        Some(i) => i,
        None => return false,
    };
    if d == 0 {
        return false;
    }
    if fname.len() - d != 4 {
        assert(extension(s@).len() != 3);
        return false;
    }
    let e0 = fname[d + 1];
    let e1 = fname[d + 2];
    let e2 = fname[d + 3];
    assert(e0 == extension(s@)[0] && e1 == extension(s@)[1] && e2 == extension(s@)[2]);
    (e0 == 97 || e0 == 65) && (e1 == 103 || e1 == 71) && (e2 == 101 || e2 == 69)
}

/// Computes `strip_marker` of the path in `s`.
fn strip_marker_exec(s: &[u8]) -> (r: Vec<u8>)
    ensures
        r@ == strip_marker(s@),
{
    let slen = s.len();
    let start: usize = match find_last(s, SLASH) {
        Some(i) => i + 1,
        None => 0,
    };
    let fname = vstd::slice::slice_subrange(s, start, slen);
    assert(fname@ == file_name(s@));
    match find_last(fname, DOT) {
        Some(d) if d > 0 => {
            let cut = vstd::slice::slice_subrange(s, 0, start + d);
            vstd::slice::slice_to_vec(cut)
        },
        _ => vstd::slice::slice_to_vec(s),
    }
}

/// A snapshot fact about one path: at construction time it existed and its
/// file name carried the marker extension. The snapshot is not re-validated
/// after construction; callers bear responsibility for staleness.
pub struct ExistingAgeFile {
    path: Vec<u8>,
}

impl View for ExistingAgeFile {
    type V = Seq<u8>;

    closed spec fn view(&self) -> Seq<u8> {
        self.path@
    }
}

impl ExistingAgeFile {
    /// Admits the path only if it exists (`present`, a fact the caller
    /// established at the boundary) and has the marker extension.
    pub fn from_path(path: Vec<u8>, present: bool) -> (r: Result<ExistingAgeFile, AgeError>)
        ensures
            r is Ok <==> age_file_ok(path@, present),
            r matches Ok(g) ==> g@ == path@,
            !present ==> r === Err(AgeError::NotFound),
            present && !has_age_ext(path@) ==> r === Err(AgeError::WrongExtension),
    {
        if !present {
            return Err(AgeError::NotFound);
        }
        if !path_has_age_ext(path.as_slice()) {
            return Err(AgeError::WrongExtension);
        }
        Ok(ExistingAgeFile { path })
    }

    /// The guarded path.
    pub fn path(&self) -> (r: &Vec<u8>)
        ensures
            r@ == self@,
    {
        &self.path
    }

    /// The counterpart path: the guarded path with the marker stripped.
    pub fn strip_age(&self) -> (r: Result<Vec<u8>, AgeError>)
        ensures
            r matches Ok(q) && q@ == strip_marker(self@),
    {
        Ok(strip_marker_exec(self.path.as_slice()))
    }
}

/// A snapshot fact about one path: at construction time it existed and its
/// file name did not carry the marker extension. The snapshot is not
/// re-validated after construction; callers bear responsibility for staleness.
pub struct ExistingNonAgeFile {
    path: Vec<u8>,
}

impl View for ExistingNonAgeFile {
    type V = Seq<u8>;

    closed spec fn view(&self) -> Seq<u8> {
        self.path@
    }
}

impl ExistingNonAgeFile {
    /// Admits the path only if it exists (`present`, a fact the caller
    /// established at the boundary) and lacks the marker extension.
    pub fn from_path(path: Vec<u8>, present: bool) -> (r: Result<ExistingNonAgeFile, AgeError>)
        ensures
            r is Ok <==> plain_file_ok(path@, present),
            r matches Ok(g) ==> g@ == path@,
            !present ==> r === Err(AgeError::NotFound),
            present && has_age_ext(path@) ==> r === Err(AgeError::WrongExtension),
    {
        if !present {
            return Err(AgeError::NotFound);
        }
        if path_has_age_ext(path.as_slice()) {
            return Err(AgeError::WrongExtension);
        }
        Ok(ExistingNonAgeFile { path })
    }

    /// The guarded path.
    pub fn path(&self) -> (r: &Vec<u8>)
        ensures
            r@ == self@,
    {
        &self.path
    }

    /// The counterpart path: the guarded path with the marker appended to its
    /// file name — a pure derivation; the guard itself keeps the path it was
    /// validated with. Fails with `NotAFile` if the path has no usable file
    /// name.
    pub fn append_age(&self) -> (r: Result<Vec<u8>, AgeError>)
        ensures
            valid_file_name(self@) ==> (r matches Ok(q) && q@ == append_marker(self@)),
            !valid_file_name(self@) ==> r === Err(AgeError::NotAFile),
    {
        let plen = self.path.len();
        let start: usize = match find_last(self.path.as_slice(), SLASH) {
            Some(i) => i + 1,
            None => 0,
        };
        let n = self.path.len() - start;
        proof {
            assert(file_name(self@).len() == n);
        }
        if n == 0 {
            return Err(AgeError::NotAFile);
        }
        if n == 1 && self.path[start] == DOT {
            proof {
                assert(file_name(self@) =~= seq![DOT]);
            }
            return Err(AgeError::NotAFile);
        }
        if n == 2 && self.path[start] == DOT && self.path[start + 1] == DOT {
            proof {
                assert(file_name(self@) =~= seq![DOT, DOT]);
            }
            return Err(AgeError::NotAFile);
        }
        proof {
            reveal_strlit(".age");
            let f = file_name(self@);
            assert(f[0] == self.path@[start as int]);
            if n >= 2 {
                assert(f[1] == self.path@[start + 1]);
            }
            assert(valid_file_name(self@));
        }
        let mut out = self.path.clone();
        out.push(DOT);
        out.push(97);
        out.push(103);
        out.push(101);
        proof {
            assert(out@ =~= append_marker(self@));
        }
        Ok(out)
    }
}

} // verus!
