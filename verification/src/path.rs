//! Paths inside a manifest: ordered sequences of non-empty, NUL-free,
//! slash-free components, carried in their canonical joined byte form
//! (components separated by `/`). The joined form is what a manifest
//! line holds and what entries are ordered by.

use vstd::prelude::*;

use crate::errors::ParseError;
use crate::order::{bytes_eq, copy_bytes};

verus! {

/// Whether `s` is a valid single path component: non-empty, and free of
/// NUL and `/`.
pub open spec fn valid_element_bytes(s: Seq<u8>) -> bool {
    s.len() > 0 && forall|i: int| 0 <= i < s.len() ==> s[i] != 0 && s[i] != 47
}

/// Whether `s` is the joined form of a valid path: non-empty, NUL-free,
/// and every `/`-separated component non-empty (no slash at either end,
/// no two adjacent slashes).
pub open spec fn valid_path_bytes(s: Seq<u8>) -> bool {
    &&& s.len() > 0
    &&& forall|i: int| 0 <= i < s.len() ==> s[i] != 0
    &&& s[0] != 47
    &&& s[s.len() - 1] != 47
    &&& forall|i: int| 0 <= i < s.len() - 1 ==> !(#[trigger] s[i] == 47 && s[i + 1] == 47)
}

/// Joining two valid paths with a `/` between them yields a valid path.
pub proof fn lemma_join_valid(a: Seq<u8>, b: Seq<u8>)
    requires
        valid_path_bytes(a),
        valid_path_bytes(b),
    ensures
        valid_path_bytes(a + seq![47u8] + b),
{
    let j = a + seq![47u8] + b;
    assert(j.len() == a.len() + 1 + b.len());
    assert forall|i: int| 0 <= i < j.len() implies j[i] != 0 by {
        if i < a.len() {
            assert(j[i] == a[i]);
        } else if i == a.len() {
            assert(j[i] == 47);
        } else {
            assert(j[i] == b[i - a.len() - 1]);
        }
    }
    assert(j[0] == a[0]);
    assert(j[j.len() - 1] == b[b.len() - 1]);
    assert forall|i: int| 0 <= i < j.len() - 1 implies !(#[trigger] j[i] == 47 && j[i + 1] == 47) by {
        if i + 1 < a.len() {
            assert(j[i] == a[i] && j[i + 1] == a[i + 1]);
        } else if i + 1 == a.len() {
            assert(j[i] == a[i] && i == a.len() - 1);
            assert(j[i] == a[a.len() - 1]);
        } else if i == a.len() {
            assert(j[i + 1] == b[0]);
        } else {
            assert(j[i] == b[i - a.len() - 1] && j[i + 1] == b[i - a.len()]);
        }
    }
}

/// Whether `nm` is the last component of the joined path bytes `p`:
/// its maximal slash-free suffix, preceded by a `/` unless it is the
/// whole path.
pub open spec fn is_last_component(nm: Seq<u8>, p: Seq<u8>) -> bool {
    &&& valid_element_bytes(nm)
    &&& nm.len() <= p.len()
    &&& nm == p.skip(p.len() - nm.len())
    &&& nm.len() < p.len() ==> p[p.len() - nm.len() - 1] == 47
}

/// One component of a path.
#[derive(Clone, Debug, Eq)]
pub struct MPathElement {
    bytes: Vec<u8>,
}

impl View for MPathElement {
    type V = Seq<u8>;

    closed spec fn view(&self) -> Seq<u8> {
        self.bytes@
    }
}

impl MPathElement {
    /// Whether the component holds valid bytes.
    pub open spec fn wf(&self) -> bool {
        valid_element_bytes(self@)
    }

    /// The component's bytes.
    pub fn as_bytes(&self) -> (r: &Vec<u8>)
        ensures
            r@ == self@,
    {
        &self.bytes
    }

    /// An owned copy of the component.
    pub fn clone_element(&self) -> (r: MPathElement)
        ensures
            r@ == self@,
    {
        MPathElement { bytes: copy_bytes(self.bytes.as_slice()) }
    }
}

impl PartialEq for MPathElement {
    fn eq(&self, other: &Self) -> (r: bool)
        ensures
            r == (self@ == other@),
    {
        bytes_eq(self.bytes.as_slice(), other.bytes.as_slice())
    }
}

impl vstd::std_specs::cmp::PartialEqSpecImpl for MPathElement {
    open spec fn obeys_eq_spec() -> bool {
        true
    }

    open spec fn eq_spec(&self, other: &Self) -> bool {
        self@ == other@
    }
}

/// A path: one or more components, held in joined form.
#[derive(Clone, Debug, Eq)]
pub struct MPath {
    bytes: Vec<u8>,
}

impl View for MPath {
    type V = Seq<u8>;

    closed spec fn view(&self) -> Seq<u8> {
        self.bytes@
    }
}

impl PartialEq for MPath {
    fn eq(&self, other: &Self) -> (r: bool)
        ensures
            r == (self@ == other@),
    {
        bytes_eq(self.bytes.as_slice(), other.bytes.as_slice())
    }
}

impl vstd::std_specs::cmp::PartialEqSpecImpl for MPath {
    open spec fn obeys_eq_spec() -> bool {
        true
    }

    open spec fn eq_spec(&self, other: &Self) -> bool {
        self@ == other@
    }
}

impl MPath {
    /// Whether the path holds valid joined bytes.
    pub open spec fn wf(&self) -> bool {
        valid_path_bytes(self@)
    }

    /// Build a path from its joined byte form, validating it. Rejects
    /// exactly the byte strings that are not a valid joined path.
    pub fn new(p: &[u8]) -> (r: Result<MPath, ParseError>)
        ensures
            r.is_ok() <==> valid_path_bytes(p@),
            r.is_ok() ==> r->Ok_0@ == p@ && r->Ok_0.wf(),
            r.is_err() ==> r->Err_0 == ParseError::InvalidPath,
    {
        if p.len() == 0 {
            return Err(ParseError::InvalidPath);
        }
        let n = p.len();
        let mut i: usize = 0;
        while i < n
            invariant
                n == p@.len(),
                0 < n,
                i <= n,
                forall|j: int| 0 <= j < i ==> p@[j] != 0,
                forall|j: int| 0 <= j < i ==> !(p@[j] == 47 && (j == 0 || j == n - 1)),
                forall|j: int| 1 <= j < i ==> !(#[trigger] p@[j] == 47 && p@[j - 1] == 47),
            decreases n - i,
        {
            let c = p[i];
            if c == 0 {
                return Err(ParseError::InvalidPath);
            }
            if c == 47 {
                if i == 0 || i == n - 1 {
                    return Err(ParseError::InvalidPath);
                }
                if p[i - 1] == 47 {
                    return Err(ParseError::InvalidPath);
                }
            }
            i = i + 1;
        }
        proof {
            assert(valid_path_bytes(p@));
        }
        Ok(MPath { bytes: vstd::slice::slice_to_vec(p) })
    }

    /// Join another path onto this one: the canonical form is this
    /// path's bytes, a `/`, then the other path's bytes.
    pub fn join(&self, other: &MPath) -> (r: MPath)
        requires
            self.wf(),
            other.wf(),
        ensures
            r@ == self@ + seq![47u8] + other@,
            r.wf(),
    {
        let mut bytes = copy_bytes(self.bytes.as_slice());
        bytes.push(47);
        let mut i: usize = 0;
        while i < other.bytes.len()
            invariant
                i <= other@.len(),
                bytes@ == self@ + seq![47u8] + other@.take(i as int),
            decreases other@.len() - i,
        {
            let c = other.bytes[i];
            bytes.push(c);
            proof {
                assert(other@.take(i + 1) =~= other@.take(i as int).push(other@[i as int]));
                assert(bytes@ =~= self@ + seq![47u8] + other@.take(i + 1));
            }
            i = i + 1;
        }
        proof {
            assert(other@.take(other@.len() as int) =~= other@);
            assert(bytes@ =~= self@ + seq![47u8] + other@);
            lemma_join_valid(self@, other@);
        }
        MPath { bytes }
    }

    /// Whether this path comes strictly before `other` in raw byte
    /// order of the joined forms.
    pub fn lt(&self, other: &MPath) -> (r: bool)
        ensures
            r == crate::order::lex_lt(self@, other@),
    {
        crate::order::bytes_lt(self.bytes.as_slice(), other.bytes.as_slice())
    }

    /// An owned copy of the path.
    pub fn clone_path(&self) -> (r: MPath)
        ensures
            r@ == self@,
    {
        MPath { bytes: copy_bytes(self.bytes.as_slice()) }
    }

    /// The joined byte form, as an owned vector.
    pub fn to_vec(&self) -> (r: Vec<u8>)
        ensures
            r@ == self@,
    {
        copy_bytes(self.bytes.as_slice())
    }

    /// The joined byte form.
    pub fn as_bytes(&self) -> (r: &Vec<u8>)
        ensures
            r@ == self@,
    {
        &self.bytes
    }

    /// Append the joined byte form to `out`.
    pub fn generate(&self, out: &mut Vec<u8>)
        ensures
            final(out)@ == old(out)@ + self@,
    {
        crate::order::append_bytes(out, self.bytes.as_slice());
    }

    /// The last component of the path: its maximal slash-free suffix,
    /// which in a valid path is preceded by a `/` unless it is the whole
    /// path.
    pub fn last_element(&self) -> (r: MPathElement)
        requires
            self.wf(),
        ensures
            is_last_component(r@, self@),
    {
        let n = self.bytes.len();
        let mut start: usize = n;
        while start > 0 && self.bytes[start - 1] != 47
            invariant
                self.wf(),
                n == self@.len(),
                start <= n,
                forall|j: int| start <= j < n ==> self@[j] != 47,
            decreases start,
        {
            start = start - 1;
        }
        proof {
            if start > 0 {
                assert(self@[start - 1] == 47);
                assert(self@[n - 1] != 47);
                assert(start != n);
            }
            assert(start < n);
        }
        let tail = vstd::slice::slice_subrange(self.bytes.as_slice(), start, n);
        proof {
            assert(self@.subrange(start as int, n as int) =~= self@.skip(start as int));
        }
        MPathElement { bytes: vstd::slice::slice_to_vec(tail) }
    }
}

/// A path tagged with what occupies it: a directory for tree entries, a
/// file for everything else.
#[derive(Clone, Debug, Eq, PartialEq)]
pub enum RepoPath {
    DirectoryPath(MPath),
    FilePath(MPath),
}

impl RepoPath {
    /// Whether the underlying path is valid.
    pub open spec fn wf(&self) -> bool {
        self.mpath_spec().wf()
    }

    /// The underlying path.
    pub open spec fn mpath_spec(&self) -> MPath {
        match self {
            RepoPath::DirectoryPath(p) => *p,
            RepoPath::FilePath(p) => *p,
        }
    }

    /// Whether this names a directory.
    pub open spec fn is_dir_spec(&self) -> bool {
        self is DirectoryPath
    }

    /// Tag a path as a directory.
    pub fn dir(path: MPath) -> (r: RepoPath)
        ensures
            r == RepoPath::DirectoryPath(path),
    {
        RepoPath::DirectoryPath(path)
    }

    /// Tag a path as a file.
    pub fn file(path: MPath) -> (r: RepoPath)
        ensures
            r == RepoPath::FilePath(path),
    {
        RepoPath::FilePath(path)
    }

    /// The underlying path.
    pub fn mpath(&self) -> (r: &MPath)
        ensures
            *r == self.mpath_spec(),
    {
        match self {
            RepoPath::DirectoryPath(p) => p,
            RepoPath::FilePath(p) => p,
        }
    }

    /// Whether this names a directory.
    pub fn is_dir(&self) -> (r: bool)
        ensures
            r == self.is_dir_spec(),
    {
        match self {
            RepoPath::DirectoryPath(_) => true,
            RepoPath::FilePath(_) => false,
        }
    }

    /// An owned copy of the tagged path.
    pub fn clone_repo_path(&self) -> (r: RepoPath)
        ensures
            r.is_dir_spec() == self.is_dir_spec(),
            r.mpath_spec()@ == self.mpath_spec()@,
    {
        match self {
            RepoPath::DirectoryPath(p) => RepoPath::DirectoryPath(p.clone_path()),
            RepoPath::FilePath(p) => RepoPath::FilePath(p.clone_path()),
        }
    }
}

} // verus!
