//! Versioned manifests and lazy entry resolution. A `RevlogManifest`
//! wraps a parsed body with its parent identifiers and an optional
//! reference to a backing content store; a `RevlogEntry` resolves one
//! record's content against that store on demand, re-parsing nested
//! trees under the entry's own path.

use vstd::prelude::*;

use crate::errors::{ManifestError, ParseError, ResolveErrorKind};
use crate::manifest::{
    entries_wf, files_view, generate_entries, parse_entries, Details, ManifestContent, Type,
};
use crate::nodehash::{EntryId, NodeHash, Parents};
use crate::order::copy_bytes;
use crate::path::{MPath, MPathElement, RepoPath};

verus! {

/// A resolution error, wrapped with the path and content hash of the
/// entry whose resolution failed.
#[derive(Clone, Debug, Eq, PartialEq)]
pub struct EntryError {
    pub path: RepoPath,
    pub hash: NodeHash,
    pub kind: ResolveErrorKind,
}

/// A node's byte payload; its absence is a valid, reportable state.
#[derive(Clone, Debug, Eq, PartialEq)]
pub struct Blob {
    bytes: Option<Vec<u8>>,
}

impl View for Blob {
    type V = Option<Seq<u8>>;

    closed spec fn view(&self) -> Option<Seq<u8>> {
        match self.bytes {
            Option::Some(b) => Option::Some(b@),
            Option::None => Option::None,
        }
    }
}

impl Blob {
    /// A blob holding the given bytes.
    pub fn new(bytes: Vec<u8>) -> (r: Blob)
        ensures
            r@ == Option::Some(bytes@),
    {
        Blob { bytes: Some(bytes) }
    }

    /// A blob with no byte payload.
    pub fn missing() -> (r: Blob)
        ensures
            r@ == Option::<Seq<u8>>::None,
    {
        Blob { bytes: None }
    }

    /// The payload bytes, if present.
    pub fn as_slice(&self) -> (r: Option<&Vec<u8>>)
        ensures
            match r {
                Option::Some(b) => self@ == Option::Some(b@),
                Option::None => self@ is None,
            },
    {
        match &self.bytes {
            Some(b) => Some(b),
            None => None,
        }
    }

    /// The payload's byte count, if the payload is present.
    pub fn size(&self) -> (r: Option<usize>)
        ensures
            match self@ {
                Option::Some(b) => r == Option::Some(b.len() as usize),
                Option::None => r is None,
            },
    {
        match &self.bytes {
            Some(b) => Some(b.len()),
            None => None,
        }
    }

    /// An owned copy of the blob.
    pub fn clone_blob(&self) -> (r: Blob)
        ensures
            r@ == self@,
    {
        match &self.bytes {
            Some(b) => Blob { bytes: Some(copy_bytes(b.as_slice())) },
            None => Blob { bytes: None },
        }
    }
}

/// A node fetched from the store: a blob and the node's recorded
/// parents.
#[derive(Clone, Debug, Eq, PartialEq)]
pub struct BlobNode {
    blob: Blob,
    parents: Parents,
}

impl View for BlobNode {
    type V = (Option<Seq<u8>>, Seq<Seq<u8>>);

    closed spec fn view(&self) -> (Option<Seq<u8>>, Seq<Seq<u8>>) {
        (self.blob@, self.parents@)
    }
}

impl BlobNode {
    /// A node from its blob and parents.
    pub fn new(blob: Blob, parents: Parents) -> (r: BlobNode)
        ensures
            r@ == (blob@, parents@),
    {
        BlobNode { blob, parents }
    }

    /// The node's blob.
    pub fn as_blob(&self) -> (r: &Blob)
        ensures
            r@ == self@.0,
    {
        &self.blob
    }

    /// The node's recorded parents.
    pub fn parents(&self) -> (r: &Parents)
        ensures
            r@ == self@.1,
    {
        &self.parents
    }

    /// An owned copy of the node.
    pub fn clone_node(&self) -> (r: BlobNode)
        ensures
            r@ == self@,
    {
        BlobNode { blob: self.blob.clone_blob(), parents: clone_parents(&self.parents) }
    }
}

/// An owned copy of a parents value.
pub fn clone_parents(p: &Parents) -> (r: Parents)
    ensures
        r@ == p@,
{
    let r = match p {
        Parents::Zero => Parents::Zero,
        Parents::One(a) => Parents::One(a.clone_hash()),
        Parents::Two(a, b) => Parents::Two(a.clone_hash(), b.clone_hash()),
    };
    proof {
        assert(r@ =~= p@);
    }
    r
}

/// Index of the first position where the metadata marker pair (the
/// bytes 1 then 10) starts, or `s.len()` when it never occurs.
pub open spec fn first_pair_index(s: Seq<u8>) -> int
    decreases s.len(),
{
    if s.len() < 2 {
        s.len() as int
    } else if s[0] == 1 && s[1] == 10 {
        0
    } else {
        1 + first_pair_index(s.drop_first())
    }
}

/// Any position with no marker pair before it, and a pair at it unless
/// at the end, is `first_pair_index`.
pub proof fn lemma_first_pair_index_of(s: Seq<u8>, i: int)
    requires
        0 <= i <= s.len(),
        forall|j: int| 0 <= j < i && j + 1 < s.len() ==> !(#[trigger] s[j] == 1 && s[j + 1] == 10),
        i < s.len() ==> i + 1 < s.len() && s[i] == 1 && s[i + 1] == 10,
        i == s.len() - 1 ==> false,
    ensures
        first_pair_index(s) == i,
    decreases s.len(),
{
    if s.len() < 2 {
        assert(i == s.len());
    } else if !(s[0] == 1 && s[1] == 10) {
        let t = s.drop_first();
        assert forall|j: int|
            0 <= j < i - 1 && j + 1 < t.len() implies !(#[trigger] t[j] == 1 && t[j + 1] == 10) by {
            assert(t[j] == s[j + 1] && t[j + 1] == s[j + 2]);
        }
        assert(i >= 1);
        assert(i - 1 < t.len() ==> t[i - 1] == s[i] && (i < t.len() ==> t[i] == s[i + 1]));
        lemma_first_pair_index_of(t, i - 1);
    }
}

/// A mutable file blob's bytes with the leading metadata header
/// stripped: when the bytes open with the marker pair and a closing
/// marker pair follows, everything up to and including the closing
/// marker goes; otherwise the bytes pass through unchanged.
pub open spec fn strip_meta(b: Seq<u8>) -> Seq<u8> {
    if b.len() >= 2 && b[0] == 1 && b[1] == 10 {
        let t = b.skip(2);
        let i = first_pair_index(t);
        if i < t.len() {
            t.skip(i + 2)
        } else {
            b
        }
    } else {
        b
    }
}

/// Strip the metadata header, if any, from a blob's payload.
pub fn strip_file_metadata(blob: &Blob) -> (r: Blob)
    ensures
        match blob@ {
            Option::Some(b) => r@ == Option::Some(strip_meta(b)),
            Option::None => r@ is None,
        },
{
    let bytes = match blob.as_slice() {
        Some(b) => b,
        None => {
            return Blob::missing();
        },
    };
    let n = bytes.len();
    if n < 2 {
        return Blob::new(copy_bytes(bytes.as_slice()));
    }
    if !(bytes[0] == 1 && bytes[1] == 10) {
        return Blob::new(copy_bytes(bytes.as_slice()));
    }
    let ghost t = bytes@.skip(2);
    let mut j: usize = 2;
    while j < n - 1 && !(bytes[j] == 1 && bytes[j + 1] == 10)
        invariant
            n == bytes@.len(),
            n >= 2,
            2 <= j <= n,
            t == bytes@.skip(2),
            forall|k: int|
                0 <= k < j - 2 && k + 1 < t.len() ==> !(#[trigger] t[k] == 1 && t[k + 1] == 10),
        decreases n - j,
    {
        proof {
            assert(t[j - 2] == bytes@[j as int]);
            assert(j - 1 < t.len() ==> t[j - 1] == bytes@[j + 1]);
            assert forall|k: int|
                0 <= k < j - 1 && k + 1 < t.len() implies !(#[trigger] t[k] == 1 && t[k + 1]
                == 10) by {
                if k == j - 2 {
                    assert(t[k] == bytes@[j as int] && t[k + 1] == bytes@[j + 1]);
                }
            }
        }
        j = j + 1;
    }
    if j < n - 1 {
        proof {
            assert(t[j - 2] == bytes@[j as int] && t[j - 1] == bytes@[j + 1]);
            lemma_first_pair_index_of(t, j - 2);
            assert(first_pair_index(t) == j - 2);
            assert(t.skip(j - 2 + 2) =~= bytes@.skip(j as int + 2));
        }
        let tail = vstd::slice::slice_subrange(bytes.as_slice(), j + 2, n);
        proof {
            assert(tail@ =~= bytes@.skip(j as int + 2));
        }
        Blob::new(copy_bytes(tail))
    } else {
        proof {
            lemma_first_pair_index_of(t, t.len() as int);
            assert(first_pair_index(t) == t.len());
            assert(strip_meta(bytes@) == bytes@);
        }
        Blob::new(copy_bytes(bytes.as_slice()))
    }
}

/// First node recorded under the key, scanning the entries in order.
pub open spec fn store_find(
    s: Seq<(RepoPath, NodeHash, BlobNode)>,
    d: bool,
    p: Seq<u8>,
    h: Seq<u8>,
) -> Option<(Option<Seq<u8>>, Seq<Seq<u8>>)>
    decreases s.len(),
{
    if s.len() == 0 {
        Option::None
    } else if s[0].0.is_dir_spec() == d && s[0].0.mpath_spec()@ == p && s[0].1@ == h {
        Option::Some(s[0].2@)
    } else {
        store_find(s.drop_first(), d, p, h)
    }
}

/// Two entry sequences that agree pointwise on key and node views find
/// the same nodes.
proof fn lemma_store_find_congruent(
    s1: Seq<(RepoPath, NodeHash, BlobNode)>,
    s2: Seq<(RepoPath, NodeHash, BlobNode)>,
    d: bool,
    p: Seq<u8>,
    h: Seq<u8>,
)
    requires
        s1.len() == s2.len(),
        forall|i: int|
            0 <= i < s1.len() ==> (#[trigger] s1[i]).0.is_dir_spec() == (
            #[trigger] s2[i]).0.is_dir_spec() && s1[i].0.mpath_spec()@ == s2[i].0.mpath_spec()@
                && s1[i].1@ == s2[i].1@ && s1[i].2@ == s2[i].2@,
    ensures
        store_find(s1, d, p, h) == store_find(s2, d, p, h),
    decreases s1.len(),
{
    if s1.len() != 0 {
        let t1 = s1.drop_first();
        let t2 = s2.drop_first();
        assert forall|i: int|
            0 <= i < t1.len() implies (#[trigger] t1[i]).0.is_dir_spec() == (
        #[trigger] t2[i]).0.is_dir_spec() && t1[i].0.mpath_spec()@ == t2[i].0.mpath_spec()@
            && t1[i].1@ == t2[i].1@ && t1[i].2@ == t2[i].2@ by {
            assert(t1[i] == s1[i + 1] && t2[i] == s2[i + 1]);
        }
        lemma_store_find_congruent(t1, t2, d, p, h);
    }
}

/// An in-memory content-addressed store: nodes keyed by the path they
/// were committed under and their content hash. It stands in for the
/// backing store a live repository would consult.
#[derive(Debug)]
pub struct MemStore {
    entries: Vec<(RepoPath, NodeHash, BlobNode)>,
}

impl MemStore {
    /// The stored entries.
    pub closed spec fn contents(&self) -> Seq<(RepoPath, NodeHash, BlobNode)> {
        self.entries@
    }

    /// The node view stored under a key, if any.
    pub open spec fn lookup_spec(&self, d: bool, p: Seq<u8>, h: Seq<u8>) -> Option<
        (Option<Seq<u8>>, Seq<Seq<u8>>),
    > {
        store_find(self.contents(), d, p, h)
    }

    /// An empty store.
    pub fn new() -> (r: MemStore)
        ensures
            forall|d: bool, p: Seq<u8>, h: Seq<u8>| #[trigger] r.lookup_spec(d, p, h) is None,
    {
        let r = MemStore { entries: Vec::new() };
        proof {
            assert(r.contents() =~= Seq::<(RepoPath, NodeHash, BlobNode)>::empty());
        }
        r
    }

    /// Record a node under a key; the newest node under a key wins.
    pub fn add(&mut self, path: RepoPath, hash: NodeHash, node: BlobNode)
        ensures
            forall|d: bool, p: Seq<u8>, h: Seq<u8>|
                #[trigger] final(self).lookup_spec(d, p, h) == (if d == path.is_dir_spec() && p
                    == path.mpath_spec()@ && h == hash@ {
                    Option::Some(node@)
                } else {
                    old(self).lookup_spec(d, p, h)
                }),
    {
        let ghost kd = path.is_dir_spec();
        let ghost kp = path.mpath_spec()@;
        let ghost kh = hash@;
        let ghost kn = node@;
        self.entries.insert(0, (path, hash, node));
        proof {
            assert forall|d: bool, p: Seq<u8>, h: Seq<u8>|
                #[trigger] self.lookup_spec(d, p, h) == (if d == kd && p == kp && h == kh {
                    Option::Some(kn)
                } else {
                    old(self).lookup_spec(d, p, h)
                }) by {
                assert(self.contents()[0].0.is_dir_spec() == kd);
                assert(self.contents().drop_first() =~= old(self).contents());
            }
        }
    }

    /// Fetch the node stored under a key.
    pub fn fetch(&self, path: &RepoPath, hash: &NodeHash) -> (r: Option<BlobNode>)
        ensures
            match r {
                Option::Some(n) => self.lookup_spec(path.is_dir_spec(), path.mpath_spec()@, hash@)
                    == Option::Some(n@),
                Option::None => self.lookup_spec(
                    path.is_dir_spec(),
                    path.mpath_spec()@,
                    hash@,
                ) is None,
            },
    {
        let ghost d = path.is_dir_spec();
        let ghost p = path.mpath_spec()@;
        let ghost h = hash@;
        let n = self.entries.len();
        let mut i: usize = 0;
        proof {
            assert(self.contents().skip(0) =~= self.contents());
        }
        while i < n
            invariant
                n == self.contents().len(),
                i <= n,
                d == path.is_dir_spec(),
                p == path.mpath_spec()@,
                h == hash@,
                store_find(self.contents().skip(i as int), d, p, h) == store_find(
                    self.contents(),
                    d,
                    p,
                    h,
                ),
            decreases n - i,
        {
            let ghost tail = self.contents().skip(i as int);
            proof {
                assert(tail[0] == self.contents()[i as int]);
            }
            let same_kind = self.entries[i].0.is_dir() == path.is_dir();
            let same_path = self.entries[i].0.mpath().eq(path.mpath());
            let same_hash = self.entries[i].1.eq(hash);
            if same_kind && same_path && same_hash {
                let node = self.entries[i].2.clone_node();
                return Some(node);
            }
            proof {
                assert(tail.drop_first() =~= self.contents().skip(i as int + 1));
            }
            i = i + 1;
        }
        proof {
            assert(self.contents().skip(n as int).len() == 0);
        }
        None
    }

    /// An owned copy of the store, holding the same nodes under the
    /// same keys.
    pub fn clone_store(&self) -> (r: MemStore)
        ensures
            forall|d: bool, p: Seq<u8>, h: Seq<u8>|
                #[trigger] r.lookup_spec(d, p, h) == self.lookup_spec(d, p, h),
    {
        let n = self.entries.len();
        let mut out: Vec<(RepoPath, NodeHash, BlobNode)> = Vec::new();
        let mut i: usize = 0;
        while i < n
            invariant
                n == self.contents().len(),
                i <= n,
                out@.len() == i,
                forall|k: int|
                    0 <= k < i ==> (#[trigger] out@[k]).0.is_dir_spec()
                        == self.contents()[k].0.is_dir_spec() && out@[k].0.mpath_spec()@
                        == self.contents()[k].0.mpath_spec()@ && out@[k].1@
                        == self.contents()[k].1@ && out@[k].2@ == self.contents()[k].2@,
            decreases n - i,
        {
            let rp = self.entries[i].0.clone_repo_path();
            let nh = self.entries[i].1.clone_hash();
            let bn = self.entries[i].2.clone_node();
            out.push((rp, nh, bn));
            i = i + 1;
        }
        let r = MemStore { entries: out };
        proof {
            assert forall|d: bool, p: Seq<u8>, h: Seq<u8>|
                #[trigger] r.lookup_spec(d, p, h) == self.lookup_spec(d, p, h) by {
                lemma_store_find_congruent(r.contents(), self.contents(), d, p, h);
            }
        }
        r
    }
}

/// A blob payload with its metadata header stripped when present.
pub open spec fn opt_strip(o: Option<Seq<u8>>) -> Option<Seq<u8>> {
    match o {
        Option::Some(b) => Option::Some(strip_meta(b)),
        Option::None => Option::None,
    }
}

/// Whether an error value carries the given path and hash as context.
pub open spec fn err_context(e: EntryError, d: bool, p: Seq<u8>, h: Seq<u8>) -> bool {
    e.path.is_dir_spec() == d && e.path.mpath_spec()@ == p && e.hash@ == h
}

/// A versioned manifest: a parsed body, its 0, 1 or 2 parent
/// identifiers, and an optional reference to the backing store needed
/// to resolve nested content. The reference may legitimately be absent
/// (isolated parsing); operations that need it fail explicitly then.
#[derive(Debug)]
pub struct RevlogManifest {
    repo: Option<MemStore>,
    parents: Parents,
    content: ManifestContent,
}

/// The resolved content of one manifest entry.
#[derive(Debug)]
pub enum Content {
    File(Blob),
    Executable(Blob),
    Symlink(MPath),
    Tree(RevlogManifest),
}

impl RevlogManifest {
    /// The manifest's entries, as path/record pairs over views.
    pub closed spec fn entries(&self) -> Seq<(Seq<u8>, (Seq<u8>, Type))> {
        self.content@
    }

    /// The views of the manifest's parent hashes.
    pub closed spec fn parents_spec(&self) -> Seq<Seq<u8>> {
        self.parents@
    }

    /// Whether the manifest holds a store reference.
    pub closed spec fn has_store(&self) -> bool {
        self.repo is Some
    }

    /// The store reference.
    pub closed spec fn store(&self) -> MemStore {
        self.repo->Some_0
    }

    /// Whether the body is well formed.
    pub open spec fn wf(&self) -> bool {
        entries_wf(self.entries())
    }

    /// Build a manifest from a store and a fetched node, reading the
    /// node's payload and parents. Fails when the node has no payload
    /// or its payload does not parse.
    pub fn new(repo: MemStore, node: BlobNode) -> (r: Result<RevlogManifest, ManifestError>)
        ensures
            match r {
                Ok(m) => node@.0 matches Some(b) && parse_entries(b, Option::None) == Ok::<
                    Seq<(Seq<u8>, (Seq<u8>, Type))>,
                    ParseError,
                >(m.entries()) && m.wf() && m.parents_spec() == node@.1 && m.has_store()
                    && m.store() == repo,
                Err(ManifestError::MissingBlobData) => node@.0 is None,
                Err(ManifestError::Parse(e)) => node@.0 matches Some(b) && parse_entries(
                    b,
                    Option::None,
                ) == Err::<Seq<(Seq<u8>, (Seq<u8>, Type))>, ParseError>(e),
                Err(ManifestError::MissingStore) => false,
            },
    {
        let blob = match node.as_blob().as_slice() {
            Some(b) => b,
            None => {
                return Err(ManifestError::MissingBlobData);
            },
        };
        match Self::parse_inner(Some(repo), node.parents(), blob.as_slice()) {
            Ok(m) => Ok(m),
            Err(e) => Err(ManifestError::Parse(e)),
        }
    }

    /// Parse manifest bytes into a versioned manifest carrying the
    /// given parents and optional store reference.
    fn parse_inner(repo: Option<MemStore>, parents: &Parents, data: &[u8]) -> (r: Result<
        RevlogManifest,
        ParseError,
    >)
        ensures
            match r {
                Ok(m) => parse_entries(data@, Option::None) == Ok::<
                    Seq<(Seq<u8>, (Seq<u8>, Type))>,
                    ParseError,
                >(m.entries()) && m.wf() && crate::manifest::entries_line_safe(m.entries())
                    && m.parents_spec() == parents@ && m.has_store() == (repo is Some) && (
                repo matches Some(s) ==> m.store() == s),
                Err(e) => parse_entries(data@, Option::None) == Err::<
                    Seq<(Seq<u8>, (Seq<u8>, Type))>,
                    ParseError,
                >(e),
            },
    {
        match ManifestContent::parse(data) {
            Ok(content) => Ok(
                RevlogManifest { repo, parents: clone_parents(parents), content },
            ),
            Err(e) => Err(e),
        }
    }

    /// Parse manifest bytes into a versioned manifest.
    pub fn parse(repo: Option<MemStore>, parents: &Parents, data: &[u8]) -> (r: Result<
        RevlogManifest,
        ParseError,
    >)
        ensures
            match r {
                Ok(m) => parse_entries(data@, Option::None) == Ok::<
                    Seq<(Seq<u8>, (Seq<u8>, Type))>,
                    ParseError,
                >(m.entries()) && m.wf() && crate::manifest::entries_line_safe(m.entries())
                    && m.parents_spec() == parents@ && m.has_store() == (repo is Some) && (
                repo matches Some(s) ==> m.store() == s),
                Err(e) => parse_entries(data@, Option::None) == Err::<
                    Seq<(Seq<u8>, (Seq<u8>, Type))>,
                    ParseError,
                >(e),
            },
    {
        Self::parse_inner(repo, parents, data)
    }

    /// Parse manifest bytes, joining `prefix` in front of every parsed
    /// path.
    pub fn parse_with_prefix(
        repo: Option<MemStore>,
        parents: &Parents,
        data: &[u8],
        prefix: &MPath,
    ) -> (r: Result<RevlogManifest, ParseError>)
        requires
            prefix.wf(),
        ensures
            match r {
                Ok(m) => parse_entries(data@, Option::Some(prefix@)) == Ok::<
                    Seq<(Seq<u8>, (Seq<u8>, Type))>,
                    ParseError,
                >(m.entries()) && m.wf() && m.parents_spec() == parents@ && m.has_store() == (
                repo is Some) && (repo matches Some(s) ==> m.store() == s) && forall|k: int|
                    0 <= k < m.entries().len() ==> crate::manifest::path_has_prefix(
                        (#[trigger] m.entries()[k]).0,
                        prefix@,
                    ),
                Err(e) => parse_entries(data@, Option::Some(prefix@)) == Err::<
                    Seq<(Seq<u8>, (Seq<u8>, Type))>,
                    ParseError,
                >(e),
            },
    {
        match ManifestContent::parse_with_prefix(data, prefix) {
            Ok(content) => Ok(
                RevlogManifest { repo, parents: clone_parents(parents), content },
            ),
            Err(e) => Err(e),
        }
    }

    /// The manifest's parent identifiers.
    pub fn parents(&self) -> (r: &Parents)
        ensures
            r@ == self.parents_spec(),
    {
        &self.parents
    }

    /// Append the manifest's encoded form to `out`.
    pub fn generate(&self, out: &mut Vec<u8>)
        ensures
            final(out)@ == old(out)@ + generate_entries(self.entries()),
    {
        self.content.generate(out)
    }

    /// Exact-match lookup of the record under a path.
    pub fn lookup(&self, path: &MPath) -> (r: Option<&Details>)
        requires
            self.wf(),
        ensures
            match r {
                Some(d) => exists|i: int|
                    0 <= i < self.entries().len() && #[trigger] self.entries()[i] == (path@, d@),
                None => forall|i: int|
                    0 <= i < self.entries().len() ==> (#[trigger] self.entries()[i]).0 != path@,
            },
    {
        self.content.lookup(path)
    }

    /// The entries, in order, as owned pairs.
    pub fn manifest(&self) -> (r: Vec<(MPath, Details)>)
        ensures
            files_view(r@) == self.entries(),
    {
        self.content.manifest()
    }

    /// A restartable listing of the manifest's entries in path order,
    /// resolving none of their content. Fails when the manifest holds
    /// no store reference.
    pub fn list(&self) -> (r: Result<RevlogListStream, ManifestError>)
        requires
            self.wf(),
        ensures
            match r {
                Ok(st) => self.has_store() && st.wf() && st.all_items() == self.entries()
                    && st.position() == 0 && forall|d: bool, p: Seq<u8>, h: Seq<u8>|
                    #[trigger] st.store().lookup_spec(d, p, h) == self.store().lookup_spec(d, p, h),
                Err(e) => !self.has_store() && e == ManifestError::MissingStore,
            },
    {
        let repo = match &self.repo {
            Some(r) => r,
            None => {
                return Err(ManifestError::MissingStore);
            },
        };
        Ok(RevlogListStream { items: self.content.manifest(), idx: 0, repo: repo.clone_store() })
    }

    /// Look a path up and wrap the record, if any, as a resolvable
    /// entry. Fails when the manifest holds no store reference.
    pub fn lookup_entry(&self, path: &MPath) -> (r: Result<Option<RevlogEntry>, ManifestError>)
        requires
            self.wf(),
        ensures
            match r {
                Err(e) => !self.has_store() && e == ManifestError::MissingStore,
                Ok(Option::None) => self.has_store() && forall|i: int|
                    0 <= i < self.entries().len() ==> (#[trigger] self.entries()[i]).0 != path@,
                Ok(Option::Some(en)) => self.has_store() && en.wf() && (exists|i: int|
                    0 <= i < self.entries().len() && #[trigger] self.entries()[i] == (
                    path@,
                    en.details_view(),
                )) && en.path_spec().mpath_spec()@ == path@ && en.path_spec().is_dir_spec() == (
                en.details_view().1 is Tree) && (en.name_spec() matches Some(nm)
                    && crate::path::is_last_component(nm, path@)) && forall|
                    d: bool,
                    p: Seq<u8>,
                    h: Seq<u8>,
                |
                    #[trigger] en.store().lookup_spec(d, p, h) == self.store().lookup_spec(d, p, h),
            },
    {
        let repo = match &self.repo {
            Some(r) => r,
            None => {
                return Err(ManifestError::MissingStore);
            },
        };
        match self.content.lookup(path) {
            Some(details) => {
                let ghost i = choose|i: int|
                    0 <= i < self.entries().len() && #[trigger] self.entries()[i] == (
                    path@,
                    details@,
                );
                proof {
                    assert(crate::manifest::entry_wf(self.entries()[i]));
                }
                let en = RevlogEntry::new(
                    repo.clone_store(),
                    path.clone_path(),
                    details.clone_details(),
                );
                Ok(Some(en))
            },
            None => Ok(None),
        }
    }
}

/// One manifest entry bound to a store, ready to resolve its content
/// lazily.
#[derive(Debug)]
pub struct RevlogEntry {
    repo: MemStore,
    path: RepoPath,
    name: Option<MPathElement>,
    details: Details,
}

impl RevlogEntry {
    /// The store the entry resolves against.
    pub closed spec fn store(&self) -> MemStore {
        self.repo
    }

    /// The entry's tagged path: a directory for trees, a file
    /// otherwise.
    pub closed spec fn path_spec(&self) -> RepoPath {
        self.path
    }

    /// The entry's record: hash view and type flag.
    pub closed spec fn details_view(&self) -> (Seq<u8>, Type) {
        self.details@
    }

    /// The view of the entry's name: its path's last component.
    pub closed spec fn name_spec(&self) -> Option<Seq<u8>> {
        match self.name {
            Option::Some(n) => Option::Some(n@),
            Option::None => Option::None,
        }
    }

    /// Whether the entry's path is valid.
    pub open spec fn wf(&self) -> bool {
        self.path_spec().wf()
    }

    /// Bind a record to its path and a store. The path is tagged as a
    /// directory exactly for tree records, and the entry's name is the
    /// path's last component.
    pub fn new(repo: MemStore, path: MPath, details: Details) -> (r: RevlogEntry)
        requires
            path.wf(),
        ensures
            r.wf(),
            r.store() == repo,
            r.details_view() == details@,
            r.path_spec().mpath_spec()@ == path@,
            r.path_spec().is_dir_spec() == (details@.1 is Tree),
            r.name_spec() matches Some(nm) && crate::path::is_last_component(nm, path@),
    {
        let name = Some(path.last_element());
        let is_tree = details.is_tree();
        let path = if is_tree {
            RepoPath::dir(path)
        } else {
            RepoPath::file(path)
        };
        RevlogEntry { repo, path, name, details }
    }

    /// The entry's type flag; no store access.
    pub fn get_type(&self) -> (r: Type)
        ensures
            r == self.details_view().1,
    {
        self.details.flag()
    }

    /// The entry's content identifier; no store access.
    pub fn get_hash(&self) -> (r: &EntryId)
        ensures
            r@ == self.details_view().0,
    {
        self.details.entryid()
    }

    /// The entry's name: the last component of its path.
    pub fn get_name(&self) -> (r: &Option<MPathElement>)
        ensures
            match r {
                Option::Some(n) => self.name_spec() == Option::Some(n@),
                Option::None => self.name_spec() is None,
            },
    {
        &self.name
    }

    /// The entry's tagged path.
    pub fn get_path(&self) -> (r: &RepoPath)
        ensures
            *r == self.path_spec(),
    {
        &self.path
    }

    /// The parents recorded for this entry's node in the store.
    pub fn get_parents(&self) -> (r: Result<Parents, EntryError>)
        ensures
            ({
                let d = self.path_spec().is_dir_spec();
                let pb = self.path_spec().mpath_spec()@;
                let h = self.details_view().0;
                match self.store().lookup_spec(d, pb, h) {
                    Option::Some(nv) => r matches Ok(p) && p@ == nv.1,
                    Option::None => r matches Err(e) && e.kind == ResolveErrorKind::NotFound
                        && err_context(e, d, pb, h),
                }
            }),
    {
        match self.repo.fetch(&self.path, self.details.entryid().as_nodehash()) {
            Some(node) => Ok(clone_parents(node.parents())),
            None => Err(self.not_found()),
        }
    }

    /// The entry's raw byte payload from the store, with any file
    /// metadata header stripped.
    pub fn get_raw_content(&self) -> (r: Result<Blob, EntryError>)
        ensures
            ({
                let d = self.path_spec().is_dir_spec();
                let pb = self.path_spec().mpath_spec()@;
                let h = self.details_view().0;
                match self.store().lookup_spec(d, pb, h) {
                    Option::Some(nv) => r matches Ok(b) && b@ == opt_strip(nv.0),
                    Option::None => r matches Err(e) && e.kind == ResolveErrorKind::NotFound
                        && err_context(e, d, pb, h),
                }
            }),
    {
        match self.repo.fetch(&self.path, self.details.entryid().as_nodehash()) {
            Some(node) => Ok(strip_file_metadata(node.as_blob())),
            None => Err(self.not_found()),
        }
    }

    /// An error value carrying this entry's path and hash as context.
    fn not_found(&self) -> (r: EntryError)
        ensures
            r.kind == ResolveErrorKind::NotFound,
            err_context(
                r,
                self.path_spec().is_dir_spec(),
                self.path_spec().mpath_spec()@,
                self.details_view().0,
            ),
    {
        EntryError {
            path: self.path.clone_repo_path(),
            hash: self.details.entryid().as_nodehash().clone_hash(),
            kind: ResolveErrorKind::NotFound,
        }
    }

    /// An error value of the given kind carrying this entry's context.
    fn err_of(&self, kind: ResolveErrorKind) -> (r: EntryError)
        ensures
            r.kind == kind,
            err_context(
                r,
                self.path_spec().is_dir_spec(),
                self.path_spec().mpath_spec()@,
                self.details_view().0,
            ),
    {
        EntryError {
            path: self.path.clone_repo_path(),
            hash: self.details.entryid().as_nodehash().clone_hash(),
            kind,
        }
    }

    /// Resolve the entry's content: fetch its node and interpret the
    /// payload per the type flag. File and executable payloads have
    /// their metadata header stripped; a symlink's stripped payload
    /// must be present and form a valid path; a tree's payload must be
    /// present and is re-parsed as a nested manifest under this entry's
    /// own path, sharing the same store.
    pub fn get_content(&self) -> (r: Result<Content, EntryError>)
        requires
            self.wf(),
        ensures
            ({
                let d = self.path_spec().is_dir_spec();
                let pb = self.path_spec().mpath_spec()@;
                let h = self.details_view().0;
                match self.store().lookup_spec(d, pb, h) {
                    Option::None => r matches Err(e) && e.kind == ResolveErrorKind::NotFound
                        && err_context(e, d, pb, h),
                    Option::Some(nv) => match self.details_view().1 {
                        Type::File => r matches Ok(c) && c matches Content::File(b) && b@
                            == opt_strip(nv.0),
                        Type::Executable => r matches Ok(c) && c matches Content::Executable(b)
                            && b@ == opt_strip(nv.0),
                        Type::Symlink => match opt_strip(nv.0) {
                            Option::None => r matches Err(e) && e.kind
                                == ResolveErrorKind::MissingBlobData && err_context(e, d, pb, h),
                            Option::Some(sb) => if crate::path::valid_path_bytes(sb) {
                                r matches Ok(c) && c matches Content::Symlink(p) && p@ == sb
                            } else {
                                r matches Err(e) && e.kind == ResolveErrorKind::InvalidContent(
                                    ParseError::InvalidPath,
                                ) && err_context(e, d, pb, h)
                            },
                        },
                        Type::Tree => match nv.0 {
                            Option::None => r matches Err(e) && e.kind
                                == ResolveErrorKind::MissingBlobData && err_context(e, d, pb, h),
                            Option::Some(bytes) => match parse_entries(bytes, Option::Some(pb)) {
                                Ok(s) => r matches Ok(c) && c matches Content::Tree(m)
                                    && m.entries() == s && m.wf() && m.parents_spec() == nv.1
                                    && m.has_store() && (forall|k: int|
                                    0 <= k < m.entries().len()
                                        ==> crate::manifest::path_has_prefix(
                                        (#[trigger] m.entries()[k]).0,
                                        pb,
                                    )) && (forall|d2: bool, p2: Seq<u8>, h2: Seq<u8>|
                                    #[trigger] m.store().lookup_spec(d2, p2, h2)
                                        == self.store().lookup_spec(d2, p2, h2)),
                                Err(pe) => r matches Err(e) && e.kind
                                    == ResolveErrorKind::InvalidContent(pe) && err_context(
                                    e,
                                    d,
                                    pb,
                                    h,
                                ),
                            },
                        },
                    },
                }
            }),
    {
        let node = match self.repo.fetch(&self.path, self.details.entryid().as_nodehash()) {
            Some(node) => node,
            None => {
                return Err(self.not_found());
            },
        };
        let flag = self.details.flag();
        match flag {
            Type::File => Ok(Content::File(strip_file_metadata(node.as_blob()))),
            Type::Executable => Ok(Content::Executable(strip_file_metadata(node.as_blob()))),
            Type::Symlink => {
                let stripped = strip_file_metadata(node.as_blob());
                let bytes = match stripped.as_slice() {
                    Some(b) => b,
                    None => {
                        return Err(self.err_of(ResolveErrorKind::MissingBlobData));
                    },
                };
                match MPath::new(bytes.as_slice()) {
                    Ok(p) => Ok(Content::Symlink(p)),
                    Err(_) => Err(
                        self.err_of(ResolveErrorKind::InvalidContent(ParseError::InvalidPath)),
                    ),
                }
            },
            Type::Tree => {
                let bytes = match node.as_blob().as_slice() {
                    Some(b) => b,
                    None => {
                        return Err(self.err_of(ResolveErrorKind::MissingBlobData));
                    },
                };
                let prefix = self.path.mpath();
                match RevlogManifest::parse_with_prefix(
                    Some(self.repo.clone_store()),
                    node.parents(),
                    bytes.as_slice(),
                    prefix,
                ) {
                    Ok(m) => Ok(Content::Tree(m)),
                    Err(pe) => Err(self.err_of(ResolveErrorKind::InvalidContent(pe))),
                }
            },
        }
    }

    /// The entry's content size: the stripped payload's byte count for
    /// files and executables when the payload is present, the target
    /// path's encoded length for symlinks, and unknown for trees.
    pub fn get_size(&self) -> (r: Result<Option<usize>, EntryError>)
        requires
            self.wf(),
        ensures
            ({
                let d = self.path_spec().is_dir_spec();
                let pb = self.path_spec().mpath_spec()@;
                let h = self.details_view().0;
                match self.store().lookup_spec(d, pb, h) {
                    Option::None => r matches Err(e) && e.kind == ResolveErrorKind::NotFound
                        && err_context(e, d, pb, h),
                    Option::Some(nv) => match self.details_view().1 {
                        Type::File | Type::Executable => match opt_strip(nv.0) {
                            Option::Some(b) => r matches Ok(sz) && sz matches Some(x) && x
                                == b.len(),
                            Option::None => r == Ok::<Option<usize>, EntryError>(None),
                        },
                        Type::Symlink => match opt_strip(nv.0) {
                            Option::None => r matches Err(e) && e.kind
                                == ResolveErrorKind::MissingBlobData && err_context(e, d, pb, h),
                            Option::Some(sb) => if crate::path::valid_path_bytes(sb) {
                                r matches Ok(sz) && sz matches Some(x) && x == sb.len()
                            } else {
                                r matches Err(e) && e.kind == ResolveErrorKind::InvalidContent(
                                    ParseError::InvalidPath,
                                ) && err_context(e, d, pb, h)
                            },
                        },
                        Type::Tree => match nv.0 {
                            Option::None => r matches Err(e) && e.kind
                                == ResolveErrorKind::MissingBlobData && err_context(e, d, pb, h),
                            Option::Some(bytes) => match parse_entries(bytes, Option::Some(pb)) {
                                Ok(_) => r == Ok::<Option<usize>, EntryError>(None),
                                Err(pe) => r matches Err(e) && e.kind
                                    == ResolveErrorKind::InvalidContent(pe) && err_context(
                                    e,
                                    d,
                                    pb,
                                    h,
                                ),
                            },
                        },
                    },
                }
            }),
    {
        match self.get_content() {
            Ok(Content::File(data)) => match data.as_slice() {
                Some(v) => Ok(Some(v.len())),
                None => Ok(None),
            },
            Ok(Content::Executable(data)) => match data.as_slice() {
                Some(v) => Ok(Some(v.len())),
                None => Ok(None),
            },
            Ok(Content::Symlink(path)) => {
                let v = path.to_vec();
                Ok(Some(v.len()))
            },
            Ok(Content::Tree(_)) => Ok(None),
            Err(e) => Err(e),
        }
    }
}

/// A restartable, finite listing of a manifest's entries in path
/// order; each pull binds one record to the store as a resolvable
/// entry, resolving no content.
#[derive(Debug)]
pub struct RevlogListStream {
    items: Vec<(MPath, Details)>,
    idx: usize,
    repo: MemStore,
}

impl RevlogListStream {
    /// All listed entries, over views.
    pub closed spec fn all_items(&self) -> Seq<(Seq<u8>, (Seq<u8>, Type))> {
        files_view(self.items@)
    }

    /// How many entries have been yielded.
    pub closed spec fn position(&self) -> int {
        self.idx as int
    }

    /// The store entries are bound to.
    pub closed spec fn store(&self) -> MemStore {
        self.repo
    }

    /// Whether the listing is well formed.
    pub open spec fn wf(&self) -> bool {
        entries_wf(self.all_items()) && 0 <= self.position() <= self.all_items().len()
    }

    /// Yield the next entry, or nothing after the last one.
    pub fn next(&mut self) -> (r: Option<RevlogEntry>)
        requires
            old(self).wf(),
        ensures
            final(self).wf(),
            final(self).all_items() == old(self).all_items(),
            final(self).store() == old(self).store(),
            old(self).position() < old(self).all_items().len() ==> {
                &&& final(self).position() == old(self).position() + 1
                &&& r matches Some(en) && en.wf() && en.details_view() == old(self).all_items()[old(
                    self,
                ).position()].1 && en.path_spec().mpath_spec()@ == old(self).all_items()[old(
                    self,
                ).position()].0 && en.path_spec().is_dir_spec() == (old(self).all_items()[old(
                    self,
                ).position()].1.1 is Tree) && (en.name_spec() matches Some(nm)
                    && crate::path::is_last_component(
                        nm,
                        old(self).all_items()[old(self).position()].0,
                    )) && forall|d: bool, p: Seq<u8>, h: Seq<u8>|
                    #[trigger] en.store().lookup_spec(d, p, h) == old(self).store().lookup_spec(
                        d,
                        p,
                        h,
                    )
            },
            old(self).position() >= old(self).all_items().len() ==> final(self).position() == old(
                self,
            ).position() && r is None,
    {
        if self.idx < self.items.len() {
            let i = self.idx;
            proof {
                assert(self.all_items()[i as int] == (self.items@[i as int].0@,
                self.items@[i as int].1@));
                assert(crate::manifest::entry_wf(self.all_items()[i as int]));
            }
            let path = self.items[i].0.clone_path();
            let details = self.items[i].1.clone_details();
            self.idx = i + 1;
            let en = RevlogEntry::new(self.repo.clone_store(), path, details);
            Some(en)
        } else {
            None
        }
    }
}

} // verus!
