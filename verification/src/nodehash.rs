//! Content hashes. A node hash is a fixed 20-byte content identifier,
//! carried in manifests as 40 hex characters; an entry id wraps one to
//! name the content of a single manifest entry. Parents are the 0, 1 or
//! 2 predecessor identifiers of a versioned node.

use vstd::prelude::*;

use crate::errors::ParseError;
use crate::hex::{decode_hex, decode_hex_bytes, encode_hex, encode_hex_bytes, valid_hex};
use crate::order::{bytes_eq, copy_bytes};

verus! {

/// The byte width of a node hash.
pub const HASH_WIDTH: usize = 20;

/// The width of a node hash in hex characters.
pub const HASH_HEX_WIDTH: usize = 40;

/// A 20-byte content hash.
#[derive(Clone, Debug, Eq)]
pub struct NodeHash {
    bytes: Vec<u8>,
}

impl View for NodeHash {
    type V = Seq<u8>;

    closed spec fn view(&self) -> Seq<u8> {
        self.bytes@
    }
}

impl PartialEq for NodeHash {
    fn eq(&self, other: &Self) -> (r: bool)
        ensures
            r == (self@ == other@),
    {
        bytes_eq(self.bytes.as_slice(), other.bytes.as_slice())
    }
}

impl vstd::std_specs::cmp::PartialEqSpecImpl for NodeHash {
    open spec fn obeys_eq_spec() -> bool {
        true
    }

    open spec fn eq_spec(&self, other: &Self) -> bool {
        self@ == other@
    }
}

impl NodeHash {
    /// Whether the hash holds exactly its fixed width of bytes.
    pub open spec fn wf(&self) -> bool {
        self@.len() == HASH_WIDTH
    }

    /// Build a hash from its raw bytes; rejects any other width.
    pub fn from_bytes(b: &[u8]) -> (r: Result<NodeHash, ParseError>)
        ensures
            r.is_ok() <==> b@.len() == HASH_WIDTH,
            r.is_ok() ==> r->Ok_0@ == b@ && r->Ok_0.wf(),
            r.is_err() ==> r->Err_0 == ParseError::MalformedHash,
    {
        if b.len() != HASH_WIDTH {
            return Err(ParseError::MalformedHash);
        }
        Ok(NodeHash { bytes: copy_bytes(b) })
    }

    /// Build a hash from its 40-character hex form; either letter case
    /// is accepted.
    pub fn from_hex(s: &[u8]) -> (r: Result<NodeHash, ParseError>)
        ensures
            r.is_ok() <==> s@.len() == HASH_HEX_WIDTH && valid_hex(s@),
            r.is_ok() ==> r->Ok_0@ == decode_hex(s@) && r->Ok_0.wf(),
            r.is_err() ==> r->Err_0 == ParseError::MalformedHash,
    {
        if s.len() != HASH_HEX_WIDTH {
            return Err(ParseError::MalformedHash);
        }
        match decode_hex_bytes(s) {
            Some(bytes) => {
                proof {
                    crate::hex::lemma_decode_hex_len(s@);
                }
                Ok(NodeHash { bytes })
            },
            None => Err(ParseError::MalformedHash),
        }
    }

    /// An owned copy of the hash.
    pub fn clone_hash(&self) -> (r: NodeHash)
        ensures
            r@ == self@,
    {
        NodeHash { bytes: copy_bytes(self.bytes.as_slice()) }
    }

    /// The hash's raw bytes.
    pub fn as_bytes(&self) -> (r: &Vec<u8>)
        ensures
            r@ == self@,
    {
        &self.bytes
    }

    /// The hash's lowercase 40-character hex form.
    pub fn to_hex(&self) -> (r: Vec<u8>)
        ensures
            r@ == encode_hex(self@),
    {
        encode_hex_bytes(self.bytes.as_slice())
    }
}

/// The identifier of one manifest entry's content.
#[derive(Clone, Debug, Eq)]
pub struct EntryId {
    hash: NodeHash,
}

impl View for EntryId {
    type V = Seq<u8>;

    closed spec fn view(&self) -> Seq<u8> {
        self.hash@
    }
}

impl PartialEq for EntryId {
    fn eq(&self, other: &Self) -> (r: bool)
        ensures
            r == (self@ == other@),
    {
        self.hash.eq(&other.hash)
    }
}

impl vstd::std_specs::cmp::PartialEqSpecImpl for EntryId {
    open spec fn obeys_eq_spec() -> bool {
        true
    }

    open spec fn eq_spec(&self, other: &Self) -> bool {
        self@ == other@
    }
}

impl EntryId {
    /// Whether the wrapped hash is well formed.
    pub open spec fn wf(&self) -> bool {
        self@.len() == HASH_WIDTH
    }

    /// Wrap a node hash as an entry identifier.
    pub fn new(hash: NodeHash) -> (r: EntryId)
        ensures
            r@ == hash@,
    {
        EntryId { hash }
    }

    /// An owned copy of the identifier.
    pub fn clone_id(&self) -> (r: EntryId)
        ensures
            r@ == self@,
    {
        EntryId { hash: self.hash.clone_hash() }
    }

    /// The wrapped node hash.
    pub fn into_nodehash(self) -> (r: NodeHash)
        ensures
            r@ == self@,
    {
        self.hash
    }

    /// The wrapped node hash, by reference.
    pub fn as_nodehash(&self) -> (r: &NodeHash)
        ensures
            r@ == self@,
    {
        &self.hash
    }
}

/// The 0, 1 or 2 predecessor identifiers of a versioned node.
#[derive(Clone, Debug, Eq)]
pub enum Parents {
    Zero,
    One(NodeHash),
    Two(NodeHash, NodeHash),
}

impl View for Parents {
    type V = Seq<Seq<u8>>;

    open spec fn view(&self) -> Seq<Seq<u8>> {
        match self {
            Parents::Zero => Seq::empty(),
            Parents::One(a) => seq![a@],
            Parents::Two(a, b) => seq![a@, b@],
        }
    }
}

impl PartialEq for Parents {
    fn eq(&self, other: &Self) -> (r: bool)
        ensures
            r == (self@ == other@),
    {
        match (self, other) {
            (Parents::Zero, Parents::Zero) => true,
            (Parents::One(a), Parents::One(b)) => {
                let r = a.eq(b);
                proof {
                    if r {
                        assert(self@ =~= other@);
                    } else {
                        assert(self@[0] == a@);
                        assert(other@[0] == b@);
                    }
                }
                r
            },
            (Parents::Two(a1, a2), Parents::Two(b1, b2)) => {
                let r1 = a1.eq(b1);
                let r2 = a2.eq(b2);
                proof {
                    if r1 && r2 {
                        assert(self@ =~= other@);
                    } else {
                        assert(self@[0] == a1@ && self@[1] == a2@);
                        assert(other@[0] == b1@ && other@[1] == b2@);
                    }
                }
                r1 && r2
            },
            _ => {
                proof {
                    lemma_parents_view_len(*self);
                    lemma_parents_view_len(*other);
                }
                false
            },
        }
    }
}

impl vstd::std_specs::cmp::PartialEqSpecImpl for Parents {
    open spec fn obeys_eq_spec() -> bool {
        true
    }

    open spec fn eq_spec(&self, other: &Self) -> bool {
        self@ == other@
    }
}

/// The view of `Parents` has as many hashes as the variant names.
proof fn lemma_parents_view_len(p: Parents)
    ensures
        p is Zero ==> p@.len() == 0,
        p is One ==> p@.len() == 1,
        p is Two ==> p@.len() == 2,
{
}

impl Parents {
    /// Whether every predecessor hash is well formed.
    pub open spec fn wf(&self) -> bool {
        forall|i: int| 0 <= i < self@.len() ==> (#[trigger] self@[i]).len() == HASH_WIDTH
    }
}

/// Marker type naming the database column representation of a node
/// hash; the manifest core itself never reads it.
#[derive(Clone, Copy, Debug, PartialEq, Eq, Structural)]
pub struct NodeHashSql;

} // verus!
