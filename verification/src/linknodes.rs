//! An in-memory linknode store: it maps a (path, node hash) pair to the
//! hash of the changeset that recorded that node, keyed by an owned
//! composite key. Adding a pair that is already present fails and
//! leaves the store unchanged.

use vstd::prelude::*;

use crate::nodehash::NodeHash;
use crate::path::MPath;

verus! {

/// Why a linknode operation failed.
#[derive(Debug)]
pub enum LinknodeErrorKind {
    /// The (path, node) key is already bound: the key, the linknode it
    /// is bound to, and the linknode whose insertion was refused.
    AlreadyExists(MPath, NodeHash, NodeHash, NodeHash),
    /// Nothing is bound under the (path, node) key.
    NotFound(MPath, NodeHash),
}

/// First linknode recorded under the key, scanning entries in order.
pub open spec fn linknode_find(
    s: Seq<(MPath, NodeHash, NodeHash)>,
    p: Seq<u8>,
    n: Seq<u8>,
) -> Option<Seq<u8>>
    decreases s.len(),
{
    if s.len() == 0 {
        Option::None
    } else if s[0].0@ == p && s[0].1@ == n {
        Option::Some(s[0].2@)
    } else {
        linknode_find(s.drop_first(), p, n)
    }
}

/// An in-memory linknode store.
#[derive(Debug)]
pub struct MemLinknodes {
    linknodes: Vec<(MPath, NodeHash, NodeHash)>,
}

impl MemLinknodes {
    /// The stored bindings.
    pub closed spec fn contents(&self) -> Seq<(MPath, NodeHash, NodeHash)> {
        self.linknodes@
    }

    /// The linknode bound under a (path, node) key, if any.
    pub open spec fn get_spec(&self, p: Seq<u8>, n: Seq<u8>) -> Option<Seq<u8>> {
        linknode_find(self.contents(), p, n)
    }

    /// An empty store.
    pub fn new() -> (r: MemLinknodes)
        ensures
            forall|p: Seq<u8>, n: Seq<u8>| #[trigger] r.get_spec(p, n) is None,
    {
        let r = MemLinknodes { linknodes: Vec::new() };
        proof {
            assert(r.contents() =~= Seq::<(MPath, NodeHash, NodeHash)>::empty());
        }
        r
    }

    /// Bind a linknode under a (path, node) key. Fails, and changes
    /// nothing, exactly when the key is already bound; the error names
    /// the key, the bound linknode and the refused one.
    pub fn add(&mut self, path: &MPath, node: &NodeHash, linknode: &NodeHash) -> (r: Result<
        (),
        LinknodeErrorKind,
    >)
        ensures
            match r {
                Ok(_) => old(self).get_spec(path@, node@) is None && forall|p: Seq<u8>, n: Seq<u8>|
                    #[trigger] final(self).get_spec(p, n) == (if p == path@ && n == node@ {
                        Option::Some(linknode@)
                    } else {
                        old(self).get_spec(p, n)
                    }),
                Err(LinknodeErrorKind::AlreadyExists(p2, n2, bound, refused)) => old(
                    self,
                ).get_spec(path@, node@) == Option::Some(bound@) && p2@ == path@ && n2@ == node@
                    && refused@ == linknode@ && *final(self) == *old(self),
                Err(LinknodeErrorKind::NotFound(_, _)) => false,
            },
    {
        let n = self.linknodes.len();
        let mut i: usize = 0;
        proof {
            assert(self.contents().skip(0) =~= self.contents());
        }
        while i < n
            invariant
                n == self.contents().len(),
                *self == *old(self),
                i <= n,
                linknode_find(self.contents().skip(i as int), path@, node@) == linknode_find(
                    self.contents(),
                    path@,
                    node@,
                ),
            decreases n - i,
        {
            let ghost tail = self.contents().skip(i as int);
            proof {
                assert(tail[0] == self.contents()[i as int]);
            }
            let same_path = self.linknodes[i].0.eq(path);
            let same_node = self.linknodes[i].1.eq(node);
            if same_path && same_node {
                let bound = self.linknodes[i].2.clone_hash();
                return Err(
                    LinknodeErrorKind::AlreadyExists(
                        path.clone_path(),
                        node.clone_hash(),
                        bound,
                        linknode.clone_hash(),
                    ),
                );
            }
            proof {
                assert(tail.drop_first() =~= self.contents().skip(i as int + 1));
            }
            i = i + 1;
        }
        proof {
            assert(self.contents().skip(n as int).len() == 0);
            assert(old(self).get_spec(path@, node@) is None);
        }
        self.linknodes.insert(0, (path.clone_path(), node.clone_hash(), linknode.clone_hash()));
        proof {
            assert forall|p: Seq<u8>, n2: Seq<u8>|
                #[trigger] self.get_spec(p, n2) == (if p == path@ && n2 == node@ {
                    Option::Some(linknode@)
                } else {
                    old(self).get_spec(p, n2)
                }) by {
                assert(self.contents()[0].0@ == path@);
                assert(self.contents().drop_first() =~= old(self).contents());
            }
        }
        Ok(())
    }

    /// The linknode bound under a (path, node) key. Fails exactly when
    /// the key is unbound; the error names the key.
    pub fn get(&self, path: &MPath, node: &NodeHash) -> (r: Result<NodeHash, LinknodeErrorKind>)
        ensures
            match r {
                Ok(ln) => self.get_spec(path@, node@) == Option::Some(ln@),
                Err(LinknodeErrorKind::NotFound(p2, n2)) => self.get_spec(path@, node@) is None
                    && p2@ == path@ && n2@ == node@,
                Err(LinknodeErrorKind::AlreadyExists(_, _, _, _)) => false,
            },
    {
        let n = self.linknodes.len();
        let mut i: usize = 0;
        proof {
            assert(self.contents().skip(0) =~= self.contents());
        }
        while i < n
            invariant
                n == self.contents().len(),
                i <= n,
                linknode_find(self.contents().skip(i as int), path@, node@) == linknode_find(
                    self.contents(),
                    path@,
                    node@,
                ),
            decreases n - i,
        {
            let ghost tail = self.contents().skip(i as int);
            proof {
                assert(tail[0] == self.contents()[i as int]);
            }
            let same_path = self.linknodes[i].0.eq(path);
            let same_node = self.linknodes[i].1.eq(node);
            if same_path && same_node {
                return Ok(self.linknodes[i].2.clone_hash());
            }
            proof {
                assert(tail.drop_first() =~= self.contents().skip(i as int + 1));
            }
            i = i + 1;
        }
        proof {
            assert(self.contents().skip(n as int).len() == 0);
        }
        Err(LinknodeErrorKind::NotFound(path.clone_path(), node.clone_hash()))
    }
}

} // verus!
