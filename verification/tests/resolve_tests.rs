use mercurial::errors::{ManifestError, ResolveErrorKind};
use mercurial::manifest::{Details, Type};
use mercurial::nodehash::{EntryId, NodeHash, Parents};
use mercurial::path::{MPath, RepoPath};
use mercurial::revlog::{Blob, BlobNode, Content, MemStore, RevlogEntry, RevlogManifest};

fn hash(hex: &str) -> NodeHash {
    NodeHash::from_hex(hex.as_bytes()).unwrap()
}

fn ones_hash() -> NodeHash {
    hash("1111111111111111111111111111111111111111")
}

fn twos_hash() -> NodeHash {
    hash("2222222222222222222222222222222222222222")
}

fn tree_entry(store: MemStore, path: &[u8], h: NodeHash) -> RevlogEntry {
    RevlogEntry::new(
        store,
        MPath::new(path).unwrap(),
        Details::new(EntryId::new(h), Type::Tree),
    )
}

fn file_entry(store: MemStore, path: &[u8], h: NodeHash) -> RevlogEntry {
    RevlogEntry::new(
        store,
        MPath::new(path).unwrap(),
        Details::new(EntryId::new(h), Type::File),
    )
}

#[test]
fn tree_content_parses_under_entry_path() {
    let mut store = MemStore::new();
    let mut nested: Vec<u8> = Vec::new();
    nested.extend_from_slice(b"inner.txt\02222222222222222222222222222222222222222\n");
    nested.extend_from_slice(b"sub\03333333333333333333333333333333333333333t\n");
    store.add(
        RepoPath::dir(MPath::new(b"dir").unwrap()),
        ones_hash(),
        BlobNode::new(Blob::new(nested), Parents::One(twos_hash())),
    );

    let entry = tree_entry(store, b"dir", ones_hash());
    match entry.get_content().unwrap() {
        Content::Tree(m) => {
            assert_eq!(m.parents(), &Parents::One(twos_hash()));
            let entries = m.manifest();
            assert_eq!(entries.len(), 2);
            for (p, _) in &entries {
                let bytes = p.to_vec();
                assert!(bytes.starts_with(b"dir/"));
            }
            assert_eq!(entries[0].0, MPath::new(b"dir/inner.txt").unwrap());
            assert_eq!(entries[1].0, MPath::new(b"dir/sub").unwrap());
        }
        other => panic!("expected a tree, got {:?}", other),
    }
}

#[test]
fn tree_content_missing_blob() {
    let mut store = MemStore::new();
    store.add(
        RepoPath::dir(MPath::new(b"dir").unwrap()),
        ones_hash(),
        BlobNode::new(Blob::missing(), Parents::Zero),
    );
    let entry = tree_entry(store, b"dir", ones_hash());
    let err = entry.get_content().unwrap_err();
    assert_eq!(err.kind, ResolveErrorKind::MissingBlobData);
    assert_eq!(err.path, RepoPath::dir(MPath::new(b"dir").unwrap()));
    assert_eq!(err.hash, ones_hash());
}

#[test]
fn entry_not_found() {
    let store = MemStore::new();
    let entry = file_entry(store, b"absent.txt", ones_hash());
    let err = entry.get_content().unwrap_err();
    assert_eq!(err.kind, ResolveErrorKind::NotFound);
    assert_eq!(err.path, RepoPath::file(MPath::new(b"absent.txt").unwrap()));
    assert_eq!(err.hash, ones_hash());
    assert_eq!(
        entry.get_raw_content().unwrap_err().kind,
        ResolveErrorKind::NotFound
    );
    assert_eq!(
        entry.get_parents().unwrap_err().kind,
        ResolveErrorKind::NotFound
    );
}

#[test]
fn file_metadata_is_stripped() {
    let mut store = MemStore::new();
    let mut raw: Vec<u8> = Vec::new();
    raw.extend_from_slice(b"\x01\ncopy: other/file\n\x01\n");
    raw.extend_from_slice(b"content");
    store.add(
        RepoPath::file(MPath::new(b"f.txt").unwrap()),
        ones_hash(),
        BlobNode::new(Blob::new(raw), Parents::Zero),
    );
    let entry = file_entry(store, b"f.txt", ones_hash());

    let blob = entry.get_raw_content().unwrap();
    assert_eq!(blob.as_slice().unwrap(), &b"content".to_vec());

    match entry.get_content().unwrap() {
        Content::File(b) => assert_eq!(b.as_slice().unwrap(), &b"content".to_vec()),
        other => panic!("expected file content, got {:?}", other),
    }
    assert_eq!(entry.get_size().unwrap(), Some(7));
}

#[test]
fn plain_file_passes_through() {
    let mut store = MemStore::new();
    store.add(
        RepoPath::file(MPath::new(b"f.txt").unwrap()),
        ones_hash(),
        BlobNode::new(Blob::new(b"hello".to_vec()), Parents::Zero),
    );
    let entry = file_entry(store, b"f.txt", ones_hash());
    let blob = entry.get_raw_content().unwrap();
    assert_eq!(blob.as_slice().unwrap(), &b"hello".to_vec());
    assert_eq!(entry.get_size().unwrap(), Some(5));
    assert_eq!(entry.get_type(), Type::File);
    assert_eq!(entry.get_hash(), &EntryId::new(ones_hash()));
}

#[test]
fn symlink_target_is_a_path() {
    let mut store = MemStore::new();
    store.add(
        RepoPath::file(MPath::new(b"ln").unwrap()),
        ones_hash(),
        BlobNode::new(Blob::new(b"target/file".to_vec()), Parents::Zero),
    );
    let entry = RevlogEntry::new(
        store,
        MPath::new(b"ln").unwrap(),
        Details::new(EntryId::new(ones_hash()), Type::Symlink),
    );
    match entry.get_content().unwrap() {
        Content::Symlink(p) => assert_eq!(p, MPath::new(b"target/file").unwrap()),
        other => panic!("expected a symlink, got {:?}", other),
    }
    assert_eq!(entry.get_size().unwrap(), Some(11));
}

#[test]
fn entry_parents_come_from_store() {
    let mut store = MemStore::new();
    store.add(
        RepoPath::file(MPath::new(b"f").unwrap()),
        ones_hash(),
        BlobNode::new(Blob::new(b"x".to_vec()), Parents::Two(twos_hash(), ones_hash())),
    );
    let entry = file_entry(store, b"f", ones_hash());
    assert_eq!(
        entry.get_parents().unwrap(),
        Parents::Two(twos_hash(), ones_hash())
    );
}

#[test]
fn entry_name_is_last_component() {
    let store = MemStore::new();
    let entry = file_entry(store, b"a/b/leaf.txt", ones_hash());
    let name = entry.get_name().as_ref().unwrap();
    assert_eq!(name.as_bytes(), &b"leaf.txt".to_vec());
    assert_eq!(
        entry.get_path(),
        &RepoPath::file(MPath::new(b"a/b/leaf.txt").unwrap())
    );
}

#[test]
fn listing_yields_entries_in_order() {
    let store = MemStore::new();
    let mut raw: Vec<u8> = Vec::new();
    raw.extend_from_slice(b"a\01111111111111111111111111111111111111111\n");
    raw.extend_from_slice(b"b\02222222222222222222222222222222222222222t\n");
    let m = RevlogManifest::parse(Some(store), &Parents::Zero, &raw).unwrap();

    let mut listing = m.list().unwrap();
    let first = listing.next().expect("first entry");
    assert_eq!(first.get_hash(), &EntryId::new(ones_hash()));
    assert_eq!(first.get_type(), Type::File);
    assert_eq!(
        first.get_path(),
        &RepoPath::file(MPath::new(b"a").unwrap())
    );
    let second = listing.next().expect("second entry");
    assert_eq!(second.get_hash(), &EntryId::new(twos_hash()));
    assert_eq!(second.get_type(), Type::Tree);
    assert_eq!(
        second.get_path(),
        &RepoPath::dir(MPath::new(b"b").unwrap())
    );
    assert!(listing.next().is_none());
    assert!(listing.next().is_none());

    // Listings are restartable: a fresh one starts from the first entry.
    let mut again = m.list().unwrap();
    assert_eq!(again.next().unwrap().get_hash(), &EntryId::new(ones_hash()));
}

#[test]
fn missing_store_is_an_error() {
    let m = RevlogManifest::parse(None, &Parents::Zero, b"a\01111111111111111111111111111111111111111\n")
        .unwrap();
    assert!(matches!(m.list(), Err(ManifestError::MissingStore)));
    let p = MPath::new(b"a").unwrap();
    assert!(matches!(
        m.lookup_entry(&p),
        Err(ManifestError::MissingStore)
    ));
    // The pure lookup still works without a store.
    assert!(m.lookup(&p).is_some());
}

#[test]
fn lookup_entry_binds_the_record() {
    let store = MemStore::new();
    let m = RevlogManifest::parse(
        Some(store),
        &Parents::Zero,
        b"a/f\01111111111111111111111111111111111111111x\n",
    )
    .unwrap();
    let p = MPath::new(b"a/f").unwrap();
    let entry = m.lookup_entry(&p).unwrap().expect("entry must exist");
    assert_eq!(entry.get_type(), Type::Executable);
    assert_eq!(entry.get_hash(), &EntryId::new(ones_hash()));
    let absent = MPath::new(b"a/g").unwrap();
    assert!(m.lookup_entry(&absent).unwrap().is_none());
}

#[test]
fn symlink_with_invalid_target_fails() {
    let mut store = MemStore::new();
    store.add(
        RepoPath::file(MPath::new(b"ln").unwrap()),
        ones_hash(),
        BlobNode::new(Blob::new(b"bad//target".to_vec()), Parents::Zero),
    );
    let entry = RevlogEntry::new(
        store,
        MPath::new(b"ln").unwrap(),
        Details::new(EntryId::new(ones_hash()), Type::Symlink),
    );
    let err = entry.get_content().unwrap_err();
    assert_eq!(
        err.kind,
        ResolveErrorKind::InvalidContent(mercurial::errors::ParseError::InvalidPath)
    );
}

#[test]
fn tree_size_is_unknown() {
    let mut store = MemStore::new();
    store.add(
        RepoPath::dir(MPath::new(b"d").unwrap()),
        ones_hash(),
        BlobNode::new(
            Blob::new(b"x\02222222222222222222222222222222222222222\n".to_vec()),
            Parents::Zero,
        ),
    );
    let entry = tree_entry(store, b"d", ones_hash());
    assert_eq!(entry.get_size().unwrap(), None);
}

#[test]
fn manifest_from_node() {
    let store = MemStore::new();
    let node = BlobNode::new(
        Blob::new(b"a\01111111111111111111111111111111111111111\n".to_vec()),
        Parents::One(twos_hash()),
    );
    let m = RevlogManifest::new(store, node).unwrap();
    assert_eq!(m.parents(), &Parents::One(twos_hash()));
    assert_eq!(m.manifest().len(), 1);

    let store2 = MemStore::new();
    let empty_node = BlobNode::new(Blob::missing(), Parents::Zero);
    assert!(matches!(
        RevlogManifest::new(store2, empty_node),
        Err(ManifestError::MissingBlobData)
    ));

    let store3 = MemStore::new();
    let bad_node = BlobNode::new(Blob::new(b"no separator here".to_vec()), Parents::Zero);
    assert!(matches!(
        RevlogManifest::new(store3, bad_node),
        Err(ManifestError::Parse(
            mercurial::errors::ParseError::MissingSeparator
        ))
    ));
}
