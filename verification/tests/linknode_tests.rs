use mercurial::linknodes::{LinknodeErrorKind, MemLinknodes};
use mercurial::nodehash::NodeHash;
use mercurial::path::MPath;

fn hash(hex: &str) -> NodeHash {
    NodeHash::from_hex(hex.as_bytes()).unwrap()
}

fn null_hash() -> NodeHash {
    hash("0000000000000000000000000000000000000000")
}

fn ones_hash() -> NodeHash {
    hash("1111111111111111111111111111111111111111")
}

fn twos_hash() -> NodeHash {
    hash("2222222222222222222222222222222222222222")
}

fn threes_hash() -> NodeHash {
    hash("3333333333333333333333333333333333333333")
}

fn as_hash() -> NodeHash {
    hash("aaaaaaaaaaaaaaaaaaaaaaaaaaaaaaaaaaaaaaaa")
}

#[test]
fn test_add_and_get() {
    let mut linknodes = MemLinknodes::new();
    let path = MPath::new(b"abc").unwrap();
    linknodes.add(&path, &null_hash(), &ones_hash()).unwrap();
    linknodes.add(&path, &as_hash(), &twos_hash()).unwrap();

    // This will error out because this combination already exists.
    match linknodes.add(&path, &null_hash(), &threes_hash()).unwrap_err() {
        LinknodeErrorKind::AlreadyExists(p, h, old, new) => {
            assert_eq!(p, path);
            assert_eq!(h, null_hash());
            assert_eq!(old, ones_hash());
            assert_eq!(new, threes_hash());
        }
        other => panic!("unexpected error {:?}", other),
    }

    assert_eq!(linknodes.get(&path, &null_hash()).unwrap(), ones_hash());
    assert_eq!(linknodes.get(&path, &as_hash()).unwrap(), twos_hash());
}

#[test]
fn test_not_found() {
    let linknodes = MemLinknodes::new();
    let path = MPath::new(b"abc").unwrap();
    match linknodes.get(&path, &null_hash()).unwrap_err() {
        LinknodeErrorKind::NotFound(p, h) => {
            assert_eq!(p, path);
            assert_eq!(h, null_hash());
        }
        other => panic!("unexpected error {:?}", other),
    }
}
