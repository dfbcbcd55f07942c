use mercurial::errors::ParseError;
use mercurial::manifest::{Details, ManifestContent, Type};
use mercurial::nodehash::{EntryId, NodeHash, Parents};
use mercurial::order::find;
use mercurial::path::MPath;
use mercurial::revlog::RevlogManifest;

fn hash(hex: &str) -> NodeHash {
    NodeHash::from_hex(hex.as_bytes()).unwrap()
}

fn ones_hash() -> NodeHash {
    hash("1111111111111111111111111111111111111111")
}

fn twos_hash() -> NodeHash {
    hash("2222222222222222222222222222222222222222")
}

fn threes_hash() -> NodeHash {
    hash("3333333333333333333333333333333333333333")
}

fn manifest_fixture() -> Vec<u8> {
    let mut raw: Vec<u8> = Vec::new();
    raw.extend_from_slice(b"a/b/c\0da39a3ee5e6b4b0d3255bfef95601890afd80709\n");
    raw.extend_from_slice(b"b/exec\01111111111111111111111111111111111111111x\n");
    raw.extend_from_slice(b"b/link\02222222222222222222222222222222222222222l\n");
    raw.extend_from_slice(b"c\03333333333333333333333333333333333333333t\n");
    raw
}

#[test]
fn test_find() {
    assert_eq!(find(b"abc123", b'b'), Some(1));
    assert_eq!(find(b"abc123", b'x'), None);
    assert_eq!(find(b"abc123abc", b'b'), Some(1));
    assert_eq!(find(b"", b'b'), None);
}

#[test]
fn empty() {
    let m = RevlogManifest::parse(None, &Parents::Zero, b"").unwrap();
    assert_eq!(m.parents(), &Parents::Zero);
    assert_eq!(m.manifest().len(), 0);
}

#[test]
fn bad_nonil() {
    match RevlogManifest::parse(None, &Parents::Zero, b"hello123") {
        Ok(m) => panic!("unexpected manifest {:?}", m),
        Err(e) => println!("got expected error: {:?}", e),
    }
}

#[test]
fn bad_nohash() {
    match RevlogManifest::parse(None, &Parents::Zero, b"hello123\0") {
        Ok(m) => panic!("unexpected manifest {:?}", m),
        Err(e) => println!("got expected error: {:?}", e),
    }
}

#[test]
fn bad_badhash1() {
    match RevlogManifest::parse(None, &Parents::Zero, b"hello123\0abc123") {
        Ok(m) => panic!("unexpected manifest {:?}", m),
        Err(e) => println!("got expected error: {:?}", e),
    }
}

#[test]
fn good_one() {
    match RevlogManifest::parse(
        None,
        &Parents::One(threes_hash()),
        b"hello123\0da39a3ee5e6b4b0d3255bfef95601890afd80709xltZZZ\n",
    ) {
        Ok(m) => {
            assert_eq!(m.parents(), &Parents::One(threes_hash()));
            let expect = vec![(
                MPath::new(b"hello123").unwrap(),
                Details::new(
                    EntryId::new(hash("da39a3ee5e6b4b0d3255bfef95601890afd80709")),
                    Type::Symlink,
                ),
            )];
            assert_eq!(m.manifest(), expect);
        }
        Err(e) => println!("got expected error: {:?}", e),
    }
}

#[test]
fn one_roundtrip() {
    // Only one flag, because the encoding of several at once is undefined.
    const RAW: &[u8] = b"hello123\0da39a3ee5e6b4b0d3255bfef95601890afd80709x\n";
    let m = RevlogManifest::parse(None, &Parents::Zero, RAW).expect("failed to parse");

    let mut out = Vec::new();
    m.generate(&mut out);

    if RAW != &out[..] {
        println!("\nRAW: {:?}", RAW);
        println!("out: {:?}", out.as_slice());
        panic!("out ({} bytes) mismatch RAW ({} bytes)", RAW.len(), out.len());
    }

    assert_eq!(m.parents(), &Parents::Zero);
}

#[test]
fn fullmanifest() {
    let raw = manifest_fixture();
    match RevlogManifest::parse(None, &Parents::Two(ones_hash(), twos_hash()), &raw) {
        Ok(m) => {
            println!("Got manifest:");
            for (k, v) in m.manifest() {
                println!("{:?} {:?}", k, v);
            }
            assert_eq!(m.parents(), &Parents::Two(ones_hash(), twos_hash()));
        }
        Err(e) => panic!("Failed to load manifest: {:?}", e),
    }
}

#[test]
fn roundtrip() {
    let raw = manifest_fixture();
    let m = RevlogManifest::parse(None, &Parents::One(ones_hash()), &raw).expect("parse failed");

    let mut out = Vec::new();
    m.generate(&mut out);

    if raw != out {
        panic!(
            "out ({} bytes) mismatch MANIFEST ({} bytes)",
            raw.len(),
            out.len()
        )
    }

    assert_eq!(m.parents(), &Parents::One(ones_hash()));
}

#[test]
fn missing_separator_error() {
    assert_eq!(
        ManifestContent::parse(b"hello123").unwrap_err(),
        ParseError::MissingSeparator
    );
}

#[test]
fn short_hash_error() {
    assert_eq!(
        ManifestContent::parse(b"hello123\0").unwrap_err(),
        ParseError::MalformedHash
    );
    assert_eq!(
        ManifestContent::parse(b"hello123\0abc123").unwrap_err(),
        ParseError::MalformedHash
    );
}

#[test]
fn non_hex_hash_error() {
    assert_eq!(
        ManifestContent::parse(b"p\0zz39a3ee5e6b4b0d3255bfef95601890afd80709\n").unwrap_err(),
        ParseError::MalformedHash
    );
}

#[test]
fn too_many_flags_error() {
    assert_eq!(
        ManifestContent::parse(b"hello123\0da39a3ee5e6b4b0d3255bfef95601890afd80709xltZZZ\n")
            .unwrap_err(),
        ParseError::TooManyFlags
    );
}

#[test]
fn unknown_flag_error() {
    assert_eq!(
        ManifestContent::parse(b"p\0da39a3ee5e6b4b0d3255bfef95601890afd80709Z\n").unwrap_err(),
        ParseError::UnknownFlag(b'Z')
    );
}

#[test]
fn invalid_path_error() {
    assert_eq!(
        ManifestContent::parse(b"a//b\0da39a3ee5e6b4b0d3255bfef95601890afd80709\n").unwrap_err(),
        ParseError::InvalidPath
    );
}

#[test]
fn no_flag_single_entry() {
    let m =
        ManifestContent::parse(b"hello123\0da39a3ee5e6b4b0d3255bfef95601890afd80709\n").unwrap();
    let entries = m.manifest();
    assert_eq!(entries.len(), 1);
    assert_eq!(entries[0].0, MPath::new(b"hello123").unwrap());
    assert_eq!(entries[0].1.flag(), Type::File);
    assert!(entries[0].1.is_file());
    assert!(!entries[0].1.is_tree());
    assert!(!entries[0].1.is_symlink());
    assert!(!entries[0].1.is_executable());
}

#[test]
fn reparse_same_bytes_equal() {
    let raw = manifest_fixture();
    let m1 = ManifestContent::parse(&raw).unwrap();
    let m2 = ManifestContent::parse(&raw).unwrap();
    assert_eq!(m1, m2);
}

#[test]
fn parse_of_generate_is_identity() {
    let raw = manifest_fixture();
    let m = ManifestContent::parse(&raw).unwrap();
    let mut out = Vec::new();
    m.generate(&mut out);
    let m2 = ManifestContent::parse(&out).unwrap();
    assert_eq!(m, m2);
    assert_eq!(out, raw);
}

#[test]
fn unordered_input_is_reordered() {
    let mut raw: Vec<u8> = Vec::new();
    raw.extend_from_slice(b"b\0da39a3ee5e6b4b0d3255bfef95601890afd80709\n");
    raw.extend_from_slice(b"a\01111111111111111111111111111111111111111\n");
    let m = ManifestContent::parse(&raw).unwrap();
    let entries = m.manifest();
    assert_eq!(entries.len(), 2);
    assert_eq!(entries[0].0, MPath::new(b"a").unwrap());
    assert_eq!(entries[1].0, MPath::new(b"b").unwrap());
}

#[test]
fn duplicate_path_keeps_last_record() {
    let mut raw: Vec<u8> = Vec::new();
    raw.extend_from_slice(b"a\0da39a3ee5e6b4b0d3255bfef95601890afd80709\n");
    raw.extend_from_slice(b"a\01111111111111111111111111111111111111111x\n");
    let m = ManifestContent::parse(&raw).unwrap();
    let entries = m.manifest();
    assert_eq!(entries.len(), 1);
    assert_eq!(entries[0].1.entryid(), &EntryId::new(ones_hash()));
    assert_eq!(entries[0].1.flag(), Type::Executable);
}

#[test]
fn empty_line_ends_parsing() {
    let mut raw: Vec<u8> = Vec::new();
    raw.extend_from_slice(b"a\0da39a3ee5e6b4b0d3255bfef95601890afd80709\n");
    raw.extend_from_slice(b"\n");
    raw.extend_from_slice(b"not a manifest line at all");
    let m = ManifestContent::parse(&raw).unwrap();
    assert_eq!(m.manifest().len(), 1);
}

#[test]
fn lookup_finds_exact_match() {
    let raw = manifest_fixture();
    let m = ManifestContent::parse(&raw).unwrap();
    let p = MPath::new(b"b/exec").unwrap();
    let d = m.lookup(&p).expect("entry must be present");
    assert_eq!(d.flag(), Type::Executable);
    assert_eq!(d.entryid(), &EntryId::new(ones_hash()));
    let missing = MPath::new(b"b/absent").unwrap();
    assert!(m.lookup(&missing).is_none());
}

#[test]
fn parse_with_prefix_joins_paths() {
    let prefix = MPath::new(b"some/dir").unwrap();
    let m = ManifestContent::parse_with_prefix(
        b"leaf\0da39a3ee5e6b4b0d3255bfef95601890afd80709\n",
        &prefix,
    )
    .unwrap();
    let entries = m.manifest();
    assert_eq!(entries.len(), 1);
    assert_eq!(entries[0].0, MPath::new(b"some/dir/leaf").unwrap());
}

#[test]
fn hex_forms_round_trip() {
    let h = hash("DA39A3EE5E6B4B0D3255BFEF95601890AFD80709");
    assert_eq!(
        h.to_hex(),
        b"da39a3ee5e6b4b0d3255bfef95601890afd80709".to_vec()
    );
    assert_eq!(h, hash("da39a3ee5e6b4b0d3255bfef95601890afd80709"));
    assert_eq!(h.as_bytes().len(), 20);
}

#[test]
fn path_validation() {
    assert!(MPath::new(b"").is_err());
    assert!(MPath::new(b"/abs").is_err());
    assert!(MPath::new(b"trail/").is_err());
    assert!(MPath::new(b"a//b").is_err());
    assert!(MPath::new(b"a\0b").is_err());
    assert!(MPath::new(b"a/b/c").is_ok());
    let joined = MPath::new(b"a/b").unwrap().join(&MPath::new(b"c/d").unwrap());
    assert_eq!(joined, MPath::new(b"a/b/c/d").unwrap());
    let name = MPath::new(b"a/b/leaf.txt").unwrap().last_element();
    assert_eq!(name.as_bytes(), &b"leaf.txt".to_vec());
}

#[test]
fn no_trailing_newline_still_parses() {
    let m = ManifestContent::parse(b"a\0da39a3ee5e6b4b0d3255bfef95601890afd80709").unwrap();
    assert_eq!(m.len(), 1);
}

#[test]
fn leading_empty_line_means_empty_manifest() {
    let m = ManifestContent::parse(b"\nwhatever follows is never read").unwrap();
    assert_eq!(m.len(), 0);
}

#[test]
fn new_empty_has_no_entries() {
    let m = ManifestContent::new_empty();
    assert_eq!(m.len(), 0);
    let mut out = Vec::new();
    m.generate(&mut out);
    assert!(out.is_empty());
}
