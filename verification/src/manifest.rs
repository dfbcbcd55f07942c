//! The flat manifest body: the binary line format, one record per path,
//! and its parser and generator. Each line is the path bytes, a NUL, the
//! 40-character hex hash, at most one flag byte, and a newline; an empty
//! line ends the stream. Entries are kept strictly ordered by raw path
//! bytes, with later occurrences of a path replacing earlier ones.

use vstd::prelude::*;

use crate::errors::ParseError;
use crate::hex::{
    decode_hex, encode_hex, is_hex_digit, lemma_decode_encode_hex, lemma_decode_hex_len,
    lemma_encode_hex_valid, valid_hex,
};
use crate::nodehash::{EntryId, NodeHash, HASH_WIDTH};
use crate::order::{first_index, lex_lt};
use crate::path::{valid_path_bytes, MPath};

verus! {

/// What occupies a path: a plain file, an executable file, a symbolic
/// link, or a nested tree.
#[derive(Clone, Copy, Debug, PartialEq, Eq, Structural)]
pub enum Type {
    File,
    Executable,
    Symlink,
    Tree,
}

/// The flag byte written after the hash for each type; none for `File`.
pub open spec fn flag_bytes(t: Type) -> Seq<u8> {
    match t {
        Type::File => Seq::empty(),
        Type::Symlink => seq![108u8],
        Type::Executable => seq![120u8],
        Type::Tree => seq![116u8],
    }
}

/// The record part of a manifest line: the hash in lowercase hex, then
/// the flag byte if any.
pub open spec fn details_encode(v: (Seq<u8>, Type)) -> Seq<u8> {
    encode_hex(v.0) + flag_bytes(v.1)
}

/// Decode the record part of a manifest line: a 40-character hex hash,
/// then at most one known flag byte.
pub open spec fn details_spec(data: Seq<u8>) -> Result<(Seq<u8>, Type), ParseError> {
    if data.len() < 40 {
        Err(ParseError::MalformedHash)
    } else if !valid_hex(data.take(40)) {
        Err(ParseError::MalformedHash)
    } else if data.len() > 41 {
        Err(ParseError::TooManyFlags)
    } else if data.len() == 40 {
        Ok((decode_hex(data.take(40)), Type::File))
    } else if data[40] == 108 {
        Ok((decode_hex(data.take(40)), Type::Symlink))
    } else if data[40] == 120 {
        Ok((decode_hex(data.take(40)), Type::Executable))
    } else if data[40] == 116 {
        Ok((decode_hex(data.take(40)), Type::Tree))
    } else {
        Err(ParseError::UnknownFlag(data[40]))
    }
}

/// One manifest record: the content hash of the path and its type flag.
#[derive(Clone, Debug, Eq)]
pub struct Details {
    entryid: EntryId,
    flag: Type,
}

impl View for Details {
    type V = (Seq<u8>, Type);

    closed spec fn view(&self) -> (Seq<u8>, Type) {
        (self.entryid@, self.flag)
    }
}

impl PartialEq for Details {
    fn eq(&self, other: &Self) -> (r: bool)
        ensures
            r == (self@ == other@),
    {
        let r = self.entryid.eq(&other.entryid) && flag_eq(self.flag, other.flag);
        proof {
            if r {
                assert(self@ =~= other@);
            }
        }
        r
    }
}

impl vstd::std_specs::cmp::PartialEqSpecImpl for Details {
    open spec fn obeys_eq_spec() -> bool {
        true
    }

    open spec fn eq_spec(&self, other: &Self) -> bool {
        self@ == other@
    }
}

/// Whether two type flags are the same.
pub fn flag_eq(a: Type, b: Type) -> (r: bool)
    ensures
        r == (a == b),
{
    match (a, b) {
        (Type::File, Type::File) => true,
        (Type::Executable, Type::Executable) => true,
        (Type::Symlink, Type::Symlink) => true,
        (Type::Tree, Type::Tree) => true,
        _ => false,
    }
}

impl Details {
    /// Whether the record's hash has its fixed width.
    pub open spec fn wf(&self) -> bool {
        self@.0.len() == HASH_WIDTH
    }

    /// Build a record from its parts.
    pub fn new(entryid: EntryId, flag: Type) -> (r: Details)
        ensures
            r@ == (entryid@, flag),
    {
        Details { entryid, flag }
    }

    /// Decode the record part of a manifest line (everything after the
    /// NUL separator, without the line's newline).
    pub fn parse(data: &[u8]) -> (r: Result<Details, ParseError>)
        ensures
            match r {
                Ok(d) => details_spec(data@) == Ok::<(Seq<u8>, Type), ParseError>(d@) && d.wf(),
                Err(e) => details_spec(data@) == Err::<(Seq<u8>, Type), ParseError>(e),
            },
    {
        if data.len() < 40 {
            return Err(ParseError::MalformedHash);
        }
        let hash_part = vstd::slice::slice_subrange(data, 0, 40);
        proof {
            assert(hash_part@ =~= data@.take(40));
        }
        let hash = match NodeHash::from_hex(hash_part) {
            Ok(h) => h,
            Err(_) => {
                return Err(ParseError::MalformedHash);
            },
        };
        proof {
            lemma_decode_hex_len(data@.take(40));
        }
        if data.len() > 41 {
            return Err(ParseError::TooManyFlags);
        }
        let flag = if data.len() == 40 {
            Type::File
        } else {
            let f = data[40];
            if f == 108 {
                Type::Symlink
            } else if f == 120 {
                Type::Executable
            } else if f == 116 {
                Type::Tree
            } else {
                return Err(ParseError::UnknownFlag(f));
            }
        };
        Ok(Details { entryid: EntryId::new(hash), flag })
    }

    /// Append the record's encoded form to `out`: the hash as lowercase
    /// hex, then the flag byte if any.
    pub fn generate(&self, out: &mut Vec<u8>)
        ensures
            final(out)@ == old(out)@ + details_encode(self@),
    {
        let hex = self.entryid.as_nodehash().to_hex();
        crate::order::append_bytes(out, hex.as_slice());
        match self.flag {
            Type::File => {
                proof {
                    assert(old(out)@ + encode_hex(self@.0) =~= old(out)@ + details_encode(self@));
                }
            },
            Type::Symlink => {
                out.push(108);
                proof {
                    assert((old(out)@ + encode_hex(self@.0)).push(108u8) =~= old(out)@
                        + details_encode(self@));
                }
            },
            Type::Executable => {
                out.push(120);
                proof {
                    assert((old(out)@ + encode_hex(self@.0)).push(120u8) =~= old(out)@
                        + details_encode(self@));
                }
            },
            Type::Tree => {
                out.push(116);
                proof {
                    assert((old(out)@ + encode_hex(self@.0)).push(116u8) =~= old(out)@
                        + details_encode(self@));
                }
            },
        }
    }

    /// An owned copy of the record.
    pub fn clone_details(&self) -> (r: Details)
        ensures
            r@ == self@,
    {
        Details { entryid: self.entryid.clone_id(), flag: self.flag }
    }

    /// The content identifier.
    pub fn entryid(&self) -> (r: &EntryId)
        ensures
            r@ == self@.0,
    {
        &self.entryid
    }

    /// The type flag.
    pub fn flag(&self) -> (r: Type)
        ensures
            r == self@.1,
    {
        self.flag
    }

    /// Whether the record names a symbolic link.
    pub fn is_symlink(&self) -> (r: bool)
        ensures
            r == (self@.1 == Type::Symlink),
    {
        flag_eq(self.flag, Type::Symlink)
    }

    /// Whether the record names a nested tree.
    pub fn is_tree(&self) -> (r: bool)
        ensures
            r == (self@.1 == Type::Tree),
    {
        flag_eq(self.flag, Type::Tree)
    }

    /// Whether the record names an executable file.
    pub fn is_executable(&self) -> (r: bool)
        ensures
            r == (self@.1 == Type::Executable),
    {
        flag_eq(self.flag, Type::Executable)
    }

    /// Whether the record names a plain file.
    pub fn is_file(&self) -> (r: bool)
        ensures
            r == (self@.1 == Type::File),
    {
        flag_eq(self.flag, Type::File)
    }
}

/// The encoded record never holds a NUL or a newline, its length is the
/// hex width plus at most one, and it decodes back to the same record.
pub proof fn lemma_details_round_trip(h: Seq<u8>, t: Type)
    requires
        h.len() == HASH_WIDTH,
    ensures
        details_spec(details_encode((h, t))) == Ok::<(Seq<u8>, Type), ParseError>((h, t)),
        t is File ==> details_encode((h, t)).len() == 40,
        !(t is File) ==> details_encode((h, t)).len() == 41,
        forall|i: int|
            0 <= i < details_encode((h, t)).len() ==> #[trigger] details_encode((h, t))[i] != 0
                && details_encode((h, t))[i] != 10,
{
    let e = details_encode((h, t));
    lemma_encode_hex_valid(h);
    assert(encode_hex(h).len() == 40);
    assert(e.take(40) =~= encode_hex(h));
    lemma_decode_encode_hex(h);
    assert forall|i: int| 0 <= i < e.len() implies #[trigger] e[i] != 0 && e[i] != 10 by {
        if i < 40 {
            assert(e[i] == encode_hex(h)[i]);
            assert(is_hex_digit(encode_hex(h)[i]));
        } else {
            assert(e[i] == flag_bytes(t)[i - 40]);
        }
    }
    if t is File {
        assert(e =~= encode_hex(h));
    } else {
        assert(e[40] == flag_bytes(t)[0]);
    }
}

/// The joined path a parsed name denotes: the name itself, or the
/// prefix, a `/`, then the name.
pub open spec fn full_path(prefix: Option<Seq<u8>>, name: Seq<u8>) -> Seq<u8> {
    match prefix {
        Option::None => name,
        Option::Some(p) => p + seq![47u8] + name,
    }
}

/// Decode one non-empty manifest line (without its newline): path
/// bytes, NUL, record.
pub open spec fn parse_line(line: Seq<u8>, prefix: Option<Seq<u8>>) -> Result<
    (Seq<u8>, (Seq<u8>, Type)),
    ParseError,
> {
    let nil = first_index(line, 0);
    if nil == line.len() {
        Err(ParseError::MissingSeparator)
    } else if !valid_path_bytes(line.take(nil)) {
        Err(ParseError::InvalidPath)
    } else {
        match details_spec(line.skip(nil + 1)) {
            Ok(d) => Ok((full_path(prefix, line.take(nil)), d)),
            Err(e) => Err(e),
        }
    }
}

/// Insert a record under its path, keeping raw byte order; an entry
/// already under the same path is replaced.
pub open spec fn insert_entry(
    m: Seq<(Seq<u8>, (Seq<u8>, Type))>,
    e: (Seq<u8>, (Seq<u8>, Type)),
) -> Seq<(Seq<u8>, (Seq<u8>, Type))>
    decreases m.len(),
{
    if m.len() == 0 {
        seq![e]
    } else if lex_lt(m[0].0, e.0) {
        seq![m[0]] + insert_entry(m.drop_first(), e)
    } else if m[0].0 == e.0 {
        seq![e] + m.drop_first()
    } else {
        seq![e] + m
    }
}

/// Parse manifest bytes line by line into `acc`: stop at the end of the
/// data or at an empty line, abort on the first error.
pub open spec fn parse_build(
    acc: Seq<(Seq<u8>, (Seq<u8>, Type))>,
    data: Seq<u8>,
    prefix: Option<Seq<u8>>,
) -> Result<Seq<(Seq<u8>, (Seq<u8>, Type))>, ParseError>
    decreases data.len(),
    via parse_build_decreases
{
    if data.len() == 0 {
        Ok(acc)
    } else {
        let nl = first_index(data, 10);
        if nl == 0 {
            Ok(acc)
        } else {
            let line = data.take(nl);
            let rest = if nl < data.len() {
                data.skip(nl + 1)
            } else {
                Seq::empty()
            };
            match parse_line(line, prefix) {
                Ok(e) => parse_build(insert_entry(acc, e), rest, prefix),
                Err(err) => Err(err),
            }
        }
    }
}

#[via_fn]
proof fn parse_build_decreases(
    acc: Seq<(Seq<u8>, (Seq<u8>, Type))>,
    data: Seq<u8>,
    prefix: Option<Seq<u8>>,
) {
    crate::order::lemma_first_index_props(data, 10);
}

/// Parse whole manifest bytes into an ordered entry sequence.
pub open spec fn parse_entries(data: Seq<u8>, prefix: Option<Seq<u8>>) -> Result<
    Seq<(Seq<u8>, (Seq<u8>, Type))>,
    ParseError,
> {
    parse_build(Seq::empty(), data, prefix)
}

/// One encoded manifest line: path, NUL, record, newline.
pub open spec fn encode_line(e: (Seq<u8>, (Seq<u8>, Type))) -> Seq<u8> {
    e.0 + seq![0u8] + details_encode(e.1) + seq![10u8]
}

/// The encoded form of a whole entry sequence, in order.
pub open spec fn generate_entries(s: Seq<(Seq<u8>, (Seq<u8>, Type))>) -> Seq<u8>
    decreases s.len(),
{
    if s.len() == 0 {
        Seq::empty()
    } else {
        encode_line(s[0]) + generate_entries(s.drop_first())
    }
}

/// Whether paths appear in strictly increasing raw byte order.
pub open spec fn entries_sorted(s: Seq<(Seq<u8>, (Seq<u8>, Type))>) -> bool {
    forall|i: int, j: int|
        0 <= i < j < s.len() ==> lex_lt(#[trigger] s[i].0, #[trigger] s[j].0)
}

/// Whether one entry is well formed: a valid path and a full-width hash.
pub open spec fn entry_wf(e: (Seq<u8>, (Seq<u8>, Type))) -> bool {
    valid_path_bytes(e.0) && e.1.0.len() == HASH_WIDTH
}

/// Whether a path holds no newline byte, so that it can sit inside one
/// manifest line.
pub open spec fn path_line_safe(p: Seq<u8>) -> bool {
    forall|i: int| 0 <= i < p.len() ==> p[i] != 10
}

/// Whether a whole entry sequence is well formed: ordered, and every
/// entry well formed.
pub open spec fn entries_wf(s: Seq<(Seq<u8>, (Seq<u8>, Type))>) -> bool {
    entries_sorted(s) && forall|i: int| 0 <= i < s.len() ==> entry_wf(#[trigger] s[i])
}

/// Whether every path of an entry sequence is free of newlines.
pub open spec fn entries_line_safe(s: Seq<(Seq<u8>, (Seq<u8>, Type))>) -> bool {
    forall|i: int| 0 <= i < s.len() ==> path_line_safe((#[trigger] s[i]).0)
}

/// Where `insert_entry` puts the new entry, given the position `i` of
/// the first path not below it: it replaces the entry at `i` when the
/// paths are equal, and goes in before position `i` otherwise.
pub proof fn lemma_insert_entry_at(
    m: Seq<(Seq<u8>, (Seq<u8>, Type))>,
    e: (Seq<u8>, (Seq<u8>, Type)),
    i: int,
)
    requires
        0 <= i <= m.len(),
        forall|j: int| 0 <= j < i ==> lex_lt(#[trigger] m[j].0, e.0),
        i < m.len() ==> !lex_lt(m[i].0, e.0),
    ensures
        i < m.len() && m[i].0 == e.0 ==> insert_entry(m, e) == m.update(i, e),
        !(i < m.len() && m[i].0 == e.0) ==> insert_entry(m, e) == m.insert(i, e),
    decreases m.len(),
{
    if m.len() == 0 {
        assert(insert_entry(m, e) =~= m.insert(0, e));
    } else if i == 0 {
        if !lex_lt(m[0].0, e.0) {
            if m[0].0 == e.0 {
                assert(seq![e] + m.drop_first() =~= m.update(0, e));
            } else {
                assert(seq![e] + m =~= m.insert(0, e));
            }
        }
    } else {
        let t = m.drop_first();
        assert(lex_lt(m[0].0, e.0));
        assert forall|j: int| 0 <= j < i - 1 implies lex_lt(#[trigger] t[j].0, e.0) by {
            assert(t[j] == m[j + 1]);
        }
        assert(i - 1 < t.len() ==> t[i - 1] == m[i]);
        lemma_insert_entry_at(t, e, i - 1);
        if i < m.len() && m[i].0 == e.0 {
            assert(seq![m[0]] + t.update(i - 1, e) =~= m.update(i, e));
        } else {
            assert(seq![m[0]] + t.insert(i - 1, e) =~= m.insert(i, e));
        }
    }
}

/// Inserting an entry whose path lies above every present path appends
/// it at the end.
pub proof fn lemma_insert_entry_append(
    m: Seq<(Seq<u8>, (Seq<u8>, Type))>,
    e: (Seq<u8>, (Seq<u8>, Type)),
)
    requires
        forall|j: int| 0 <= j < m.len() ==> lex_lt(#[trigger] m[j].0, e.0),
    ensures
        insert_entry(m, e) == m.push(e),
{
    lemma_insert_entry_at(m, e, m.len() as int);
    assert(m.insert(m.len() as int, e) =~= m.push(e));
}

/// Insertion keeps the order strict and introduces no entry but the
/// inserted one.
pub proof fn lemma_insert_entry_sorted(
    m: Seq<(Seq<u8>, (Seq<u8>, Type))>,
    e: (Seq<u8>, (Seq<u8>, Type)),
)
    requires
        entries_sorted(m),
    ensures
        entries_sorted(insert_entry(m, e)),
        insert_entry(m, e).len() <= m.len() + 1,
        forall|k: int|
            0 <= k < insert_entry(m, e).len() ==> #[trigger] insert_entry(m, e)[k] == e
                || m.contains(insert_entry(m, e)[k]),
    decreases m.len(),
{
    let r = insert_entry(m, e);
    if m.len() == 0 {
        assert(r =~= seq![e]);
    } else if lex_lt(m[0].0, e.0) {
        let t = m.drop_first();
        assert forall|i: int, j: int| 0 <= i < j < t.len() implies lex_lt(
            #[trigger] t[i].0,
            #[trigger] t[j].0,
        ) by {
            assert(t[i] == m[i + 1] && t[j] == m[j + 1]);
        }
        lemma_insert_entry_sorted(t, e);
        let rt = insert_entry(t, e);
        assert(r == seq![m[0]] + rt);
        assert forall|i: int, j: int| 0 <= i < j < r.len() implies lex_lt(
            #[trigger] r[i].0,
            #[trigger] r[j].0,
        ) by {
            if i == 0 {
                assert(r[j] == rt[j - 1]);
                if rt[j - 1] == e {
                    assert(lex_lt(m[0].0, e.0));
                } else {
                    assert(t.contains(rt[j - 1]));
                    let w = choose|w: int| 0 <= w < t.len() && t[w] == rt[j - 1];
                    assert(t[w] == m[w + 1]);
                    assert(lex_lt(m[0].0, m[w + 1].0));
                }
            } else {
                assert(r[i] == rt[i - 1] && r[j] == rt[j - 1]);
            }
        }
        assert forall|k: int| 0 <= k < r.len() implies #[trigger] r[k] == e || m.contains(r[k]) by {
            if k == 0 {
                assert(m[0] == r[0]);
            } else {
                assert(r[k] == rt[k - 1]);
                if rt[k - 1] != e {
                    assert(t.contains(rt[k - 1]));
                    let w = choose|w: int| 0 <= w < t.len() && t[w] == rt[k - 1];
                    assert(m[w + 1] == r[k]);
                }
            }
        }
    } else if m[0].0 == e.0 {
        let t = m.drop_first();
        assert(r == seq![e] + t);
        assert forall|i: int, j: int| 0 <= i < j < r.len() implies lex_lt(
            #[trigger] r[i].0,
            #[trigger] r[j].0,
        ) by {
            if i == 0 {
                assert(r[j] == m[j]);
                assert(lex_lt(m[0].0, m[j].0));
            } else {
                assert(r[i] == m[i] && r[j] == m[j]);
            }
        }
        assert forall|k: int| 0 <= k < r.len() implies #[trigger] r[k] == e || m.contains(r[k]) by {
            if k > 0 {
                assert(r[k] == m[k]);
            }
        }
    } else {
        crate::order::lemma_lex_total(m[0].0, e.0);
        assert(lex_lt(e.0, m[0].0));
        assert(r == seq![e] + m);
        assert forall|i: int, j: int| 0 <= i < j < r.len() implies lex_lt(
            #[trigger] r[i].0,
            #[trigger] r[j].0,
        ) by {
            if i == 0 {
                assert(r[j] == m[j - 1]);
                if j > 1 {
                    assert(lex_lt(m[0].0, m[j - 1].0));
                    crate::order::lemma_lex_transitive(e.0, m[0].0, m[j - 1].0);
                }
            } else {
                assert(r[i] == m[i - 1] && r[j] == m[j - 1]);
            }
        }
        assert forall|k: int| 0 <= k < r.len() implies #[trigger] r[k] == e || m.contains(r[k]) by {
            if k > 0 {
                assert(r[k] == m[k - 1]);
            }
        }
    }
}

/// The view of a vector of path/record pairs: the same pairs over their
/// mathematical forms.
pub open spec fn files_view(s: Seq<(MPath, Details)>) -> Seq<(Seq<u8>, (Seq<u8>, Type))> {
    s.map_values(|p: (MPath, Details)| (p.0@, p.1@))
}

/// The view of an optional prefix path.
pub open spec fn prefix_view(prefix: Option<&MPath>) -> Option<Seq<u8>> {
    match prefix {
        Option::None => Option::None,
        Option::Some(p) => Option::Some(p@),
    }
}

/// Whether an optional prefix is a valid path.
pub open spec fn prefix_wf(prefix: Option<Seq<u8>>) -> bool {
    match prefix {
        Option::None => true,
        Option::Some(p) => valid_path_bytes(p),
    }
}

/// Whether an optional prefix holds no newline byte.
pub open spec fn prefix_line_safe(prefix: Option<Seq<u8>>) -> bool {
    match prefix {
        Option::None => true,
        Option::Some(p) => path_line_safe(p),
    }
}

/// The parsed body of a manifest: records keyed by path, in strictly
/// increasing raw byte order of the paths.
#[derive(Clone, Debug, Eq)]
pub struct ManifestContent {
    files: Vec<(MPath, Details)>,
}

impl View for ManifestContent {
    type V = Seq<(Seq<u8>, (Seq<u8>, Type))>;

    closed spec fn view(&self) -> Seq<(Seq<u8>, (Seq<u8>, Type))> {
        files_view(self.files@)
    }
}

impl PartialEq for ManifestContent {
    fn eq(&self, other: &Self) -> (r: bool)
        ensures
            r == (self@ == other@),
    {
        if self.files.len() != other.files.len() {
            proof {
                assert(self@.len() != other@.len());
            }
            return false;
        }
        let n = self.files.len();
        let mut i: usize = 0;
        while i < n
            invariant
                n == self.files@.len(),
                n == other.files@.len(),
                i <= n,
                forall|j: int| 0 <= j < i ==> self@[j] == other@[j],
            decreases n - i,
        {
            let paths_same = self.files[i].0.eq(&other.files[i].0);
            let recs_same = self.files[i].1.eq(&other.files[i].1);
            if !paths_same || !recs_same {
                proof {
                    assert(self@[i as int] == (self.files@[i as int].0@, self.files@[i as int].1@));
                    assert(other@[i as int] == (other.files@[i as int].0@,
                    other.files@[i as int].1@));
                }
                return false;
            }
            proof {
                assert(self@[i as int] == (self.files@[i as int].0@, self.files@[i as int].1@));
                assert(other@[i as int] == (other.files@[i as int].0@, other.files@[i as int].1@));
            }
            i = i + 1;
        }
        proof {
            assert(self@ =~= other@);
        }
        true
    }
}

impl vstd::std_specs::cmp::PartialEqSpecImpl for ManifestContent {
    open spec fn obeys_eq_spec() -> bool {
        true
    }

    open spec fn eq_spec(&self, other: &Self) -> bool {
        self@ == other@
    }
}

/// Insert a record under its path into an ordered vector, replacing an
/// entry already under the same path.
fn insert_details(files: &mut Vec<(MPath, Details)>, path: MPath, details: Details)
    ensures
        files_view(final(files)@) == insert_entry(
            files_view(old(files)@),
            (path@, details@),
        ),
{
    let ghost pv = path@;
    let ghost dv = details@;
    let ghost m = files_view(files@);
    let mut i: usize = 0;
    loop
        invariant
            i <= files@.len(),
            files@ == old(files)@,
            m == files_view(files@),
            pv == path@,
            dv == details@,
            forall|j: int| 0 <= j < i ==> lex_lt(#[trigger] m[j].0, pv),
        decreases files@.len() - i,
    {
        if i >= files.len() {
            proof {
                lemma_insert_entry_at(m, (pv, dv), i as int);
            }
            files.push((path, details));
            proof {
                assert(files_view(files@) =~= m.insert(i as int, (pv, dv)));
            }
            return;
        }
        proof {
            assert(m[i as int] == (files@[i as int].0@, files@[i as int].1@));
        }
        let is_less = files[i].0.lt(&path);
        if !is_less {
            let same = files[i].0.eq(&path);
            proof {
                lemma_insert_entry_at(m, (pv, dv), i as int);
            }
            if same {
                files[i] = (path, details);
                proof {
                    assert(files_view(files@) =~= m.update(i as int, (pv, dv)));
                }
            } else {
                files.insert(i, (path, details));
                proof {
                    assert(files_view(files@) =~= m.insert(i as int, (pv, dv)));
                }
            }
            return;
        }
        i = i + 1;
    }
}

impl ManifestContent {
    /// Whether the body is well formed: ordered, every path valid,
    /// every hash full width.
    pub open spec fn wf(&self) -> bool {
        entries_wf(self@)
    }

    /// An empty manifest body.
    pub fn new_empty() -> (r: Self)
        ensures
            r@ == Seq::<(Seq<u8>, (Seq<u8>, Type))>::empty(),
            r.wf(),
    {
        let r = ManifestContent { files: Vec::new() };
        proof {
            assert(r@ =~= Seq::<(Seq<u8>, (Seq<u8>, Type))>::empty());
        }
        r
    }

    /// Parse manifest bytes into an ordered record vector, joining the
    /// prefix, when one is given, in front of every parsed path.
    fn parse_impl(data: &[u8], prefix: Option<&MPath>) -> (r: Result<
        Vec<(MPath, Details)>,
        ParseError,
    >)
        requires
            match prefix {
                Option::Some(p) => p.wf(),
                Option::None => true,
            },
        ensures
            match r {
                Ok(v) => parse_entries(data@, prefix_view(prefix)) == Ok::<
                    Seq<(Seq<u8>, (Seq<u8>, Type))>,
                    ParseError,
                >(files_view(v@)),
                Err(e) => parse_entries(data@, prefix_view(prefix)) == Err::<
                    Seq<(Seq<u8>, (Seq<u8>, Type))>,
                    ParseError,
                >(e),
            },
    {
        let ghost pv = prefix_view(prefix);
        let mut files: Vec<(MPath, Details)> = Vec::new();
        let n = data.len();
        let mut pos: usize = 0;
        proof {
            assert(files_view(files@) =~= Seq::<(Seq<u8>, (Seq<u8>, Type))>::empty());
            assert(data@.skip(0) =~= data@);
        }
        while pos < n
            invariant
                n == data@.len(),
                pos <= n,
                match prefix {
                    Option::Some(p) => p.wf(),
                    Option::None => true,
                },
                pv == prefix_view(prefix),
                parse_build(files_view(files@), data@.skip(pos as int), pv) == parse_entries(
                    data@,
                    pv,
                ),
            decreases n - pos,
        {
            let ghost d = data@.skip(pos as int);
            let ghost acc = files_view(files@);
            let tail = vstd::slice::slice_subrange(data, pos, n);
            proof {
                assert(tail@ =~= d);
            }
            let line_end = match crate::order::find(tail, 10) {
                Some(k) => pos + k,
                None => n,
            };
            let ghost nl = first_index(d, 10);
            proof {
                assert(nl == line_end - pos);
            }
            if line_end == pos {
                proof {
                    assert(parse_build(acc, d, pv) == Ok::<_, ParseError>(acc));
                }
                return Ok(files);
            }
            let line = vstd::slice::slice_subrange(data, pos, line_end);
            proof {
                assert(line@ =~= d.take(nl));
            }
            let nil = match crate::order::find(line, 0) {
                Some(k) => k,
                None => {
                    proof {
                        assert(first_index(line@, 0) == line@.len());
                        assert(parse_line(line@, pv) == Err::<
                            (Seq<u8>, (Seq<u8>, Type)),
                            ParseError,
                        >(ParseError::MissingSeparator));
                    }
                    return Err(ParseError::MissingSeparator);
                },
            };
            let name = vstd::slice::slice_subrange(line, 0, nil);
            let rest = vstd::slice::slice_subrange(line, nil + 1, line.len());
            proof {
                assert(name@ =~= line@.take(nil as int));
                assert(rest@ =~= line@.skip(nil as int + 1));
            }
            let parsed = match MPath::new(name) {
                Ok(p) => p,
                Err(_) => {
                    proof {
                        assert(parse_line(line@, pv) == Err::<
                            (Seq<u8>, (Seq<u8>, Type)),
                            ParseError,
                        >(ParseError::InvalidPath));
                    }
                    return Err(ParseError::InvalidPath);
                },
            };
            let path = match prefix {
                Some(pref) => pref.join(&parsed),
                None => parsed,
            };
            proof {
                assert(path@ == full_path(pv, name@));
            }
            let details = match Details::parse(rest) {
                Ok(dt) => dt,
                Err(e) => {
                    proof {
                        assert(parse_line(line@, pv) == Err::<
                            (Seq<u8>, (Seq<u8>, Type)),
                            ParseError,
                        >(e));
                    }
                    return Err(e);
                },
            };
            proof {
                assert(parse_line(line@, pv) == Ok::<(Seq<u8>, (Seq<u8>, Type)), ParseError>(
                    (path@, details@),
                ));
            }
            let ghost entry = (path@, details@);
            insert_details(&mut files, path, details);
            if line_end < n {
                pos = line_end + 1;
                proof {
                    assert(data@.skip(pos as int) =~= d.skip(nl + 1));
                    assert(parse_build(acc, d, pv) == parse_build(
                        insert_entry(acc, entry),
                        d.skip(nl + 1),
                        pv,
                    ));
                }
            } else {
                pos = n;
                proof {
                    assert(data@.skip(pos as int) =~= Seq::<u8>::empty());
                    assert(parse_build(acc, d, pv) == parse_build(
                        insert_entry(acc, entry),
                        Seq::<u8>::empty(),
                        pv,
                    ));
                }
            }
        }
        proof {
            assert(data@.skip(pos as int).len() == 0);
        }
        Ok(files)
    }

    /// Parse manifest bytes into a manifest body.
    pub fn parse(data: &[u8]) -> (r: Result<Self, ParseError>)
        ensures
            match r {
                Ok(m) => parse_entries(data@, Option::None) == Ok::<
                    Seq<(Seq<u8>, (Seq<u8>, Type))>,
                    ParseError,
                >(m@) && m.wf() && entries_line_safe(m@),
                Err(e) => parse_entries(data@, Option::None) == Err::<
                    Seq<(Seq<u8>, (Seq<u8>, Type))>,
                    ParseError,
                >(e),
            },
    {
        match Self::parse_impl(data, None) {
            Ok(files) => {
                let m = ManifestContent { files };
                proof {
                    lemma_parse_entries_wf(data@, Option::None);
                }
                Ok(m)
            },
            Err(e) => Err(e),
        }
    }

    /// Parse manifest bytes, joining `prefix` in front of every parsed
    /// path (as when a nested tree is parsed under its own path).
    pub fn parse_with_prefix(data: &[u8], prefix: &MPath) -> (r: Result<Self, ParseError>)
        requires
            prefix.wf(),
        ensures
            match r {
                Ok(m) => parse_entries(data@, Option::Some(prefix@)) == Ok::<
                    Seq<(Seq<u8>, (Seq<u8>, Type))>,
                    ParseError,
                >(m@) && m.wf() && forall|k: int|
                    0 <= k < m@.len() ==> path_has_prefix((#[trigger] m@[k]).0, prefix@),
                Err(e) => parse_entries(data@, Option::Some(prefix@)) == Err::<
                    Seq<(Seq<u8>, (Seq<u8>, Type))>,
                    ParseError,
                >(e),
            },
    {
        match Self::parse_impl(data, Some(prefix)) {
            Ok(files) => {
                let m = ManifestContent { files };
                proof {
                    lemma_parse_entries_wf(data@, Option::Some(prefix@));
                    lemma_parse_build_prefixed(
                        Seq::<(Seq<u8>, (Seq<u8>, Type))>::empty(),
                        data@,
                        prefix@,
                    );
                }
                Ok(m)
            },
            Err(e) => Err(e),
        }
    }

    /// Append the manifest's encoded form to `out`: every entry's line,
    /// in order.
    pub fn generate(&self, out: &mut Vec<u8>)
        ensures
            final(out)@ == old(out)@ + generate_entries(self@),
    {
        let n = self.files.len();
        let mut i: usize = 0;
        proof {
            assert(generate_entries(self@.take(0)) =~= Seq::<u8>::empty());
            assert(old(out)@ + Seq::<u8>::empty() =~= old(out)@);
        }
        while i < n
            invariant
                n == self.files@.len(),
                i <= n,
                out@ == old(out)@ + generate_entries(self@.take(i as int)),
            decreases n - i,
        {
            let ghost before = out@;
            self.files[i].0.generate(out);
            out.push(0);
            self.files[i].1.generate(out);
            out.push(10);
            proof {
                assert(self@[i as int] == (self.files@[i as int].0@, self.files@[i as int].1@));
                assert(out@ =~= before + encode_line(self@[i as int]));
                assert(self@.take(i + 1) =~= self@.take(i as int).push(self@[i as int]));
                lemma_generate_entries_push(self@.take(i as int), self@[i as int]);
                assert(out@ =~= old(out)@ + generate_entries(self@.take(i + 1)));
            }
            i = i + 1;
        }
        proof {
            assert(self@.take(n as int) =~= self@);
        }
    }

    /// Exact-match lookup of the record under a path, by binary search
    /// over the ordered entries.
    pub fn lookup(&self, path: &MPath) -> (r: Option<&Details>)
        requires
            self.wf(),
        ensures
            match r {
                Some(d) => exists|i: int| 0 <= i < self@.len() && #[trigger] self@[i] == (path@, d@),
                None => forall|i: int| 0 <= i < self@.len() ==> (#[trigger] self@[i]).0 != path@,
            },
    {
        let mut lo: usize = 0;
        let mut hi: usize = self.files.len();
        while lo < hi
            invariant
                self.wf(),
                lo <= hi <= self.files@.len(),
                forall|j: int| 0 <= j < lo ==> lex_lt((#[trigger] self@[j]).0, path@),
                forall|j: int| hi <= j < self@.len() ==> lex_lt(path@, (#[trigger] self@[j]).0),
            decreases hi - lo,
        {
            let mid = lo + (hi - lo) / 2;
            proof {
                assert(self@[mid as int] == (self.files@[mid as int].0@,
                self.files@[mid as int].1@));
            }
            let is_less = self.files[mid].0.lt(path);
            if is_less {
                proof {
                    assert forall|j: int| 0 <= j < mid + 1 implies lex_lt(
                        (#[trigger] self@[j]).0,
                        path@,
                    ) by {
                        if j < mid {
                            assert(lex_lt(self@[j].0, self@[mid as int].0));
                            crate::order::lemma_lex_transitive(self@[j].0, self@[mid as int].0,
                            path@);
                        }
                    }
                }
                lo = mid + 1;
            } else {
                let same = self.files[mid].0.eq(path);
                if same {
                    proof {
                        assert(self@[mid as int] == (path@, self.files@[mid as int].1@));
                    }
                    return Some(&self.files[mid].1);
                }
                proof {
                    crate::order::lemma_lex_total(self.files@[mid as int].0@, path@);
                    assert forall|j: int| mid <= j < self@.len() implies lex_lt(
                        path@,
                        (#[trigger] self@[j]).0,
                    ) by {
                        if j > mid {
                            assert(lex_lt(self@[mid as int].0, self@[j].0));
                            crate::order::lemma_lex_transitive(path@, self@[mid as int].0,
                            self@[j].0);
                        }
                    }
                }
                hi = mid;
            }
        }
        proof {
            assert forall|i: int| 0 <= i < self@.len() implies (#[trigger] self@[i]).0 != path@ by {
                if i < lo {
                    crate::order::lemma_lex_asymmetric(self@[i].0, path@);
                } else {
                    crate::order::lemma_lex_asymmetric(path@, self@[i].0);
                }
            }
        }
        None
    }

    /// The entries, in order, as owned pairs.
    pub fn manifest(&self) -> (r: Vec<(MPath, Details)>)
        ensures
            files_view(r@) == self@,
    {
        let n = self.files.len();
        let mut out: Vec<(MPath, Details)> = Vec::new();
        let mut i: usize = 0;
        proof {
            assert(files_view(out@) =~= self@.take(0));
        }
        while i < n
            invariant
                n == self.files@.len(),
                i <= n,
                files_view(out@) == self@.take(i as int),
            decreases n - i,
        {
            let p = self.files[i].0.clone_path();
            let d = self.files[i].1.clone_details();
            out.push((p, d));
            proof {
                assert(self@[i as int] == (self.files@[i as int].0@, self.files@[i as int].1@));
                assert(files_view(out@) =~= self@.take(i as int).push(self@[i as int]));
                assert(self@.take(i + 1) =~= self@.take(i as int).push(self@[i as int]));
            }
            i = i + 1;
        }
        proof {
            assert(self@.take(n as int) =~= self@);
        }
        out
    }

    /// How many entries the manifest holds.
    pub fn len(&self) -> (r: usize)
        ensures
            r == self@.len(),
    {
        self.files.len()
    }
}

/// Encoding distributes over appending one entry.
pub proof fn lemma_generate_entries_push(
    s: Seq<(Seq<u8>, (Seq<u8>, Type))>,
    e: (Seq<u8>, (Seq<u8>, Type)),
)
    ensures
        generate_entries(s.push(e)) == generate_entries(s) + encode_line(e),
    decreases s.len(),
{
    if s.len() == 0 {
        assert(s.push(e).drop_first() =~= Seq::<(Seq<u8>, (Seq<u8>, Type))>::empty());
        assert(s.push(e)[0] == e);
        assert(generate_entries(s.push(e)) == encode_line(e) + generate_entries(
            s.push(e).drop_first(),
        ));
        assert(encode_line(e) + Seq::<u8>::empty() =~= encode_line(e));
        assert(generate_entries(s) + encode_line(e) =~= encode_line(e));
    } else {
        assert(s.push(e).drop_first() =~= s.drop_first().push(e));
        lemma_generate_entries_push(s.drop_first(), e);
        assert(s.push(e)[0] == s[0]);
        assert(generate_entries(s.push(e)) == encode_line(s[0]) + (generate_entries(s.drop_first())
            + encode_line(e)));
        assert(encode_line(s[0]) + (generate_entries(s.drop_first()) + encode_line(e)) =~= (
        encode_line(s[0]) + generate_entries(s.drop_first())) + encode_line(e));
    }
}

/// What any successful parse guarantees of its result: the entries are
/// well formed (ordered, valid paths, full-width hashes), and their
/// paths stay free of newlines when the prefix is.
pub proof fn lemma_parse_build_wf(
    acc: Seq<(Seq<u8>, (Seq<u8>, Type))>,
    data: Seq<u8>,
    prefix: Option<Seq<u8>>,
)
    requires
        entries_wf(acc),
        prefix_wf(prefix),
    ensures
        parse_build(acc, data, prefix) matches Ok(res) ==> entries_wf(res),
        parse_build(acc, data, prefix) matches Ok(res) ==> ((entries_line_safe(acc)
            && prefix_line_safe(prefix)) ==> entries_line_safe(res)),
    decreases data.len(),
{
    crate::order::lemma_first_index_props(data, 10);
    if data.len() == 0 {
        return;
    }
    let nl = first_index(data, 10);
    if nl == 0 {
        return;
    }
    let line = data.take(nl);
    let rest = if nl < data.len() {
        data.skip(nl + 1)
    } else {
        Seq::empty()
    };
    match parse_line(line, prefix) {
        Ok(e) => {
            let nil = first_index(line, 0);
            crate::order::lemma_first_index_props(line, 0);
            let name = line.take(nil);
            assert(valid_path_bytes(name));
            match prefix {
                Option::Some(p) => {
                    crate::path::lemma_join_valid(p, name);
                },
                Option::None => {},
            }
            lemma_decode_hex_len(line.skip(nil + 1).take(40));
            assert(entry_wf(e));
            assert forall|k: int| 0 <= k < name.len() implies name[k] != 10 by {
                assert(name[k] == data[k]);
            }
            assert(prefix_line_safe(prefix) ==> path_line_safe(e.0));
            lemma_insert_entry_sorted(acc, e);
            let acc2 = insert_entry(acc, e);
            assert forall|k: int| 0 <= k < acc2.len() implies entry_wf(#[trigger] acc2[k]) by {
                if acc2[k] != e {
                    assert(acc.contains(acc2[k]));
                    let w = choose|w: int| 0 <= w < acc.len() && acc[w] == acc2[k];
                    assert(entry_wf(acc[w]));
                }
            }
            assert(entries_wf(acc2));
            if entries_line_safe(acc) && prefix_line_safe(prefix) {
                assert forall|k: int| 0 <= k < acc2.len() implies path_line_safe(
                    (#[trigger] acc2[k]).0,
                ) by {
                    if acc2[k] != e {
                        assert(acc.contains(acc2[k]));
                        let w = choose|w: int| 0 <= w < acc.len() && acc[w] == acc2[k];
                        assert(path_line_safe(acc[w].0));
                    }
                }
            }
            lemma_parse_build_wf(acc2, rest, prefix);
        },
        Err(_) => {},
    }
}

/// Whether path `q` opens with path `p` followed by a separator: the
/// shape of every path parsed under prefix `p`.
pub open spec fn path_has_prefix(q: Seq<u8>, p: Seq<u8>) -> bool {
    q.len() > p.len() + 1 && q.take(p.len() + 1 as int) == p + seq![47u8]
}

/// Insertion introduces no entry but the inserted one.
pub proof fn lemma_insert_entry_contains(
    m: Seq<(Seq<u8>, (Seq<u8>, Type))>,
    e: (Seq<u8>, (Seq<u8>, Type)),
)
    ensures
        forall|k: int|
            0 <= k < insert_entry(m, e).len() ==> #[trigger] insert_entry(m, e)[k] == e
                || m.contains(insert_entry(m, e)[k]),
    decreases m.len(),
{
    let r = insert_entry(m, e);
    if m.len() == 0 {
    } else if lex_lt(m[0].0, e.0) {
        let t = m.drop_first();
        lemma_insert_entry_contains(t, e);
        let rt = insert_entry(t, e);
        assert forall|k: int| 0 <= k < r.len() implies #[trigger] r[k] == e || m.contains(r[k]) by {
            if k == 0 {
                assert(r[0] == m[0]);
            } else {
                assert(r[k] == rt[k - 1]);
                if rt[k - 1] != e {
                    assert(t.contains(rt[k - 1]));
                    let w = choose|w: int| 0 <= w < t.len() && t[w] == rt[k - 1];
                    assert(m[w + 1] == r[k]);
                }
            }
        }
    } else if m[0].0 == e.0 {
        assert forall|k: int| 0 <= k < r.len() implies #[trigger] r[k] == e || m.contains(r[k]) by {
            if k > 0 {
                assert(r[k] == m[k]);
            }
        }
    } else {
        assert forall|k: int| 0 <= k < r.len() implies #[trigger] r[k] == e || m.contains(r[k]) by {
            if k > 0 {
                assert(r[k] == m[k - 1]);
            }
        }
    }
}

/// Every entry a prefixed parse adds carries the prefix and a
/// separator in front of its path.
pub proof fn lemma_parse_build_prefixed(
    acc: Seq<(Seq<u8>, (Seq<u8>, Type))>,
    data: Seq<u8>,
    p: Seq<u8>,
)
    requires
        forall|k: int| 0 <= k < acc.len() ==> path_has_prefix((#[trigger] acc[k]).0, p),
    ensures
        parse_build(acc, data, Option::Some(p)) matches Ok(res) ==> forall|k: int|
            0 <= k < res.len() ==> path_has_prefix((#[trigger] res[k]).0, p),
    decreases data.len(),
{
    crate::order::lemma_first_index_props(data, 10);
    if data.len() == 0 {
        return;
    }
    let nl = first_index(data, 10);
    if nl == 0 {
        return;
    }
    let line = data.take(nl);
    let rest = if nl < data.len() {
        data.skip(nl + 1)
    } else {
        Seq::empty()
    };
    match parse_line(line, Option::Some(p)) {
        Ok(e) => {
            let nil = first_index(line, 0);
            crate::order::lemma_first_index_props(line, 0);
            let name = line.take(nil);
            assert(valid_path_bytes(name));
            assert(e.0 == p + seq![47u8] + name);
            assert(e.0.take(p.len() + 1 as int) =~= p + seq![47u8]);
            assert(path_has_prefix(e.0, p));
            lemma_insert_entry_contains(acc, e);
            let acc2 = insert_entry(acc, e);
            assert forall|k: int| 0 <= k < acc2.len() implies path_has_prefix(
                (#[trigger] acc2[k]).0,
                p,
            ) by {
                if acc2[k] != e {
                    assert(acc.contains(acc2[k]));
                    let w = choose|w: int| 0 <= w < acc.len() && acc[w] == acc2[k];
                    assert(path_has_prefix(acc[w].0, p));
                }
            }
            lemma_parse_build_prefixed(acc2, rest, p);
        },
        Err(_) => {},
    }
}

/// One encoded line ends at its newline, and the part before the
/// newline parses back to the entry it encodes.
proof fn lemma_parse_encode_line(e: (Seq<u8>, (Seq<u8>, Type)))
    requires
        entry_wf(e),
        path_line_safe(e.0),
    ensures
        encode_line(e).len() > 1,
        first_index(encode_line(e), 10) == encode_line(e).len() - 1,
        parse_line(encode_line(e).take(encode_line(e).len() - 1), Option::None) == Ok::<
            (Seq<u8>, (Seq<u8>, Type)),
            ParseError,
        >(e),
{
    let p = e.0;
    let d = details_encode(e.1);
    let el = encode_line(e);
    lemma_details_round_trip(e.1.0, e.1.1);
    assert(el.len() == p.len() + d.len() + 2);
    assert(el[el.len() - 1] == 10);
    assert forall|j: int| 0 <= j < el.len() - 1 implies el[j] != 10 by {
        if j < p.len() {
            assert(el[j] == p[j]);
        } else if j == p.len() {
            assert(el[j] == 0);
        } else {
            assert(el[j] == d[j - p.len() - 1]);
        }
    }
    crate::order::lemma_first_index_of(el, 10, el.len() - 1);
    let line = el.take(el.len() - 1);
    assert(line =~= p + seq![0u8] + d);
    assert forall|j: int| 0 <= j < p.len() implies line[j] != 0 by {
        assert(line[j] == p[j]);
    }
    assert(line[p.len() as int] == 0);
    crate::order::lemma_first_index_of(line, 0, p.len() as int);
    assert(line.take(p.len() as int) =~= p);
    assert(line.skip(p.len() as int + 1) =~= d);
    assert(parse_line(line, Option::None) == Ok::<(Seq<u8>, (Seq<u8>, Type)), ParseError>(
        (p, e.1),
    ));
}

/// Parsing the encoded form of well-formed entries that all lie above
/// the accumulated ones appends exactly those entries.
proof fn lemma_parse_build_generate(
    acc: Seq<(Seq<u8>, (Seq<u8>, Type))>,
    s: Seq<(Seq<u8>, (Seq<u8>, Type))>,
)
    requires
        entries_wf(s),
        entries_line_safe(s),
        forall|i: int, k: int|
            0 <= i < acc.len() && 0 <= k < s.len() ==> lex_lt(
                (#[trigger] acc[i]).0,
                (#[trigger] s[k]).0,
            ),
    ensures
        parse_build(acc, generate_entries(s), Option::None) == Ok::<
            Seq<(Seq<u8>, (Seq<u8>, Type))>,
            ParseError,
        >(acc + s),
    decreases s.len(),
{
    if s.len() == 0 {
        assert(acc + s =~= acc);
    } else {
        let e = s[0];
        let el = encode_line(e);
        let t = s.drop_first();
        let rest_g = generate_entries(t);
        let d = generate_entries(s);
        assert(d == el + rest_g);
        assert(entry_wf(e) && path_line_safe(e.0));
        lemma_parse_encode_line(e);
        crate::order::lemma_first_index_concat(el, rest_g, 10);
        let nl = first_index(d, 10);
        assert(nl == el.len() - 1);
        assert(el.len() >= 2);
        assert(nl >= 1);
        assert(d.take(nl) =~= el.take(el.len() - 1));
        assert(parse_line(d.take(nl), Option::None) == Ok::<
            (Seq<u8>, (Seq<u8>, Type)),
            ParseError,
        >(e));
        assert forall|i: int| 0 <= i < acc.len() implies lex_lt((#[trigger] acc[i]).0, e.0) by {
            assert(s[0] == e);
        }
        lemma_insert_entry_append(acc, e);
        assert(nl < d.len());
        assert(d.skip(nl + 1) =~= rest_g);
        assert forall|i: int, j: int| 0 <= i < j < t.len() implies lex_lt(
            (#[trigger] t[i]).0,
            (#[trigger] t[j]).0,
        ) by {
            assert(t[i] == s[i + 1] && t[j] == s[j + 1]);
        }
        assert forall|k: int| 0 <= k < t.len() implies entry_wf(#[trigger] t[k]) && path_line_safe(
            t[k].0,
        ) by {
            assert(t[k] == s[k + 1]);
        }
        let acc2 = acc.push(e);
        assert forall|i: int, k: int|
            0 <= i < acc2.len() && 0 <= k < t.len() implies lex_lt(
            (#[trigger] acc2[i]).0,
            (#[trigger] t[k]).0,
        ) by {
            assert(t[k] == s[k + 1]);
            if i < acc.len() {
                assert(acc2[i] == acc[i]);
            } else {
                assert(acc2[i] == e);
                assert(lex_lt(s[0].0, s[k + 1].0));
            }
        }
        lemma_parse_build_generate(acc2, t);
        assert(parse_build(acc, d, Option::None) == parse_build(acc2, rest_g, Option::None));
        assert(acc2 + t =~= acc + s);
    }
}

/// Law: generating a well-formed manifest body and parsing the bytes
/// back yields the same entries. Holds of every body whose paths are
/// free of newline bytes, which is every body a parse can produce.
pub proof fn lemma_round_trip(s: Seq<(Seq<u8>, (Seq<u8>, Type))>)
    requires
        entries_wf(s),
        entries_line_safe(s),
    ensures
        parse_entries(generate_entries(s), Option::None) == Ok::<
            Seq<(Seq<u8>, (Seq<u8>, Type))>,
            ParseError,
        >(s),
{
    let acc = Seq::<(Seq<u8>, (Seq<u8>, Type))>::empty();
    lemma_parse_build_generate(acc, s);
    assert(acc + s =~= s);
}

/// Whether `data` is the canonical encoded form of some well-formed
/// manifest body.
pub open spec fn canonical_bytes(data: Seq<u8>) -> bool {
    exists|s: Seq<(Seq<u8>, (Seq<u8>, Type))>|
        entries_wf(s) && entries_line_safe(s) && data == #[trigger] generate_entries(s)
}

/// Law: bytes already in canonical form parse successfully, and
/// generating the parsed body reproduces them byte for byte.
pub proof fn lemma_generate_of_parse(data: Seq<u8>)
    requires
        canonical_bytes(data),
    ensures
        parse_entries(data, Option::None).is_ok(),
        generate_entries(parse_entries(data, Option::None)->Ok_0) == data,
{
    let s = choose|s: Seq<(Seq<u8>, (Seq<u8>, Type))>|
        entries_wf(s) && entries_line_safe(s) && data == #[trigger] generate_entries(s);
    lemma_round_trip(s);
}

/// Law: parsing is a function of the bytes and prefix alone, so parsing
/// the same bytes twice yields equal manifest bodies.
pub proof fn lemma_reparse_idempotent(
    data: Seq<u8>,
    prefix: Option<Seq<u8>>,
    m1: ManifestContent,
    m2: ManifestContent,
)
    requires
        parse_entries(data, prefix) == Ok::<Seq<(Seq<u8>, (Seq<u8>, Type))>, ParseError>(m1@),
        parse_entries(data, prefix) == Ok::<Seq<(Seq<u8>, (Seq<u8>, Type))>, ParseError>(m2@),
    ensures
        m1@ == m2@,
{
}

/// Law: the entries of any successfully parsed manifest stand in
/// strictly increasing raw byte order of their paths.
pub proof fn lemma_parse_ordered(
    data: Seq<u8>,
    prefix: Option<Seq<u8>>,
    s: Seq<(Seq<u8>, (Seq<u8>, Type))>,
)
    requires
        prefix_wf(prefix),
        parse_entries(data, prefix) == Ok::<Seq<(Seq<u8>, (Seq<u8>, Type))>, ParseError>(s),
    ensures
        entries_sorted(s),
        forall|i: int, j: int| 0 <= i < j < s.len() ==> (#[trigger] s[i]).0 != (#[trigger] s[j]).0,
{
    lemma_parse_entries_wf(data, prefix);
    assert forall|i: int, j: int| 0 <= i < j < s.len() implies (#[trigger] s[i]).0 != (
    #[trigger] s[j]).0 by {
        crate::order::lemma_lex_asymmetric(s[i].0, s[j].0);
    }
}

/// Helper: what `ManifestContent::parse` relies on, stated of the empty
/// accumulator.
proof fn lemma_parse_entries_wf(data: Seq<u8>, prefix: Option<Seq<u8>>)
    requires
        prefix_wf(prefix),
    ensures
        parse_entries(data, prefix) matches Ok(res) ==> entries_wf(res),
        parse_entries(data, prefix) matches Ok(res) ==> (prefix_line_safe(prefix)
            ==> entries_line_safe(res)),
{
    let acc = Seq::<(Seq<u8>, (Seq<u8>, Type))>::empty();
    assert(entries_wf(acc));
    assert(entries_line_safe(acc));
    lemma_parse_build_wf(acc, data, prefix);
}

} // verus!
