use vstd::prelude::*;
use vstd::utf8::{decode_utf8, valid_utf8};

pub use crate::tree::{TreeEntries, TreeObject};

use crate::hexcode::ascii_chars;
use crate::text::{
    chars_of, chars_spell, skip_whitespace, skip_whitespace_back, string_from_utf8, trim,
};

verus! {

/// The mode of an entry in a tree object.
#[derive(Debug, Clone, Copy, PartialEq, Eq, Structural)]
pub enum FileMode {
    ExecRegularFile,
    NExecRegularFile,
    SymbolicLink,
    Gitlink,
    Directory,
}

/// The name (hash) of an object.
#[derive(Debug, Clone, PartialEq, Eq)]
pub enum ObjectSha {
    SHA1([u8; 20]),
    SHA256([u8; 32]),
}

impl ObjectSha {
    /// The raw hash bytes.
    pub open spec fn bytes(&self) -> Seq<u8> {
        match self {
            ObjectSha::SHA1(h) => h@,
            ObjectSha::SHA256(h) => h@,
        }
    }

    pub fn as_bytes(&self) -> (res: &[u8])
        ensures
            res@ == self.bytes(),
    {
        match self {
            ObjectSha::SHA1(h) => h.as_slice(),
            ObjectSha::SHA256(h) => h.as_slice(),
        }
    }
}

impl View for ObjectSha {
    type V = Seq<u8>;

    open spec fn view(&self) -> Seq<u8> {
        self.bytes()
    }
}

/// What can go wrong while reading the parts of an object.
#[derive(Debug, Clone, Copy, PartialEq, Eq, Structural)]
pub enum ObjectError {
    /// The type name in an object header is not valid UTF-8.
    TypeNotUtf8,
    /// The mode word of a tree entry is not valid UTF-8.
    ModeWordNotUtf8,
    /// The mode word of a tree entry names no known mode.
    InvalidModeWord,
    /// The data ends inside the hash of a tree entry.
    TruncatedHash,
}

/// Index of the first `delim` in `data` at or after `pos`, or `data.len()` where there is none.
pub open spec fn find_byte(data: Seq<u8>, pos: int, delim: u8) -> int
    decreases data.len() - pos,
{
    if pos < 0 || pos >= data.len() {
        data.len() as int
    } else if data[pos] == delim {
        pos
    } else {
        find_byte(data, pos + 1, delim)
    }
}

/// Where `BufRead::read_until(delim)` that starts at `pos` stops: just past the first `delim`, or
/// at the end of `data` where there is none.
pub open spec fn read_until_end(data: Seq<u8>, pos: int, delim: u8) -> int {
    let i = find_byte(data, pos, delim);
    if i < data.len() {
        i + 1
    } else {
        data.len() as int
    }
}

/// `chunk` without its last byte, as `Vec::pop` leaves it.
pub open spec fn without_last(chunk: Seq<u8>) -> Seq<u8> {
    if chunk.len() > 0 {
        chunk.drop_last()
    } else {
        chunk
    }
}

/// `find_byte` is the first position at or after `pos` that holds `delim`.
pub proof fn lemma_find_byte(data: Seq<u8>, pos: int, delim: u8)
    requires
        0 <= pos <= data.len(),
    ensures
        pos <= find_byte(data, pos, delim) <= data.len(),
        find_byte(data, pos, delim) < data.len() ==> data[find_byte(data, pos, delim)] == delim,
        forall|k: int| pos <= k < find_byte(data, pos, delim) ==> data[k] != delim,
    decreases data.len() - pos,
{
    if pos < data.len() && data[pos] != delim {
        lemma_find_byte(data, pos + 1, delim);
    }
}

/// Where the first `delim` at or after `pos` is at `k`, `find_byte` finds it.
pub proof fn lemma_find_byte_at(data: Seq<u8>, pos: int, delim: u8, k: int)
    requires
        0 <= pos <= k < data.len(),
        data[k] == delim,
        forall|j: int| pos <= j < k ==> data[j] != delim,
    ensures
        find_byte(data, pos, delim) == k,
    decreases k - pos,
{
    if pos < k {
        lemma_find_byte_at(data, pos + 1, delim, k);
    }
}

/// Where `BufRead::read_until(delim)` started at `pos` stops.
pub fn read_until(data: &[u8], pos: usize, delim: u8) -> (end: usize)
    requires
        pos <= data@.len(),
    ensures
        end == read_until_end(data@, pos as int, delim),
        pos <= end <= data@.len(),
        end == pos <==> pos == data@.len(),
{
    let n = data.len();
    let mut i = pos;
    while i < n && data[i] != delim
        invariant
            pos <= i <= n,
            n == data@.len(),
            find_byte(data@, pos as int, delim) == find_byte(data@, i as int, delim),
        decreases n - i,
    {
        i = i + 1;
    }
    proof {
        lemma_find_byte(data@, pos as int, delim);
    }
    if i < n {
        i + 1
    } else {
        n
    }
}

/// The type name that heads an object: the bytes from `pos` up to the first space, which is
/// dropped; where there is no space, up to the end of `data` with the last byte dropped.
pub open spec fn object_type_word(data: Seq<u8>, pos: int) -> Seq<u8> {
    without_last(data.subrange(pos, read_until_end(data, pos, 32)))
}

/// Reads the type name (`blob`, `tree`, ...) that heads the object `data` at `pos`, and the
/// position just past the space that ends it.
pub fn read_object_type(data: &[u8], pos: usize) -> (res: Result<(String, usize), ObjectError>)
    requires
        pos <= data@.len(),
    ensures
        match res {
            Ok((name, next)) => {
                &&& valid_utf8(object_type_word(data@, pos as int))
                &&& name@ == decode_utf8(object_type_word(data@, pos as int))
                &&& next == read_until_end(data@, pos as int, 32)
                &&& forall|k: int|
                    pos <= k < data@.len() && data@[k] == 32 && (forall|j: int|
                        pos <= j < k ==> data@[j] != 32) ==> #[trigger] data@.subrange(pos as int, k)
                        == object_type_word(data@, pos as int) && next == k + 1
            },
            Err(e) => {
                &&& e == ObjectError::TypeNotUtf8
                &&& !valid_utf8(object_type_word(data@, pos as int))
            },
        },
{
    let end = read_until(data, pos, 32);
    let word_end = if end > pos {
        end - 1
    } else {
        end
    };
    let word = vstd::slice::slice_to_vec(&data[pos..word_end]);
    proof {
        assert(word@ =~= object_type_word(data@, pos as int));
    }
    proof {
        assert forall|k: int|
            pos <= k < data@.len() && data@[k] == 32 && (forall|j: int|
                pos <= j < k ==> data@[j] != 32) implies #[trigger] data@.subrange(pos as int, k)
                == object_type_word(data@, pos as int) && end == k + 1 by {
            lemma_object_type_word_before_space(data@, pos as int, k);
        }
    }
    match string_from_utf8(word) {
        Some(name) => Ok((name, end)),
        None => Err(ObjectError::TypeNotUtf8),
    }
}

/// The type name read at `pos` is the whole run of bytes before the first space at or after `pos`
/// (at `k`), whatever its length, and reading goes on just past that space.
pub proof fn lemma_object_type_word_before_space(data: Seq<u8>, pos: int, k: int)
    requires
        0 <= pos <= k < data.len(),
        data[k] == 32,
        forall|j: int| pos <= j < k ==> data[j] != 32,
    ensures
        object_type_word(data, pos) == data.subrange(pos, k),
        read_until_end(data, pos, 32) == k + 1,
{
    lemma_find_byte_at(data, pos, 32, k);
    assert(data.subrange(pos, k + 1).drop_last() =~= data.subrange(pos, k));
}

/// Where no space follows `pos`, reading the type name takes everything up to the end and drops
/// the last byte (as `Vec::pop` does after `read_until` ran into the end).
pub proof fn lemma_object_type_word_without_space(data: Seq<u8>, pos: int)
    requires
        0 <= pos < data.len(),
        forall|j: int| pos <= j < data.len() ==> data[j] != 32,
    ensures
        object_type_word(data, pos) == data.subrange(pos, data.len() - 1),
        read_until_end(data, pos, 32) == data.len(),
{
    lemma_find_byte(data, pos, 32);
    assert(data.subrange(pos, data.len() as int).drop_last() =~= data.subrange(pos, data.len() - 1));
}

/// An object whose header starts with a word without spaces and a space (such as
/// `commit 5\0...`) has that word as its type name, and its size starts just past the space.
pub proof fn lemma_header_type_word(word: Seq<u8>, rest: Seq<u8>)
    requires
        !word.contains(32u8),
    ensures
        object_type_word(word + seq![32u8] + rest, 0) == word,
        read_until_end(word + seq![32u8] + rest, 0, 32) == word.len() + 1,
{
    let data = word + seq![32u8] + rest;
    let k = word.len() as int;
    assert(data[k] == 32);
    assert forall|j: int| 0 <= j < k implies data[j] != 32 by {
        assert(data[j] == word[j]);
        if word[j] == 32 {
            assert(word.contains(32u8));
        }
    }
    lemma_object_type_word_before_space(data, 0, k);
    assert(data.subrange(0, k) =~= word);
}

/// Skips the `<size>\0` that follows the type name in an object header: the position just past
/// the first NUL at or after `pos`, or the end of `data`.
pub fn skip_git_object_size_nul(data: &[u8], pos: usize) -> (next: usize)
    requires
        pos <= data@.len(),
    ensures
        next == read_until_end(data@, pos as int, 0),
{
    read_until(data, pos, 0)
}

/// An object of the store.
pub enum Object {
    Blob(BlobObject),
    Tree(TreeObject),
    Commit,
    Tag,
}

/// A blob, known by its name.
pub struct BlobObject {
    object_name: ObjectSha,
}

impl BlobObject {
    /// The name of this blob.
    pub closed spec fn name(&self) -> ObjectSha {
        self.object_name
    }

    pub fn object_name(&self) -> (res: &ObjectSha)
        ensures
            *res == self.name(),
    {
        &self.object_name
    }
}

/// One entry of a tree: the mode of the file and the name of the object it holds.
#[derive(Debug, Clone)]
pub struct TreeEntry {
    pub file_mode: FileMode,
    pub object_name: ObjectSha,
}

impl View for TreeEntry {
    type V = (FileMode, Seq<u8>);

    open spec fn view(&self) -> (FileMode, Seq<u8>) {
        (self.file_mode, self.object_name@)
    }
}

/// The ASCII word by which a tree names a mode.
pub open spec fn mode_word(m: FileMode) -> Seq<u8> {
    match m {
        FileMode::ExecRegularFile => seq![49u8, 48, 48, 55, 53, 53],
        FileMode::NExecRegularFile => seq![49u8, 48, 48, 54, 52, 52],
        FileMode::SymbolicLink => seq![49u8, 50, 48, 48, 48, 48],
        FileMode::Gitlink => seq![49u8, 54, 48, 48, 48, 48],
        FileMode::Directory => seq![52u8, 48, 48, 48, 48],
    }
}

/// The mode that the (already trimmed) word `w` names, if any.
pub open spec fn mode_of_word(w: Seq<char>) -> Option<FileMode> {
    if w == ascii_chars(mode_word(FileMode::ExecRegularFile)) {
        Some(FileMode::ExecRegularFile)
    } else if w == ascii_chars(mode_word(FileMode::NExecRegularFile)) {
        Some(FileMode::NExecRegularFile)
    } else if w == ascii_chars(mode_word(FileMode::SymbolicLink)) {
        Some(FileMode::SymbolicLink)
    } else if w == ascii_chars(mode_word(FileMode::Gitlink)) {
        Some(FileMode::Gitlink)
    } else if w == ascii_chars(mode_word(FileMode::Directory)) {
        Some(FileMode::Directory)
    } else {
        None
    }
}

/// The length of the hash that ends a tree entry.
pub open spec fn hash_len(is_sha1: bool) -> int {
    if is_sha1 {
        20
    } else {
        32
    }
}

/// The bytes of one tree entry: mode word, a space, the file name, a NUL, the raw hash.
pub open spec fn entry_bytes(entry: (FileMode, Seq<u8>), name: Seq<u8>) -> Seq<u8> {
    mode_word(entry.0) + seq![32u8] + name + seq![0u8] + entry.1
}

/// What reading one tree entry at `pos` gives: `Ok(None)` at the end of the data; otherwise the
/// file name, the entry and the position after it, or the reason the entry cannot be read.
pub open spec fn parse_entry(data: Seq<u8>, pos: int, is_sha1: bool) -> Result<
    Option<(Seq<u8>, (FileMode, Seq<u8>), int)>,
    ObjectError,
> {
    let mode_end = read_until_end(data, pos, 32);
    let mode_chunk = data.subrange(pos, mode_end);
    if mode_end <= pos {
        Ok(None)
    } else if !valid_utf8(mode_chunk) {
        Err(ObjectError::ModeWordNotUtf8)
    } else {
        match mode_of_word(trim(decode_utf8(mode_chunk))) {
            None => Err(ObjectError::InvalidModeWord),
            Some(mode) => {
                let name_end = read_until_end(data, mode_end, 0);
                let name = without_last(data.subrange(mode_end, name_end));
                let hash_end = name_end + hash_len(is_sha1);
                if hash_end > data.len() {
                    Err(ObjectError::TruncatedHash)
                } else {
                    Ok(Some((name, (mode, data.subrange(name_end, hash_end)), hash_end)))
                }
            },
        }
    }
}

/// The view of what `read_entry` returns.
pub open spec fn entry_result_view(r: Result<Option<(Vec<u8>, TreeEntry, usize)>, ObjectError>) -> Result<
    Option<(Seq<u8>, (FileMode, Seq<u8>), int)>,
    ObjectError,
> {
    match r {
        Ok(Some((name, entry, next))) => Ok(Some((name@, entry@, next as int))),
        Ok(None) => Ok(None),
        Err(e) => Err(e),
    }
}

/// The word by which a tree names mode `m`.
pub fn mode_word_bytes(m: FileMode) -> (res: Vec<u8>)
    ensures
        res@ == mode_word(m),
{
    let res = match m {
        FileMode::ExecRegularFile => vec![49u8, 48, 48, 55, 53, 53],
        FileMode::NExecRegularFile => vec![49u8, 48, 48, 54, 52, 52],
        FileMode::SymbolicLink => vec![49u8, 50, 48, 48, 48, 48],
        FileMode::Gitlink => vec![49u8, 54, 48, 48, 48, 48],
        FileMode::Directory => vec![52u8, 48, 48, 48, 48],
    };
    proof {
        assert(res@ =~= mode_word(m));
    }
    res
}

/// The mode that `c[lo..hi]` names, if any.
fn mode_of_chars(c: &[char], lo: usize, hi: usize) -> (res: Option<FileMode>)
    requires
        lo <= hi <= c@.len(),
    ensures
        res == mode_of_word(c@.subrange(lo as int, hi as int)),
{
    if chars_spell(c, lo, hi, mode_word_bytes(FileMode::ExecRegularFile).as_slice()) {
        Some(FileMode::ExecRegularFile)
    } else if chars_spell(c, lo, hi, mode_word_bytes(FileMode::NExecRegularFile).as_slice()) {
        Some(FileMode::NExecRegularFile)
    } else if chars_spell(c, lo, hi, mode_word_bytes(FileMode::SymbolicLink).as_slice()) {
        Some(FileMode::SymbolicLink)
    } else if chars_spell(c, lo, hi, mode_word_bytes(FileMode::Gitlink).as_slice()) {
        Some(FileMode::Gitlink)
    } else if chars_spell(c, lo, hi, mode_word_bytes(FileMode::Directory).as_slice()) {
        Some(FileMode::Directory)
    } else {
        None
    }
}

/// The mode named by the mode chunk `data[pos..end]` (the word and the space that ends it):
/// `Err` where the chunk is not UTF-8, `Ok(None)` where its trimmed text names no mode.
fn mode_of_chunk(data: &[u8], pos: usize, end: usize) -> (res: Result<Option<FileMode>, ObjectError>)
    requires
        pos <= end <= data@.len(),
    ensures
        match res {
            Ok(m) => valid_utf8(data@.subrange(pos as int, end as int)) && m == mode_of_word(
                trim(decode_utf8(data@.subrange(pos as int, end as int))),
            ),
            Err(e) => e == ObjectError::ModeWordNotUtf8 && !valid_utf8(
                data@.subrange(pos as int, end as int),
            ),
        },
{
    let chunk = vstd::slice::slice_to_vec(&data[pos..end]);
    proof {
        assert(chunk@ =~= data@.subrange(pos as int, end as int));
    }
    match string_from_utf8(chunk) {
        None => Err(ObjectError::ModeWordNotUtf8),
        Some(text) => {
            let c = chars_of(text.as_str());
            let lo = skip_whitespace(c.as_slice(), 0);
            let hi = skip_whitespace_back(c.as_slice(), lo, c.len());
            proof {
                assert(c@.subrange(0, c@.len() as int) =~= c@);
            }
            Ok(mode_of_chars(c.as_slice(), lo, hi))
        },
    }
}

/// Copies `data[from..from + 20]` into an array.
pub(crate) fn hash20(data: &[u8], from: usize) -> (res: [u8; 20])
    requires
        from + 20 <= data@.len(),
    ensures
        res@ == data@.subrange(from as int, from + 20),
{
    let mut h = [0u8; 20];
    let n = data.len();
    let mut i: usize = 0;
    while i < 20
        invariant
            i <= 20,
            n == data@.len(),
            from + 20 <= data@.len(),
            forall|j: int| 0 <= j < i ==> h@[j] == data@[from + j],
        decreases 20 - i,
    {
        h[i] = data[from + i];
        i = i + 1;
    }
    proof {
        assert(h@ =~= data@.subrange(from as int, from + 20));
    }
    h
}

/// Copies `data[from..from + 32]` into an array.
fn hash32(data: &[u8], from: usize) -> (res: [u8; 32])
    requires
        from + 32 <= data@.len(),
    ensures
        res@ == data@.subrange(from as int, from + 32),
{
    let mut h = [0u8; 32];
    let n = data.len();
    let mut i: usize = 0;
    while i < 32
        invariant
            i <= 32,
            n == data@.len(),
            from + 32 <= data@.len(),
            forall|j: int| 0 <= j < i ==> h@[j] == data@[from + j],
        decreases 32 - i,
    {
        h[i] = data[from + i];
        i = i + 1;
    }
    proof {
        assert(h@ =~= data@.subrange(from as int, from + 32));
    }
    h
}

impl TreeEntry {
    /// Reads one tree entry at `pos`; `Ok(None)` at the end of the data. The hash is 20 bytes
    /// long where `is_sha1`, else 32.
    pub fn read_entry(data: &[u8], pos: usize, is_sha1: bool) -> (res: Result<
        Option<(Vec<u8>, TreeEntry, usize)>,
        ObjectError,
    >)
        requires
            pos <= data@.len(),
            parse_entry(data@, pos as int, is_sha1) != Err::<
                Option<(Seq<u8>, (FileMode, Seq<u8>), int)>,
                ObjectError,
            >(ObjectError::ModeWordNotUtf8),
        ensures
            entry_result_view(res) == parse_entry(data@, pos as int, is_sha1),
    {
        Self::parse(data, pos, is_sha1)
    }

    /// `read_entry`, which reports a mode word that is not UTF-8 as an error.
    pub(crate) fn parse(data: &[u8], pos: usize, is_sha1: bool) -> (res: Result<
        Option<(Vec<u8>, TreeEntry, usize)>,
        ObjectError,
    >)
        requires
            pos <= data@.len(),
        ensures
            entry_result_view(res) == parse_entry(data@, pos as int, is_sha1),
            res matches Ok(Some((_, _, next))) ==> pos < next <= data@.len(),
    {
        let mode_end = read_until(data, pos, 32);
        if mode_end == pos {
            return Ok(None);
        }
        let file_mode = match mode_of_chunk(data, pos, mode_end) {
            Err(e) => {
                return Err(e);
            },
            Ok(None) => {
                return Err(ObjectError::InvalidModeWord);
            },
            Ok(Some(m)) => m,
        };
        let name_end = read_until(data, mode_end, 0);
        let name_stop = if name_end > mode_end {
            name_end - 1
        } else {
            name_end
        };
        let name = vstd::slice::slice_to_vec(&data[mode_end..name_stop]);
        proof {
            assert(name@ =~= without_last(data@.subrange(mode_end as int, name_end as int)));
        }
        if is_sha1 {
            if data.len() - name_end < 20 {
                return Err(ObjectError::TruncatedHash);
            }
            let h = hash20(data, name_end);
            Ok(Some((name, TreeEntry { file_mode, object_name: ObjectSha::SHA1(h) }, name_end + 20)))
        } else {
            if data.len() - name_end < 32 {
                return Err(ObjectError::TruncatedHash);
            }
            let h = hash32(data, name_end);
            Ok(
                Some(
                    (name, TreeEntry { file_mode, object_name: ObjectSha::SHA256(h) }, name_end + 32),
                ),
            )
        }
    }

    /// The bytes of this entry under `file_name`: mode word, space, name, NUL, raw hash.
    pub fn to_binary(&self, file_name: &[u8]) -> (res: Vec<u8>)
        ensures
            res@ == entry_bytes(self@, file_name@),
    {
        let mut result = mode_word_bytes(self.file_mode);
        result.push(32u8);
        append_bytes(&mut result, file_name);
        result.push(0u8);
        append_bytes(&mut result, self.object_name.as_bytes());
        proof {
            assert(result@ =~= entry_bytes(self@, file_name@));
        }
        result
    }
}

/// Each mode word names its own mode.
pub proof fn lemma_mode_of_word(m: FileMode)
    ensures
        mode_of_word(ascii_chars(mode_word(m))) == Some(m),
{
    let e = ascii_chars(mode_word(FileMode::ExecRegularFile));
    let n = ascii_chars(mode_word(FileMode::NExecRegularFile));
    let l = ascii_chars(mode_word(FileMode::SymbolicLink));
    let g = ascii_chars(mode_word(FileMode::Gitlink));
    let d = ascii_chars(mode_word(FileMode::Directory));
    assert(e[3] != n[3]);
    assert(e[1] != l[1]);
    assert(e[1] != g[1]);
    assert(n[1] != l[1]);
    assert(n[1] != g[1]);
    assert(l[1] != g[1]);
    assert(e.len() != d.len());
    assert(n.len() != d.len());
    assert(l.len() != d.len());
    assert(g.len() != d.len());
}

/// ASCII bytes are valid UTF-8 and decode to the characters with the same codes.
pub proof fn lemma_ascii_decode(b: Seq<u8>)
    requires
        forall|i: int| 0 <= i < b.len() ==> b[i] < 128,
    ensures
        valid_utf8(b),
        decode_utf8(b) == ascii_chars(b),
{
    let c = ascii_chars(b);
    assert forall|i: int| 0 <= i < c.len() implies '\0' <= #[trigger] c[i] <= '\u{7f}' by {
        assert(b[i] < 128);
    }
    vstd::utf8::is_ascii_chars_encode_utf8(c);
    assert(vstd::utf8::encode_utf8(c) =~= b);
    vstd::utf8::encode_utf8_valid_utf8(c);
    vstd::utf8::encode_utf8_decode_utf8(c);
}

/// An entry written by `to_binary` reads back, at the position where it was written, as the same
/// file name and entry, provided the name holds no NUL byte and the hash has the length that
/// `is_sha1` asks for.
pub proof fn lemma_entry_round_trip(
    data: Seq<u8>,
    pos: int,
    name: Seq<u8>,
    entry: (FileMode, Seq<u8>),
    is_sha1: bool,
)
    requires
        0 <= pos,
        pos + entry_bytes(entry, name).len() <= data.len(),
        data.subrange(pos, pos + entry_bytes(entry, name).len()) == entry_bytes(entry, name),
        !name.contains(0u8),
        entry.1.len() == hash_len(is_sha1),
    ensures
        parse_entry(data, pos, is_sha1) == Ok::<
            Option<(Seq<u8>, (FileMode, Seq<u8>), int)>,
            ObjectError,
        >(Some((name, entry, pos + entry_bytes(entry, name).len()))),
{
    let w = mode_word(entry.0);
    let bin = entry_bytes(entry, name);
    let wl = w.len() as int;
    assert forall|j: int| pos <= j < pos + wl implies data[j] != 32u8 by {
        assert(data[j] == data.subrange(pos, pos + bin.len())[j - pos]);
        assert(bin[j - pos] == w[j - pos]);
        assert(48 <= w[j - pos] <= 55);
    }
    assert(data[pos + wl] == bin[wl]);
    lemma_find_byte_at(data, pos, 32, pos + wl);
    let mode_end = pos + wl + 1;
    assert(read_until_end(data, pos, 32) == mode_end);
    let chunk = data.subrange(pos, mode_end);
    assert(chunk =~= w + seq![32u8]);
    lemma_ascii_decode(chunk);
    let c = ascii_chars(chunk);
    assert(trim(c) == ascii_chars(w)) by {
        assert(!crate::text::is_ws(c[0]));
        assert(crate::text::trim_start(c) == c);
        assert(crate::text::is_ws(c.last()));
        assert(c.drop_last() =~= ascii_chars(w));
        let d = c.drop_last();
        assert(!crate::text::is_ws(d.last()));
        assert(crate::text::trim_end(d) == d);
    }
    lemma_mode_of_word(entry.0);
    let nl = name.len() as int;
    assert forall|j: int| mode_end <= j < mode_end + nl implies data[j] != 0u8 by {
        assert(data[j] == bin[j - pos]);
        assert(bin[j - pos] == name[j - mode_end]);
        if data[j] == 0u8 {
            assert(name.contains(0u8));
        }
    }
    assert(data[mode_end + nl] == bin[mode_end + nl - pos]);
    lemma_find_byte_at(data, mode_end, 0, mode_end + nl);
    let name_end = mode_end + nl + 1;
    assert(without_last(data.subrange(mode_end, name_end)) =~= name) by {
        assert forall|j: int| 0 <= j < nl implies data.subrange(mode_end, name_end)[j] == name[j] by {
            assert(data[mode_end + j] == bin[mode_end + j - pos]);
        }
    }
    assert(data.subrange(name_end, name_end + hash_len(is_sha1)) =~= entry.1) by {
        assert forall|j: int| 0 <= j < hash_len(is_sha1) implies data[name_end + j] == entry.1[j] by {
            assert(data[name_end + j] == bin[name_end + j - pos]);
        }
    }
}

/// Appends `more` to `out`.
pub fn append_bytes(out: &mut Vec<u8>, more: &[u8])
    ensures
        final(out)@ == old(out)@ + more@,
{
    let mut i: usize = 0;
    while i < more.len()
        invariant
            i <= more@.len(),
            out@ == old(out)@ + more@.subrange(0, i as int),
        decreases more@.len() - i,
    {
        out.push(more[i]);
        i = i + 1;
        proof {
            assert(out@ =~= old(out)@ + more@.subrange(0, i as int));
        }
    }
    proof {
        assert(more@.subrange(0, more@.len() as int) =~= more@);
    }
}

} // verus!
