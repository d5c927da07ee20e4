use std::io::{Read, Write};

use flate2::bufread::ZlibDecoder;
use flate2::write::ZlibEncoder;
use flate2::Compression;
use sha1::{Digest, Sha1};
use vstd::prelude::*;
use vstd::string::StringSliceAdditionalSpecFns;
use vstd::utf8::{decode_utf8, valid_utf8};

use crate::decimal::{decimal, decimal_text, digits_value, lemma_decimal_text_digits, lemma_decimal_text_value};
use crate::hexcode::{ascii_chars, hex_bytes, hex_decode, hex_encode, hex_text};
use crate::object::{
    append_bytes, find_byte, hash20, lemma_find_byte_at, object_type_word, read_object_type, read_until_end,
    skip_git_object_size_nul, ObjectError, ObjectSha,
};
use crate::text::{chars_of, chars_spell};
use crate::tree::{
    entries_map, lemma_tree_round_trip, parse_entries, tree_object_bytes, writable_items, ItemView,
    TreeObject,
};

verus! {

/// The zlib stream that `flate2`'s `ZlibEncoder` writes for `data` at the default level.
pub uninterp spec fn zlib_stream(data: Seq<u8>) -> Seq<u8>;

/// What `flate2`'s `ZlibDecoder` reads out of `data`: the content of the zlib stream, or `None`
/// where `data` does not start with a valid stream.
pub uninterp spec fn zlib_content(data: Seq<u8>) -> Option<Seq<u8>>;

/// The SHA-1 digest that `sha1::Sha1` computes for `data`.
pub uninterp spec fn sha1_of(data: Seq<u8>) -> Seq<u8>;

/// `flate2::write::ZlibEncoder` at `Compression::default()`, writing into a `Vec`: compresses
/// `data` into a zlib stream. Claimed: it succeeds (writing into a `Vec` does not fail, and the
/// compressor reports no error for a fresh stream), the stream is `zlib_stream(data)`, and
/// decompressing it gives `data` back (zlib is lossless).
#[verifier::external_body]
fn zlib_compress(data: &[u8]) -> (res: Option<Vec<u8>>)
    ensures
        res is Some,
        res matches Some(v) ==> v@ == zlib_stream(data@) && zlib_content(v@) == Some(data@),
{
    let mut encoder = ZlibEncoder::new(Vec::new(), Compression::default());
    match encoder.write_all(data) {
        Ok(()) => encoder.finish().ok(),
        Err(_) => None,
    }
}

/// `flate2::bufread::ZlibDecoder` read to its end: the content of the zlib stream `data`.
/// Claimed: the result is `zlib_content(data)`.
#[verifier::external_body]
fn zlib_decompress(data: &[u8]) -> (res: Option<Vec<u8>>)
    ensures
        match res {
            Some(v) => zlib_content(data@) == Some(v@),
            None => zlib_content(data@) is None,
        },
{
    let mut decoder = ZlibDecoder::new(data);
    let mut out: Vec<u8> = Vec::new();
    match decoder.read_to_end(&mut out) {
        Ok(_) => Some(out),
        Err(_) => None,
    }
}

/// `sha1::Sha1::digest`: the 20-byte SHA-1 digest of `data`. Claimed: it is `sha1_of(data)`.
#[verifier::external_body]
fn sha1_digest(data: &[u8]) -> (res: [u8; 20])
    ensures
        res@ == sha1_of(data@),
{
    Sha1::digest(data).into()
}

/// `blob `: the type name of a blob and the space after it.
pub open spec fn blob_prefix() -> Seq<u8> {
    seq![98u8, 108, 111, 98, 32]
}

/// The whole blob object for `data`: `blob <len>\0` and then the data.
pub open spec fn blob_bytes(data: Seq<u8>) -> Seq<u8> {
    blob_prefix() + decimal_text(data.len()) + seq![0u8] + data
}

/// A blob object is `blob `, then ASCII digits that spell the length of the data in base ten
/// (with no leading zero but for an empty blob), then a NUL (the first in the object), then all
/// of the data, byte for byte: NUL bytes in the data included.
pub proof fn lemma_blob_bytes_layout(data: Seq<u8>)
    ensures
        blob_bytes(data).subrange(0, 5) == seq![98u8, 108, 111, 98, 32],
        5 < find_byte(blob_bytes(data), 0, 0) < blob_bytes(data).len(),
        forall|i: int|
            5 <= i < find_byte(blob_bytes(data), 0, 0) ==> 48 <= #[trigger] blob_bytes(data)[i] <= 57,
        digits_value(blob_bytes(data).subrange(5, find_byte(blob_bytes(data), 0, 0))) == data.len(),
        blob_bytes(data)[5] == 48 ==> data.len() == 0,
        blob_bytes(data).skip(find_byte(blob_bytes(data), 0, 0) + 1) == data,
        blob_bytes(data).len() == find_byte(blob_bytes(data), 0, 0) + 1 + data.len(),
{
    let b = blob_bytes(data);
    let d = decimal_text(data.len());
    lemma_decimal_text_digits(data.len());
    lemma_decimal_text_value(data.len());
    let k: int = 5 + d.len() as int;
    assert(b[k] == 0);
    assert forall|j: int| 0 <= j < k implies b[j] != 0 by {
        if j >= 5 {
            assert(b[j] == d[j - 5]);
        }
    }
    lemma_find_byte_at(b, 0, 0, k);
    assert(b.subrange(0, 5) =~= blob_prefix());
    assert(b.subrange(5, k) =~= d);
    assert forall|i: int| 5 <= i < k implies 48 <= #[trigger] b[i] <= 57 by {
        assert(b[i] == d[i - 5]);
    }
    assert(b[5] == d[0]);
    assert(b.skip(k + 1) =~= data);
}

/// The blob object for `data` and its name: the SHA-1 of the whole object.
pub fn hash_blob(data: &[u8]) -> (res: (ObjectSha, Vec<u8>))
    ensures
        res.1@ == blob_bytes(data@),
        res.0 matches ObjectSha::SHA1(h) && h@ == sha1_of(res.1@),
        res.1@.len() == 5 + decimal_text(data@.len()).len() + 1 + data@.len(),
        res.1@.skip(res.1@.len() - data@.len()) == data@,
{
    let mut content: Vec<u8> = vec![98u8, 108, 111, 98, 32];
    let size = decimal(data.len());
    append_bytes(&mut content, size.as_slice());
    content.push(0u8);
    append_bytes(&mut content, data);
    proof {
        assert(content@ =~= blob_bytes(data@));
    }
    proof {
        assert(content@.skip(content@.len() - data@.len()) =~= data@);
    }
    let hash = sha1_digest(content.as_slice());
    (ObjectSha::SHA1(hash), content)
}

/// The bytes stored in the file of a loose object with content `content`: its zlib stream, which
/// decompresses to `content`.
pub fn encode_loose_object(content: &[u8]) -> (res: Option<Vec<u8>>)
    ensures
        res is Some,
        res matches Some(v) ==> v@ == zlib_stream(content@) && zlib_content(v@) == Some(content@),
{
    zlib_compress(content)
}

/// The directory and file names under `objects/` of the loose object `hash`: the first two hex
/// digits of the name, and the rest.
pub fn loose_object_path(hash: &ObjectSha) -> (res: (String, String))
    ensures
        res.0@ == ascii_chars(hex_text(hash@)).subrange(0, 2),
        res.1@ == ascii_chars(hex_text(hash@)).subrange(2, 2 * hash@.len() as int),
{
    let hex = hex_encode(hash.as_bytes());
    proof {
        crate::hexcode::lemma_hex_text_ascii(hash@);
    }
    let s = hex.as_str();
    let n = s.unicode_len();
    let dir = String::from_str(s.substring_ascii(0, 2));
    let file = String::from_str(s.substring_ascii(2, n));
    (dir, file)
}

/// Why a loose tree cannot be read.
#[derive(Debug, Clone, Copy, PartialEq, Eq, Structural)]
pub enum LooseTreeError {
    /// The file holds no valid zlib stream, or its type name is not UTF-8.
    ReadType,
    /// The object is not a tree.
    NotTree,
    /// The object name given is not hex text.
    HexOid,
    /// The object name given is not 20 bytes long.
    OidLength,
    /// The entries cannot be read.
    ReadTree(ObjectError),
}

/// `tree` in characters.
pub open spec fn tree_word() -> Seq<char> {
    seq!['t', 'r', 'e', 'e']
}

/// What reading the loose tree whose file holds `stored` under the hex name `oid` gives: the
/// object name and the entries in the order they stand, or why it cannot be read.
pub open spec fn loose_tree_outcome(oid: Seq<u8>, stored: Seq<u8>) -> Result<(Seq<u8>, Seq<ItemView>), LooseTreeError> {
    match zlib_content(stored) {
        None => Err(LooseTreeError::ReadType),
        Some(data) => {
            let word = object_type_word(data, 0);
            if !valid_utf8(word) {
                Err(LooseTreeError::ReadType)
            } else if decode_utf8(word) != tree_word() {
                Err(LooseTreeError::NotTree)
            } else {
                let body = read_until_end(data, read_until_end(data, 0, 32), 0);
                match hex_bytes(oid) {
                    None => Err(LooseTreeError::HexOid),
                    Some(name) => {
                        if name.len() != 20 {
                            Err(LooseTreeError::OidLength)
                        } else {
                            match parse_entries(data, body, true) {
                                Ok(list) => Ok((name, list)),
                                Err(e) => Err(LooseTreeError::ReadTree(e)),
                            }
                        }
                    },
                }
            }
        },
    }
}

/// Reads the tree whose loose-object file holds `stored`, under the hex object name `hex_oid`:
/// decompresses it, checks that its type is `tree`, skips the size and reads the entries (with
/// SHA-1 hashes).
pub fn tree_from_loose_object(hex_oid: &str, stored: &[u8]) -> (res: Result<TreeObject, LooseTreeError>)
    ensures
        match (res, loose_tree_outcome(hex_oid.spec_bytes(), stored@)) {
            (Ok(t), Ok((name, list))) => t.name()@ == name && t.name() is SHA1 && t.contents()@
                == entries_map(list),
            (Err(e), Err(f)) => e == f,
            _ => false,
        },
{
    let data = match zlib_decompress(stored) {
        Some(d) => d,
        None => {
            return Err(LooseTreeError::ReadType);
        },
    };
    let (kind, after_type) = match read_object_type(data.as_slice(), 0) {
        Ok(r) => r,
        Err(_) => {
            return Err(LooseTreeError::ReadType);
        },
    };
    let kind_chars = chars_of(kind.as_str());
    let tree = vec![116u8, 114, 101, 101];
    if !chars_spell(kind_chars.as_slice(), 0, kind_chars.len(), tree.as_slice()) {
        proof {
            assert(kind_chars@.subrange(0, kind_chars@.len() as int) =~= kind_chars@);
            assert(ascii_chars(tree@) =~= tree_word());
        }
        return Err(LooseTreeError::NotTree);
    }
    proof {
        assert(kind_chars@.subrange(0, kind_chars@.len() as int) =~= kind_chars@);
        assert(ascii_chars(tree@) =~= tree_word());
    }
    let body = skip_git_object_size_nul(data.as_slice(), after_type);
    let oid = match hex_decode(hex_oid.as_bytes()) {
        Some(v) => v,
        None => {
            return Err(LooseTreeError::HexOid);
        },
    };
    if oid.len() != 20 {
        return Err(LooseTreeError::OidLength);
    }
    let name = ObjectSha::SHA1(hash20(oid.as_slice(), 0));
    proof {
        assert(oid@.subrange(0, 20) =~= oid@);
    }
    match TreeObject::parse(name, data.as_slice(), body, true) {
        Ok(t) => Ok(t),
        Err(e) => Err(LooseTreeError::ReadTree(e)),
    }
}

/// Why the type of a loose object cannot be read.
#[derive(Debug, Clone, Copy, PartialEq, Eq, Structural)]
pub enum LooseKindError {
    /// The file holds no valid zlib stream.
    NotZlib,
    /// The type name is not UTF-8.
    TypeNotUtf8,
}

/// The type name (`blob`, `tree`, `commit`, ...) of the loose object whose file holds `stored`.
pub fn loose_object_kind(stored: &[u8]) -> (res: Result<String, LooseKindError>)
    ensures
        match res {
            Ok(kind) => zlib_content(stored@) is Some && valid_utf8(
                object_type_word(zlib_content(stored@)->Some_0, 0),
            ) && kind@ == decode_utf8(object_type_word(zlib_content(stored@)->Some_0, 0)),
            Err(LooseKindError::NotZlib) => zlib_content(stored@) is None,
            Err(LooseKindError::TypeNotUtf8) => zlib_content(stored@) is Some && !valid_utf8(
                object_type_word(zlib_content(stored@)->Some_0, 0),
            ),
        },
{
    let data = match zlib_decompress(stored) {
        Some(d) => d,
        None => {
            return Err(LooseKindError::NotZlib);
        },
    };
    match read_object_type(data.as_slice(), 0) {
        Ok((kind, _)) => Ok(kind),
        Err(_) => Err(LooseKindError::TypeNotUtf8),
    }
}

/// A tree stored as a loose object reads back as the same entries under the same name: where the
/// file holds a zlib stream of the tree object for `s` (as `encode_loose_object` of what
/// `entries_to_binary` wrote gives) and `oid` is hex text of a 20-byte name, every name is free of
/// NUL bytes and every hash is 20 bytes long.
pub proof fn lemma_loose_tree_round_trip(oid: Seq<u8>, name: Seq<u8>, stored: Seq<u8>, s: Seq<ItemView>)
    requires
        zlib_content(stored) == Some(tree_object_bytes(s)),
        hex_bytes(oid) == Some(name),
        name.len() == 20,
        writable_items(s, true),
    ensures
        loose_tree_outcome(oid, stored) == Ok::<(Seq<u8>, Seq<ItemView>), LooseTreeError>((name, s)),
{
    lemma_tree_round_trip(s, true);
    let word = object_type_word(tree_object_bytes(s), 0);
    crate::object::lemma_ascii_decode(word);
    assert(ascii_chars(word) =~= tree_word());
}

/// `blob` in characters.
pub open spec fn blob_word() -> Seq<char> {
    seq!['b', 'l', 'o', 'b']
}

/// A blob stored as a loose object reads back with the type `blob`: where the file holds a zlib
/// stream of the blob object for `data` (as `encode_loose_object` of what `hash_blob` gave).
pub proof fn lemma_loose_blob_kind(stored: Seq<u8>, data: Seq<u8>)
    requires
        zlib_content(stored) == Some(blob_bytes(data)),
    ensures
        valid_utf8(object_type_word(blob_bytes(data), 0)),
        decode_utf8(object_type_word(blob_bytes(data), 0)) == blob_word(),
{
    let b = blob_bytes(data);
    assert(b[4] == 32u8);
    crate::object::lemma_find_byte_at(b, 0, 32u8, 4);
    let word = object_type_word(b, 0);
    assert(word =~= seq![98u8, 108, 111, 98]);
    crate::object::lemma_ascii_decode(word);
    assert(ascii_chars(word) =~= blob_word());
}

} // verus!
