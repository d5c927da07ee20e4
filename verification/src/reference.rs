use vstd::prelude::*;
use vstd::string::StringSliceAdditionalSpecFns;
use vstd::utf8::encode_utf8;

use crate::hexcode::{ascii_chars, hex_bytes, hex_decode, hex_encode, hex_text, hex_value};
use crate::object::{hash20, ObjectSha};
use crate::text::{chars_of, chars_spell, is_ws, skip_whitespace, skip_whitespace_back, trim};

verus! {

/// A ref that names a commit directly.
#[derive(Debug, Clone, PartialEq, Eq)]
pub struct Ref {
    pub commit_id: ObjectSha,
}

/// Why a direct ref cannot be read or written.
#[derive(Debug, Clone)]
pub enum RefError {
    /// The file holds a symbolic ref (`ref: ...`).
    SymbolicRef,
    /// The file holds more than one line.
    NotSingleLine,
    /// The trimmed text is not 40 bytes long; the length in bytes.
    BadLength(usize),
    /// The trimmed text holds a character that is not a hex digit.
    NotHex,
    /// The ref names an object whose type is not `commit`; the type found.
    NotCommit(String),
    /// Only SHA-1 names can be written.
    UnsupportedOid,
}

/// `ref:`, which starts a symbolic ref.
pub open spec fn ref_marker() -> Seq<char> {
    seq!['r', 'e', 'f', ':']
}

/// Whether `c` is an ASCII hex digit (`char::is_ascii_hexdigit`).
pub open spec fn is_hex_char(c: char) -> bool {
    ('0' <= c <= '9') || ('a' <= c <= 'f') || ('A' <= c <= 'F')
}

/// What reading a direct ref from the text `content` of its file gives: the object name, or the
/// first check that fails, in the order: symbolic ref, more than one line, length other than 40
/// bytes, a character that is not a hex digit.
pub open spec fn direct_ref_outcome(content: Seq<char>) -> Result<Seq<u8>, RefError> {
    let line = trim(content);
    if line.len() >= 4 && line.subrange(0, 4) == ref_marker() {
        Err(RefError::SymbolicRef)
    } else if line.contains('\n') {
        Err(RefError::NotSingleLine)
    } else if encode_utf8(line).len() != 40 {
        Err(RefError::BadLength(encode_utf8(line).len() as usize))
    } else if !(forall|i: int| 0 <= i < line.len() ==> is_hex_char(#[trigger] line[i])) {
        Err(RefError::NotHex)
    } else {
        Ok(hex_bytes(encode_utf8(line))->Some_0)
    }
}

/// The text that a direct ref to `id` is written as: its lower-case hex name and a newline.
pub open spec fn direct_ref_text(id: Seq<u8>) -> Seq<char> {
    ascii_chars(hex_text(id)).push('\n')
}

/// Whether `c` is an ASCII hex digit.
fn is_hex_digit(c: char) -> (res: bool)
    ensures
        res == is_hex_char(c),
{
    ('0' <= c && c <= '9') || ('a' <= c && c <= 'f') || ('A' <= c && c <= 'F')
}

/// Reads a direct ref from the text `content` of its file: the trimmed text must be the 40 hex
/// digits of a SHA-1 name.
pub fn parse_ref_content(content: &str) -> (res: Result<ObjectSha, RefError>)
    ensures
        match (res, direct_ref_outcome(content@)) {
            (Ok(id), Ok(bytes)) => id is SHA1 && id@ == bytes,
            (Err(e), Err(f)) => e == f,
            _ => false,
        },
{
    let c = chars_of(content);
    let n = c.len();
    let lo = skip_whitespace(c.as_slice(), 0);
    let hi = skip_whitespace_back(c.as_slice(), lo, n);
    let ghost line = c@.subrange(lo as int, hi as int);
    proof {
        assert(c@.subrange(0, n as int) =~= c@);
        assert(line == trim(content@));
    }
    let marker = vec![114u8, 101, 102, 58];
    if hi - lo >= 4 && chars_spell(c.as_slice(), lo, lo + 4, marker.as_slice()) {
        proof {
            assert(ascii_chars(marker@) =~= ref_marker());
            assert(line.subrange(0, 4) =~= c@.subrange(lo as int, lo + 4));
        }
        return Err(RefError::SymbolicRef);
    }
    proof {
        assert(ascii_chars(marker@) =~= ref_marker());
        if hi - lo >= 4 {
            assert(line.subrange(0, 4) =~= c@.subrange(lo as int, lo + 4));
        }
    }
    let mut i = lo;
    while i < hi
        invariant
            lo <= i <= hi,
            hi <= c@.len(),
            line == c@.subrange(lo as int, hi as int),
            line == trim(content@),
            !(line.len() >= 4 && line.subrange(0, 4) == ref_marker()),
            forall|j: int| 0 <= j < i - lo ==> line[j] != '\n',
        decreases hi - i,
    {
        if c[i] == '\n' {
            proof {
                assert(line[i - lo] == '\n');
                assert(line.contains('\n'));
            }
            return Err(RefError::NotSingleLine);
        }
        i = i + 1;
    }
    proof {
        assert(!line.contains('\n')) by {
            if line.contains('\n') {
                let j = choose|j: int| 0 <= j < line.len() && line[j] == '\n';
                assert(line[j] != '\n');
            }
        }
    }
    let text = content.substring_char(lo, hi);
    let bytes = text.as_bytes();
    let len = bytes.len();
    proof {
        assert(text@ == line);
    }
    if len != 40 {
        return Err(RefError::BadLength(len));
    }
    let mut k = lo;
    while k < hi
        invariant
            lo <= k <= hi,
            hi <= c@.len(),
            line == c@.subrange(lo as int, hi as int),
            line == trim(content@),
            !(line.len() >= 4 && line.subrange(0, 4) == ref_marker()),
            !line.contains('\n'),
            encode_utf8(line).len() == 40,
            forall|j: int| 0 <= j < k - lo ==> is_hex_char(#[trigger] line[j]),
        decreases hi - k,
    {
        if !is_hex_digit(c[k]) {
            proof {
                assert(!is_hex_char(line[k - lo]));
            }
            return Err(RefError::NotHex);
        }
        k = k + 1;
    }
    proof {
        assert(vstd::utf8::is_ascii_chars(line)) by {
            assert forall|j: int| 0 <= j < line.len() implies '\0' <= #[trigger] line[j] <= '\u{7f}' by {
                assert(is_hex_char(line[j]));
            }
        }
        vstd::utf8::is_ascii_chars_encode_utf8(line);
        let b = encode_utf8(line);
        assert forall|j: int| 0 <= j < b.len() implies (#[trigger] hex_value(b[j])) is Some by {
            assert(is_hex_char(line[j]));
            assert(b[j] == line[j] as u8);
        }
    }
    match hex_decode(bytes) {
        Some(v) => {
            proof {
                assert(v@.subrange(0, 20) =~= v@);
            }
            Ok(ObjectSha::SHA1(hash20(v.as_slice(), 0)))
        },
        None => Err(RefError::NotHex),
    }
}

/// The text to write into the file of a direct ref to `commit_id`: its hex name and a newline.
/// Only SHA-1 names can be written.
pub fn ref_file_content(commit_id: &ObjectSha) -> (res: Result<String, RefError>)
    ensures
        match res {
            Ok(text) => commit_id is SHA1 && text@ == direct_ref_text(commit_id@),
            Err(e) => commit_id is SHA256 && e == RefError::UnsupportedOid,
        },
{
    match commit_id {
        ObjectSha::SHA1(_) => {
            let mut text = hex_encode(commit_id.as_bytes());
            text.append("\n");
            proof {
                reveal_strlit("\n");
            }
            Ok(text)
        },
        ObjectSha::SHA256(_) => Err(RefError::UnsupportedOid),
    }
}

/// `commit` in characters.
pub open spec fn commit_word() -> Seq<char> {
    seq!['c', 'o', 'm', 'm', 'i', 't']
}

/// Checks that the object a ref names is a commit: `kind` is its type name.
pub fn check_commit_kind(kind: &str) -> (res: Result<(), RefError>)
    ensures
        match res {
            Ok(()) => kind@ == commit_word(),
            Err(e) => kind@ != commit_word() && (e matches RefError::NotCommit(k) && k@ == kind@),
        },
{
    let c = chars_of(kind);
    let word = vec![99u8, 111, 109, 109, 105, 116];
    proof {
        assert(ascii_chars(word@) =~= commit_word());
        assert(c@.subrange(0, c@.len() as int) =~= c@);
    }
    if chars_spell(c.as_slice(), 0, c.len(), word.as_slice()) {
        Ok(())
    } else {
        Err(RefError::NotCommit(kind.to_owned()))
    }
}

/// A direct ref written by `ref_file_content` reads back as the name it was written for.
pub proof fn lemma_direct_ref_round_trip(id: Seq<u8>)
    requires
        id.len() == 20,
    ensures
        direct_ref_outcome(direct_ref_text(id)) == Ok::<Seq<u8>, RefError>(id),
{
    let h = hex_text(id);
    let hc = ascii_chars(h);
    let t = direct_ref_text(id);
    crate::hexcode::lemma_hex_text_ascii(id);
    crate::hexcode::lemma_hex_round_trip(id);
    assert forall|j: int| 0 <= j < hc.len() implies is_hex_char(#[trigger] hc[j]) && !is_ws(hc[j]) by {
        crate::hexcode::lemma_hex_digit_value(id[j / 2] as int / 16);
        crate::hexcode::lemma_hex_digit_value(id[j / 2] as int % 16);
    }
    assert(!is_ws(t[0])) by {
        assert(t[0] == hc[0]);
    }
    assert(crate::text::trim_start(t) == t);
    assert(t.drop_last() =~= hc);
    assert(is_ws(t.last()));
    assert(!is_ws(hc.last())) by {
        assert(hc.last() == hc[hc.len() - 1]);
    }
    assert(crate::text::trim_end(hc) == hc);
    assert(trim(t) == hc);
    assert(!(hc.subrange(0, 4) == ref_marker())) by {
        assert(hc.subrange(0, 4)[0] == hc[0]);
        assert(is_hex_char(hc[0]));
    }
    assert(!hc.contains('\n')) by {
        if hc.contains('\n') {
            let j = choose|j: int| 0 <= j < hc.len() && hc[j] == '\n';
            assert(is_hex_char(hc[j]));
        }
    }
}

} // verus!
