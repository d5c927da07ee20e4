use vstd::prelude::*;
use vstd::utf8::*;

use crate::hexcode::ascii_chars;

verus! {

/// The characters that `char::is_whitespace` accepts: the Unicode `White_Space` property.
pub open spec fn is_ws(c: char) -> bool {
    let u = c as u32;
    ||| 0x09 <= u <= 0x0d
    ||| u == 0x20
    ||| u == 0x85
    ||| u == 0xa0
    ||| u == 0x1680
    ||| 0x2000 <= u <= 0x200a
    ||| u == 0x2028
    ||| u == 0x2029
    ||| u == 0x202f
    ||| u == 0x205f
    ||| u == 0x3000
}

/// `s` with its leading whitespace removed (what `str::trim_start` gives).
pub open spec fn trim_start(s: Seq<char>) -> Seq<char>
    decreases s.len(),
{
    if s.len() > 0 && is_ws(s[0]) {
        trim_start(s.drop_first())
    } else {
        s
    }
}

/// `s` with its trailing whitespace removed (what `str::trim_end` gives).
pub open spec fn trim_end(s: Seq<char>) -> Seq<char>
    decreases s.len(),
{
    if s.len() > 0 && is_ws(s.last()) {
        trim_end(s.drop_last())
    } else {
        s
    }
}

/// `s` with whitespace removed at both ends (what `str::trim` gives).
pub open spec fn trim(s: Seq<char>) -> Seq<char> {
    trim_end(trim_start(s))
}

/// Whether `c` is whitespace in the sense of `is_ws`.
pub fn is_whitespace(c: char) -> (res: bool)
    ensures
        res == is_ws(c),
{
    let u = c as u32;
    (0x09 <= u && u <= 0x0d) || u == 0x20 || u == 0x85 || u == 0xa0 || u == 0x1680 || (0x2000
        <= u && u <= 0x200a) || u == 0x2028 || u == 0x2029 || u == 0x202f || u == 0x205f || u
        == 0x3000
}


/// Removing leading whitespace from `s` is the same as removing it after dropping a
/// whitespace-only prefix.
pub proof fn lemma_trim_start_skip(s: Seq<char>, i: int)
    requires
        0 <= i <= s.len(),
        forall|j: int| 0 <= j < i ==> is_ws(#[trigger] s[j]),
    ensures
        trim_start(s) == trim_start(s.subrange(i, s.len() as int)),
    decreases i,
{
    if i > 0 {
        assert(is_ws(s[0]));
        assert(s.drop_first().subrange(i - 1, s.drop_first().len() as int) =~= s.subrange(
            i,
            s.len() as int,
        ));
        lemma_trim_start_skip(s.drop_first(), i - 1);
    } else {
        assert(s.subrange(0, s.len() as int) =~= s);
    }
}

/// Removing trailing whitespace from `s` is the same as removing it after dropping a
/// whitespace-only suffix.
pub proof fn lemma_trim_end_skip(s: Seq<char>, j: int)
    requires
        0 <= j <= s.len(),
        forall|k: int| j <= k < s.len() ==> is_ws(#[trigger] s[k]),
    ensures
        trim_end(s) == trim_end(s.subrange(0, j)),
    decreases s.len() - j,
{
    if j < s.len() {
        assert(is_ws(s[s.len() - 1]));
        assert(s.drop_last().subrange(0, j) =~= s.subrange(0, j));
        lemma_trim_end_skip(s.drop_last(), j);
    } else {
        assert(s.subrange(0, j) =~= s);
    }
}

/// The characters of `s`, one per element.
pub fn chars_of(s: &str) -> (res: Vec<char>)
    ensures
        res@ == s@,
{
    let n = s.unicode_len();
    let mut res: Vec<char> = Vec::new();
    let mut i: usize = 0;
    while i < n
        invariant
            n == s@.len(),
            i <= n,
            res@ == s@.subrange(0, i as int),
        decreases n - i,
    {
        res.push(s.get_char(i));
        i = i + 1;
    }
    res
}

/// Whether `c[lo..hi]` spells the ASCII `word`.
pub fn chars_spell(c: &[char], lo: usize, hi: usize, word: &[u8]) -> (res: bool)
    requires
        lo <= hi <= c@.len(),
    ensures
        res == (c@.subrange(lo as int, hi as int) == ascii_chars(word@)),
{
    if hi - lo != word.len() {
        proof {
            assert(c@.subrange(lo as int, hi as int).len() != ascii_chars(word@).len());
        }
        return false;
    }
    let mut i: usize = 0;
    while i < word.len()
        invariant
            i <= word@.len(),
            hi - lo == word@.len(),
            lo <= hi <= c@.len(),
            forall|j: int| 0 <= j < i ==> c@[lo + j] == (word@[j] as char),
        decreases word@.len() - i,
    {
        if c[lo + i] != (word[i] as char) {
            proof {
                assert(c@.subrange(lo as int, hi as int)[i as int] != ascii_chars(word@)[i as int]);
            }
            return false;
        }
        i = i + 1;
    }
    proof {
        assert(c@.subrange(lo as int, hi as int) =~= ascii_chars(word@));
    }
    true
}

/// The index where the text of `s[lo..]` starts once its leading whitespace is removed.
pub fn skip_whitespace(s: &[char], lo: usize) -> (i: usize)
    requires
        lo <= s@.len(),
    ensures
        lo <= i <= s@.len(),
        trim_start(s@.subrange(lo as int, s@.len() as int)) == s@.subrange(i as int, s@.len() as int),
{
    let n = s.len();
    let mut i = lo;
    loop
        invariant
            lo <= i <= n,
            n == s@.len(),
            forall|j: int| lo <= j < i ==> is_ws(#[trigger] s@[j]),
        ensures
            lo <= i <= n,
            forall|j: int| lo <= j < i ==> is_ws(#[trigger] s@[j]),
            i == n || !is_ws(s@[i as int]),
        decreases n - i,
    {
        if i == n || !is_whitespace(s[i]) {
            break;
        }
        i = i + 1;
    }
    proof {
        let t = s@.subrange(lo as int, n as int);
        assert forall|j: int| 0 <= j < i - lo implies is_ws(#[trigger] t[j]) by {
            assert(t[j] == s@[lo + j]);
        }
        lemma_trim_start_skip(t, i - lo);
        assert(t.subrange(i - lo, t.len() as int) =~= s@.subrange(i as int, n as int));
        let r = s@.subrange(i as int, n as int);
        if r.len() > 0 {
            assert(r[0] == s@[i as int]);
        }
    }
    i
}

/// The index where the text of `s[lo..hi]` ends once its trailing whitespace is removed.
pub fn skip_whitespace_back(s: &[char], lo: usize, hi: usize) -> (j: usize)
    requires
        lo <= hi <= s@.len(),
    ensures
        lo <= j <= hi,
        trim_end(s@.subrange(lo as int, hi as int)) == s@.subrange(lo as int, j as int),
{
    let mut j = hi;
    loop
        invariant
            lo <= j <= hi,
            hi <= s@.len(),
            forall|k: int| j <= k < hi ==> is_ws(#[trigger] s@[k]),
        ensures
            lo <= j <= hi,
            forall|k: int| j <= k < hi ==> is_ws(#[trigger] s@[k]),
            j == lo || !is_ws(s@[j - 1]),
        decreases j - lo,
    {
        if j == lo || !is_whitespace(s[j - 1]) {
            break;
        }
        j = j - 1;
    }
    proof {
        let t = s@.subrange(lo as int, hi as int);
        assert forall|k: int| j - lo <= k < t.len() implies is_ws(#[trigger] t[k]) by {
            assert(t[k] == s@[lo + k]);
        }
        lemma_trim_end_skip(t, j - lo);
        assert(t.subrange(0, j - lo) =~= s@.subrange(lo as int, j as int));
        let r = s@.subrange(lo as int, j as int);
        if r.len() > 0 {
            assert(r.last() == s@[j - 1]);
        }
    }
    j
}

/// Whether `a` and `b` hold the same characters.
pub fn same_chars(a: &[char], b: &[char]) -> (res: bool)
    ensures
        res == (a@ == b@),
{
    if a.len() != b.len() {
        return false;
    }
    let mut i: usize = 0;
    while i < a.len()
        invariant
            i <= a@.len(),
            a@.len() == b@.len(),
            forall|j: int| 0 <= j < i ==> a@[j] == b@[j],
        decreases a@.len() - i,
    {
        if a[i] != b[i] {
            return false;
        }
        i = i + 1;
    }
    proof {
        assert(a@ =~= b@);
    }
    true
}



/// `String::from_utf8`: the text that `bytes` encode in UTF-8; it fails exactly where the bytes
/// are not valid UTF-8.
#[verifier::external_body]
pub(crate) fn string_from_utf8(bytes: Vec<u8>) -> (res: Option<String>)
    ensures
        match res {
            Some(s) => valid_utf8(bytes@) && s@ == decode_utf8(bytes@),
            None => !valid_utf8(bytes@),
        },
{
    String::from_utf8(bytes).ok()
}

} // verus!
