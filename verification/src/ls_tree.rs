use vstd::prelude::*;

use crate::object::FileMode;
use crate::paths::{find_char, find_char_in, lemma_find_char};
use crate::text::{chars_of, is_whitespace, is_ws, same_chars};

verus! {

/// Where the run of non-whitespace characters of `s` that starts at `i` ends.
pub open spec fn word_end(s: Seq<char>, i: int) -> int
    decreases s.len() - i,
{
    if i < 0 || i >= s.len() || is_ws(s[i]) {
        i
    } else {
        word_end(s, i + 1)
    }
}

/// The whitespace-separated words of `s` from `i` on (what `str::split_whitespace` yields).
pub open spec fn words_from(s: Seq<char>, i: int) -> Seq<Seq<char>>
    decreases s.len() - i,
{
    if i < 0 || i >= s.len() {
        Seq::empty()
    } else if is_ws(s[i]) {
        words_from(s, i + 1)
    } else if i < word_end(s, i) <= s.len() {
        seq![s.subrange(i, word_end(s, i))] + words_from(s, word_end(s, i))
    } else {
        Seq::empty()
    }
}

/// The fields of one line of `git ls-tree` output, `<mode> <type> <sha>\t<name>`: the three
/// words before the first tab and the text after it; `None` where the line has no tab or not
/// exactly three words before it.
pub open spec fn ls_tree_fields(line: Seq<char>) -> Option<(Seq<char>, Seq<char>, Seq<char>, Seq<char>)> {
    let t = find_char(line, 0, '\t');
    if t >= line.len() {
        None
    } else {
        let w = words_from(line.subrange(0, t), 0);
        if w.len() == 3 {
            Some((w[0], w[1], w[2], line.subrange(t + 1, line.len() as int)))
        } else {
            None
        }
    }
}

/// The views of the four strings of a parsed line.
pub open spec fn fields_view(f: (String, String, String, String)) -> (Seq<char>, Seq<char>, Seq<char>, Seq<char>) {
    (f.0@, f.1@, f.2@, f.3@)
}

/// A word found in `s` stands between non-whitespace bounds.
proof fn lemma_word_end(s: Seq<char>, i: int)
    requires
        0 <= i <= s.len(),
    ensures
        i <= word_end(s, i) <= s.len(),
        forall|k: int| i <= k < word_end(s, i) ==> !is_ws(s[k]),
        word_end(s, i) < s.len() ==> is_ws(s[word_end(s, i)]),
    decreases s.len() - i,
{
    if i < s.len() && !is_ws(s[i]) {
        lemma_word_end(s, i + 1);
    }
}

/// The (start, end) ranges of the words of `c[0..hi]`.
fn word_ranges(c: &[char], hi: usize) -> (res: Vec<(usize, usize)>)
    requires
        hi <= c@.len(),
    ensures
        res@.len() == words_from(c@.subrange(0, hi as int), 0).len(),
        forall|k: int| 0 <= k < res@.len() ==> {
            &&& (#[trigger] res@[k]).0 <= res@[k].1 <= hi
            &&& c@.subrange(res@[k].0 as int, res@[k].1 as int) == words_from(c@.subrange(0, hi as int), 0)[k]
        },
{
    let ghost s = c@.subrange(0, hi as int);
    let mut res: Vec<(usize, usize)> = Vec::new();
    let ghost mut got: Seq<Seq<char>> = Seq::empty();
    let mut i: usize = 0;
    while i < hi
        invariant
            i <= hi,
            hi <= c@.len(),
            s == c@.subrange(0, hi as int),
            got + words_from(s, i as int) == words_from(s, 0),
            res@.len() == got.len(),
            forall|k: int| 0 <= k < res@.len() ==> {
                &&& (#[trigger] res@[k]).0 <= res@[k].1 <= hi
                &&& c@.subrange(res@[k].0 as int, res@[k].1 as int) == got[k]
            },
        decreases hi - i,
    {
        if is_whitespace(c[i]) {
            proof {
                assert(s[i as int] == c@[i as int]);
            }
            i = i + 1;
        } else {
            let start = i;
            let mut e = i;
            while e < hi && !is_whitespace(c[e])
                invariant
                    start <= e <= hi,
                    hi <= c@.len(),
                    s == c@.subrange(0, hi as int),
                    word_end(s, start as int) == word_end(s, e as int),
                decreases hi - e,
            {
                proof {
                    assert(s[e as int] == c@[e as int]);
                }
                e = e + 1;
            }
            proof {
                if e < hi {
                    assert(s[e as int] == c@[e as int]);
                }
                assert(s[start as int] == c@[start as int]);
                lemma_word_end(s, start as int);
                let w = s.subrange(start as int, e as int);
                assert(w =~= c@.subrange(start as int, e as int));
                assert(got.push(w) + words_from(s, e as int) =~= got + (seq![w] + words_from(s, e as int)));
                got = got.push(w);
            }
            res.push((start, e));
            i = e;
        }
    }
    proof {
        assert(got + Seq::<Seq<char>>::empty() =~= got);
    }
    res
}

/// Splits one line of `git ls-tree` output, `<mode> <type> <sha>\t<name>`, into its mode, type,
/// sha and name.
pub fn parse_ls_tree_line(line: &str) -> (res: (String, String, String, String))
    requires
        ls_tree_fields(line@) is Some,
    ensures
        fields_view(res) == ls_tree_fields(line@)->Some_0,
{
    let c = chars_of(line);
    let n = c.len();
    let t = find_char_in(c.as_slice(), 0, '\t');
    proof {
        assert(t < c@.len());
    }
    let ranges = word_ranges(c.as_slice(), t);
    proof {
        assert(c@.subrange(0, t as int) == line@.subrange(0, t as int));
        assert(ranges@[0] == ranges@[0]);
        assert(ranges@[1] == ranges@[1]);
        assert(ranges@[2] == ranges@[2]);
    }
    let (a0, b0) = ranges[0];
    let (a1, b1) = ranges[1];
    let (a2, b2) = ranges[2];
    let mode = String::from_str(line.substring_char(a0, b0));
    let typ = String::from_str(line.substring_char(a1, b1));
    let sha = String::from_str(line.substring_char(a2, b2));
    let name = String::from_str(line.substring_char(t + 1, n));
    (mode, typ, sha, name)
}

/// The non-empty pieces of `s` from `i` on between NUL characters (what `split_terminator('\0')`
/// yields once its empty pieces are left out).
pub open spec fn nul_chunks(s: Seq<char>, i: int) -> Seq<Seq<char>>
    decreases s.len() - i,
{
    if 0 <= i < s.len() {
        let e = find_char(s, i, '\0');
        let next = if e < s.len() {
            e + 1
        } else {
            s.len() as int
        };
        if i < next <= s.len() {
            if e == i {
                nul_chunks(s, next)
            } else {
                seq![s.subrange(i, e)] + nul_chunks(s, next)
            }
        } else {
            Seq::empty()
        }
    } else {
        Seq::empty()
    }
}

/// The entries listed by `git ls-tree -z` output `out`: the fields of each non-empty NUL-ended
/// line, in order.
pub fn ls_tree_entries(out: &str) -> (res: Vec<(String, String, String, String)>)
    requires
        forall|k: int| 0 <= k < nul_chunks(out@, 0).len() ==> (#[trigger] ls_tree_fields(nul_chunks(out@, 0)[k])) is Some,
    ensures
        res@.len() == nul_chunks(out@, 0).len(),
        forall|k: int| 0 <= k < res@.len() ==> fields_view(#[trigger] res@[k]) == ls_tree_fields(nul_chunks(out@, 0)[k])->Some_0,
{
    let c = chars_of(out);
    let n = c.len();
    let ghost all = nul_chunks(out@, 0);
    let ghost mut got: Seq<Seq<char>> = Seq::empty();
    let mut res: Vec<(String, String, String, String)> = Vec::new();
    let mut i: usize = 0;
    while i < n
        invariant
            i <= n,
            n == c@.len(),
            c@ == out@,
            all == nul_chunks(out@, 0),
            got + nul_chunks(out@, i as int) == all,
            res@.len() == got.len(),
            forall|k: int| 0 <= k < all.len() ==> (#[trigger] ls_tree_fields(all[k])) is Some,
            forall|k: int| 0 <= k < res@.len() ==> fields_view(#[trigger] res@[k]) == ls_tree_fields(got[k])->Some_0,
        decreases n - i,
    {
        let e = find_char_in(c.as_slice(), i, '\0');
        proof {
            lemma_find_char(out@, i as int, '\0');
        }
        let next = if e < n {
            e + 1
        } else {
            n
        };
        if e > i {
            let chunk = out.substring_char(i, e);
            proof {
                let w = out@.subrange(i as int, e as int);
                assert(got.push(w) + nul_chunks(out@, next as int) =~= got + (seq![w] + nul_chunks(out@, next as int)));
                assert(all[got.len() as int] == w);
                assert(ls_tree_fields(all[got.len() as int]) is Some);
            }
            let fields = parse_ls_tree_line(chunk);
            proof {
                got = got.push(out@.subrange(i as int, e as int));
            }
            res.push(fields);
        }
        i = next;
    }
    proof {
        assert(got + Seq::<Seq<char>>::empty() =~= got);
    }
    res
}

/// The mode that `git ls-tree` prints as `word` (trees as `040000`, as well as `40000`).
pub open spec fn ls_tree_mode(word: Seq<char>) -> Option<FileMode> {
    if word == seq!['1', '0', '0', '6', '4', '4'] {
        Some(FileMode::NExecRegularFile)
    } else if word == seq!['1', '0', '0', '7', '5', '5'] {
        Some(FileMode::ExecRegularFile)
    } else if word == seq!['1', '2', '0', '0', '0', '0'] {
        Some(FileMode::SymbolicLink)
    } else if word == seq!['1', '6', '0', '0', '0', '0'] {
        Some(FileMode::Gitlink)
    } else if word == seq!['4', '0', '0', '0', '0'] || word == seq!['0', '4', '0', '0', '0', '0'] {
        Some(FileMode::Directory)
    } else {
        None
    }
}

/// The mode that `git ls-tree` prints as `mode`.
pub fn mode_word_to_file_mode(mode: &str) -> (res: FileMode)
    requires
        ls_tree_mode(mode@) is Some,
    ensures
        res == ls_tree_mode(mode@)->Some_0,
{
    let c = chars_of(mode);
    let w644 = ['1', '0', '0', '6', '4', '4'];
    let w755 = ['1', '0', '0', '7', '5', '5'];
    let w120 = ['1', '2', '0', '0', '0', '0'];
    let w160 = ['1', '6', '0', '0', '0', '0'];
    let w40 = ['4', '0', '0', '0', '0'];
    proof {
        assert(w644@ =~= seq!['1', '0', '0', '6', '4', '4']);
        assert(w755@ =~= seq!['1', '0', '0', '7', '5', '5']);
        assert(w120@ =~= seq!['1', '2', '0', '0', '0', '0']);
        assert(w160@ =~= seq!['1', '6', '0', '0', '0', '0']);
        assert(w40@ =~= seq!['4', '0', '0', '0', '0']);
    }
    if same_chars(c.as_slice(), w644.as_slice()) {
        FileMode::NExecRegularFile
    } else if same_chars(c.as_slice(), w755.as_slice()) {
        FileMode::ExecRegularFile
    } else if same_chars(c.as_slice(), w120.as_slice()) {
        FileMode::SymbolicLink
    } else if same_chars(c.as_slice(), w160.as_slice()) {
        FileMode::Gitlink
    } else {
        FileMode::Directory
    }
}

} // verus!
