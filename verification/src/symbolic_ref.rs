use vstd::prelude::*;

use crate::hexcode::ascii_chars;
use crate::paths::{
    lemma_join_assoc, lemma_strip_prefix_after_slash, lemma_strip_prefix_empty,
    lemma_strip_prefix_join, named_ends, path_join, strip_prefix_range, strip_prefix_rest, trim_leading_slashes,
};
use crate::reference::ref_marker;
use crate::text::{
    chars_of, chars_spell, is_ws, skip_whitespace, skip_whitespace_back, trim_end, trim_start,
};

verus! {

/// A symbolic ref: the name of the ref it points at (such as `refs/heads/main` or `HEAD`).
#[derive(Debug, Clone, PartialEq, Eq)]
pub struct SymbolicRef {
    pub ref_name: String,
}

/// Why a symbolic ref cannot be read.
#[derive(Debug, Clone, Copy, PartialEq, Eq, Structural)]
pub enum SymbolicRefError {
    /// The file holds more than one line.
    NotSingleLine,
    /// The text does not start with `ref:`.
    MissingPrefix,
    /// Nothing follows `ref:`.
    EmptyTarget,
}

/// `s` with every backslash turned into a slash.
pub open spec fn slashes(s: Seq<char>) -> Seq<char> {
    s.map_values(|c: char| if c == '\\' { '/' } else { c })
}

/// What reading a symbolic ref from the text `content` of its file gives: the target name (with
/// backslashes turned into slashes), or the first check that fails, in the order: more than one
/// line, no `ref:` at the start, nothing after it.
pub open spec fn symbolic_ref_outcome(content: Seq<char>) -> Result<Seq<char>, SymbolicRefError> {
    let line = trim_end(content);
    if line.contains('\n') {
        Err(SymbolicRefError::NotSingleLine)
    } else if !(line.len() >= 4 && line.subrange(0, 4) == ref_marker()) {
        Err(SymbolicRefError::MissingPrefix)
    } else {
        let rest = trim_start(line.subrange(4, line.len() as int));
        if rest.len() == 0 {
            Err(SymbolicRefError::EmptyTarget)
        } else {
            Ok(slashes(rest))
        }
    }
}

/// The text that a symbolic ref to `name` is written as: `ref: <name>` and a newline.
pub open spec fn symbolic_ref_text(name: Seq<char>) -> Seq<char> {
    ref_marker() + seq![' '] + name + seq!['\n']
}

/// The text of `s[lo..hi]` (where `c` holds the characters of `s`) with every backslash turned
/// into a slash.
pub fn with_slashes(s: &str, c: &[char], lo: usize, hi: usize) -> (res: String)
    requires
        c@ == s@,
        lo <= hi <= c@.len(),
    ensures
        res@ == slashes(s@.subrange(lo as int, hi as int)),
{
    let mut out = String::new();
    let mut start = lo;
    let mut i = lo;
    while i < hi
        invariant
            c@ == s@,
            lo <= start <= i <= hi,
            hi <= c@.len(),
            out@ + s@.subrange(start as int, i as int) == slashes(s@.subrange(lo as int, i as int)),
            forall|j: int| start <= j < i ==> c@[j] != '\\',
        decreases hi - i,
    {
        if c[i] == '\\' {
            out.append(s.substring_char(start, i));
            out.append("/");
            proof {
                reveal_strlit("/");
                assert(slashes(s@.subrange(lo as int, i + 1)) =~= slashes(s@.subrange(lo as int, i as int)).push('/'));
                assert(out@ + s@.subrange(i + 1, i + 1) =~= slashes(s@.subrange(lo as int, i + 1)));
            }
            start = i + 1;
        } else {
            proof {
                assert(slashes(s@.subrange(lo as int, i + 1)) =~= slashes(s@.subrange(lo as int, i as int)).push(c@[i as int]));
                assert(out@ + s@.subrange(start as int, i + 1) =~= out@ + s@.subrange(start as int, i as int) + seq![c@[i as int]]);
            }
        }
        i = i + 1;
    }
    out.append(s.substring_char(start, hi));
    out
}

/// Reads a symbolic ref from the text `content` of its file: a single line `ref: <name>`.
pub fn parse_symbolic_ref_content(content: &str) -> (res: Result<SymbolicRef, SymbolicRefError>)
    ensures
        match (res, symbolic_ref_outcome(content@)) {
            (Ok(sym), Ok(name)) => sym.ref_name@ == name,
            (Err(e), Err(f)) => e == f,
            _ => false,
        },
{
    let c = chars_of(content);
    let n = c.len();
    let hi = skip_whitespace_back(c.as_slice(), 0, n);
    let ghost line = c@.subrange(0, hi as int);
    proof {
        assert(c@.subrange(0, n as int) =~= c@);
        assert(line == trim_end(content@));
    }
    let mut i: usize = 0;
    while i < hi
        invariant
            i <= hi,
            hi <= c@.len(),
            line == c@.subrange(0, hi as int),
            line == trim_end(content@),
            forall|j: int| 0 <= j < i ==> line[j] != '\n',
        decreases hi - i,
    {
        if c[i] == '\n' {
            proof {
                assert(line[i as int] == '\n');
                assert(line.contains('\n'));
            }
            return Err(SymbolicRefError::NotSingleLine);
        }
        i = i + 1;
    }
    proof {
        assert(!line.contains('\n')) by {
            if line.contains('\n') {
                let j = choose|j: int| 0 <= j < line.len() && line[j] == '\n';
                assert(line[j] != '\n');
            }
        }
    }
    let marker = vec![114u8, 101, 102, 58];
    proof {
        assert(ascii_chars(marker@) =~= ref_marker());
        if hi >= 4 {
            assert(line.subrange(0, 4) =~= c@.subrange(0, 4));
        }
    }
    if !(hi >= 4 && chars_spell(c.as_slice(), 0, 4, marker.as_slice())) {
        return Err(SymbolicRefError::MissingPrefix);
    }
    let head = &c.as_slice()[0..hi];
    let lo = skip_whitespace(head, 4);
    proof {
        assert(head@ == line);
        assert(line.subrange(4, line.len() as int) =~= head@.subrange(4, head@.len() as int));
        assert(head@.subrange(lo as int, head@.len() as int) =~= c@.subrange(lo as int, hi as int));
    }
    if lo == hi {
        return Err(SymbolicRefError::EmptyTarget);
    }
    let name = with_slashes(content, c.as_slice(), lo, hi);
    Ok(SymbolicRef { ref_name: name })
}

/// The text to write into the file of a symbolic ref: `ref: <name>` and a newline.
pub fn symbolic_ref_file_content(sym: &SymbolicRef) -> (res: String)
    ensures
        res@ == symbolic_ref_text(sym.ref_name@),
{
    let mut text = String::from_str("ref: ");
    text.append(sym.ref_name.as_str());
    text.append("\n");
    proof {
        reveal_strlit("ref: ");
        reveal_strlit("\n");
        assert(text@ =~= symbolic_ref_text(sym.ref_name@));
    }
    text
}

/// `Path::join` on the text of two paths.
pub fn join_path(base: &str, p: &str) -> (res: String)
    ensures
        res@ == path_join(base@, p@),
{
    let pn = p.unicode_len();
    if pn > 0 && p.get_char(0) == '/' {
        return String::from_str(p);
    }
    let bn = base.unicode_len();
    let mut out = String::from_str(base);
    if bn > 0 && base.get_char(bn - 1) != '/' {
        out.append("/");
        proof {
            reveal_strlit("/");
        }
    }
    out.append(p);
    proof {
        if bn > 0 {
            assert(base@.last() == base@[bn - 1]);
        }
        assert(out@ =~= path_join(base@, p@));
    }
    out
}

/// Removing leading slashes after a prefix of slashes.
proof fn lemma_trim_leading_slashes(s: Seq<char>, i: int)
    requires
        0 <= i <= s.len(),
        forall|j: int| 0 <= j < i ==> s[j] == '/',
        i == s.len() || s[i] != '/',
    ensures
        trim_leading_slashes(s) == s.subrange(i, s.len() as int),
    decreases i,
{
    if i > 0 {
        assert(s[0] == '/');
        assert forall|j: int| 0 <= j < i - 1 implies s.drop_first()[j] == '/' by {
            assert(s[j + 1] == '/');
        }
        lemma_trim_leading_slashes(s.drop_first(), i - 1);
        assert(s.drop_first().subrange(i - 1, s.len() - 1) =~= s.subrange(i, s.len() as int));
    } else {
        assert(s.subrange(0, s.len() as int) =~= s);
    }
}

/// The text of `s` without its leading slashes.
fn without_leading_slashes(s: &str) -> (res: String)
    ensures
        res@ == trim_leading_slashes(s@),
{
    let n = s.unicode_len();
    let mut i: usize = 0;
    while i < n && s.get_char(i) == '/'
        invariant
            i <= n,
            n == s@.len(),
            forall|j: int| 0 <= j < i ==> s@[j] == '/',
        decreases n - i,
    {
        i = i + 1;
    }
    proof {
        lemma_trim_leading_slashes(s@, i as int);
    }
    String::from_str(s.substring_char(i, n))
}

/// The git directory as a path: `worktree` joined with `git_dir`.
pub fn resolve_git_dir(worktree: &str, git_dir: &str) -> (res: String)
    ensures
        res@ == path_join(worktree@, git_dir@),
{
    join_path(worktree, git_dir)
}

/// The path of the file of the ref `ref_name`: `git_dir` joined with the name without its leading
/// slashes.
pub fn ref_name_to_sym_file(git_dir: &str, ref_name: &str) -> (res: String)
    ensures
        res@ == path_join(git_dir@, trim_leading_slashes(ref_name@)),
{
    let name = without_leading_slashes(ref_name);
    join_path(git_dir, name.as_str())
}

/// Why the file of a ref names no ref.
#[derive(Debug, Clone, Copy, PartialEq, Eq, Structural)]
pub enum RefNameError {
    /// The file does not lie under the git directory.
    NotUnderGitDir,
    /// The file is the git directory itself.
    EmptyName,
}

/// What the name of the ref whose file is `ref_file` (relative to `worktree`) is, under the git
/// directory `git_dir`: the path of the file relative to the git directory, with backslashes
/// turned into slashes and without leading slashes.
pub open spec fn ref_name_outcome(worktree: Seq<char>, git_dir: Seq<char>, ref_file: Seq<char>) -> Result<Seq<char>, RefNameError> {
    match strip_prefix_rest(path_join(worktree, ref_file), path_join(worktree, git_dir)) {
        None => Err(RefNameError::NotUnderGitDir),
        Some(rel) => {
            let name = trim_leading_slashes(slashes(rel));
            if name.len() == 0 {
                Err(RefNameError::EmptyName)
            } else {
                Ok(name)
            }
        },
    }
}

/// The name of the ref whose file is `ref_file` (relative to `worktree`), such as
/// `refs/heads/main` for `.git/refs/heads/main` under the git directory `.git`.
pub fn ref_file_to_ref_name(worktree: &str, git_dir: &str, ref_file: &str) -> (res: Result<String, RefNameError>)
    ensures
        match (res, ref_name_outcome(worktree@, git_dir@, ref_file@)) {
            (Ok(name), Ok(n)) => name@ == n,
            (Err(e), Err(f)) => e == f,
            _ => false,
        },
{
    let abs = join_path(worktree, ref_file);
    let gd = resolve_git_dir(worktree, git_dir);
    let abs_chars = chars_of(abs.as_str());
    let gd_chars = chars_of(gd.as_str());
    match strip_prefix_range(abs_chars.as_slice(), gd_chars.as_slice()) {
        None => Err(RefNameError::NotUnderGitDir),
        Some((a, b)) => {
            let replaced = with_slashes(abs.as_str(), abs_chars.as_slice(), a, b);
            let name = without_leading_slashes(replaced.as_str());
            if name.as_str().unicode_len() == 0 {
                Err(RefNameError::EmptyName)
            } else {
                Ok(name)
            }
        },
    }
}

/// The file that `ref_name_to_sym_file` gives for a ref name under any git directory reads back,
/// through `ref_file_to_ref_name` with any worktree, as that name without its leading slashes:
/// where that name starts and ends with a name (not empty, not `.`) and holds no backslash.
pub proof fn lemma_ref_file_name_round_trip(worktree: Seq<char>, git_dir: Seq<char>, name: Seq<char>)
    requires
        named_ends(trim_leading_slashes(name)),
        !trim_leading_slashes(name).contains('\\'),
    ensures
        ref_name_outcome(worktree, git_dir, path_join(git_dir, trim_leading_slashes(name))) == Ok::<
            Seq<char>,
            RefNameError,
        >(trim_leading_slashes(name)),
{
    let n = trim_leading_slashes(name);
    let x = path_join(worktree, git_dir);
    lemma_join_assoc(worktree, git_dir, n);
    let abs = path_join(worktree, path_join(git_dir, n));
    assert(abs == path_join(x, n));
    if x.len() == 0 {
        assert(abs =~= n);
        assert(x =~= Seq::<char>::empty());
        lemma_strip_prefix_empty(n);
    } else if x.last() == '/' {
        assert(abs =~= x + n);
        lemma_strip_prefix_after_slash(x, n);
    } else {
        assert(abs =~= x + seq!['/'] + n);
        lemma_strip_prefix_join(x, n);
    }
    assert(slashes(n) =~= n) by {
        assert forall|j: int| 0 <= j < n.len() implies slashes(n)[j] == n[j] by {
            if n[j] == '\\' {
                assert(n.contains('\\'));
            }
        }
    }
    assert(trim_leading_slashes(n) == n);
}

/// A symbolic ref written by `symbolic_ref_file_content` reads back as the name it was written
/// for, where the name is not empty, neither starts nor ends with whitespace, and holds no newline
/// and no backslash.
pub proof fn lemma_symbolic_ref_round_trip(name: Seq<char>)
    requires
        name.len() > 0,
        !is_ws(name[0]),
        !is_ws(name.last()),
        !name.contains('\n'),
        !name.contains('\\'),
    ensures
        symbolic_ref_outcome(symbolic_ref_text(name)) == Ok::<Seq<char>, SymbolicRefError>(name),
{
    let t = symbolic_ref_text(name);
    let line = ref_marker() + seq![' '] + name;
    assert(t.drop_last() =~= line);
    assert(is_ws(t.last()));
    assert(line.last() == name.last());
    assert(trim_end(line) == line);
    assert(trim_end(t) == line);
    assert(!line.contains('\n')) by {
        if line.contains('\n') {
            let j = choose|j: int| 0 <= j < line.len() && line[j] == '\n';
            if j >= 5 {
                assert(name[j - 5] == '\n');
                assert(name.contains('\n'));
            }
        }
    }
    assert(line.subrange(0, 4) =~= ref_marker());
    let rest = line.subrange(4, line.len() as int);
    assert(is_ws(rest[0]));
    assert(rest.drop_first() =~= name);
    assert(trim_start(name) == name);
    assert(trim_start(rest) == name);
    assert(slashes(name) =~= name) by {
        assert forall|j: int| 0 <= j < name.len() implies slashes(name)[j] == name[j] by {
            if name[j] == '\\' {
                assert(name.contains('\\'));
            }
        }
    }
}

} // verus!
