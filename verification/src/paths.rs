use vstd::prelude::*;

use crate::text::same_chars;

verus! {

/// `Path::join` on Unix, on the text of the paths: an absolute `p` (one that starts with `/`)
/// replaces `base`; otherwise `p` is appended, after a `/` unless `base` is empty or already ends
/// with one.
pub open spec fn path_join(base: Seq<char>, p: Seq<char>) -> Seq<char> {
    if p.len() > 0 && p[0] == '/' {
        p
    } else if base.len() == 0 || base.last() == '/' {
        base + p
    } else {
        base + seq!['/'] + p
    }
}

/// `s` without its leading slashes (`trim_start_matches('/')`).
pub open spec fn trim_leading_slashes(s: Seq<char>) -> Seq<char>
    decreases s.len(),
{
    if s.len() > 0 && s[0] == '/' {
        trim_leading_slashes(s.drop_first())
    } else {
        s
    }
}

/// Index of the first `ch` in `s` at or after `i`, or `s.len()` where there is none.
pub open spec fn find_char(s: Seq<char>, i: int, ch: char) -> int
    decreases s.len() - i,
{
    if i < 0 || i >= s.len() {
        s.len() as int
    } else if s[i] == ch {
        i
    } else {
        find_char(s, i + 1, ch)
    }
}

/// The separator-free piece of `s` that starts at `i`.
pub open spec fn piece_at(s: Seq<char>, i: int) -> Seq<char> {
    s.subrange(i, find_char(s, i, '/'))
}

/// Where the piece after the one at `i` starts (past its separator), or `s.len()`.
pub open spec fn after_piece(s: Seq<char>, i: int) -> int {
    let e = find_char(s, i, '/');
    if e < s.len() {
        e + 1
    } else {
        s.len() as int
    }
}

/// Whether a piece yields no component (`""` or `"."` inside a path).
pub open spec fn is_skipped(p: Seq<char>) -> bool {
    p.len() == 0 || p == seq!['.']
}

/// The components that the pieces of `s` from `i` on yield, in order.
pub open spec fn body_components(s: Seq<char>, i: int) -> Seq<Seq<char>>
    decreases s.len() - i,
{
    if 0 <= i < s.len() && i < after_piece(s, i) <= s.len() {
        let rest = body_components(s, after_piece(s, i));
        if is_skipped(piece_at(s, i)) {
            rest
        } else {
            seq![piece_at(s, i)] + rest
        }
    } else {
        Seq::empty()
    }
}

/// The length of the part of `s` that yields its first component by itself: the root `/` of an
/// absolute path, or the `.` that starts a relative path such as `./a`; 0 otherwise.
pub open spec fn start_len(s: Seq<char>) -> int {
    if s.len() > 0 && s[0] == '/' {
        1
    } else if s.len() > 0 && s[0] == '.' && (s.len() == 1 || s[1] == '/') {
        1
    } else {
        0
    }
}

/// The components of path `s` (`Path::components`): the root or a leading `.` where there is
/// one, then every piece but the empty ones and `.`; each component is given by its text.
pub open spec fn components(s: Seq<char>) -> Seq<Seq<char>> {
    if start_len(s) == 1 {
        seq![s.subrange(0, 1)] + body_components(s, 1)
    } else {
        body_components(s, 0)
    }
}

/// Where reading `m` more components of `s` from position `i` leaves off.
pub open spec fn skip_components(s: Seq<char>, i: int, m: int) -> int
    decreases s.len() - i,
{
    if m <= 0 || !(0 <= i < s.len() && i < after_piece(s, i) <= s.len()) {
        i
    } else if is_skipped(piece_at(s, i)) {
        skip_components(s, after_piece(s, i), m)
    } else {
        skip_components(s, after_piece(s, i), m - 1)
    }
}

/// Position `i` moved past the pieces that yield no component.
pub open spec fn skip_empty(s: Seq<char>, i: int) -> int
    decreases s.len() - i,
{
    if 0 <= i < s.len() && i < after_piece(s, i) <= s.len() && is_skipped(piece_at(s, i)) {
        skip_empty(s, after_piece(s, i))
    } else {
        i
    }
}

/// Index of the last `ch` in `s[a..b]`, or `a - 1` where there is none.
pub open spec fn rfind_char(s: Seq<char>, a: int, b: int, ch: char) -> int
    decreases b - a,
{
    if b <= a {
        a - 1
    } else if s[b - 1] == ch {
        b - 1
    } else {
        rfind_char(s, a, b - 1, ch)
    }
}

/// Where `s[a..b]` ends once its trailing pieces that yield no component (and the separators
/// before them) are dropped.
pub open spec fn trim_right_end(s: Seq<char>, a: int, b: int) -> int
    decreases b - a,
{
    if b <= a {
        b
    } else {
        let l = rfind_char(s, a, b, '/');
        let nb = if l >= a {
            l
        } else {
            a
        };
        if is_skipped(s.subrange(l + 1, b)) && a <= nb < b {
            trim_right_end(s, a, nb)
        } else {
            b
        }
    }
}

/// `Path::strip_prefix`: where the components of `base` start the components of `path`, the rest
/// of the text of `path` after them (as `Components::as_path` gives it); `None` otherwise.
pub open spec fn strip_prefix_rest(path: Seq<char>, base: Seq<char>) -> Option<Seq<char>> {
    let pc = components(path);
    let bc = components(base);
    if !(bc.len() <= pc.len() && pc.subrange(0, bc.len() as int) == bc) {
        None
    } else if bc.len() == 0 {
        Some(path.subrange(0, trim_right_end(path, start_len(path), path.len() as int)))
    } else {
        let p0 = if start_len(path) == 1 {
            skip_components(path, 1, bc.len() - 1)
        } else {
            skip_components(path, 0, bc.len() as int)
        };
        let a = skip_empty(path, p0);
        Some(path.subrange(a, trim_right_end(path, a, path.len() as int)))
    }
}

/// `find_char` is the first position at or after `i` that holds `ch`.
pub proof fn lemma_find_char(s: Seq<char>, i: int, ch: char)
    requires
        0 <= i <= s.len(),
    ensures
        i <= find_char(s, i, ch) <= s.len(),
        find_char(s, i, ch) < s.len() ==> s[find_char(s, i, ch)] == ch,
        forall|k: int| i <= k < find_char(s, i, ch) ==> s[k] != ch,
    decreases s.len() - i,
{
    if i < s.len() && s[i] != ch {
        lemma_find_char(s, i + 1, ch);
    }
}

/// A piece starting inside `s` ends past its start and inside `s`.
pub proof fn lemma_after_piece(s: Seq<char>, i: int)
    requires
        0 <= i < s.len(),
    ensures
        i < after_piece(s, i) <= s.len(),
        i <= find_char(s, i, '/') <= s.len(),
{
    lemma_find_char(s, i, '/');
}

/// The last piece of `s` (the text after its last slash).
pub open spec fn last_piece(s: Seq<char>) -> Seq<char> {
    s.subrange(rfind_char(s, 0, s.len() as int, '/') + 1, s.len() as int)
}

/// `rfind_char` finds the last `ch` in `s[a..b]`.
pub proof fn lemma_rfind_char(s: Seq<char>, a: int, b: int, ch: char)
    requires
        0 <= a <= b <= s.len(),
    ensures
        a - 1 <= rfind_char(s, a, b, ch) < b,
        rfind_char(s, a, b, ch) >= a ==> s[rfind_char(s, a, b, ch)] == ch,
        forall|k: int| rfind_char(s, a, b, ch) < k < b ==> s[k] != ch,
    decreases b - a,
{
    if b > a && s[b - 1] != ch {
        lemma_rfind_char(s, a, b - 1, ch);
    }
}

/// Searching forward in `x + "/" + y` from inside `x` finds what searching `x` finds, or the
/// slash after it.
proof fn lemma_find_in_join(x: Seq<char>, y: Seq<char>, i: int)
    requires
        0 <= i <= x.len(),
    ensures
        find_char(x + seq!['/'] + y, i, '/') == if find_char(x, i, '/') < x.len() {
            find_char(x, i, '/')
        } else {
            x.len() as int
        },
    decreases x.len() - i,
{
    let s = x + seq!['/'] + y;
    if i < x.len() {
        assert(s[i] == x[i]);
        if x[i] != '/' {
            lemma_find_in_join(x, y, i + 1);
        }
    } else {
        assert(s[i] == '/');
    }
}

/// Searching forward in `p + y` from inside `y` finds what searching `y` finds, shifted.
proof fn lemma_find_in_suffix(p: Seq<char>, y: Seq<char>, j: int, ch: char)
    requires
        0 <= j <= y.len(),
    ensures
        find_char(p + y, p.len() + j, ch) == p.len() + find_char(y, j, ch),
    decreases y.len() - j,
{
    if j < y.len() {
        assert((p + y)[p.len() + j] == y[j]);
        if y[j] != ch {
            lemma_find_in_suffix(p, y, j + 1, ch);
        }
    }
}

/// Searching backward in `p + y` over the part `y` finds what searching `y` finds, shifted.
pub proof fn lemma_rfind_in_suffix(p: Seq<char>, y: Seq<char>, b: int, ch: char)
    requires
        0 <= b <= y.len(),
    ensures
        rfind_char(p + y, p.len() as int, p.len() + b, ch) == p.len() + rfind_char(y, 0, b, ch),
    decreases b,
{
    if b > 0 {
        assert((p + y)[p.len() + b - 1] == y[b - 1]);
        if y[b - 1] != ch {
            lemma_rfind_in_suffix(p, y, b - 1, ch);
        }
    }
}

/// The components of `x + "/" + y` read from a position inside `x` are those of `x` from there,
/// then those of what follows the slash.
proof fn lemma_body_components_join(x: Seq<char>, y: Seq<char>, i: int)
    requires
        0 <= i <= x.len(),
    ensures
        body_components(x + seq!['/'] + y, i) == body_components(x, i) + body_components(
            x + seq!['/'] + y,
            x.len() as int + 1,
        ),
    decreases x.len() - i,
{
    let s = x + seq!['/'] + y;
    lemma_find_in_join(x, y, i);
    lemma_find_char(s, i, '/');
    if i < x.len() {
        lemma_find_char(x, i, '/');
        let e = find_char(x, i, '/');
        assert(piece_at(s, i) =~= piece_at(x, i));
        if e < x.len() {
            assert(after_piece(s, i) == after_piece(x, i));
            lemma_body_components_join(x, y, e + 1);
            if !is_skipped(piece_at(x, i)) {
                assert(seq![piece_at(x, i)] + body_components(x, e + 1) + body_components(s, x.len() as int + 1)
                    =~= seq![piece_at(x, i)] + (body_components(x, e + 1) + body_components(s, x.len() as int + 1)));
            }
        } else {
            assert(after_piece(x, i) == x.len());
            assert(after_piece(s, i) == x.len() + 1);
            assert(body_components(x, x.len() as int) =~= Seq::<Seq<char>>::empty());
            assert(body_components(x, i) =~= if is_skipped(piece_at(x, i)) {
                Seq::<Seq<char>>::empty()
            } else {
                seq![piece_at(x, i)]
            });
        }
    } else {
        assert(piece_at(s, i) =~= Seq::<char>::empty());
        assert(after_piece(s, i) == x.len() + 1);
        assert(body_components(x, i) =~= Seq::<Seq<char>>::empty());
    }
    assert(body_components(s, i) =~= body_components(x, i) + body_components(s, x.len() as int + 1));
}

/// Whether `y` is a relative path whose first and last pieces are names: not empty, not `.`.
pub open spec fn named_ends(y: Seq<char>) -> bool {
    &&& y.len() > 0
    &&& y[0] != '/'
    &&& !is_skipped(piece_at(y, 0))
    &&& !is_skipped(last_piece(y))
}

/// After any text `pre`, a path `y` with named ends starts with a piece that yields a component
/// and ends with one: nothing is skipped at its start or trimmed at its end.
proof fn lemma_named_after(pre: Seq<char>, y: Seq<char>)
    requires
        named_ends(y),
    ensures
        skip_empty(pre + y, pre.len() as int) == pre.len(),
        trim_right_end(pre + y, pre.len() as int, (pre + y).len() as int) == (pre + y).len(),
        (pre + y).subrange(pre.len() as int, (pre + y).len() as int) == y,
{
    let s = pre + y;
    let a = pre.len() as int;
    lemma_find_in_suffix(pre, y, 0, '/');
    lemma_find_char(y, 0, '/');
    assert(piece_at(s, a) =~= piece_at(y, 0));
    lemma_rfind_in_suffix(pre, y, y.len() as int, '/');
    lemma_rfind_char(y, 0, y.len() as int, '/');
    let r = rfind_char(s, a, s.len() as int, '/');
    assert(s.subrange(r + 1, s.len() as int) =~= last_piece(y));
    assert(s.subrange(a, s.len() as int) =~= y);
}

/// A path with named ends has no start component of its own.
proof fn lemma_named_start(y: Seq<char>)
    requires
        named_ends(y),
    ensures
        start_len(y) == 0,
{
    lemma_find_char(y, 0, '/');
    if y[0] == '.' && (y.len() == 1 || y[1] == '/') {
        if y.len() > 1 {
            assert(find_char(y, 1, '/') == 1);
        }
        assert(find_char(y, 0, '/') == 1);
        assert(piece_at(y, 0) =~= seq!['.']);
    }
}

/// The start of `x + "/" + y` is the start of `x`, where `x` is not empty.
proof fn lemma_start_len_join(x: Seq<char>, y: Seq<char>)
    requires
        x.len() > 0,
    ensures
        start_len(x + seq!['/'] + y) == start_len(x),
{
    let s = x + seq!['/'] + y;
    assert(s[0] == x[0]);
    if x.len() >= 2 {
        assert(s[1] == x[1]);
    } else {
        assert(s[1] == '/');
    }
}

/// In `x + "/" + y`, from a position inside `x` after which `x` yields no component, skipping
/// pieces that yield none ends at the start of `y`.
proof fn lemma_skip_empty_join(x: Seq<char>, y: Seq<char>, p: int)
    requires
        0 <= p <= x.len(),
        body_components(x, p).len() == 0,
        named_ends(y),
    ensures
        skip_empty(x + seq!['/'] + y, p) == x.len() + 1,
    decreases x.len() - p,
{
    let s = x + seq!['/'] + y;
    let n = x.len() as int;
    lemma_named_after(x + seq!['/'], y);
    assert(s =~= (x + seq!['/']) + y);
    lemma_find_in_join(x, y, p);
    lemma_find_char(s, p, '/');
    if p < n {
        lemma_find_char(x, p, '/');
        let e = find_char(x, p, '/');
        assert(piece_at(s, p) =~= piece_at(x, p));
        if e < n {
            assert(after_piece(x, p) == e + 1);
            assert(after_piece(s, p) == e + 1);
            assert(is_skipped(piece_at(x, p)));
            assert(body_components(x, e + 1).len() == 0);
            lemma_skip_empty_join(x, y, e + 1);
        } else {
            assert(after_piece(x, p) == n);
            assert(after_piece(s, p) == n + 1);
            assert(body_components(x, n) =~= Seq::<Seq<char>>::empty());
            assert(is_skipped(piece_at(x, p)));
        }
    } else {
        assert(piece_at(s, p) =~= Seq::<char>::empty());
        assert(after_piece(s, p) == n + 1);
    }
}

/// In `x + "/" + y`, reading from a position inside `x` as many components as `x` has from there,
/// then skipping pieces that yield none, ends at the start of `y`.
proof fn lemma_skip_components_join(x: Seq<char>, y: Seq<char>, i: int)
    requires
        0 <= i <= x.len(),
        body_components(x, i).len() > 0,
        named_ends(y),
    ensures
        skip_empty(x + seq!['/'] + y, skip_components(x + seq!['/'] + y, i, body_components(x, i).len() as int))
            == x.len() + 1,
    decreases x.len() - i,
{
    let s = x + seq!['/'] + y;
    let n = x.len() as int;
    let m = body_components(x, i).len() as int;
    lemma_named_after(x + seq!['/'], y);
    assert(s =~= (x + seq!['/']) + y);
    lemma_find_in_join(x, y, i);
    lemma_find_char(s, i, '/');
    assert(i < n) by {
        if i >= n {
            assert(body_components(x, i) =~= Seq::<Seq<char>>::empty());
        }
    }
    lemma_find_char(x, i, '/');
    let e = find_char(x, i, '/');
    assert(piece_at(s, i) =~= piece_at(x, i));
    if e < n {
        assert(after_piece(x, i) == e + 1);
        assert(after_piece(s, i) == e + 1);
        let m2 = body_components(x, e + 1).len() as int;
        if is_skipped(piece_at(x, i)) {
            assert(body_components(x, i) == body_components(x, e + 1));
            assert(skip_components(s, i, m) == skip_components(s, e + 1, m));
            lemma_skip_components_join(x, y, e + 1);
        } else {
            assert(body_components(x, i) == seq![piece_at(x, i)] + body_components(x, e + 1));
            assert(skip_components(s, i, m) == skip_components(s, e + 1, m2));
            if m2 > 0 {
                lemma_skip_components_join(x, y, e + 1);
            } else {
                lemma_skip_empty_join(x, y, e + 1);
            }
        }
    } else {
        assert(after_piece(x, i) == n);
        assert(after_piece(s, i) == n + 1);
        assert(body_components(x, n) =~= Seq::<Seq<char>>::empty());
        assert(!is_skipped(piece_at(x, i))) by {
            if is_skipped(piece_at(x, i)) {
                assert(body_components(x, i) =~= Seq::<Seq<char>>::empty());
            }
        }
        assert(body_components(x, i) =~= seq![piece_at(x, i)]);
        assert(skip_components(s, i, 1) == skip_components(s, n + 1, 0));
    }
}

/// `Path::strip_prefix` of `x + "/" + y` by a non-empty `x` gives back `y`, where `y` starts and
/// ends with a name.
pub proof fn lemma_strip_prefix_join(x: Seq<char>, y: Seq<char>)
    requires
        x.len() > 0,
        named_ends(y),
    ensures
        strip_prefix_rest(x + seq!['/'] + y, x) == Some(y),
{
    let s = x + seq!['/'] + y;
    let n = x.len() as int;
    lemma_start_len_join(x, y);
    let sl = start_len(x);
    lemma_body_components_join(x, y, sl);
    let rest = body_components(s, n + 1);
    assert(components(s) =~= components(x) + rest) by {
        if sl == 1 {
            assert(s.subrange(0, 1) =~= x.subrange(0, 1));
        }
    }
    let pc = components(s);
    let bc = components(x);
    assert(pc.subrange(0, bc.len() as int) =~= bc);
    if sl == 1 {
        if body_components(x, 1).len() > 0 {
            lemma_skip_components_join(x, y, 1);
        } else {
            assert(skip_components(s, 1, 0) == 1);
            lemma_skip_empty_join(x, y, 1);
        }
    } else {
        lemma_find_char(x, 0, '/');
        assert(!is_skipped(piece_at(x, 0))) by {
            if find_char(x, 0, '/') == 1 {
                assert(x.len() == 1 || x[1] == '/');
            }
            if piece_at(x, 0) =~= seq!['.'] {
                assert(piece_at(x, 0)[0] == x[0]);
                assert(find_char(x, 0, '/') == 1);
            }
        }
        lemma_after_piece(x, 0);
        assert(body_components(x, 0).len() > 0);
        lemma_skip_components_join(x, y, 0);
    }
    lemma_named_after(x + seq!['/'], y);
    assert(s =~= (x + seq!['/']) + y);
}

/// `Path::strip_prefix` of `x + y` by `x`, where `x` ends with a slash, gives back `y`, where `y`
/// starts and ends with a name.
pub proof fn lemma_strip_prefix_after_slash(x: Seq<char>, y: Seq<char>)
    requires
        x.len() > 0,
        x.last() == '/',
        named_ends(y),
    ensures
        strip_prefix_rest(x + y, x) == Some(y),
{
    let x1 = x.drop_last();
    assert(x =~= x1 + seq!['/']);
    if x1.len() == 0 {
        let s = x + y;
        lemma_named_after(x, y);
        assert(start_len(x) == 1);
        assert(s[0] == '/');
        assert(body_components(x, 1) =~= Seq::<Seq<char>>::empty());
        assert(components(x) =~= seq![x.subrange(0, 1)]);
        assert(s.subrange(0, 1) =~= x.subrange(0, 1));
        assert(components(s).subrange(0, 1) =~= components(x));
        assert(skip_components(s, 1, 0) == 1);
    } else {
        let e: Seq<char> = Seq::empty();
        lemma_start_len_join(x1, e);
        assert(x1 + seq!['/'] + e =~= x);
        lemma_body_components_join(x1, e, start_len(x1));
        assert(body_components(x, x1.len() as int + 1) =~= Seq::<Seq<char>>::empty());
        assert(components(x) =~= components(x1)) by {
            if start_len(x1) == 1 {
                assert(x.subrange(0, 1) =~= x1.subrange(0, 1));
            }
        }
        lemma_strip_prefix_join(x1, y);
        assert(x1 + seq!['/'] + y =~= x + y);
    }
}

/// `Path::strip_prefix` of `y` by the empty path gives back `y`, where `y` starts and ends with a
/// name.
pub proof fn lemma_strip_prefix_empty(y: Seq<char>)
    requires
        named_ends(y),
    ensures
        strip_prefix_rest(y, Seq::<char>::empty()) == Some(y),
{
    let e: Seq<char> = Seq::empty();
    lemma_named_start(y);
    lemma_named_after(e, y);
    assert(e + y =~= y);
    assert(components(e) =~= Seq::<Seq<char>>::empty());
    assert(components(y).subrange(0, 0) =~= Seq::<Seq<char>>::empty());
    assert(y.subrange(0, y.len() as int) =~= y);
}

/// `Path::join` of a relative path onto a join is the join onto the joined path.
pub proof fn lemma_join_assoc(w: Seq<char>, g: Seq<char>, n: Seq<char>)
    requires
        n.len() > 0,
        n[0] != '/',
    ensures
        path_join(w, path_join(g, n)) == path_join(path_join(w, g), n),
{
    let x = path_join(w, g);
    let gn = path_join(g, n);
    if g.len() > 0 && g[0] == '/' {
        assert(gn[0] == '/');
    } else if g.len() == 0 {
        assert(gn == n);
    } else {
        assert(gn[0] == g[0]);
        assert(x.len() > 0);
        assert(x.last() == g.last());
        assert(path_join(w, gn) =~= path_join(x, n));
    }
}

/// The view of a list of character vectors.
pub open spec fn texts(v: Seq<Vec<char>>) -> Seq<Seq<char>> {
    v.map_values(|x: Vec<char>| x@)
}

/// The first position at or after `i` that holds `ch`, or the length of `c`.
pub fn find_char_in(c: &[char], i: usize, ch: char) -> (res: usize)
    requires
        i <= c@.len(),
    ensures
        res == find_char(c@, i as int, ch),
        i <= res <= c@.len(),
{
    let n = c.len();
    let mut k = i;
    while k < n && c[k] != ch
        invariant
            i <= k <= n,
            n == c@.len(),
            find_char(c@, i as int, ch) == find_char(c@, k as int, ch),
        decreases n - k,
    {
        k = k + 1;
    }
    k
}

/// Whether `c[i..e]` is a piece that yields no component.
fn skipped_piece(c: &[char], i: usize, e: usize) -> (res: bool)
    requires
        i <= e <= c@.len(),
    ensures
        res == is_skipped(c@.subrange(i as int, e as int)),
{
    if e == i {
        true
    } else if e == i + 1 && c[i] == '.' {
        proof {
            assert(c@.subrange(i as int, e as int) =~= seq!['.']);
        }
        true
    } else {
        proof {
            if e == i + 1 {
                assert(c@.subrange(i as int, e as int)[0] != '.');
            }
            assert(c@.subrange(i as int, e as int) != seq!['.']) by {
                if c@.subrange(i as int, e as int) =~= seq!['.'] {
                    assert(c@.subrange(i as int, e as int).len() == 1);
                }
            }
        }
        false
    }
}

/// The components yielded by the pieces of `c` from `i0` on.
pub fn body_components_of(c: &[char], i0: usize) -> (res: Vec<Vec<char>>)
    requires
        i0 <= c@.len(),
    ensures
        texts(res@) == body_components(c@, i0 as int),
{
    let n = c.len();
    let mut res: Vec<Vec<char>> = Vec::new();
    let mut i = i0;
    proof {
        assert(texts(res@) + body_components(c@, i as int) =~= body_components(c@, i0 as int));
    }
    while i < n
        invariant
            i0 <= i <= n,
            n == c@.len(),
            texts(res@) + body_components(c@, i as int) == body_components(c@, i0 as int),
        decreases n - i,
    {
        let e = find_char_in(c, i, '/');
        let next = if e < n {
            e + 1
        } else {
            n
        };
        proof {
            lemma_after_piece(c@, i as int);
        }
        if !skipped_piece(c, i, e) {
            let piece = vstd::slice::slice_to_vec(&c[i..e]);
            proof {
                assert(piece@ =~= piece_at(c@, i as int));
                assert(texts(res@.push(piece)) =~= texts(res@).push(piece@));
                assert(texts(res@).push(piece@) + body_components(c@, next as int) =~= texts(res@)
                    + (seq![piece@] + body_components(c@, next as int)));
            }
            res.push(piece);
        }
        i = next;
    }
    proof {
        assert(texts(res@) + Seq::<Seq<char>>::empty() =~= texts(res@));
    }
    res
}

/// The length of the part of `c` that yields its first component by itself.
pub fn start_len_of(c: &[char]) -> (res: usize)
    ensures
        res == start_len(c@),
{
    let n = c.len();
    if n > 0 && c[0] == '/' {
        1
    } else if n > 0 && c[0] == '.' && (n == 1 || c[1] == '/') {
        1
    } else {
        0
    }
}

/// The components of the path `c`.
pub fn components_of(c: &[char]) -> (res: Vec<Vec<char>>)
    ensures
        texts(res@) == components(c@),
{
    let sl = start_len_of(c);
    if sl == 1 {
        let first = vstd::slice::slice_to_vec(&c[0..1]);
        let rest = body_components_of(c, 1);
        let mut res: Vec<Vec<char>> = Vec::new();
        res.push(first);
        let mut i: usize = 0;
        while i < rest.len()
            invariant
                i <= rest@.len(),
                c@.len() >= 1,
                texts(res@) == seq![c@.subrange(0, 1)] + texts(rest@).subrange(0, i as int),
            decreases rest@.len() - i,
        {
            let ghost before = texts(res@);
            let item = vstd::slice::slice_to_vec(rest[i].as_slice());
            res.push(item);
            proof {
                assert(item@ == texts(rest@)[i as int]);
                assert(texts(res@) =~= before.push(item@));
                assert(texts(res@) =~= seq![c@.subrange(0, 1)] + texts(rest@).subrange(0, i + 1));
            }
            i = i + 1;
        }
        proof {
            assert(texts(rest@).subrange(0, rest@.len() as int) =~= texts(rest@));
        }
        res
    } else {
        body_components_of(c, 0)
    }
}

/// Whether the components `a` start the components `b`.
fn starts_components(a: &Vec<Vec<char>>, b: &Vec<Vec<char>>) -> (res: bool)
    ensures
        res == (texts(a@).len() <= texts(b@).len() && texts(b@).subrange(0, texts(a@).len() as int)
            == texts(a@)),
{
    if a.len() > b.len() {
        return false;
    }
    let mut i: usize = 0;
    while i < a.len()
        invariant
            i <= a@.len(),
            a@.len() <= b@.len(),
            forall|j: int| 0 <= j < i ==> texts(a@)[j] == texts(b@)[j],
        decreases a@.len() - i,
    {
        if !same_chars(a[i].as_slice(), b[i].as_slice()) {
            proof {
                assert(texts(b@).subrange(0, texts(a@).len() as int)[i as int] != texts(a@)[i as int]);
            }
            return false;
        }
        i = i + 1;
    }
    proof {
        assert(texts(b@).subrange(0, texts(a@).len() as int) =~= texts(a@));
    }
    true
}

/// Where reading `m` more components of `c` from position `i` leaves off.
fn skip_components_of(c: &[char], i: usize, m: usize) -> (res: usize)
    requires
        i <= c@.len(),
    ensures
        res == skip_components(c@, i as int, m as int),
        i <= res <= c@.len(),
{
    let n = c.len();
    let mut p = i;
    let mut left = m;
    while left > 0 && p < n
        invariant
            i <= p <= n,
            n == c@.len(),
            skip_components(c@, i as int, m as int) == skip_components(c@, p as int, left as int),
        decreases n - p,
    {
        let e = find_char_in(c, p, '/');
        let next = if e < n {
            e + 1
        } else {
            n
        };
        proof {
            lemma_after_piece(c@, p as int);
        }
        if !skipped_piece(c, p, e) {
            left = left - 1;
        }
        p = next;
    }
    p
}

/// Position `i` moved past the pieces of `c` that yield no component.
fn skip_empty_of(c: &[char], i: usize) -> (res: usize)
    requires
        i <= c@.len(),
    ensures
        res == skip_empty(c@, i as int),
        i <= res <= c@.len(),
{
    let n = c.len();
    let mut p = i;
    loop
        invariant
            i <= p <= n,
            n == c@.len(),
            skip_empty(c@, i as int) == skip_empty(c@, p as int),
        decreases n - p,
    {
        if p >= n {
            return p;
        }
        let e = find_char_in(c, p, '/');
        let next = if e < n {
            e + 1
        } else {
            n
        };
        proof {
            lemma_after_piece(c@, p as int);
        }
        if !skipped_piece(c, p, e) {
            return p;
        }
        p = next;
    }
}

/// Index of the last `ch` in `c[a..b]`, or `a - 1` (as `None` where that is below 0).
fn rfind_char_in(c: &[char], a: usize, b: usize, ch: char) -> (res: usize)
    requires
        a <= b <= c@.len(),
    ensures
        res == rfind_char(c@, a as int, b as int, ch) + 1,
        a <= res <= b,
{
    let mut k = b;
    while k > a && c[k - 1] != ch
        invariant
            a <= k <= b,
            b <= c@.len(),
            rfind_char(c@, a as int, b as int, ch) == rfind_char(c@, a as int, k as int, ch),
        decreases k - a,
    {
        k = k - 1;
    }
    k
}

/// Where `c[a..b]` ends once its trailing pieces that yield no component are dropped.
fn trim_right_end_of(c: &[char], a: usize, b: usize) -> (res: usize)
    requires
        a <= b <= c@.len(),
    ensures
        res == trim_right_end(c@, a as int, b as int),
        a <= res <= b,
{
    let mut e = b;
    loop
        invariant
            a <= e <= b,
            b <= c@.len(),
            trim_right_end(c@, a as int, b as int) == trim_right_end(c@, a as int, e as int),
        decreases e - a,
    {
        if e <= a {
            return e;
        }
        let l1 = rfind_char_in(c, a, e, '/');
        let nb = if l1 > a {
            l1 - 1
        } else {
            a
        };
        if skipped_piece(c, l1, e) && nb < e {
            e = nb;
        } else {
            return e;
        }
    }
}

/// The range of the text of `path` that `Path::strip_prefix(base)` gives, or `None` where the
/// components of `base` do not start those of `path`.
pub fn strip_prefix_range(path: &[char], base: &[char]) -> (res: Option<(usize, usize)>)
    ensures
        match res {
            Some((a, b)) => a <= b <= path@.len() && strip_prefix_rest(path@, base@) == Some(
                path@.subrange(a as int, b as int),
            ),
            None => strip_prefix_rest(path@, base@) is None,
        },
{
    let pc = components_of(path);
    let bc = components_of(base);
    if !starts_components(&bc, &pc) {
        return None;
    }
    let k = bc.len();
    let n = path.len();
    if k == 0 {
        let sl = start_len_of(path);
        let e = trim_right_end_of(path, sl, n);
        return Some((0, e));
    }
    let sl = start_len_of(path);
    let p0 = if sl == 1 {
        skip_components_of(path, 1, k - 1)
    } else {
        skip_components_of(path, 0, k)
    };
    let a = skip_empty_of(path, p0);
    let e = trim_right_end_of(path, a, n);
    Some((a, e))
}

} // verus!
