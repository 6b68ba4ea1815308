//! Filesystem paths as `/`-separated text, with the joins, parents,
//! file names and prefix stripping that module resolution uses.
use vstd::prelude::*;

use crate::text::{chars_of, has_prefix, starts_with_chars, string_of};

verus! {

/// `seg` appended to `base` as Unix `Path::join` does: an absolute `seg`
/// replaces `base`; otherwise a separator is inserted unless `base` is
/// empty or already ends in one.
pub open spec fn join_spec(base: Seq<char>, seg: Seq<char>) -> Seq<char> {
    if seg.len() > 0 && seg[0] == '/' {
        seg
    } else if base.len() == 0 || base.last() == '/' {
        base + seg
    } else {
        base + seq!['/'] + seg
    }
}

/// `p` without trailing separators.
pub open spec fn trim_trailing_slashes(p: Seq<char>) -> Seq<char>
    decreases p.len(),
{
    if p.len() > 0 && p.last() == '/' {
        trim_trailing_slashes(p.drop_last())
    } else {
        p
    }
}

/// `p` without leading separators.
pub open spec fn trim_leading_slashes(p: Seq<char>) -> Seq<char>
    decreases p.len(),
{
    if p.len() > 0 && p[0] == '/' {
        trim_leading_slashes(p.drop_first())
    } else {
        p
    }
}

/// The index of the last separator in `p`.
pub open spec fn last_slash(p: Seq<char>) -> Option<int>
    decreases p.len(),
{
    if p.len() == 0 {
        None
    } else if p.last() == '/' {
        Some(p.len() - 1)
    } else {
        last_slash(p.drop_last())
    }
}

/// The directory holding `p`: everything before its last component, the
/// root for a top-level absolute path, and empty when there is none.
pub open spec fn parent_spec(p: Seq<char>) -> Seq<char> {
    let t = trim_trailing_slashes(p);
    match last_slash(t) {
        None => seq![],
        Some(k) => {
            let d = trim_trailing_slashes(t.take(k));
            if d.len() == 0 {
                seq!['/']
            } else {
                d
            }
        },
    }
}

/// The last component of `p`.
pub open spec fn file_name_spec(p: Seq<char>) -> Seq<char> {
    let t = trim_trailing_slashes(p);
    match last_slash(t) {
        None => t,
        Some(k) => t.skip(k + 1),
    }
}

/// `p`'s file name has the extension `rsx`: it ends in `.rsx` with at
/// least one character before that dot.
pub open spec fn is_rsx_spec(p: Seq<char>) -> bool {
    let f = file_name_spec(p);
    f.len() > 4 && f.skip(f.len() - 4) == ".rsx"@
}

/// `path` relative to `base` when `base` is a leading run of its
/// components; `path` unchanged otherwise.
pub open spec fn relative_to_spec(path: Seq<char>, base: Seq<char>) -> Seq<char> {
    if base.len() == 0 {
        path
    } else if path == base {
        seq![]
    } else if base.last() == '/' && has_prefix(path, base) {
        trim_leading_slashes(path.skip(base.len() as int))
    } else if has_prefix(path, base + seq!['/']) {
        trim_leading_slashes(path.skip(base.len() as int + 1))
    } else {
        path
    }
}

pub(crate) fn copy_slice(s: &[char], a: usize, b: usize) -> (r: Vec<char>)
    requires
        a <= b <= s@.len(),
    ensures
        r@ == s@.subrange(a as int, b as int),
{
    let mut out: Vec<char> = Vec::new();
    for k in a..b
        invariant
            a <= b <= s@.len(),
            out@ == s@.subrange(a as int, k as int),
    {
        out.push(s[k]);
        assert(s@.subrange(a as int, k + 1) =~= s@.subrange(a as int, k as int).push(s@[k as int]));
    }
    out
}

fn append_chars(out: &mut Vec<char>, s: &[char])
    ensures
        final(out)@ == old(out)@ + s@,
{
    let ghost before = out@;
    for k in 0..s.len()
        invariant
            out@ == before + s@.take(k as int),
    {
        out.push(s[k]);
        assert(s@.take(k + 1) =~= s@.take(k as int).push(s@[k as int]));
    }
    assert(s@.take(s@.len() as int) =~= s@);
}

/// Joins two paths as characters.
pub fn join_chars_path(base: &[char], seg: &[char]) -> (r: Vec<char>)
    ensures
        r@ == join_spec(base@, seg@),
{
    if seg.len() > 0 && seg[0] == '/' {
        return copy_slice(seg, 0, seg.len());
    }
    let mut out = copy_slice(base, 0, base.len());
    assert(out@ =~= base@);
    if !(base.len() == 0 || base[base.len() - 1] == '/') {
        out.push('/');
    }
    append_chars(&mut out, seg);
    out
}

/// `seg` joined onto `base`, as Unix `Path::join` does.
pub fn join_path(base: &str, seg: &str) -> (r: String)
    ensures
        r@ == join_spec(base@, seg@),
{
    let j = join_chars_path(chars_of(base).as_slice(), chars_of(seg).as_slice());
    string_of(j.as_slice())
}

/// Length of `p[..n]` without trailing separators.
pub(crate) fn trimmed_len(p: &[char], n: usize) -> (r: usize)
    requires
        n <= p@.len(),
    ensures
        r <= n,
        p@.take(r as int) == trim_trailing_slashes(p@.take(n as int)),
{
    let mut e = n;
    while e > 0 && p[e - 1] == '/'
        invariant
            e <= n <= p@.len(),
            trim_trailing_slashes(p@.take(n as int)) == trim_trailing_slashes(p@.take(e as int)),
        decreases e,
    {
        assert(p@.take(e as int).drop_last() =~= p@.take(e - 1));
        e = e - 1;
    }
    e
}

/// Index of the last separator in `p[..n]`.
pub(crate) fn find_last_slash(p: &[char], n: usize) -> (r: Option<usize>)
    requires
        n <= p@.len(),
    ensures
        match r {
            Some(k) => k < n && last_slash(p@.take(n as int)) == Some(k as int),
            None => last_slash(p@.take(n as int)).is_none(),
        },
{
    let mut e = n;
    while e > 0 && p[e - 1] != '/'
        invariant
            e <= n <= p@.len(),
            last_slash(p@.take(n as int)) == last_slash(p@.take(e as int)),
        decreases e,
    {
        assert(p@.take(e as int).drop_last() =~= p@.take(e - 1));
        e = e - 1;
    }
    if e == 0 {
        None
    } else {
        Some(e - 1)
    }
}

/// The directory holding `path`.
pub fn parent_dir(path: &str) -> (r: String)
    ensures
        r@ == parent_spec(path@),
{
    let p = chars_of(path);
    let t = trimmed_len(p.as_slice(), p.len());
    assert(p@.take(p@.len() as int) =~= p@);
    match find_last_slash(p.as_slice(), t) {
        None => String::new(),
        Some(k) => {
            assert(p@.take(t as int).take(k as int) =~= p@.take(k as int));
            let d = trimmed_len(p.as_slice(), k);
            if d == 0 {
                let mut out: Vec<char> = Vec::new();
                out.push('/');
                assert(out@ =~= seq!['/']);
                string_of(out.as_slice())
            } else {
                string_of(copy_slice(p.as_slice(), 0, d).as_slice())
            }
        },
    }
}

/// The last component of `path`.
pub fn file_name(path: &str) -> (r: String)
    ensures
        r@ == file_name_spec(path@),
{
    let p = chars_of(path);
    let t = trimmed_len(p.as_slice(), p.len());
    assert(p@.take(p@.len() as int) =~= p@);
    match find_last_slash(p.as_slice(), t) {
        None => string_of(copy_slice(p.as_slice(), 0, t).as_slice()),
        Some(k) => {
            assert(p@.take(t as int).skip(k + 1) =~= p@.subrange(k + 1, t as int));
            string_of(copy_slice(p.as_slice(), k + 1, t).as_slice())
        },
    }
}

/// Whether `path`'s file name has the extension `rsx`.
pub fn is_rsx_path(path: &str) -> (r: bool)
    ensures
        r == is_rsx_spec(path@),
{
    let f = chars_of(file_name(path).as_str());
    if f.len() <= 4 {
        return false;
    }
    let ext = chars_of(".rsx");
    proof {
        reveal_strlit(".rsx");
    }
    let tail = copy_slice(f.as_slice(), f.len() - 4, f.len());
    let r = crate::text::matches_at(tail.as_slice(), ext.as_slice(), 0);
    assert(r == (tail@ == ext@)) by {
        assert(tail@.subrange(0, 4) =~= tail@);
    }
    assert(f@.skip(f@.len() - 4) =~= tail@);
    r
}

/// Index of the first character after the separators at `i`.
fn skip_slashes(p: &[char], i: usize) -> (r: usize)
    requires
        i <= p@.len(),
    ensures
        i <= r <= p@.len(),
        p@.skip(r as int) == trim_leading_slashes(p@.skip(i as int)),
{
    let mut j = i;
    while j < p.len() && p[j] == '/'
        invariant
            i <= j <= p@.len(),
            trim_leading_slashes(p@.skip(i as int)) == trim_leading_slashes(p@.skip(j as int)),
        decreases p@.len() - j,
    {
        assert(p@.skip(j as int).drop_first() =~= p@.skip(j + 1));
        j = j + 1;
    }
    j
}

/// `path` relative to `base` when it lies under it; `path` unchanged
/// otherwise.
pub fn relative_to(path: &str, base: &str) -> (r: String)
    ensures
        r@ == relative_to_spec(path@, base@),
{
    let p = chars_of(path);
    let b = chars_of(base);
    if b.len() == 0 {
        return path.to_owned();
    }
    if crate::text::matches_at(p.as_slice(), b.as_slice(), 0) && p.len() == b.len() {
        assert(p@.subrange(0, b@.len() as int) =~= p@);
        return String::new();
    }
    proof {
        if p@ == b@ {
            assert(p@.subrange(0, b@.len() as int) =~= p@);
        }
    }
    if b[b.len() - 1] == '/' && starts_with_chars(p.as_slice(), b.as_slice()) {
        let j = skip_slashes(p.as_slice(), b.len());
        return string_of(copy_slice(p.as_slice(), j, p.len()).as_slice());
    }
    let mut bs = copy_slice(b.as_slice(), 0, b.len());
    bs.push('/');
    assert(bs@ =~= b@ + seq!['/']);
    if starts_with_chars(p.as_slice(), bs.as_slice()) {
        assert(bs@.len() <= p@.len());
        let j = skip_slashes(p.as_slice(), bs.len());
        return string_of(copy_slice(p.as_slice(), j, p.len()).as_slice());
    }
    path.to_owned()
}

/// The pieces of `p` between separators, in order, skipping empty ones.
pub open spec fn pieces(p: Seq<char>) -> Seq<Seq<char>>
    decreases p.len(),
{
    if p.len() == 0 {
        seq![]
    } else {
        let before = pieces(p.drop_last());
        if p.last() == '/' {
            before
        } else if p.len() >= 2 && p[p.len() - 2] != '/' {
            before.drop_last().push(before.last().push(p.last()))
        } else {
            before.push(seq![p.last()])
        }
    }
}

/// The normal components of `p` with `.` removed and each `..` removing
/// the component before it (if any), as lexical normalization does.
pub open spec fn normalized_parts(parts: Seq<Seq<char>>) -> Seq<Seq<char>>
    decreases parts.len(),
{
    if parts.len() == 0 {
        seq![]
    } else {
        let before = normalized_parts(parts.drop_last());
        let c = parts.last();
        if c == seq!['.', '.'] {
            if before.len() > 0 {
                before.drop_last()
            } else {
                before
            }
        } else if c == seq!['.'] {
            before
        } else {
            before.push(c)
        }
    }
}

/// `p` with its `.` and `..` components resolved without touching the
/// filesystem: an absolute path stays absolute, and a `..` with nothing
/// before it is dropped.
pub open spec fn normalize_spec(p: Seq<char>) -> (bool, Seq<Seq<char>>) {
    (p.len() > 0 && p[0] == '/', normalized_parts(pieces(p)))
}

/// The text of a normalized path.
pub open spec fn render_path(n: (bool, Seq<Seq<char>>)) -> Seq<char> {
    if n.0 {
        seq!['/'] + crate::text::join(n.1, seq!['/'])
    } else {
        crate::text::join(n.1, seq!['/'])
    }
}

/// `path` relative to `crate_dir` after lexical normalization of both,
/// or nothing when it does not lie under `crate_dir`.
pub open spec fn crate_relative_spec(path: Seq<char>, crate_dir: Seq<char>) -> Option<Seq<char>> {
    let p = normalize_spec(path);
    let c = normalize_spec(crate_dir);
    if !c.0 && c.1.len() == 0 {
        Some(render_path(p))
    } else if p.0 == c.0 && c.1.len() <= p.1.len() && p.1.take(c.1.len() as int) == c.1 {
        Some(crate::text::join(p.1.skip(c.1.len() as int), seq!['/']))
    } else {
        None
    }
}

/// Splits a path into its non-empty pieces.
fn split_pieces(p: &[char]) -> (r: Vec<Vec<char>>)
    ensures
        crate::text::views(r@) == pieces(p@),
{
    let mut out: Vec<Vec<char>> = Vec::new();
    let n = p.len();
    for i in 0..n
        invariant
            n == p@.len(),
            crate::text::views(out@) == pieces(p@.take(i as int)),
    {
        let c = p[i];
        let ghost before = crate::text::views(out@);
        assert(p@.take(i + 1).drop_last() =~= p@.take(i as int));
        assert(p@.take(i + 1).last() == c);
        if c == '/' {
        } else if i >= 1 && p[i - 1] != '/' {
            assert(p@.take(i + 1)[i - 1] == p@[i - 1]);
            proof {
                lemma_pieces_nonempty(p@.take(i as int));
            }
            let mut last = out.pop().unwrap();
            last.push(c);
            out.push(last);
            assert(crate::text::views(out@) =~= before.drop_last().push(before.last().push(c)));
        } else {
            let mut piece: Vec<char> = Vec::new();
            piece.push(c);
            out.push(piece);
            assert(crate::text::views(out@) =~= before.push(seq![c]));
        }
    }
    assert(p@.take(n as int) =~= p@);
    out
}

proof fn lemma_pieces_nonempty(p: Seq<char>)
    requires
        p.len() > 0,
        p.last() != '/',
    ensures
        pieces(p).len() > 0,
    decreases p.len(),
{
    if p.len() >= 2 && p[p.len() - 2] != '/' {
        lemma_pieces_nonempty(p.drop_last());
    }
}

fn is_dot_dot(c: &Vec<char>) -> (r: bool)
    ensures
        r == (c@ == seq!['.', '.']),
{
    let r = c.len() == 2 && c[0] == '.' && c[1] == '.';
    proof {
        if c@.len() == 2 && c@[0] == '.' && c@[1] == '.' {
            assert(c@ =~= seq!['.', '.']);
        }
    }
    r
}

fn is_dot(c: &Vec<char>) -> (r: bool)
    ensures
        r == (c@ == seq!['.']),
{
    let r = c.len() == 1 && c[0] == '.';
    proof {
        if c@.len() == 1 && c@[0] == '.' {
            assert(c@ =~= seq!['.']);
        }
    }
    r
}

/// The normalized form of a path: whether it is absolute, and its parts.
fn normalize_parts(p: &[char]) -> (r: (bool, Vec<Vec<char>>))
    ensures
        (r.0, crate::text::views(r.1@)) == normalize_spec(p@),
{
    let parts = split_pieces(p);
    let ghost pv = crate::text::views(parts@);
    let mut out: Vec<Vec<char>> = Vec::new();
    for i in 0..parts.len()
        invariant
            pv == crate::text::views(parts@),
            crate::text::views(out@) == normalized_parts(pv.take(i as int)),
    {
        let c = &parts[i];
        assert(pv.take(i + 1).drop_last() =~= pv.take(i as int));
        assert(pv.take(i + 1).last() == c@);
        let ghost before = crate::text::views(out@);
        if is_dot_dot(c) {
            if out.len() > 0 {
                out.pop();
                assert(crate::text::views(out@) =~= before.drop_last());
            }
        } else if is_dot(c) {
        } else {
            out.push(copy_slice(c.as_slice(), 0, c.len()));
            assert(c@.subrange(0, c@.len() as int) =~= c@);
            assert(crate::text::views(out@) =~= before.push(c@));
        }
    }
    assert(pv.take(pv.len() as int) =~= pv);
    (p.len() > 0 && p[0] == '/', out)
}

/// Resolves `.` and `..` components lexically, without touching the
/// filesystem, so it works for paths that do not exist.
pub fn normalize_lexically(path: &str) -> (r: String)
    ensures
        r@ == render_path(normalize_spec(path@)),
{
    let p = chars_of(path);
    let (absolute, parts) = normalize_parts(p.as_slice());
    let slash: Vec<char> = vec!['/'];
    assert(slash@ =~= seq!['/']);
    let joined = crate::text::join_chars(&parts, slash.as_slice());
    if absolute {
        let mut out: Vec<char> = Vec::new();
        out.push('/');
        append_chars(&mut out, joined.as_slice());
        assert(out@ =~= seq!['/'] + joined@);
        string_of(out.as_slice())
    } else {
        string_of(joined.as_slice())
    }
}

/// `path` relative to `crate_dir` when, after lexical normalization of
/// both, it lies under `crate_dir`; nothing otherwise (an absolute path
/// elsewhere, or enough `..` to escape).
pub fn crate_relative(path: &str, crate_dir: &str) -> (r: Option<String>)
    ensures
        match r {
            Some(s) => crate_relative_spec(path@, crate_dir@) == Some(s@),
            None => crate_relative_spec(path@, crate_dir@).is_none(),
        },
{
    let (p_abs, p_parts) = normalize_parts(chars_of(path).as_slice());
    let (c_abs, c_parts) = normalize_parts(chars_of(crate_dir).as_slice());
    let ghost pv = crate::text::views(p_parts@);
    let ghost cv = crate::text::views(c_parts@);
    let slash: Vec<char> = vec!['/'];
    assert(slash@ =~= seq!['/']);
    if !c_abs && c_parts.len() == 0 {
        return Some(normalize_lexically(path));
    }
    if p_abs != c_abs || c_parts.len() > p_parts.len() {
        return None;
    }
    let mut k: usize = 0;
    while k < c_parts.len()
        invariant
            c_parts@.len() <= p_parts@.len(),
            0 <= k <= c_parts@.len(),
            pv == crate::text::views(p_parts@),
            cv == crate::text::views(c_parts@),
            (p_abs, pv) == normalize_spec(path@),
            (c_abs, cv) == normalize_spec(crate_dir@),
            p_abs == c_abs,
            c_abs || cv.len() > 0,
            forall|j: int| 0 <= j < k ==> pv[j] == cv[j],
        decreases c_parts@.len() - k,
    {
        assert(pv[k as int] == p_parts@[k as int]@ && cv[k as int] == c_parts@[k as int]@);
        if !same_chars_vec(&p_parts[k], &c_parts[k]) {
            assert(pv.take(cv.len() as int)[k as int] != cv[k as int]);
            return None;
        }
        k = k + 1;
    }
    assert(pv.take(cv.len() as int) =~= cv);
    let mut rest: Vec<Vec<char>> = Vec::new();
    let mut i = c_parts.len();
    while i < p_parts.len()
        invariant
            c_parts@.len() <= i <= p_parts@.len(),
            pv == crate::text::views(p_parts@),
            cv == crate::text::views(c_parts@),
            crate::text::views(rest@) == pv.subrange(cv.len() as int, i as int),
        decreases p_parts@.len() - i,
    {
        let piece = &p_parts[i];
        assert(pv[i as int] == piece@);
        let copy = copy_slice(piece.as_slice(), 0, piece.len());
        assert(copy@ =~= piece@);
        let ghost before = crate::text::views(rest@);
        rest.push(copy);
        assert(crate::text::views(rest@) =~= before.push(piece@));
        assert(crate::text::views(rest@) =~= pv.subrange(cv.len() as int, i + 1));
        i = i + 1;
    }
    assert(pv.subrange(cv.len() as int, pv.len() as int) =~= pv.skip(cv.len() as int));
    Some(string_of(crate::text::join_chars(&rest, slash.as_slice()).as_slice()))
}

fn same_chars_vec(a: &Vec<char>, b: &Vec<char>) -> (r: bool)
    ensures
        r == (a@ == b@),
{
    if a.len() != b.len() {
        return false;
    }
    let mut i: usize = 0;
    while i < a.len()
        invariant
            a@.len() == b@.len(),
            0 <= i <= a@.len(),
            forall|j: int| 0 <= j < i ==> a@[j] == b@[j],
        decreases a@.len() - i,
    {
        if a[i] != b[i] {
            return false;
        }
        i = i + 1;
    }
    assert(a@ =~= b@);
    true
}

} // verus!
