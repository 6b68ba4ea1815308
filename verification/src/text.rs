//! Character-level text helpers with exact specifications: substring
//! search, replacement, trimming, line splitting and joining, over
//! sequences of `char`.
use vstd::prelude::*;

verus! {

broadcast use vstd::string::group_string_axioms;

/// The characters of `s`, in order.
pub fn chars_of(s: &str) -> (r: Vec<char>)
    ensures
        r@ == s@,
{
    let mut out: Vec<char> = Vec::new();
    for c in it: s.chars()
        invariant
            out@ == it.seq().take(it.index() as int),
    {
        out.push(c);
    }
    out
}

/// `String::push`: appends one character to the string.
#[verifier::external_body]
fn push_char(s: &mut String, c: char)
    ensures
        final(s)@ == old(s)@.push(c),
{
    s.push(c);
}

/// The string made of `chars`, in order.
pub fn string_of(chars: &[char]) -> (r: String)
    ensures
        r@ == chars@,
{
    let mut out = String::new();
    for i in 0..chars.len()
        invariant
            out@ == chars@.take(i as int),
    {
        push_char(&mut out, chars[i]);
        assert(chars@.take(i + 1) =~= chars@.take(i as int).push(chars@[i as int]));
    }
    assert(chars@.take(chars@.len() as int) =~= chars@);
    out
}

/// `a`, `b` and `c` one after another.
pub fn concat3(a: &str, b: &str, c: &str) -> (r: String)
    ensures
        r@ == a@ + b@ + c@,
{
    let mut out = String::new();
    let xs = chars_of(a);
    let ys = chars_of(b);
    let zs = chars_of(c);
    for i in 0..xs.len()
        invariant
            out@ == xs@.take(i as int),
    {
        push_char(&mut out, xs[i]);
        assert(xs@.take(i + 1) =~= xs@.take(i as int).push(xs@[i as int]));
    }
    assert(xs@.take(xs@.len() as int) =~= xs@);
    for i in 0..ys.len()
        invariant
            out@ == xs@ + ys@.take(i as int),
    {
        push_char(&mut out, ys[i]);
        assert(ys@.take(i + 1) =~= ys@.take(i as int).push(ys@[i as int]));
    }
    assert(ys@.take(ys@.len() as int) =~= ys@);
    for i in 0..zs.len()
        invariant
            out@ == xs@ + ys@ + zs@.take(i as int),
    {
        push_char(&mut out, zs[i]);
        assert(zs@.take(i + 1) =~= zs@.take(i as int).push(zs@[i as int]));
    }
    assert(zs@.take(zs@.len() as int) =~= zs@);
    out
}

/// Whether two strings are the same text.
pub fn same_text(a: &str, b: &str) -> (r: bool)
    ensures
        r == (a@ == b@),
{
    a.to_owned() == b.to_owned()
}

/// `n` occurs in `h` starting at index `i`.
pub open spec fn occurs_at(h: Seq<char>, n: Seq<char>, i: int) -> bool {
    0 <= i && i + n.len() <= h.len() && h.subrange(i, i + n.len()) == n
}

/// `n` occurs somewhere in `h` (the empty sequence occurs everywhere).
pub open spec fn has_substring(h: Seq<char>, n: Seq<char>) -> bool {
    exists|i: int| occurs_at(h, n, i)
}

/// `h` begins with `n`.
pub open spec fn has_prefix(h: Seq<char>, n: Seq<char>) -> bool {
    occurs_at(h, n, 0)
}

/// Some sequence of `ns` occurs in `h`.
pub open spec fn has_any_substring(h: Seq<char>, ns: Seq<Seq<char>>) -> bool {
    exists|k: int| 0 <= k < ns.len() && has_substring(h, #[trigger] ns[k])
}

/// The contents of each vector.
pub open spec fn views(v: Seq<Vec<char>>) -> Seq<Seq<char>> {
    v.map_values(|x: Vec<char>| x@)
}

/// Whether `n` occurs in `h` at index `i`.
pub fn matches_at(h: &[char], n: &[char], i: usize) -> (r: bool)
    ensures
        r == occurs_at(h@, n@, i as int),
{
    if i > h.len() || n.len() > h.len() - i {
        return false;
    }
    let mut k: usize = 0;
    while k < n.len()
        invariant
            i + n@.len() <= h@.len(),
            h@.len() == h.len(),
            0 <= k <= n@.len(),
            forall|j: int| 0 <= j < k ==> h@[i + j] == n@[j],
        decreases n@.len() - k,
    {
        assert(i + k < h.len());
        if h[i + k] != n[k] {
            assert(h@.subrange(i as int, i + n@.len())[k as int] != n@[k as int]);
            return false;
        }
        k = k + 1;
    }
    assert(h@.subrange(i as int, i + n@.len()) =~= n@);
    true
}

/// Whether `n` occurs anywhere in `h`.
pub fn contains_chars(h: &[char], n: &[char]) -> (r: bool)
    ensures
        r == has_substring(h@, n@),
{
    if n.len() == 0 {
        assert(occurs_at(h@, n@, 0)) by {
            assert(h@.subrange(0, 0) =~= n@);
        }
        return true;
    }
    let mut i: usize = 0;
    while i < h.len()
        invariant
            0 <= i <= h@.len(),
            n@.len() > 0,
            forall|j: int| 0 <= j < i ==> !occurs_at(h@, n@, j),
        decreases h@.len() - i,
    {
        if matches_at(h, n, i) {
            return true;
        }
        i = i + 1;
    }
    false
}

/// Whether `h` begins with `n`.
pub fn starts_with_chars(h: &[char], n: &[char]) -> (r: bool)
    ensures
        r == has_prefix(h@, n@),
{
    matches_at(h, n, 0)
}

/// `s` ends with `suffix`.
pub open spec fn has_suffix(s: Seq<char>, suffix: Seq<char>) -> bool {
    suffix.len() <= s.len() && s.skip(s.len() - suffix.len()) == suffix
}

/// Whether `s` ends with `suffix`.
pub fn ends_with_chars(s: &[char], suffix: &[char]) -> (r: bool)
    ensures
        r == has_suffix(s@, suffix@),
{
    if suffix.len() > s.len() {
        return false;
    }
    let start = s.len() - suffix.len();
    let r = matches_at(s, suffix, start);
    assert(r == has_suffix(s@, suffix@)) by {
        assert(s@.subrange(start as int, start + suffix@.len()) =~= s@.skip(start as int));
    }
    r
}

/// Whether any of `ns` occurs in `h`.
pub fn contains_any(h: &[char], ns: &Vec<Vec<char>>) -> (r: bool)
    ensures
        r == has_any_substring(h@, views(ns@)),
{
    let mut found = false;
    for k in 0..ns.len()
        invariant
            found == exists|j: int| 0 <= j < k && has_substring(h@, #[trigger] views(ns@)[j]),
    {
        if contains_chars(h, ns[k].as_slice()) {
            found = true;
        }
        assert(views(ns@)[k as int] == ns@[k as int]@);
    }
    found
}

/// `s` with every non-overlapping occurrence of `pat`, scanning from the
/// left, replaced by `rep`.
pub open spec fn replace_all(s: Seq<char>, pat: Seq<char>, rep: Seq<char>) -> Seq<char>
    decreases s.len(),
{
    if pat.len() == 0 || s.len() < pat.len() {
        s
    } else if s.subrange(0, pat.len() as int) == pat {
        rep + replace_all(s.subrange(pat.len() as int, s.len() as int), pat, rep)
    } else {
        seq![s[0]] + replace_all(s.subrange(1, s.len() as int), pat, rep)
    }
}

/// Replaces every non-overlapping occurrence of `pat` (left to right) by
/// `rep`.
pub fn replace_chars(s: &[char], pat: &[char], rep: &[char]) -> (r: Vec<char>)
    requires
        pat@.len() > 0,
    ensures
        r@ == replace_all(s@, pat@, rep@),
{
    let mut out: Vec<char> = Vec::new();
    let mut i: usize = 0;
    let n = s.len();
    assert(s@.subrange(0, n as int) =~= s@);
    assert(out@ + s@ =~= s@);
    while i < n
        invariant
            n == s@.len(),
            0 <= i <= n,
            pat@.len() > 0,
            out@ + replace_all(s@.subrange(i as int, n as int), pat@, rep@) == replace_all(
                s@,
                pat@,
                rep@,
            ),
        decreases n - i,
    {
        let ghost rest = s@.subrange(i as int, n as int);
        if matches_at(s, pat, i) {
            assert(rest.subrange(0, pat@.len() as int) =~= s@.subrange(i as int, i + pat@.len()));
            assert(rest.subrange(pat@.len() as int, rest.len() as int) =~= s@.subrange(
                i + pat@.len(),
                n as int,
            ));
            let ghost before = out@;
            for k in 0..rep.len()
                invariant
                    out@ == before + rep@.take(k as int),
            {
                out.push(rep[k]);
                assert(rep@.take(k + 1) =~= rep@.take(k as int).push(rep@[k as int]));
            }
            assert(rep@.take(rep@.len() as int) =~= rep@);
            assert(before + (rep@ + replace_all(
                s@.subrange(i + pat@.len(), n as int),
                pat@,
                rep@,
            )) =~= out@ + replace_all(s@.subrange(i + pat@.len(), n as int), pat@, rep@));
            i = i + pat.len();
        } else {
            proof {
                if rest.len() >= pat@.len() {
                    assert(rest.subrange(0, pat@.len() as int) =~= s@.subrange(
                        i as int,
                        i + pat@.len(),
                    ));
                }
            }
            assert(rest.subrange(1, rest.len() as int) =~= s@.subrange(i + 1, n as int));
            let ghost before = out@;
            out.push(s[i]);
            proof {
                if rest.len() < pat@.len() {
                    assert(replace_all(rest, pat@, rep@) == rest);
                    lemma_replace_all_short(s@.subrange(i + 1, n as int), pat@, rep@);
                    assert(rest =~= seq![s@[i as int]] + s@.subrange(i + 1, n as int));
                }
            }
            assert(before + (seq![s@[i as int]] + replace_all(
                s@.subrange(i + 1, n as int),
                pat@,
                rep@,
            )) =~= out@ + replace_all(s@.subrange(i + 1, n as int), pat@, rep@));
            i = i + 1;
        }
    }
    assert(replace_all(s@.subrange(n as int, n as int), pat@, rep@) =~= Seq::<char>::empty());
    assert(out@ + Seq::<char>::empty() =~= out@);
    out
}

proof fn lemma_replace_all_short(s: Seq<char>, pat: Seq<char>, rep: Seq<char>)
    requires
        s.len() < pat.len(),
    ensures
        replace_all(s, pat, rep) == s,
{
}

/// Unicode's `White_Space` property, the set `char::is_whitespace` and
/// `str::trim` use.
pub open spec fn is_white_space(c: char) -> bool {
    let u = c as u32;
    u == 0x09 || u == 0x0A || u == 0x0B || u == 0x0C || u == 0x0D || u == 0x20 || u == 0x85 || u
        == 0xA0 || u == 0x1680 || (0x2000 <= u <= 0x200A) || u == 0x2028 || u == 0x2029 || u
        == 0x202F || u == 0x205F || u == 0x3000
}

/// Whether `c` is white space.
pub fn white_space(c: char) -> (r: bool)
    ensures
        r == is_white_space(c),
{
    let u = c as u32;
    u == 0x09 || u == 0x0A || u == 0x0B || u == 0x0C || u == 0x0D || u == 0x20 || u == 0x85 || u
        == 0xA0 || u == 0x1680 || (0x2000 <= u && u <= 0x200A) || u == 0x2028 || u == 0x2029 || u
        == 0x202F || u == 0x205F || u == 0x3000
}

/// `s` without its leading white space.
pub open spec fn trim_start(s: Seq<char>) -> Seq<char>
    decreases s.len(),
{
    if s.len() > 0 && is_white_space(s[0]) {
        trim_start(s.drop_first())
    } else {
        s
    }
}

/// `s` without its trailing white space.
pub open spec fn trim_end(s: Seq<char>) -> Seq<char>
    decreases s.len(),
{
    if s.len() > 0 && is_white_space(s.last()) {
        trim_end(s.drop_last())
    } else {
        s
    }
}

/// `s` without leading or trailing white space.
pub open spec fn trim(s: Seq<char>) -> Seq<char> {
    trim_end(trim_start(s))
}

/// Removes leading and trailing white space.
pub fn trim_chars(s: &[char]) -> (r: Vec<char>)
    ensures
        r@ == trim(s@),
{
    let n = s.len();
    let mut a: usize = 0;
    assert(s@.subrange(0, n as int) =~= s@);
    while a < n && white_space(s[a])
        invariant
            n == s@.len(),
            0 <= a <= n,
            trim_start(s@) == trim_start(s@.subrange(a as int, n as int)),
        decreases n - a,
    {
        assert(s@.subrange(a as int, n as int).drop_first() =~= s@.subrange(a + 1, n as int));
        a = a + 1;
    }
    assert(trim_start(s@) == s@.subrange(a as int, n as int));
    let mut b: usize = n;
    while b > a && white_space(s[b - 1])
        invariant
            n == s@.len(),
            0 <= a <= b <= n,
            trim(s@) == trim_end(s@.subrange(a as int, b as int)),
        decreases b - a,
    {
        assert(s@.subrange(a as int, b as int).drop_last() =~= s@.subrange(a as int, b - 1));
        b = b - 1;
    }
    let mut out: Vec<char> = Vec::new();
    for k in a..b
        invariant
            a <= b <= n,
            n == s@.len(),
            out@ == s@.subrange(a as int, k as int),
    {
        out.push(s[k]);
        assert(s@.subrange(a as int, k + 1) =~= s@.subrange(a as int, k as int).push(s@[k as int]));
    }
    out
}

/// The first index at or after `i` holding a line feed, or the length.
pub open spec fn next_newline(s: Seq<char>, i: int) -> int
    decreases s.len() - i,
{
    if i >= s.len() || s[i] == '\n' {
        i
    } else {
        next_newline(s, i + 1)
    }
}

/// A line that ended in a line feed, without the carriage return of a
/// `\r\n` ending.
pub open spec fn strip_cr(line: Seq<char>) -> Seq<char> {
    if line.len() > 0 && line.last() == '\r' {
        line.drop_last()
    } else {
        line
    }
}

/// The lines of `s` from index `start` on, as `str::lines` yields them:
/// split after each line feed, with the `\n` or `\r\n` ending removed; a
/// final line ending starts no extra empty line, and a bare `\r` at the
/// very end stays.
pub open spec fn lines_from(s: Seq<char>, start: int) -> Seq<Seq<char>>
    decreases s.len() - start,
{
    if start < 0 || start >= s.len() {
        seq![]
    } else {
        let e = next_newline(s, start);
        proof {
            lemma_next_newline(s, start);
        }
        if e >= s.len() {
            seq![s.subrange(start, s.len() as int)]
        } else {
            seq![strip_cr(s.subrange(start, e))] + lines_from(s, e + 1)
        }
    }
}

/// The lines of `s`.
pub open spec fn lines(s: Seq<char>) -> Seq<Seq<char>> {
    lines_from(s, 0)
}

/// Where the next line feed lies.
pub proof fn lemma_next_newline(s: Seq<char>, i: int)
    requires
        0 <= i,
    ensures
        i <= next_newline(s, i),
        i <= s.len() ==> next_newline(s, i) <= s.len(),
        next_newline(s, i) < s.len() ==> s[next_newline(s, i)] == '\n',
        forall|k: int| i <= k < next_newline(s, i) && k < s.len() ==> s[k] != '\n',
    decreases s.len() - i,
{
    if i < s.len() && s[i] != '\n' {
        lemma_next_newline(s, i + 1);
    }
}

/// Splits `s` into lines as `str::lines` does.
pub fn split_lines(s: &[char]) -> (r: Vec<Vec<char>>)
    ensures
        views(r@) == lines(s@),
{
    let n = s.len();
    let mut out: Vec<Vec<char>> = Vec::new();
    let mut start: usize = 0;
    while start < n
        invariant
            n == s@.len(),
            0 <= start <= n,
            views(out@) + lines_from(s@, start as int) == lines(s@),
        decreases n - start,
    {
        let mut e = start;
        while e < n && s[e] != '\n'
            invariant
                n == s@.len(),
                start <= e <= n,
                next_newline(s@, start as int) == next_newline(s@, e as int),
            decreases n - e,
        {
            e = e + 1;
        }
        let mut line: Vec<char> = Vec::new();
        for k in start..e
            invariant
                start <= e <= n,
                n == s@.len(),
                line@ == s@.subrange(start as int, k as int),
        {
            line.push(s[k]);
            assert(s@.subrange(start as int, k + 1) =~= s@.subrange(start as int, k as int).push(
                s@[k as int],
            ));
        }
        let ghost before = views(out@);
        if e < n {
            if line.len() > 0 && line[line.len() - 1] == '\r' {
                line.pop();
            }
            assert(line@ == strip_cr(s@.subrange(start as int, e as int)));
            out.push(line);
            assert(views(out@) =~= before.push(strip_cr(s@.subrange(start as int, e as int))));
            assert(lines_from(s@, start as int) == seq![strip_cr(s@.subrange(start as int, e as int))]
                + lines_from(s@, e + 1));
            assert(before + lines_from(s@, start as int) =~= views(out@) + lines_from(
                s@,
                e + 1,
            ));
            start = e + 1;
        } else {
            out.push(line);
            assert(views(out@) =~= before.push(s@.subrange(start as int, n as int)));
            assert(lines_from(s@, n as int) =~= Seq::<Seq<char>>::empty());
            assert(before + lines_from(s@, start as int) =~= views(out@) + lines_from(
                s@,
                n as int,
            ));
            start = n;
        }
    }
    assert(lines_from(s@, start as int) =~= Seq::<Seq<char>>::empty());
    assert(views(out@) + Seq::<Seq<char>>::empty() =~= views(out@));
    out
}

/// The parts joined with `sep` between each neighbouring pair.
pub open spec fn join(parts: Seq<Seq<char>>, sep: Seq<char>) -> Seq<char>
    decreases parts.len(),
{
    if parts.len() == 0 {
        seq![]
    } else if parts.len() == 1 {
        parts[0]
    } else {
        join(parts.drop_last(), sep) + sep + parts.last()
    }
}

/// Joins `parts` with `sep` between each neighbouring pair.
pub fn join_chars(parts: &Vec<Vec<char>>, sep: &[char]) -> (r: Vec<char>)
    ensures
        r@ == join(views(parts@), sep@),
{
    let mut out: Vec<char> = Vec::new();
    for i in 0..parts.len()
        invariant
            out@ == join(views(parts@.take(i as int)), sep@),
    {
        let ghost before = out@;
        if i > 0 {
            for k in 0..sep.len()
                invariant
                    out@ == before + sep@.take(k as int),
            {
                out.push(sep[k]);
                assert(sep@.take(k + 1) =~= sep@.take(k as int).push(sep@[k as int]));
            }
            assert(sep@.take(sep@.len() as int) =~= sep@);
        }
        let ghost mid = out@;
        let part = &parts[i];
        for k in 0..part.len()
            invariant
                out@ == mid + part@.take(k as int),
        {
            out.push(part[k]);
            assert(part@.take(k + 1) =~= part@.take(k as int).push(part@[k as int]));
        }
        assert(part@.take(part@.len() as int) =~= part@);
        let ghost next = views(parts@.take(i + 1));
        assert(next.drop_last() =~= views(parts@.take(i as int)));
        assert(next.last() == part@);
        if i == 0 {
            assert(out@ =~= next[0]);
        } else {
            assert(out@ =~= join(next.drop_last(), sep@) + sep@ + next.last());
        }
    }
    assert(parts@.take(parts@.len() as int) =~= parts@);
    out
}

} // verus!
