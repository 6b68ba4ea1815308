//! Resolving `mod` declarations across `.rs` and `.rsx` files: the
//! candidate files for `mod name;`, the directory-ownership model that
//! decides where candidates and `#[path]` targets are looked up,
//! generated-name disambiguation for siblings sharing a name, and the
//! small attribute and path helpers the resolver composes.
use vstd::prelude::*;

use crate::complete::{pieces_from, split_commas, without_prefix};
use crate::legend::names_of;
use crate::paths::{
    file_name_spec, is_rsx_path, is_rsx_spec, join_path, join_spec, parent_dir, parent_spec,
    relative_to, relative_to_spec,
};
use crate::text::{
    chars_of, has_prefix, join, join_chars, starts_with_chars, string_of, trim, trim_chars,
    trim_start, views,
};

verus! {

/// Module nesting depth cap: every newly opened file deepens the chain by
/// one, and a chain this deep is an error rather than a stack overflow.
pub const MAX_MODULE_DEPTH: usize = 128;

/// Stem of the crate root's generated file, whatever the root file's own
/// name.
pub const GENERATED_ROOT_STEM: &'static str = "crate-root";

/// Kind of source file a module lives in.
#[derive(Debug, Clone, Copy, PartialEq, Eq, Structural)]
pub enum SourceKind {
    /// Goes through the Outou front end and codegen.
    Rsx,
    /// Plain Rust, copied or referenced as is.
    Rust,
}

/// The extension decides the kind: `.rsx` goes through the Outou front
/// end, anything else is plain Rust.
pub fn source_kind_from_extension(path: &str) -> (r: SourceKind)
    ensures
        r == (if is_rsx_spec(path@) {
            SourceKind::Rsx
        } else {
            SourceKind::Rust
        }),
{
    if is_rsx_path(path) {
        SourceKind::Rsx
    } else {
        SourceKind::Rust
    }
}

/// `name` without a leading raw-identifier `r#`.
pub fn unraw(name: &str) -> (r: String)
    ensures
        r@ == without_prefix(name@, "r#"@),
{
    let n = chars_of(name);
    let p = chars_of("r#");
    if starts_with_chars(n.as_slice(), p.as_slice()) {
        let mut out: Vec<char> = Vec::new();
        let mut k = p.len();
        while k < n.len()
            invariant
                p@.len() <= n@.len(),
                p@.len() <= k <= n@.len(),
                out@ == n@.subrange(p@.len() as int, k as int),
            decreases n@.len() - k,
        {
            out.push(n[k]);
            assert(n@.subrange(p@.len() as int, k + 1) =~= n@.subrange(
                p@.len() as int,
                k as int,
            ).push(n@[k as int]));
            k = k + 1;
        }
        string_of(out.as_slice())
    } else {
        name.to_owned()
    }
}

/// The candidate files for `mod name;` in `dir`, in the order they are
/// listed (not an order of priority): `name.rsx`, `name.rs`,
/// `name/mod.rsx`, `name/mod.rs`.
pub open spec fn candidates_spec(dir: Seq<char>, name: Seq<char>) -> Seq<Seq<char>> {
    seq![
        join_spec(dir, name + ".rsx"@),
        join_spec(dir, name + ".rs"@),
        join_spec(dir, name + "/mod.rsx"@),
        join_spec(dir, name + "/mod.rs"@),
    ]
}

fn with_suffix(name: &str, suffix: &str) -> (r: String)
    ensures
        r@ == name@ + suffix@,
{
    let mut c = chars_of(name);
    let s = chars_of(suffix);
    let ghost base = c@;
    for k in 0..s.len()
        invariant
            c@ == base + s@.take(k as int),
    {
        c.push(s[k]);
        assert(s@.take(k + 1) =~= s@.take(k as int).push(s@[k as int]));
    }
    assert(s@.take(s@.len() as int) =~= s@);
    string_of(c.as_slice())
}

/// The candidate paths for `mod name;` declared in `dir`. `name` should
/// already be unraw'd: no file on disk is spelled with an `r#` prefix.
pub fn candidates(dir: &str, name: &str) -> (r: Vec<String>)
    ensures
        names_of(r@) == candidates_spec(dir@, name@),
{
    let mut out: Vec<String> = Vec::new();
    out.push(join_path(dir, with_suffix(name, ".rsx").as_str()));
    out.push(join_path(dir, with_suffix(name, ".rs").as_str()));
    out.push(join_path(dir, with_suffix(name, "/mod.rsx").as_str()));
    out.push(join_path(dir, with_suffix(name, "/mod.rs").as_str()));
    assert(names_of(out@) =~= candidates_spec(dir@, name@));
    out
}

/// Where an implicit `mod name;` candidate search and an explicit
/// `#[path]` target resolve, for one point in the module tree.
#[derive(Debug, Clone, PartialEq, Eq)]
pub struct DirScope {
    /// Directory an explicit `#[path = "…"]` is resolved against.
    pub dir: String,
    /// Extra segment an implicit `mod name;` candidate search descends
    /// into, on top of `dir`.
    pub relative: Option<String>,
}

impl DirScope {
    /// The directory an implicit candidate search runs in.
    pub open spec fn lookup_dir_spec(&self) -> Seq<char> {
        match self.relative {
            Some(rel) => join_spec(self.dir@, rel@),
            None => self.dir@,
        }
    }

    /// The scope at the crate root: candidate search starts directly in
    /// `src_dir`.
    pub fn root(src_dir: &str) -> (r: Self)
        ensures
            r.dir@ == src_dir@,
            r.relative.is_none(),
    {
        DirScope { dir: src_dir.to_owned(), relative: None }
    }

    /// Directory an implicit `mod name;` candidate search runs in:
    /// `dir` joined with `relative` when set, `dir` otherwise.
    pub fn lookup_dir(&self) -> (r: String)
        ensures
            r@ == self.lookup_dir_spec(),
    {
        match &self.relative {
            Some(relative) => join_path(self.dir.as_str(), relative.as_str()),
            None => self.dir.clone(),
        }
    }

    /// The child scope after opening `target`, the file resolved for a
    /// `mod name;` declaration: `dir` is always the file's own
    /// directory; a plain `name.rs` file descends one level further
    /// (`relative` is `unraw_name`), while a `name/mod.rs`-style or
    /// `#[path]`-loaded file does not.
    pub fn child_of_file(target: &str, unraw_name: &str, is_mod_rs_style: bool) -> (r: Self)
        ensures
            r.dir@ == parent_spec(target@),
            r.relative.is_none() == is_mod_rs_style,
            r.relative.is_some() ==> r.relative.unwrap()@ == unraw_name@,
    {
        let dir = parent_dir(target);
        let relative = if is_mod_rs_style {
            None
        } else {
            Some(unraw_name.to_owned())
        };
        DirScope { dir, relative }
    }

    /// The child scope entered for an inline `mod m { ... }` declared in
    /// this scope: its own `#[path]` target joined onto `dir` when it has
    /// one, else `unraw_name` joined onto the lookup directory.
    pub fn child_of_inline(&self, unraw_name: &str, explicit_path: Option<&str>) -> (r: Self)
        ensures
            r.dir@ == (match explicit_path {
                Some(target) => join_spec(self.dir@, target@),
                None => join_spec(self.lookup_dir_spec(), unraw_name@),
            }),
            r.relative.is_none(),
    {
        let dir = match explicit_path {
            Some(target) => join_path(self.dir.as_str(), target),
            None => join_path(self.lookup_dir().as_str(), unraw_name),
        };
        DirScope { dir, relative: None }
    }
}

/// The decimal digit `d`.
pub open spec fn digit(d: nat) -> char {
    if d == 0 {
        '0'
    } else if d == 1 {
        '1'
    } else if d == 2 {
        '2'
    } else if d == 3 {
        '3'
    } else if d == 4 {
        '4'
    } else if d == 5 {
        '5'
    } else if d == 6 {
        '6'
    } else if d == 7 {
        '7'
    } else if d == 8 {
        '8'
    } else {
        '9'
    }
}

/// The decimal numeral of `n`.
pub open spec fn decimal(n: nat) -> Seq<char>
    decreases n,
{
    if n < 10 {
        seq![digit(n)]
    } else {
        decimal(n / 10) + seq![digit(n % 10)]
    }
}

fn digit_char(d: usize) -> (r: char)
    requires
        d < 10,
    ensures
        r == digit(d as nat),
{
    if d == 0 {
        '0'
    } else if d == 1 {
        '1'
    } else if d == 2 {
        '2'
    } else if d == 3 {
        '3'
    } else if d == 4 {
        '4'
    } else if d == 5 {
        '5'
    } else if d == 6 {
        '6'
    } else if d == 7 {
        '7'
    } else if d == 8 {
        '8'
    } else {
        '9'
    }
}

/// The decimal numeral of `n`.
fn decimal_chars(n: usize) -> (r: Vec<char>)
    ensures
        r@ == decimal(n as nat),
    decreases n,
{
    if n < 10 {
        let mut v: Vec<char> = Vec::new();
        v.push(digit_char(n));
        assert(v@ =~= seq![digit(n as nat)]);
        v
    } else {
        let mut v = decimal_chars(n / 10);
        v.push(digit_char(n % 10));
        v
    }
}

/// The generated segment for a sibling named `name` that is the
/// `count`-th (from zero) so far to share that name in its scope: the
/// name itself the first time, `name-count` after that.
pub open spec fn segment_spec(name: Seq<char>, count: nat) -> Seq<char> {
    if count == 0 {
        name
    } else {
        name + seq!['-'] + decimal(count)
    }
}

/// How many times each sibling name has been used for a generated
/// segment so far, within one parent scope.
#[derive(Debug)]
pub struct GeneratedNames {
    counts: Vec<(String, usize)>,
}

/// The count recorded for `name`: that of its first entry, or zero.
pub open spec fn count_in(counts: Seq<(String, usize)>, name: Seq<char>) -> nat
    decreases counts.len(),
{
    if counts.len() == 0 {
        0
    } else if counts[0].0@ == name {
        counts[0].1 as nat
    } else {
        count_in(counts.drop_first(), name)
    }
}

impl GeneratedNames {
    /// How many siblings named `name` have been given a segment so far.
    pub closed spec fn count_of(&self, name: Seq<char>) -> nat {
        count_in(self.counts@, name)
    }

    /// A fresh scope in which no name has been used yet.
    pub fn new() -> (r: Self)
        ensures
            forall|name: Seq<char>| r.count_of(name) == 0,
    {
        GeneratedNames { counts: Vec::new() }
    }

    /// The generated segment for the next sibling named `unraw_name`:
    /// the name itself the first time it is seen in this scope, then
    /// `name-1`, `name-2`, … for every later sibling sharing it, in source
    /// order.
    pub fn next(&mut self, unraw_name: &str) -> (r: String)
        requires
            old(self).count_of(unraw_name@) < usize::MAX,
        ensures
            r@ == segment_spec(unraw_name@, old(self).count_of(unraw_name@)),
            final(self).count_of(unraw_name@) == old(self).count_of(unraw_name@) + 1,
            forall|other: Seq<char>|
                other != unraw_name@ ==> final(self).count_of(other) == old(self).count_of(other),
    {
        let wanted = unraw_name.to_owned();
        let n = self.counts.len();
        let mut i: usize = 0;
        let mut found = false;
        while i < n && !found
            invariant
                n == self.counts@.len(),
                0 <= i <= n,
                wanted@ == unraw_name@,
                found ==> i < n && self.counts@[i as int].0@ == unraw_name@,
                forall|j: int| 0 <= j < i ==> (#[trigger] self.counts@[j]).0@ != unraw_name@,
            decreases n - i + (if found {
                0int
            } else {
                1int
            }),
        {
            if self.counts[i].0 == wanted {
                found = true;
            } else {
                i = i + 1;
            }
        }
        proof {
            lemma_count_in_first(self.counts@, unraw_name@, i as int);
        }
        let count: usize = if i < n {
            self.counts[i].1
        } else {
            0
        };
        let segment = if count == 0 {
            unraw_name.to_owned()
        } else {
            let mut c = chars_of(unraw_name);
            c.push('-');
            let d = decimal_chars(count);
            let ghost base = c@;
            for k in 0..d.len()
                invariant
                    c@ == base + d@.take(k as int),
            {
                c.push(d[k]);
                assert(d@.take(k + 1) =~= d@.take(k as int).push(d@[k as int]));
            }
            assert(d@.take(d@.len() as int) =~= d@);
            string_of(c.as_slice())
        };
        let ghost before = self.counts@;
        if i < n {
            let entry = (wanted, count + 1);
            self.counts.set(i, entry);
            proof {
                lemma_count_in_update(before, unraw_name@, i as int, self.counts@);
            }
        } else {
            self.counts.push((wanted, 1));
            proof {
                lemma_count_in_push(before, unraw_name@, self.counts@);
            }
        }
        segment
    }
}

/// The first entry for `name` decides its count.
proof fn lemma_count_in_first(counts: Seq<(String, usize)>, name: Seq<char>, i: int)
    requires
        0 <= i <= counts.len(),
        forall|j: int| 0 <= j < i ==> (#[trigger] counts[j]).0@ != name,
        i < counts.len() ==> counts[i].0@ == name,
    ensures
        count_in(counts, name) == (if i < counts.len() {
            counts[i].1 as nat
        } else {
            0
        }),
    decreases i,
{
    if i > 0 {
        let t = counts.drop_first();
        assert forall|j: int| 0 <= j < i - 1 implies (#[trigger] t[j]).0@ != name by {
            assert(t[j] == counts[j + 1]);
        }
        lemma_count_in_first(t, name, i - 1);
        assert(counts[0].0@ != name);
    }
}

proof fn lemma_count_in_update(
    before: Seq<(String, usize)>,
    name: Seq<char>,
    i: int,
    after: Seq<(String, usize)>,
)
    requires
        0 <= i < before.len(),
        forall|j: int| 0 <= j < i ==> (#[trigger] before[j]).0@ != name,
        before[i].0@ == name,
        after.len() == before.len(),
        after[i].0@ == name,
        after[i].1 == before[i].1 + 1,
        forall|j: int| 0 <= j < before.len() && j != i ==> after[j] == before[j],
    ensures
        count_in(after, name) == count_in(before, name) + 1,
        forall|other: Seq<char>| other != name ==> count_in(after, other) == count_in(before, other),
    decreases i,
{
    lemma_count_in_first(before, name, i);
    assert forall|j: int| 0 <= j < i implies (#[trigger] after[j]).0@ != name by {
        assert(after[j] == before[j]);
    }
    lemma_count_in_first(after, name, i);
    assert forall|other: Seq<char>| other != name implies count_in(after, other) == count_in(
        before,
        other,
    ) by {
        lemma_count_in_other(before, after, name, other, i);
    }
}

proof fn lemma_count_in_other(
    before: Seq<(String, usize)>,
    after: Seq<(String, usize)>,
    name: Seq<char>,
    other: Seq<char>,
    i: int,
)
    requires
        0 <= i < before.len(),
        other != name,
        before[i].0@ == name,
        after.len() == before.len(),
        after[i].0@ == name,
        forall|j: int| 0 <= j < before.len() && j != i ==> after[j] == before[j],
    ensures
        count_in(after, other) == count_in(before, other),
    decreases before.len(),
{
    if before.len() > 0 {
        if i == 0 {
            assert(after.drop_first() =~= before.drop_first());
        } else if before[0].0@ != other {
            assert(after[0] == before[0]);
            lemma_count_in_other(before.drop_first(), after.drop_first(), name, other, i - 1);
        } else {
            assert(after[0] == before[0]);
        }
    }
}

proof fn lemma_count_in_push(before: Seq<(String, usize)>, name: Seq<char>, after: Seq<(String, usize)>)
    requires
        forall|j: int| 0 <= j < before.len() ==> (#[trigger] before[j]).0@ != name,
        after.len() == before.len() + 1,
        forall|j: int| 0 <= j < before.len() ==> after[j] == before[j],
        after[before.len() as int].0@ == name,
        after[before.len() as int].1 == 1,
    ensures
        count_in(after, name) == count_in(before, name) + 1,
        forall|other: Seq<char>| other != name ==> count_in(after, other) == count_in(before, other),
    decreases before.len(),
{
    if before.len() == 0 {
        assert(after.drop_first().len() == 0);
        assert forall|other: Seq<char>| other != name implies count_in(after, other) == count_in(
            before,
            other,
        ) by {
            assert(count_in(after.drop_first(), other) == 0);
        }
    } else {
        let b = before.drop_first();
        let a = after.drop_first();
        assert forall|j: int| 0 <= j < b.len() implies (#[trigger] b[j]).0@ != name by {
            assert(b[j] == before[j + 1]);
        }
        assert forall|j: int| 0 <= j < b.len() implies a[j] == b[j] by {
            assert(a[j] == after[j + 1]);
            assert(b[j] == before[j + 1]);
        }
        assert(a.len() == b.len() + 1);
        assert(a[b.len() as int] == after[before.len() as int]);
        lemma_count_in_push(b, name, a);
        assert(after[0] == before[0]);
        assert forall|other: Seq<char>| other != name implies count_in(after, other) == count_in(
            before,
            other,
        ) by {
            if before[0].0@ != other {
                assert(count_in(after, other) == count_in(a, other));
                assert(count_in(before, other) == count_in(b, other));
            }
        }
    }
}

impl Default for GeneratedNames {
    /// A fresh scope in which no name has been used yet.
    fn default() -> (r: Self)
        ensures
            forall|name: Seq<char>| r.count_of(name) == 0,
    {
        GeneratedNames::new()
    }
}

/// Renders a chain of files as `a -> b -> c`.
pub fn render_chain(chain: &[String]) -> (r: String)
    ensures
        r@ == join(names_of(chain@), " -> "@),
{
    let mut parts: Vec<Vec<char>> = Vec::new();
    for i in 0..chain.len()
        invariant
            views(parts@) == names_of(chain@.take(i as int)),
    {
        parts.push(chars_of(chain[i].as_str()));
        assert(names_of(chain@.take(i + 1)) =~= names_of(chain@.take(i as int)).push(
            chain@[i as int]@,
        ));
    }
    assert(chain@.take(chain@.len() as int) =~= chain@);
    let sep = chars_of(" -> ");
    string_of(join_chars(&parts, sep.as_slice()).as_slice())
}

/// A single (trimmed) `cfg_attr` argument is the `path` meta item
/// (`path = "…"`, or a bare `path`) rather than a predicate.
pub open spec fn is_path_meta_item_spec(segment: Seq<char>) -> bool {
    has_prefix(segment, "path"@) && {
        let rest = segment.skip("path"@.len() as int);
        rest.len() == 0 || has_prefix(trim_start(rest), "="@)
    }
}

/// The index of the last `c` in `s`.
pub open spec fn last_index(s: Seq<char>, c: char) -> Option<int>
    decreases s.len(),
{
    if s.len() == 0 {
        None
    } else if s.last() == c {
        Some(s.len() - 1)
    } else {
        last_index(s.drop_last(), c)
    }
}

/// The index of the first `c` in `s`.
pub open spec fn first_index_of(s: Seq<char>, c: char) -> Option<int>
    decreases s.len(),
{
    if s.len() == 0 {
        None
    } else {
        match first_index_of(s.drop_last(), c) {
            Some(i) => Some(i),
            None => if s.last() == c {
                Some(s.len() - 1)
            } else {
                None
            },
        }
    }
}

/// A `#[cfg_attr(...)]` attribute's argument list, between its first `(`
/// and its last `)`, names `path` as one of its comma-separated top-level
/// items.
pub open spec fn cfg_attr_names_a_path_spec(text: Seq<char>) -> bool {
    match (first_index_of(text, '('), last_index(text, ')')) {
        (Some(open), Some(close)) => close > open && exists|k: int|
            0 <= k < pieces_from(text.subrange(open + 1, close), 0, false, true).len()
                && is_path_meta_item_spec(
                trim(#[trigger] pieces_from(text.subrange(open + 1, close), 0, false, true)[k]),
            ),
        _ => false,
    }
}

/// Whether a single (trimmed) `cfg_attr` argument is the `path` meta item.
pub fn is_path_meta_item(segment: &[char]) -> (r: bool)
    ensures
        r == is_path_meta_item_spec(segment@),
{
    let p = chars_of("path");
    proof {
        reveal_strlit("path");
    }
    if !starts_with_chars(segment, p.as_slice()) {
        return false;
    }
    let mut rest: Vec<char> = Vec::new();
    let mut k = p.len();
    while k < segment.len()
        invariant
            p@.len() <= segment@.len(),
            p@.len() <= k <= segment@.len(),
            rest@ == segment@.subrange(p@.len() as int, k as int),
        decreases segment@.len() - k,
    {
        rest.push(segment[k]);
        assert(segment@.subrange(p@.len() as int, k + 1) =~= segment@.subrange(
            p@.len() as int,
            k as int,
        ).push(segment@[k as int]));
        k = k + 1;
    }
    assert(rest@ == segment@.skip(p@.len() as int));
    if rest.len() == 0 {
        return true;
    }
    let trimmed = trim_start_chars(rest.as_slice());
    starts_with_chars(trimmed.as_slice(), chars_of("=").as_slice())
}

fn trim_start_chars(s: &[char]) -> (r: Vec<char>)
    ensures
        r@ == trim_start(s@),
{
    let n = s.len();
    let mut a: usize = 0;
    assert(s@.subrange(0, n as int) =~= s@);
    while a < n && crate::text::white_space(s[a])
        invariant
            n == s@.len(),
            0 <= a <= n,
            trim_start(s@) == trim_start(s@.subrange(a as int, n as int)),
        decreases n - a,
    {
        assert(s@.subrange(a as int, n as int).drop_first() =~= s@.subrange(a + 1, n as int));
        a = a + 1;
    }
    let mut out: Vec<char> = Vec::new();
    for k in a..n
        invariant
            a <= n,
            n == s@.len(),
            out@ == s@.subrange(a as int, k as int),
    {
        out.push(s[k]);
        assert(s@.subrange(a as int, k + 1) =~= s@.subrange(a as int, k as int).push(s@[k as int]));
    }
    out
}

/// Whether a `#[cfg_attr(...)]` attribute's top-level argument list names
/// `path` as one of its comma-separated meta items; a `path` buried in a
/// nested predicate does not count.
pub fn cfg_attr_names_a_path(text: &str) -> (r: bool)
    requires
        text@.len() <= i64::MAX,
    ensures
        r == cfg_attr_names_a_path_spec(text@),
{
    let s = chars_of(text);
    let n = s.len();
    let mut open: usize = 0;
    assert(s@.take(0) =~= Seq::<char>::empty());
    while open < n && s[open] != '('
        invariant
            n == s@.len(),
            0 <= open <= n,
            first_index_of(s@.take(open as int), '(').is_none(),
        decreases n - open,
    {
        assert(s@.take(open + 1).drop_last() =~= s@.take(open as int));
        open = open + 1;
    }
    if open == n {
        assert(s@.take(n as int) =~= s@);
        return false;
    }
    proof {
        assert(s@.take(open + 1).drop_last() =~= s@.take(open as int));
        lemma_first_index_prefix(s@, '(', open + 1);
    }
    let mut close: usize = n;
    assert(s@.take(n as int) =~= s@);
    while close > 0 && s[close - 1] != ')'
        invariant
            n == s@.len(),
            0 <= close <= n,
            last_index(s@, ')') == last_index(s@.take(close as int), ')'),
        decreases close,
    {
        assert(s@.take(close as int).drop_last() =~= s@.take(close - 1));
        close = close - 1;
    }
    if close == 0 {
        return false;
    }
    let close = close - 1;
    if close <= open {
        return false;
    }
    let mut inner: Vec<char> = Vec::new();
    for k in open + 1..close
        invariant
            open < close < n,
            n == s@.len(),
            inner@ == s@.subrange(open + 1, k as int),
    {
        inner.push(s[k]);
        assert(s@.subrange(open + 1, k + 1) =~= s@.subrange(open + 1, k as int).push(s@[k as int]));
    }
    let pieces = split_commas(inner.as_slice(), false, true);
    let ghost pv = views(pieces@);
    let mut found = false;
    for k in 0..pieces.len()
        invariant
            pv == views(pieces@),
            found == exists|j: int| 0 <= j < k && is_path_meta_item_spec(trim(#[trigger] pv[j])),
    {
        assert(pv[k as int] == pieces@[k as int]@);
        if is_path_meta_item(trim_chars(pieces[k].as_slice()).as_slice()) {
            found = true;
        }
    }
    found
}

proof fn lemma_first_index_prefix(s: Seq<char>, c: char, k: int)
    requires
        0 <= k <= s.len(),
        first_index_of(s.take(k), c).is_some(),
    ensures
        first_index_of(s, c) == first_index_of(s.take(k), c),
    decreases s.len() - k,
{
    if k < s.len() {
        assert(s.take(k + 1).drop_last() =~= s.take(k));
        lemma_first_index_prefix(s, c, k + 1);
    } else {
        assert(s.take(k) =~= s);
    }
}

/// One `mod` declaration as far as planning cares: its name, its
/// explicit `#[path]` target, and whether it is inline.
#[derive(Debug, Clone, PartialEq, Eq)]
pub struct ModuleDescriptor {
    /// The declared name.
    pub name: String,
    /// The explicit `#[path = "…"]` target, if any.
    pub path_attr: Option<String>,
    /// Whether the module is declared inline (`mod name { … }`).
    pub is_inline: bool,
}

/// A declaration as a value.
pub open spec fn descriptor_view(d: ModuleDescriptor) -> (Seq<char>, Option<Seq<char>>, bool) {
    (
        d.name@,
        match d.path_attr {
            Some(p) => Some(p@),
            None => None,
        },
        d.is_inline,
    )
}

/// The declarations as values, in order.
pub open spec fn descriptor_views(v: Seq<ModuleDescriptor>) -> Seq<(Seq<char>, Option<Seq<char>>, bool)> {
    v.map_values(|d: ModuleDescriptor| descriptor_view(d))
}

fn same_descriptor(a: &ModuleDescriptor, b: &ModuleDescriptor) -> (r: bool)
    ensures
        r == (descriptor_view(*a) == descriptor_view(*b)),
{
    let same_path = match (&a.path_attr, &b.path_attr) {
        (Some(x), Some(y)) => *x == *y,
        (None, None) => true,
        _ => false,
    };
    a.name == b.name && same_path && a.is_inline == b.is_inline
}

/// Whether an edit changed a file's module shape: any declaration added,
/// removed, reordered, renamed, re-pointed by `#[path]`, or switched
/// between inline and file-based. Such an edit needs a full re-plan.
pub fn module_shape_differs(before: &[ModuleDescriptor], after: &[ModuleDescriptor]) -> (r: bool)
    ensures
        r == (descriptor_views(before@) != descriptor_views(after@)),
{
    if before.len() != after.len() {
        assert(descriptor_views(before@).len() != descriptor_views(after@).len());
        return true;
    }
    let n = before.len();
    for i in 0..n
        invariant
            n == before@.len(),
            n == after@.len(),
            forall|j: int| 0 <= j < i ==> descriptor_view(before@[j]) == descriptor_view(after@[j]),
    {
        if !same_descriptor(&before[i], &after[i]) {
            assert(descriptor_views(before@)[i as int] != descriptor_views(after@)[i as int]);
            return true;
        }
    }
    assert(descriptor_views(before@) =~= descriptor_views(after@));
    false
}

/// Index in the candidate list at which the `name/mod.rs`-style
/// candidates start.
pub const MOD_RS_STYLE_START: usize = 2;

/// The indices of the candidates that exist, in order.
pub open spec fn existing_indices(exists: Seq<bool>) -> Seq<int>
    decreases exists.len(),
{
    if exists.len() == 0 {
        seq![]
    } else if exists.last() {
        existing_indices(exists.drop_last()).push(exists.len() - 1)
    } else {
        existing_indices(exists.drop_last())
    }
}

/// What probing the candidates for one `mod name;` decided.
#[derive(Debug)]
pub enum CandidateChoice {
    /// Exactly one candidate exists: that file, and whether it is a
    /// `name/mod.rs`-style one.
    Found { path: String, is_mod_rs_style: bool },
    /// No candidate exists; every candidate tried, relative to the crate.
    NotFound { candidates: Vec<String> },
    /// Several exist, with no priority between them; each existing one,
    /// relative to the crate.
    Ambiguous { candidates: Vec<String> },
}

/// The candidates at `idx`, each relative to `crate_dir`.
pub open spec fn relative_at(c: Seq<String>, idx: Seq<int>, crate_dir: Seq<char>) -> Seq<Seq<char>> {
    idx.map_values(|i: int| relative_to_spec(c[i]@, crate_dir))
}

proof fn lemma_existing_indices(exists: Seq<bool>)
    ensures
        forall|k: int|
            0 <= k < existing_indices(exists).len() ==> 0 <= #[trigger] existing_indices(exists)[k]
                < exists.len() && exists[existing_indices(exists)[k]],
        forall|i: int, j: int|
            0 <= i < j < existing_indices(exists).len() ==> #[trigger] existing_indices(exists)[i]
                < #[trigger] existing_indices(exists)[j],
        forall|i: int|
            0 <= i < exists.len() && exists[i] ==> existing_indices(exists).contains(i),
    decreases exists.len(),
{
    if exists.len() > 0 {
        lemma_existing_indices(exists.drop_last());
        let p = existing_indices(exists.drop_last());
        assert forall|i: int| 0 <= i < exists.len() && exists[i] implies existing_indices(
            exists,
        ).contains(i) by {
            if i < exists.len() - 1 {
                assert(exists.drop_last()[i] == exists[i]);
                let k = choose|k: int| 0 <= k < p.len() && p[k] == i;
                if exists.last() {
                    assert(existing_indices(exists)[k] == i);
                }
            } else {
                assert(existing_indices(exists)[p.len() as int] == i);
            }
        }
        assert forall|k: int| 0 <= k < existing_indices(exists).len() implies 0
            <= #[trigger] existing_indices(exists)[k] < exists.len()
            && exists[existing_indices(exists)[k]] by {
            if k < p.len() {
                assert(exists.drop_last()[p[k]] == exists[p[k]]);
            }
        }
    }
}

/// Decides between the candidates for `mod name;` given which of them
/// exist as files: exactly one is the match (with whether it is one of the
/// `name/mod.rs`-style candidates), none is "not found" listing every
/// candidate, and more than one is ambiguous listing those that exist;
/// listed paths are relative to `crate_dir`.
pub fn choose_candidate(candidates: &Vec<String>, exists: &Vec<bool>, crate_dir: &str) -> (r: CandidateChoice)
    requires
        candidates@.len() == exists@.len(),
    ensures
        ({
            let idx = existing_indices(exists@);
            match r {
                CandidateChoice::Found { path, is_mod_rs_style } => idx.len() == 1 && path@
                    == candidates@[idx[0]]@ && is_mod_rs_style == (idx[0] >= MOD_RS_STYLE_START),
                CandidateChoice::NotFound { candidates: listed } => idx.len() == 0 && names_of(
                    listed@,
                ) == relative_at(
                    candidates@,
                    Seq::new(candidates@.len(), |i: int| i),
                    crate_dir@,
                ),
                CandidateChoice::Ambiguous { candidates: listed } => idx.len() > 1 && names_of(
                    listed@,
                ) == relative_at(candidates@, idx, crate_dir@),
            }
        }),
{
    let ghost idx = existing_indices(exists@);
    let mut found: Vec<usize> = Vec::new();
    for i in 0..exists.len()
        invariant
            exists@.len() == candidates@.len(),
            found@.map_values(|k: usize| k as int) == existing_indices(exists@.take(i as int)),
    {
        assert(exists@.take(i + 1).drop_last() =~= exists@.take(i as int));
        assert(exists@.take(i + 1).last() == exists@[i as int]);
        let ghost before = found@.map_values(|k: usize| k as int);
        if exists[i] {
            found.push(i);
            assert(found@.map_values(|k: usize| k as int) =~= before.push(i as int));
        }
    }
    assert(exists@.take(exists@.len() as int) =~= exists@);
    proof {
        lemma_existing_indices(exists@);
    }
    assert(found@.len() == idx.len());
    if found.len() == 1 {
        let k = found[0];
        assert(idx[0] == k as int);
        return CandidateChoice::Found {
            path: candidates[k].clone(),
            is_mod_rs_style: k >= MOD_RS_STYLE_START,
        };
    }
    let ghost listed_idx = if found@.len() == 0 {
        Seq::new(candidates@.len(), |i: int| i)
    } else {
        idx
    };
    let mut listed: Vec<String> = Vec::new();
    let n = if found.len() == 0 {
        candidates.len()
    } else {
        found.len()
    };
    assert(listed_idx.len() == n);
    for j in 0..n
        invariant
            n == listed_idx.len(),
            exists@.len() == candidates@.len(),
            found@.map_values(|k: usize| k as int) == idx,
            idx == existing_indices(exists@),
            listed_idx == (if found@.len() == 0 {
                Seq::new(candidates@.len(), |i: int| i)
            } else {
                idx
            }),
            forall|k: int| 0 <= k < idx.len() ==> 0 <= #[trigger] idx[k] < exists@.len(),
            names_of(listed@) == relative_at(candidates@, listed_idx.take(j as int), crate_dir@),
    {
        let c = if found.len() == 0 {
            j
        } else {
            assert(idx[j as int] == found@[j as int] as int);
            found[j]
        };
        assert(listed_idx[j as int] == c as int);
        let ghost before = names_of(listed@);
        listed.push(relative_to(candidates[c].as_str(), crate_dir));
        assert(names_of(listed@) =~= before.push(relative_to_spec(candidates@[c as int]@, crate_dir@)));
        assert(relative_at(candidates@, listed_idx.take(j + 1), crate_dir@) =~= relative_at(
            candidates@,
            listed_idx.take(j as int),
            crate_dir@,
        ).push(relative_to_spec(candidates@[c as int]@, crate_dir@)));
    }
    assert(listed_idx.take(n as int) =~= listed_idx);
    if found.len() == 0 {
        CandidateChoice::NotFound { candidates: listed }
    } else {
        CandidateChoice::Ambiguous { candidates: listed }
    }
}

/// `name` contains no `-`, as an unraw'd Rust identifier never does.
pub open spec fn has_no_dash(name: Seq<char>) -> bool {
    forall|i: int| 0 <= i < name.len() ==> name[i] != '-'
}

proof fn lemma_decimal_digits(n: nat)
    ensures
        decimal(n).len() >= 1,
        n >= 10 ==> decimal(n).len() >= 2,
        has_no_dash(decimal(n)),
    decreases n,
{
    if n >= 10 {
        lemma_decimal_digits(n / 10);
    }
}

proof fn lemma_decimal_injective(a: nat, b: nat)
    requires
        decimal(a) == decimal(b),
    ensures
        a == b,
    decreases a,
{
    lemma_decimal_digits(a);
    lemma_decimal_digits(b);
    if a < 10 && b < 10 {
        assert(decimal(a)[0] == digit(a));
        assert(decimal(b)[0] == digit(b));
    } else if a >= 10 && b >= 10 {
        let da = decimal(a);
        assert(da.last() == digit(a % 10));
        assert(decimal(b).last() == digit(b % 10));
        assert(a % 10 == b % 10);
        assert(da.drop_last() =~= decimal(a / 10));
        assert(decimal(b).drop_last() =~= decimal(b / 10));
        lemma_decimal_injective(a / 10, b / 10);
    }
}

/// Two segments are equal only for the same name and the same count, when
/// the names contain no `-`.
pub proof fn lemma_segment_injective(a: Seq<char>, k: nat, b: Seq<char>, l: nat)
    requires
        has_no_dash(a),
        has_no_dash(b),
        segment_spec(a, k) == segment_spec(b, l),
    ensures
        a == b,
        k == l,
{
    lemma_decimal_digits(k);
    lemma_decimal_digits(l);
    let sa = segment_spec(a, k);
    if k == 0 && l > 0 {
        assert(sa[b.len() as int] == '-');
    } else if k > 0 && l == 0 {
        assert(segment_spec(b, l)[a.len() as int] == '-');
    } else if k > 0 && l > 0 {
        if a.len() < b.len() {
            assert(sa[a.len() as int] == '-');
            assert(segment_spec(b, l)[a.len() as int] == b[a.len() as int]);
        } else if b.len() < a.len() {
            assert(segment_spec(b, l)[b.len() as int] == '-');
            assert(sa[b.len() as int] == a[b.len() as int]);
        }
        assert(a =~= sa.take(a.len() as int));
        assert(b =~= segment_spec(b, l).take(b.len() as int));
        assert(decimal(k) =~= sa.skip(a.len() + 1int));
        assert(decimal(l) =~= segment_spec(b, l).skip(b.len() + 1int));
        lemma_decimal_injective(k, l);
    }
}

/// How many of the first `n` calls passed `x`.
pub open spec fn calls_before(calls: Seq<Seq<char>>, x: Seq<char>, n: int) -> nat
    decreases n,
{
    if n <= 0 {
        0
    } else {
        calls_before(calls, x, n - 1) + (if calls[n - 1] == x {
            1nat
        } else {
            0nat
        })
    }
}

/// The segment a fresh scope gives its `i`-th call: by [`GeneratedNames::next`],
/// the name with the number of earlier calls that passed it.
pub open spec fn given_segment(calls: Seq<Seq<char>>, i: int) -> Seq<char> {
    segment_spec(calls[i], calls_before(calls, calls[i], i))
}

proof fn lemma_calls_before_grows(calls: Seq<Seq<char>>, x: Seq<char>, i: int, j: int)
    requires
        0 <= i < j <= calls.len(),
        calls[i] == x,
    ensures
        calls_before(calls, x, j) >= calls_before(calls, x, i) + 1,
    decreases j - i,
{
    if j > i + 1 {
        lemma_calls_before_grows(calls, x, i, j - 1);
    }
}

/// The segments one scope gives out are pairwise distinct, whatever names
/// are passed in between, as long as no name contains `-`.
pub proof fn lemma_generated_names_distinct(calls: Seq<Seq<char>>, i: int, j: int)
    requires
        forall|k: int| 0 <= k < calls.len() ==> has_no_dash(#[trigger] calls[k]),
        0 <= i < j < calls.len(),
    ensures
        given_segment(calls, i) != given_segment(calls, j),
{
    if given_segment(calls, i) == given_segment(calls, j) {
        assert(has_no_dash(calls[i]) && has_no_dash(calls[j]));
        lemma_segment_injective(
            calls[i],
            calls_before(calls, calls[i], i),
            calls[j],
            calls_before(calls, calls[j], j),
        );
        lemma_calls_before_grows(calls, calls[i], i, j);
    }
}

proof fn lemma_calls_before_bound(calls: Seq<Seq<char>>, x: Seq<char>, n: int)
    requires
        0 <= n,
    ensures
        calls_before(calls, x, n) <= n,
    decreases n,
{
    if n > 0 {
        lemma_calls_before_bound(calls, x, n - 1);
    }
}

/// The segments one fresh scope gives a run of sibling names, in order:
/// the `i`-th is the name with the count of earlier siblings sharing it
/// (`imp`, `other`, `imp` give `imp`, `other`, `imp-1`). With no name
/// containing `-`, they are pairwise distinct.
pub fn segments_for(names: &Vec<String>) -> (r: Vec<String>)
    ensures
        r.len() == names.len(),
        forall|i: int| 0 <= i < r.len() ==> (#[trigger] r@[i])@ == given_segment(names_of(names@), i),
        (forall|k: int| 0 <= k < names.len() ==> has_no_dash(#[trigger] names@[k]@)) ==> forall|i: int, j: int|
            0 <= i < j < r.len() ==> (#[trigger] r@[i])@ != (#[trigger] r@[j])@,
{
    let ghost calls = names_of(names@);
    let mut scope = GeneratedNames::new();
    let mut out: Vec<String> = Vec::new();
    for i in 0..names.len()
        invariant
            calls == names_of(names@),
            out.len() == i,
            forall|k: int| 0 <= k < i ==> (#[trigger] out@[k])@ == given_segment(calls, k),
            forall|x: Seq<char>| #[trigger] scope.count_of(x) == calls_before(calls, x, i as int),
    {
        proof {
            lemma_calls_before_bound(calls, names@[i as int]@, i as int);
            assert(calls[i as int] == names@[i as int]@);
        }
        let segment = scope.next(names[i].as_str());
        out.push(segment);
        proof {
            assert forall|x: Seq<char>| #[trigger] scope.count_of(x) == calls_before(calls, x, i + 1) by {
                assert(calls_before(calls, x, i + 1) == calls_before(calls, x, i as int) + (if calls[i as int] == x {
                    1nat
                } else {
                    0nat
                }));
            }
        }
    }
    proof {
        if forall|k: int| 0 <= k < names.len() ==> has_no_dash(#[trigger] names@[k]@) {
            assert forall|i: int, j: int| 0 <= i < j < out.len() implies (#[trigger] out@[i])@ != (
            #[trigger] out@[j])@ by {
                assert forall|k: int| 0 <= k < calls.len() implies has_no_dash(#[trigger] calls[k]) by {
                    assert(calls[k] == names@[k]@);
                }
                lemma_generated_names_distinct(calls, i, j);
            }
        }
    }
    out
}

/// A file open on the resolver's current chain: its identity (its
/// canonical path, or its path as written when it has none) and its path
/// relative to the crate root, for reporting.
#[derive(Debug)]
pub struct OpenFile {
    pub canonical: String,
    pub relative: String,
}

/// Why the resolver refuses to open a module's file.
#[derive(Debug, PartialEq, Eq)]
pub enum EntryRefusal {
    /// The chain of open files is already [`MAX_MODULE_DEPTH`] long.
    TooDeep { limit: usize },
    /// The file is already open higher up the chain: the files from its
    /// first opening to the re-entry, relative to the crate root.
    Circular { chain: Vec<String> },
}

/// An entry refusal as values.
pub enum RefusalView {
    TooDeep(int),
    Circular(Seq<Seq<char>>),
}

impl View for EntryRefusal {
    type V = RefusalView;

    open spec fn view(&self) -> RefusalView {
        match self {
            EntryRefusal::TooDeep { limit } => RefusalView::TooDeep(*limit as int),
            EntryRefusal::Circular { chain } => RefusalView::Circular(names_of(chain@)),
        }
    }
}

/// The open files as (identity, relative path) pairs.
pub open spec fn open_views(files: Seq<OpenFile>) -> Seq<(Seq<char>, Seq<char>)> {
    files.map_values(|f: OpenFile| (f.canonical@, f.relative@))
}

/// The first position on the chain whose file has identity `id`.
pub open spec fn first_reentry(chain: Seq<(Seq<char>, Seq<char>)>, id: Seq<char>) -> Option<int>
    decreases chain.len(),
{
    if chain.len() == 0 {
        None
    } else {
        match first_reentry(chain.drop_last(), id) {
            Some(k) => Some(k),
            None => if chain.last().0 == id {
                Some(chain.len() - 1)
            } else {
                None
            },
        }
    }
}

/// What opening the file `(id, relative)` from `chain` meets: too deep at
/// the depth limit, else circular when the file is already open, with the
/// files from its first opening on and the file again; else nothing.
pub open spec fn entry_refusal_spec(
    chain: Seq<(Seq<char>, Seq<char>)>,
    id: Seq<char>,
    relative: Seq<char>,
) -> Option<RefusalView> {
    if chain.len() >= MAX_MODULE_DEPTH {
        Some(RefusalView::TooDeep(MAX_MODULE_DEPTH as int))
    } else {
        match first_reentry(chain, id) {
            Some(k) => Some(
                RefusalView::Circular(chain.skip(k).map_values(|f: (Seq<char>, Seq<char>)| f.1).push(relative)),
            ),
            None => None,
        }
    }
}

/// No two files on the chain share an identity.
pub open spec fn identities_distinct(chain: Seq<(Seq<char>, Seq<char>)>) -> bool {
    forall|i: int, j: int| 0 <= i < j < chain.len() ==> (#[trigger] chain[i]).0 != (#[trigger] chain[j]).0
}

proof fn lemma_no_reentry(chain: Seq<(Seq<char>, Seq<char>)>, id: Seq<char>)
    ensures
        first_reentry(chain, id).is_none() <==> forall|i: int| 0 <= i < chain.len() ==> (#[trigger] chain[i]).0 != id,
        first_reentry(chain, id) matches Some(k) ==> 0 <= k < chain.len() && chain[k].0 == id && forall|i: int|
            0 <= i < k ==> (#[trigger] chain[i]).0 != id,
    decreases chain.len(),
{
    if chain.len() > 0 {
        let init = chain.drop_last();
        lemma_no_reentry(init, id);
        assert forall|i: int| 0 <= i < init.len() implies #[trigger] init[i] == chain[i] by {}
        let last = chain.len() - 1;
        assert(chain.last() == chain[last]);
        match first_reentry(init, id) {
            Some(k) => {
                assert(init[k] == chain[k]);
                assert forall|i: int| 0 <= i < k implies (#[trigger] chain[i]).0 != id by {
                    assert(init[i] == chain[i]);
                }
            },
            None => {
                assert forall|i: int| 0 <= i < last implies (#[trigger] chain[i]).0 != id by {
                    assert(init[i] == chain[i]);
                }
                if chain[last].0 != id {
                    assert forall|i: int| 0 <= i < chain.len() implies (#[trigger] chain[i]).0 != id by {
                        if i < last {
                            assert(init[i] == chain[i]);
                        }
                    }
                }
            },
        }
    }
}

/// The resolver's chain of open files, from the crate root to the file
/// being resolved: never deeper than [`MAX_MODULE_DEPTH`], and never
/// holding one file twice.
#[derive(Debug)]
pub struct OpenChain {
    files: Vec<OpenFile>,
}

impl View for OpenChain {
    type V = Seq<(Seq<char>, Seq<char>)>;

    closed spec fn view(&self) -> Seq<(Seq<char>, Seq<char>)> {
        open_views(self.files@)
    }
}

impl OpenChain {
    #[verifier::type_invariant]
    spec fn inv(&self) -> bool {
        &&& self.files@.len() <= MAX_MODULE_DEPTH
        &&& identities_distinct(open_views(self.files@))
    }

    /// The chain holding the crate root alone.
    pub fn new(root: OpenFile) -> (r: Self)
        ensures
            r@ == seq![(root.canonical@, root.relative@)],
    {
        let mut files = Vec::new();
        files.push(root);
        let r = OpenChain { files };
        assert(open_views(r.files@) =~= seq![(r.files@[0].canonical@, r.files@[0].relative@)]);
        r
    }

    /// How many files are open; never more than [`MAX_MODULE_DEPTH`], and
    /// no file is open twice, so resolution neither overflows nor loops.
    pub fn depth(&self) -> (r: usize)
        ensures
            r == self@.len(),
            r <= MAX_MODULE_DEPTH,
            identities_distinct(self@),
    {
        proof {
            use_type_invariant(self);
        }
        self.files.len()
    }

    /// What opening the file `canonical` (relative path `relative`) meets:
    /// the depth limit first, then a file already open on the chain.
    pub fn check_entry(&self, canonical: &str, relative: &str) -> (r: Result<(), EntryRefusal>)
        ensures
            match r {
                Ok(()) => entry_refusal_spec(self@, canonical@, relative@).is_none(),
                Err(e) => entry_refusal_spec(self@, canonical@, relative@) == Some(e@),
            },
    {
        let ghost chain = self@;
        if self.files.len() >= MAX_MODULE_DEPTH {
            return Err(EntryRefusal::TooDeep { limit: MAX_MODULE_DEPTH });
        }
        proof {
            lemma_no_reentry(chain, canonical@);
        }
        let n = self.files.len();
        let mut k: usize = 0;
        while k < n
            invariant
                n == self.files@.len(),
                n < MAX_MODULE_DEPTH,
                chain == self@,
                chain == open_views(self.files@),
                0 <= k <= n,
                forall|i: int| 0 <= i < k ==> (#[trigger] chain[i]).0 != canonical@,
            decreases n - k,
        {
            if crate::text::same_text(self.files[k].canonical.as_str(), canonical) {
                let mut out: Vec<String> = Vec::new();
                let mut m = k;
                while m < n
                    invariant
                        n == self.files@.len(),
                        chain == open_views(self.files@),
                        k <= m <= n,
                        names_of(out@) == chain.subrange(k as int, m as int).map_values(
                            |f: (Seq<char>, Seq<char>)| f.1,
                        ),
                    decreases n - m,
                {
                    let ghost before = names_of(out@);
                    let r = self.files[m].relative.clone();
                    out.push(r);
                    assert(chain[m as int] == (self.files@[m as int].canonical@, self.files@[m as int].relative@));
                    assert(names_of(out@) =~= before.push(self.files@[m as int].relative@));
                    assert(names_of(out@) =~= chain.subrange(k as int, m + 1).map_values(
                        |f: (Seq<char>, Seq<char>)| f.1,
                    ));
                    m = m + 1;
                }
                let ghost before = names_of(out@);
                out.push(relative.to_owned());
                proof {
                    assert(chain[k as int] == (self.files@[k as int].canonical@, self.files@[k as int].relative@));
                    assert(chain[k as int].0 == canonical@);
                    lemma_no_reentry(chain, canonical@);
                    let f = first_reentry(chain, canonical@);
                    assert(f.is_some());
                    let k2 = f.unwrap();
                    if k2 < k {
                        assert(chain[k2].0 != canonical@);
                    } else if k2 > k {
                        assert(chain[k as int].0 != canonical@);
                    }
                    assert(first_reentry(chain, canonical@) == Some(k as int));
                    assert(chain.subrange(k as int, n as int) =~= chain.skip(k as int));
                    assert(names_of(out@) =~= before.push(relative@));
                    assert(names_of(out@) =~= chain.skip(k as int).map_values(|f: (Seq<char>, Seq<char>)| f.1).push(
                        relative@,
                    ));
                }
                return Err(EntryRefusal::Circular { chain: out });
            }
            assert(chain[k as int] == (self.files@[k as int].canonical@, self.files@[k as int].relative@));
            k = k + 1;
        }
        proof {
            lemma_no_reentry(chain, canonical@);
        }
        Ok(())
    }

    /// Opens a file that [`Self::check_entry`] let through.
    pub fn enter(&mut self, file: OpenFile)
        requires
            entry_refusal_spec(old(self)@, file.canonical@, file.relative@).is_none(),
        ensures
            final(self)@ == old(self)@.push((file.canonical@, file.relative@)),
            final(self)@.len() <= MAX_MODULE_DEPTH,
            identities_distinct(final(self)@),
    {
        proof {
            use_type_invariant(&*self);
            lemma_no_reentry(self@, file.canonical@);
        }
        let ghost before = self.files@;
        let ghost id = file.canonical@;
        let ghost rel = file.relative@;
        let mut files = Vec::new();
        std::mem::swap(&mut files, &mut self.files);
        files.push(file);
        proof {
            assert(open_views(files@) =~= open_views(before).push((id, rel)));
            assert forall|i: int, j: int| 0 <= i < j < open_views(files@).len() implies (
            #[trigger] open_views(files@)[i]).0 != (#[trigger] open_views(files@)[j]).0 by {
                if j < before.len() {
                    assert(open_views(files@)[i] == open_views(before)[i]);
                    assert(open_views(files@)[j] == open_views(before)[j]);
                } else {
                    assert(open_views(files@)[i] == open_views(before)[i]);
                }
            }
        }
        self.files = files;
    }

    /// Closes the most recently opened file once its modules are
    /// resolved.
    pub fn leave(&mut self)
        ensures
            old(self)@.len() > 0 ==> final(self)@ == old(self)@.drop_last(),
            old(self)@.len() == 0 ==> final(self)@ == old(self)@,
            final(self)@.len() <= MAX_MODULE_DEPTH,
            identities_distinct(final(self)@),
    {
        proof {
            use_type_invariant(&*self);
        }
        let ghost before = self.files@;
        let mut files = Vec::new();
        std::mem::swap(&mut files, &mut self.files);
        files.pop();
        proof {
            if before.len() > 0 {
                assert(files@ =~= before.drop_last());
                assert forall|i: int| 0 <= i < files@.len() implies #[trigger] open_views(files@)[i] == open_views(before).drop_last()[i] by {
                    assert(files@[i] == before[i]);
                }
                assert(open_views(files@) =~= open_views(before).drop_last());
                assert forall|i: int, j: int| 0 <= i < j < open_views(files@).len() implies (
                #[trigger] open_views(files@)[i]).0 != (#[trigger] open_views(files@)[j]).0 by {
                    assert(open_views(files@)[i] == open_views(before)[i]);
                    assert(open_views(files@)[j] == open_views(before)[j]);
                }
            } else {
                assert(files@ =~= before);
            }
        }
        self.files = files;
    }
}


} // verus!
