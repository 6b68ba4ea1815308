//! The resolved module graph: one node per module, children in source
//! order, walked depth-first in pre-order; and where each module's
//! generated file goes.
use vstd::prelude::*;

use crate::modules::{SourceKind, GENERATED_ROOT_STEM};
use crate::paths::{file_name_spec, join_chars_path, join_spec, trim_trailing_slashes};
use crate::span::Span;
use crate::text::{chars_of, string_of};

verus! {

/// One module in the graph.
#[derive(Debug)]
pub struct ModuleNode {
    /// Path from the crate root, in source spelling (`r#type` stays
    /// `r#type`); empty for the crate root.
    pub path: Vec<String>,
    /// File that defines the module, relative to the crate root; for an
    /// inline module, the file its block is written in.
    pub file: String,
    /// Whether the file is `.rsx` or `.rs`.
    pub kind: SourceKind,
    /// File holding the module's own `mod` declaration; `None` for the
    /// crate root.
    pub declared_in: Option<String>,
    /// The visibility prefix (`pub`, `pub(crate)`, …), verbatim.
    pub visibility: Option<String>,
    /// Whether the module is declared inline (`mod m { ... }`).
    pub is_inline: bool,
    /// `#[cfg(…)]` attributes, verbatim, in source order.
    pub cfg: Vec<String>,
    /// Every attribute on the declaration, verbatim, in source order.
    pub attributes: Vec<String>,
    /// Span of the whole `mod` item in its declaring file.
    pub span: Option<Span>,
    /// Segments of the generated file's path: unraw'd and disambiguated
    /// among siblings; empty for the crate root.
    pub generated: Vec<String>,
    /// Child modules, in source order.
    pub children: Vec<ModuleNode>,
}

/// The resolved module graph of one crate.
#[derive(Debug)]
pub struct ModuleGraph {
    /// The crate root.
    pub root: ModuleNode,
}

/// The nodes of the tree at `n`, depth-first, pre-order: `n` itself, then
/// each child's nodes in source order.
pub open spec fn preorder(n: ModuleNode) -> Seq<ModuleNode>
    decreases n, n.children@.len() + 1,
{
    seq![n] + preorder_from(n, 0)
}

/// The pre-order nodes of `n`'s children from index `i` on.
pub open spec fn preorder_from(n: ModuleNode, i: int) -> Seq<ModuleNode>
    decreases n, n.children@.len() - i,
{
    if i < 0 || i >= n.children@.len() {
        seq![]
    } else {
        proof {
            assert(decreases_to!(n => n.children));
            assert(decreases_to!(n.children => n.children@));
            assert(decreases_to!(n.children@ => n.children@[i]));
        }
        preorder(n.children@[i]) + preorder_from(n, i + 1)
    }
}

/// The nodes, dereferenced.
pub open spec fn derefs(v: Seq<&ModuleNode>) -> Seq<ModuleNode> {
    v.map_values(|r: &ModuleNode| *r)
}

/// Appends the pre-order nodes of the tree at `node`.
fn collect_preorder<'a>(node: &'a ModuleNode, out: &mut Vec<&'a ModuleNode>)
    ensures
        derefs(final(out)@) == derefs(old(out)@) + preorder(*node),
    decreases *node,
{
    let ghost start = derefs(out@);
    out.push(node);
    assert(derefs(out@) =~= start + seq![*node]);
    let n = node.children.len();
    for i in 0..n
        invariant
            n == node.children@.len(),
            derefs(out@) + preorder_from(*node, i as int) == start + preorder(*node),
    {
        proof {
            assert(decreases_to!(*node => node.children));
            assert(decreases_to!(node.children => node.children@));
            assert(decreases_to!(node.children@ => node.children@[i as int]));
        }
        let ghost before = derefs(out@);
        collect_preorder(&node.children[i], out);
        assert(preorder_from(*node, i as int) == preorder(node.children@[i as int])
            + preorder_from(*node, i + 1));
        assert(before + preorder_from(*node, i as int) =~= derefs(out@) + preorder_from(
            *node,
            i + 1,
        ));
    }
    assert(derefs(out@) + preorder_from(*node, n as int) =~= derefs(out@));
}

/// The kept nodes of `s`, in order.
pub open spec fn rsx_only(s: Seq<ModuleNode>) -> Seq<ModuleNode>
    decreases s.len(),
{
    if s.len() == 0 {
        seq![]
    } else if s.last().kind == SourceKind::Rsx {
        rsx_only(s.drop_last()).push(s.last())
    } else {
        rsx_only(s.drop_last())
    }
}

/// The nodes of `s` that are their own compile unit: `.rsx` and not
/// inline, in order.
pub open spec fn own_units(s: Seq<ModuleNode>) -> Seq<ModuleNode>
    decreases s.len(),
{
    if s.len() == 0 {
        seq![]
    } else if s.last().kind == SourceKind::Rsx && !s.last().is_inline {
        own_units(s.drop_last()).push(s.last())
    } else {
        own_units(s.drop_last())
    }
}

impl ModuleGraph {
    /// Every node in the graph, depth-first, pre-order, starting with the
    /// root; siblings in source order.
    pub fn iter(&self) -> (r: Vec<&ModuleNode>)
        ensures
            derefs(r@) == preorder(self.root),
    {
        let mut out: Vec<&ModuleNode> = Vec::new();
        collect_preorder(&self.root, &mut out);
        assert(derefs(Seq::<&ModuleNode>::empty()) =~= Seq::<ModuleNode>::empty());
        assert(derefs(out@) =~= preorder(self.root));
        out
    }

    /// Every `.rsx` node, in pre-order, inline modules included.
    pub fn rsx_files(&self) -> (r: Vec<&ModuleNode>)
        ensures
            derefs(r@) == rsx_only(preorder(self.root)),
    {
        let all = self.iter();
        let ghost a = derefs(all@);
        let mut out: Vec<&ModuleNode> = Vec::new();
        for i in 0..all.len()
            invariant
                a == derefs(all@),
                derefs(out@) == rsx_only(a.take(i as int)),
        {
            let node = all[i];
            assert(a.take(i + 1).drop_last() =~= a.take(i as int));
            assert(a.take(i + 1).last() == *node);
            let ghost before = derefs(out@);
            if node.kind == SourceKind::Rsx {
                out.push(node);
                assert(derefs(out@) =~= before.push(*node));
            }
        }
        assert(a.take(a.len() as int) =~= a);
        out
    }

    /// Every node that is its own generated compile unit: a `.rsx` module
    /// that is not inline, in pre-order.
    pub fn generated_units(&self) -> (r: Vec<&ModuleNode>)
        ensures
            derefs(r@) == own_units(preorder(self.root)),
    {
        let all = self.iter();
        let ghost a = derefs(all@);
        let mut out: Vec<&ModuleNode> = Vec::new();
        for i in 0..all.len()
            invariant
                a == derefs(all@),
                derefs(out@) == own_units(a.take(i as int)),
        {
            let node = all[i];
            assert(a.take(i + 1).drop_last() =~= a.take(i as int));
            assert(a.take(i + 1).last() == *node);
            let ghost before = derefs(out@);
            if node.kind == SourceKind::Rsx && !node.is_inline {
                out.push(node);
                assert(derefs(out@) =~= before.push(*node));
            }
        }
        assert(a.take(a.len() as int) =~= a);
        out
    }
}

/// `base` with each segment joined on in turn.
pub open spec fn join_all(base: Seq<char>, segments: Seq<Seq<char>>) -> Seq<char>
    decreases segments.len(),
{
    if segments.len() == 0 {
        base
    } else {
        join_spec(join_all(base, segments.drop_last()), segments.last())
    }
}

/// The length of a file name's stem: up to its last `.`, unless that dot
/// starts the name (a name like `.x` has no extension).
pub open spec fn stem_len(f: Seq<char>) -> int
    decreases f.len(),
{
    if f.len() == 0 {
        0
    } else if f.last() == '.' && f.len() > 1 {
        f.len() - 1
    } else if f.last() == '.' {
        f.len() as int
    } else {
        let s = stem_len(f.drop_last());
        if s < f.len() - 1 {
            s
        } else {
            f.len() as int
        }
    }
}

/// `p` with its file name's extension set to `rs`: a present extension
/// is replaced, a missing one added; a path without a file name (empty,
/// or ending in `..`) stays as it is.
pub open spec fn with_rs_extension(p: Seq<char>) -> Seq<char> {
    let t = trim_trailing_slashes(p);
    let f = file_name_spec(p);
    if f.len() == 0 || f == seq!['.', '.'] {
        p
    } else {
        t.take(t.len() - f.len() + stem_len(f)) + seq!['.', 'r', 's']
    }
}

/// Where a module's generated file goes under `src_dir`.
pub open spec fn generated_path_spec(generated: Seq<Seq<char>>, src_dir: Seq<char>) -> Seq<char> {
    let dir = join_spec(src_dir, ".generated"@);
    if generated.len() == 0 {
        join_spec(dir, GENERATED_ROOT_STEM@ + ".rs"@)
    } else {
        with_rs_extension(join_all(dir, generated))
    }
}

impl ModuleNode {
    /// The generated file for this module under `src_dir`: the crate root
    /// always goes to `.generated/crate-root.rs`; every other module
    /// mirrors its generated segments joined by `/`, with the extension
    /// `rs`.
    pub fn generated_path(&self, src_dir: &str) -> (r: String)
        ensures
            r@ == generated_path_spec(crate::legend::names_of(self.generated@), src_dir@),
    {
        let dir = join_chars_path(chars_of(src_dir).as_slice(), chars_of(".generated").as_slice());
        let ghost segs = crate::legend::names_of(self.generated@);
        if self.generated.len() == 0 {
            let mut name = chars_of(GENERATED_ROOT_STEM);
            let ext = chars_of(".rs");
            let ghost stem = name@;
            for k in 0..ext.len()
                invariant
                    name@ == stem + ext@.take(k as int),
            {
                name.push(ext[k]);
                assert(ext@.take(k + 1) =~= ext@.take(k as int).push(ext@[k as int]));
            }
            assert(ext@.take(ext@.len() as int) =~= ext@);
            return string_of(join_chars_path(dir.as_slice(), name.as_slice()).as_slice());
        }
        let mut out = dir;
        let ghost base = out@;
        for i in 0..self.generated.len()
            invariant
                segs == crate::legend::names_of(self.generated@),
                out@ == join_all(base, segs.take(i as int)),
        {
            assert(segs.take(i + 1).drop_last() =~= segs.take(i as int));
            assert(segs.take(i + 1).last() == self.generated@[i as int]@);
            out = join_chars_path(out.as_slice(), chars_of(self.generated[i].as_str()).as_slice());
        }
        assert(segs.take(segs.len() as int) =~= segs);
        string_of(set_rs_extension(out.as_slice()).as_slice())
    }
}

/// Where the stem of the file name `p[s..t]` ends.
fn stem_end(p: &[char], s: usize, t: usize) -> (r: usize)
    requires
        s < t <= p@.len(),
    ensures
        r == s + stem_len(p@.subrange(s as int, t as int)),
{
    let ghost f = p@.subrange(s as int, t as int);
    let mut j = t;
    while j > s + 1 && p[j - 1] != '.'
        invariant
            s < t <= p@.len(),
            s + 1 <= j <= t,
            f == p@.subrange(s as int, t as int),
            stem_len(f) == (if stem_len(p@.subrange(s as int, j as int)) < j - s {
                stem_len(p@.subrange(s as int, j as int))
            } else {
                t - s
            }),
        decreases j,
    {
        let ghost g = p@.subrange(s as int, j as int);
        assert(g.drop_last() =~= p@.subrange(s as int, j - 1));
        assert(g.last() == p@[j - 1]);
        proof {
            lemma_stem_len_bound(p@.subrange(s as int, j - 1));
        }
        j = j - 1;
    }
    if j > s + 1 {
        assert(p@.subrange(s as int, j as int).last() == p@[j - 1]);
        j - 1
    } else {
        proof {
            lemma_stem_len_one(p@.subrange(s as int, j as int));
        }
        t
    }
}

fn set_rs_extension(p: &[char]) -> (r: Vec<char>)
    ensures
        r@ == with_rs_extension(p@),
{
    let n = p.len();
    let t = crate::paths::trimmed_len(p, n);
    assert(p@.take(n as int) =~= p@);
    let ghost tt = p@.take(t as int);
    assert(tt == trim_trailing_slashes(p@));
    let s = match crate::paths::find_last_slash(p, t) {
        Some(k) => k + 1,
        None => 0,
    };
    assert(file_name_spec(p@) =~= p@.subrange(s as int, t as int));
    let ghost f = p@.subrange(s as int, t as int);
    if t == s || (t - s == 2 && p[s] == '.' && p[s + 1] == '.') {
        proof {
            if t - s == 2 && p@[s as int] == '.' && p@[s + 1] == '.' {
                assert(f =~= seq!['.', '.']);
            }
        }
        return crate::paths::copy_slice(p, 0, n);
    }
    proof {
        if f.len() == 2 && f =~= seq!['.', '.'] {
            assert(p@[s as int] == f[0] && p@[s + 1] == f[1]);
        }
    }
    let e = stem_end(p, s, t);
    let mut out = crate::paths::copy_slice(p, 0, e);
    out.push('.');
    out.push('r');
    out.push('s');
    assert(tt.take(tt.len() - f.len() + stem_len(f)) =~= p@.subrange(0, e as int));
    assert(out@ =~= p@.subrange(0, e as int) + seq!['.', 'r', 's']);
    out
}

proof fn lemma_stem_len_bound(f: Seq<char>)
    ensures
        0 <= stem_len(f) <= f.len(),
        f.len() > 0 ==> stem_len(f) > 0,
    decreases f.len(),
{
    if f.len() > 0 && f.last() != '.' {
        lemma_stem_len_bound(f.drop_last());
    }
}

proof fn lemma_stem_len_one(f: Seq<char>)
    requires
        f.len() == 1,
    ensures
        stem_len(f) == 1,
{
    assert(f.drop_last().len() == 0);
    assert(stem_len(f.drop_last()) == 0);
}

} // verus!
