//! Parameter names of a `#[component]` function, read off its signature
//! text, and the completion item kinds offered for tags and attributes.
use vstd::prelude::*;

use crate::legend::names_of;
use crate::sorting::keep_if;
use crate::text::{chars_of, has_prefix, same_text, starts_with_chars, string_of, trim, trim_chars, views};

verus! {

/// The kind of a completion item this server builds itself.
#[derive(Debug, Clone, Copy, PartialEq, Eq, Structural)]
pub enum CompletionKind {
    Class,
    Field,
}

impl CompletionKind {
    /// The LSP `CompletionItemKind` number: 7 for a class, 5 for a field.
    pub fn lsp_number(self) -> (r: i64)
        ensures
            r == (match self {
                CompletionKind::Class => 7int,
                CompletionKind::Field => 5int,
            }),
    {
        match self {
            CompletionKind::Class => 7,
            CompletionKind::Field => 5,
        }
    }
}

/// How a character moves the bracket depth: `(` opens and `)` closes;
/// with `all_brackets`, `<` and `[` open and `>` and `]` close as well.
pub open spec fn bracket_step(c: char, all_brackets: bool) -> int {
    if c == '(' || (all_brackets && (c == '<' || c == '[')) {
        1
    } else if c == ')' || (all_brackets && (c == '>' || c == ']')) {
        -1
    } else {
        0
    }
}

/// The bracket depth in front of index `i`.
pub open spec fn depth_before(s: Seq<char>, i: int, all_brackets: bool) -> int
    decreases i,
{
    if i <= 0 {
        0
    } else {
        depth_before(s, i - 1, all_brackets) + bracket_step(s[i - 1], all_brackets)
    }
}

/// A comma outside every bracket.
pub open spec fn is_top_comma(s: Seq<char>, i: int, all_brackets: bool) -> bool {
    s[i] == ',' && depth_before(s, i, all_brackets) == 0
}

/// The first top-level comma at or after `i`, or the length.
pub open spec fn next_top_comma(s: Seq<char>, i: int, all_brackets: bool) -> int
    decreases s.len() - i,
{
    if i >= s.len() || is_top_comma(s, i, all_brackets) {
        i
    } else {
        next_top_comma(s, i + 1, all_brackets)
    }
}

/// The pieces of `s` from `start` on between top-level commas. The piece
/// after a final comma is empty; it is one of the pieces only with
/// `keep_empty_tail`.
pub open spec fn pieces_from(s: Seq<char>, start: int, all_brackets: bool, keep_empty_tail: bool) -> Seq<
    Seq<char>,
>
    decreases s.len() - start,
{
    if start < 0 || start > s.len() {
        seq![]
    } else if start == s.len() {
        if keep_empty_tail {
            seq![seq![]]
        } else {
            seq![]
        }
    } else {
        let e = next_top_comma(s, start, all_brackets);
        proof {
            lemma_next_top_comma(s, start, all_brackets);
        }
        if e >= s.len() {
            seq![s.subrange(start, s.len() as int)]
        } else {
            seq![s.subrange(start, e)] + pieces_from(s, e + 1, all_brackets, keep_empty_tail)
        }
    }
}

/// Where the next top-level comma lies.
pub proof fn lemma_next_top_comma(s: Seq<char>, i: int, all_brackets: bool)
    requires
        0 <= i,
    ensures
        i <= next_top_comma(s, i, all_brackets),
        i <= s.len() ==> next_top_comma(s, i, all_brackets) <= s.len(),
        next_top_comma(s, i, all_brackets) < s.len() ==> is_top_comma(
            s,
            next_top_comma(s, i, all_brackets),
            all_brackets,
        ),
        forall|k: int|
            i <= k < next_top_comma(s, i, all_brackets) && k < s.len() ==> !is_top_comma(
                s,
                k,
                all_brackets,
            ),
    decreases s.len() - i,
{
    if i < s.len() && !is_top_comma(s, i, all_brackets) {
        lemma_next_top_comma(s, i + 1, all_brackets);
    }
}

/// Splits `s` on commas outside brackets: parentheses only, or with
/// `all_brackets` also `<>` and `[]`. The empty piece after a final comma
/// is kept only with `keep_empty_tail`.
pub fn split_commas(s: &[char], all_brackets: bool, keep_empty_tail: bool) -> (r: Vec<Vec<char>>)
    requires
        s@.len() <= i64::MAX,
    ensures
        views(r@) == pieces_from(s@, 0, all_brackets, keep_empty_tail),
{
    let n = s.len();
    let mut out: Vec<Vec<char>> = Vec::new();
    let mut depth: i64 = 0;
    let mut start: usize = 0;
    let mut i: usize = 0;
    proof {
        lemma_next_top_comma(s@, 0, all_brackets);
    }
    while i < n
        invariant
            n == s@.len(),
            n <= i64::MAX,
            0 <= start <= i <= n,
            depth == depth_before(s@, i as int, all_brackets),
            -(i as int) <= depth <= i,
            next_top_comma(s@, start as int, all_brackets) == next_top_comma(
                s@,
                i as int,
                all_brackets,
            ),
            views(out@) + pieces_from(s@, start as int, all_brackets, keep_empty_tail)
                == pieces_from(s@, 0, all_brackets, keep_empty_tail),
        decreases n - i,
    {
        let c = s[i];
        if c == ',' && depth == 0 {
            assert(is_top_comma(s@, i as int, all_brackets));
            proof {
                lemma_next_top_comma(s@, start as int, all_brackets);
            }
            let piece = copy_range(s, start, i);
            let ghost before = views(out@);
            out.push(piece);
            assert(views(out@) =~= before.push(s@.subrange(start as int, i as int)));
            assert(pieces_from(s@, start as int, all_brackets, keep_empty_tail) == seq![
                s@.subrange(start as int, i as int),
            ] + pieces_from(s@, i + 1, all_brackets, keep_empty_tail));
            assert(before + pieces_from(s@, start as int, all_brackets, keep_empty_tail)
                =~= views(out@) + pieces_from(s@, i + 1, all_brackets, keep_empty_tail));
            start = i + 1;
        } else {
            assert(!is_top_comma(s@, i as int, all_brackets));
        }
        if c == '(' || (all_brackets && (c == '<' || c == '[')) {
            depth = depth + 1;
        } else if c == ')' || (all_brackets && (c == '>' || c == ']')) {
            depth = depth - 1;
        }
        i = i + 1;
    }
    proof {
        lemma_next_top_comma(s@, start as int, all_brackets);
    }
    if start < n || keep_empty_tail {
        let piece = copy_range(s, start, n);
        let ghost before = views(out@);
        out.push(piece);
        assert(views(out@) =~= before.push(s@.subrange(start as int, n as int)));
        if start == n {
            assert(s@.subrange(start as int, n as int) =~= Seq::<char>::empty());
        }
        assert(views(out@) =~= before + pieces_from(s@, start as int, all_brackets, keep_empty_tail));
    } else {
        assert(views(out@) =~= views(out@) + pieces_from(
            s@,
            start as int,
            all_brackets,
            keep_empty_tail,
        ));
    }
    out
}

/// Splits a parameter list on commas outside `<>`, `()` and `[]`; an
/// empty piece after a final comma is dropped.
pub fn split_top_level_commas(s: &[char]) -> (r: Vec<Vec<char>>)
    requires
        s@.len() <= i64::MAX,
    ensures
        views(r@) == pieces_from(s@, 0, true, false),
{
    split_commas(s, true, false)
}

/// `s` up to (not including) its first occurrence of `c`, or all of it.
pub open spec fn before_char(s: Seq<char>, c: char) -> Seq<char>
    decreases s.len(),
{
    if s.len() == 0 {
        s
    } else if s[0] == c {
        seq![]
    } else {
        seq![s[0]] + before_char(s.drop_first(), c)
    }
}

/// `s` without the prefix `p` when it starts with it.
pub open spec fn without_prefix(s: Seq<char>, p: Seq<char>) -> Seq<char> {
    if has_prefix(s, p) {
        s.subrange(p.len() as int, s.len() as int)
    } else {
        s
    }
}

/// The parameter name a parameter's text declares, if any: receivers and
/// empty pieces have none; otherwise the text before the first `:`,
/// trimmed, without a leading `mut ` and then a raw-identifier `r#`.
pub open spec fn param_name_spec(param: Seq<char>) -> Option<Seq<char>> {
    let p = trim(param);
    if p.len() == 0 || p == "self"@ || p == "&self"@ || p == "&mut self"@ {
        None
    } else {
        let name = without_prefix(
            trim(without_prefix(trim(before_char(p, ':')), "mut "@)),
            "r#"@,
        );
        if name.len() == 0 {
            None
        } else {
            Some(name)
        }
    }
}

fn same_chars(a: &[char], b: &[char]) -> (r: bool)
    ensures
        r == (a@ == b@),
{
    if a.len() != b.len() {
        return false;
    }
    let mut i: usize = 0;
    while i < a.len()
        invariant
            a@.len() == b@.len(),
            0 <= i <= a@.len(),
            forall|j: int| 0 <= j < i ==> a@[j] == b@[j],
        decreases a@.len() - i,
    {
        if a[i] != b[i] {
            return false;
        }
        i = i + 1;
    }
    assert(a@ =~= b@);
    true
}

fn strip_prefix_chars(s: &[char], p: &[char]) -> (r: Vec<char>)
    ensures
        r@ == without_prefix(s@, p@),
{
    let cut = if crate::text::starts_with_chars(s, p) {
        p.len()
    } else {
        0
    };
    let mut out: Vec<char> = Vec::new();
    let mut k = cut;
    while k < s.len()
        invariant
            cut <= s@.len(),
            cut <= k <= s@.len(),
            out@ == s@.subrange(cut as int, k as int),
        decreases s@.len() - k,
    {
        out.push(s[k]);
        assert(s@.subrange(cut as int, k + 1) =~= s@.subrange(cut as int, k as int).push(
            s@[k as int],
        ));
        k = k + 1;
    }
    assert(s@.subrange(0, s@.len() as int) =~= s@);
    out
}

fn before_colon(s: &[char]) -> (r: Vec<char>)
    ensures
        r@ == before_char(s@, ':'),
{
    let mut out: Vec<char> = Vec::new();
    let mut i: usize = 0;
    assert(s@.subrange(0, s@.len() as int) =~= s@);
    assert(out@ + before_char(s@, ':') =~= before_char(s@, ':'));
    while i < s.len() && s[i] != ':'
        invariant
            0 <= i <= s@.len(),
            before_char(s@, ':') == out@ + before_char(s@.subrange(i as int, s@.len() as int), ':'),
        decreases s@.len() - i,
    {
        assert(s@.subrange(i as int, s@.len() as int).drop_first() =~= s@.subrange(
            i + 1,
            s@.len() as int,
        ));
        let ghost before = out@;
        out.push(s[i]);
        assert(before + (seq![s@[i as int]] + before_char(
            s@.subrange(i + 1, s@.len() as int),
            ':',
        )) =~= out@ + before_char(s@.subrange(i + 1, s@.len() as int), ':'));
        i = i + 1;
    }
    assert(before_char(s@.subrange(i as int, s@.len() as int), ':') =~= Seq::<char>::empty());
    assert(out@ + Seq::<char>::empty() =~= out@);
    out
}

/// The parameter name declared by one parameter's text, if any.
pub fn param_name(param: &[char]) -> (r: Option<String>)
    ensures
        match r {
            Some(s) => param_name_spec(param@) == Some(s@),
            None => param_name_spec(param@).is_none(),
        },
{
    let p = trim_chars(param);
    if p.len() == 0 || same_chars(p.as_slice(), chars_of("self").as_slice()) || same_chars(
        p.as_slice(),
        chars_of("&self").as_slice(),
    ) || same_chars(p.as_slice(), chars_of("&mut self").as_slice()) {
        return None;
    }
    let name = trim_chars(before_colon(p.as_slice()).as_slice());
    let name = trim_chars(strip_prefix_chars(name.as_slice(), chars_of("mut ").as_slice()).as_slice());
    let name = strip_prefix_chars(name.as_slice(), chars_of("r#").as_slice());
    if name.len() == 0 {
        None
    } else {
        Some(string_of(name.as_slice()))
    }
}

/// The bracket depth counting only parentheses, from `open` up to `j`.
pub open spec fn paren_depth(s: Seq<char>, open: int, j: int) -> int
    decreases j - open,
{
    if j <= open {
        0
    } else {
        paren_depth(s, open, j - 1) + (if s[j - 1] == '(' {
            1int
        } else if s[j - 1] == ')' {
            -1int
        } else {
            0int
        })
    }
}

/// The parenthesis closing the one at `open`: the first `)` after which
/// the parenthesis depth counted from `open` is back to zero.
pub open spec fn closes_at(s: Seq<char>, open: int, j: int) -> bool {
    open <= j < s.len() && s[j] == ')' && paren_depth(s, open, j + 1) == 0
}

/// The index of the first `c` in `s`.
pub open spec fn first_index(s: Seq<char>, c: char) -> Option<int> {
    if exists|i: int| 0 <= i < s.len() && s[i] == c {
        Some(choose|i: int| 0 <= i < s.len() && s[i] == c && forall|j: int| 0 <= j < i ==> s[j] != c)
    } else {
        None
    }
}

/// The parameter list of a signature: the text between its first `(` and
/// the `)` closing it, when both exist.
pub open spec fn param_list(sig: Seq<char>) -> Option<Seq<char>> {
    match first_index(sig, '(') {
        None => None,
        Some(open) => if exists|j: int| closes_at(sig, open, j) {
            let close = choose|j: int|
                closes_at(sig, open, j) && forall|k: int| open <= k < j ==> !closes_at(sig, open, k);
            Some(sig.subrange(open + 1, close))
        } else {
            None
        },
    }
}

/// The names that [`param_name_spec`] finds in each piece, in order.
pub open spec fn names_in(pieces: Seq<Seq<char>>) -> Seq<Seq<char>>
    decreases pieces.len(),
{
    if pieces.len() == 0 {
        seq![]
    } else {
        match param_name_spec(pieces.last()) {
            Some(n) => names_in(pieces.drop_last()).push(n),
            None => names_in(pieces.drop_last()),
        }
    }
}

/// What [`function_params`] answers for a signature.
pub open spec fn function_params_spec(sig: Seq<char>) -> Seq<Seq<char>> {
    match param_list(sig) {
        None => seq![],
        Some(list) => names_in(pieces_from(list, 0, true, false)),
    }
}

/// The index of the first `(` in `s`, if any.
fn find_open_paren(s: &[char]) -> (r: Option<usize>)
    ensures
        match r {
            Some(i) => i < s@.len() && s@[i as int] == '(' && first_index(s@, '(') == Some(i as int),
            None => first_index(s@, '(').is_none(),
        },
{
    let n = s.len();
    let mut open: usize = 0;
    while open < n && s[open] != '('
        invariant
            n == s@.len(),
            0 <= open <= n,
            forall|j: int| 0 <= j < open ==> s@[j] != '(',
        decreases n - open,
    {
        open = open + 1;
    }
    if open == n {
        assert(!exists|i: int| 0 <= i < s@.len() && s@[i] == '(');
        return None;
    }
    assert(first_index(s@, '(') == Some(open as int)) by {
        let c = choose|i: int|
            0 <= i < s@.len() && s@[i] == '(' && forall|j: int| 0 <= j < i ==> s@[j] != '(';
        assert(s@[open as int] == '(');
    }
    Some(open)
}

/// The index of the parenthesis closing the one at `open`, if any.
fn find_close_paren(s: &[char], open: usize) -> (r: Option<usize>)
    requires
        open < s@.len(),
        s@.len() <= i64::MAX,
    ensures
        match r {
            Some(j) => closes_at(s@, open as int, j as int) && forall|k: int|
                open <= k < j ==> !closes_at(s@, open as int, k),
            None => !exists|j: int| closes_at(s@, open as int, j),
        },
{
    let n = s.len();
    let mut depth: i64 = 0;
    let mut j: usize = open;
    while j < n
        invariant
            n == s@.len(),
            n <= i64::MAX,
            open < n,
            open <= j <= n,
            depth == paren_depth(s@, open as int, j as int),
            -(j - open) <= depth <= j - open,
            forall|k: int| open <= k < j ==> !closes_at(s@, open as int, k),
        decreases n - j,
    {
        if s[j] == '(' {
            depth = depth + 1;
        } else if s[j] == ')' {
            depth = depth - 1;
            if depth == 0 {
                assert(closes_at(s@, open as int, j as int));
                return Some(j);
            }
        }
        j = j + 1;
    }
    None
}

/// The parameter names of a `#[component]` function, read off its
/// signature text (from `fn` to the opening `{`), with any raw-identifier
/// prefix removed (`r#type` gives `type`).
pub fn function_params(signature: &str) -> (r: Vec<String>)
    requires
        signature@.len() <= i64::MAX,
    ensures
        names_of(r@) == function_params_spec(signature@),
{
    let s = chars_of(signature);
    let open = match find_open_paren(s.as_slice()) {
        None => return Vec::new(),
        Some(open) => open,
    };
    let close = match find_close_paren(s.as_slice(), open) {
        None => return Vec::new(),
        Some(close) => close,
    };
    assert(param_list(s@) == Some(s@.subrange(open + 1, close as int))) by {
        let c = choose|k: int|
            closes_at(s@, open as int, k) && forall|m: int|
                open <= m < k ==> !closes_at(s@, open as int, m);
        assert(closes_at(s@, open as int, close as int));
        if c < close {
        } else if c > close {
        }
    }
    let list = copy_range(s.as_slice(), open + 1, close);
    let pieces = split_top_level_commas(list.as_slice());
    collect_param_names(&pieces)
}

/// The characters of `s` from `a` up to `b`.
fn copy_range(s: &[char], a: usize, b: usize) -> (r: Vec<char>)
    requires
        a <= b <= s@.len(),
    ensures
        r@ == s@.subrange(a as int, b as int),
{
    let mut out: Vec<char> = Vec::new();
    for k in a..b
        invariant
            a <= b <= s@.len(),
            out@ == s@.subrange(a as int, k as int),
    {
        out.push(s[k]);
        assert(s@.subrange(a as int, k + 1) =~= s@.subrange(a as int, k as int).push(s@[k as int]));
    }
    out
}

/// The parameter names found in each piece, in order.
fn collect_param_names(pieces: &Vec<Vec<char>>) -> (r: Vec<String>)
    ensures
        names_of(r@) == names_in(views(pieces@)),
{
    let ghost pv = views(pieces@);
    let mut out: Vec<String> = Vec::new();
    for i in 0..pieces.len()
        invariant
            pv == views(pieces@),
            names_of(out@) == names_in(pv.take(i as int)),
    {
        assert(pv.take(i + 1).drop_last() =~= pv.take(i as int));
        assert(pv.take(i + 1).last() == pieces@[i as int]@);
        match param_name(pieces[i].as_slice()) {
            Some(name) => {
                let ghost before = names_of(out@);
                out.push(name);
                assert(names_of(out@) =~= before.push(out@.last()@));
            },
            None => {},
        }
    }
    assert(pv.take(pv.len() as int) =~= pv);
    out
}


/// The HTML element names offered as tag names: a short list for
/// ordinary use, not a full HTML vocabulary.
pub open spec fn html_elements() -> Seq<Seq<char>> {
    seq![
        "a"@,
        "article"@,
        "aside"@,
        "audio"@,
        "b"@,
        "blockquote"@,
        "body"@,
        "br"@,
        "button"@,
        "canvas"@,
        "code"@,
        "div"@,
        "em"@,
        "footer"@,
        "form"@,
        "h1"@,
        "h2"@,
        "h3"@,
        "h4"@,
        "h5"@,
        "h6"@,
        "head"@,
        "header"@,
        "hr"@,
        "html"@,
        "i"@,
        "iframe"@,
        "img"@,
        "input"@,
        "label"@,
        "li"@,
        "link"@,
        "main"@,
        "meta"@,
        "nav"@,
        "ol"@,
        "option"@,
        "p"@,
        "pre"@,
        "script"@,
        "section"@,
        "select"@,
        "small"@,
        "span"@,
        "strong"@,
        "style"@,
        "svg"@,
        "table"@,
        "tbody"@,
        "td"@,
        "textarea"@,
        "th"@,
        "thead"@,
        "title"@,
        "tr"@,
        "u"@,
        "ul"@,
        "video"@,
    ]
}

fn html_element_list() -> (r: Vec<String>)
    ensures
        names_of(r@) == html_elements(),
{
    let mut r: Vec<String> = Vec::new();
    r.push("a".to_owned());
    r.push("article".to_owned());
    r.push("aside".to_owned());
    r.push("audio".to_owned());
    r.push("b".to_owned());
    r.push("blockquote".to_owned());
    r.push("body".to_owned());
    r.push("br".to_owned());
    r.push("button".to_owned());
    r.push("canvas".to_owned());
    r.push("code".to_owned());
    r.push("div".to_owned());
    r.push("em".to_owned());
    r.push("footer".to_owned());
    r.push("form".to_owned());
    r.push("h1".to_owned());
    r.push("h2".to_owned());
    r.push("h3".to_owned());
    r.push("h4".to_owned());
    r.push("h5".to_owned());
    r.push("h6".to_owned());
    r.push("head".to_owned());
    r.push("header".to_owned());
    r.push("hr".to_owned());
    r.push("html".to_owned());
    r.push("i".to_owned());
    r.push("iframe".to_owned());
    r.push("img".to_owned());
    r.push("input".to_owned());
    r.push("label".to_owned());
    r.push("li".to_owned());
    r.push("link".to_owned());
    r.push("main".to_owned());
    r.push("meta".to_owned());
    r.push("nav".to_owned());
    r.push("ol".to_owned());
    r.push("option".to_owned());
    r.push("p".to_owned());
    r.push("pre".to_owned());
    r.push("script".to_owned());
    r.push("section".to_owned());
    r.push("select".to_owned());
    r.push("small".to_owned());
    r.push("span".to_owned());
    r.push("strong".to_owned());
    r.push("style".to_owned());
    r.push("svg".to_owned());
    r.push("table".to_owned());
    r.push("tbody".to_owned());
    r.push("td".to_owned());
    r.push("textarea".to_owned());
    r.push("th".to_owned());
    r.push("thead".to_owned());
    r.push("title".to_owned());
    r.push("tr".to_owned());
    r.push("u".to_owned());
    r.push("ul".to_owned());
    r.push("video".to_owned());
    assert(names_of(r@) =~= html_elements());
    r
}

/// `name` begins with `partial`.
pub open spec fn starts_with(partial: Seq<char>) -> spec_fn(Seq<char>) -> bool {
    |name: Seq<char>| has_prefix(name, partial)
}

/// The names that begin with `partial`, each once, in the order they
/// first appear.
pub open spec fn matching_names(names: Seq<Seq<char>>, partial: Seq<char>) -> Seq<Seq<char>>
    decreases names.len(),
{
    if names.len() == 0 {
        seq![]
    } else {
        let rest = matching_names(names.drop_last(), partial);
        let n = names.last();
        if has_prefix(n, partial) && !rest.contains(n) {
            rest.push(n)
        } else {
            rest
        }
    }
}

/// The names of the components, in order.
pub open spec fn component_names(components: Seq<(String, String)>) -> Seq<Seq<char>> {
    components.map_values(|c: (String, String)| c.0@)
}

/// The tag names offered for a partial tag name: the components whose
/// name begins with it, then the HTML elements that do.
pub open spec fn tag_labels_spec(components: Seq<(String, String)>, partial: Seq<char>) -> Seq<Seq<char>> {
    matching_names(component_names(components), partial) + keep_if(html_elements(), starts_with(partial))
}

/// The signature of the first component named `tag`.
pub open spec fn signature_of(components: Seq<(String, String)>, tag: Seq<char>) -> Option<Seq<char>>
    decreases components.len(),
{
    if components.len() == 0 {
        None
    } else if components[0].0@ == tag {
        Some(components[0].1@)
    } else {
        signature_of(components.drop_first(), tag)
    }
}

/// The attribute names offered inside the tag `tag` for a partial name:
/// nothing without a tag name or on an HTML element (there is no
/// attribute vocabulary for those), else the parameters of the first
/// component of that name that begin with it.
pub open spec fn attr_labels_spec(
    components: Seq<(String, String)>,
    tag: Option<Seq<char>>,
    partial: Seq<char>,
) -> Seq<Seq<char>> {
    match tag {
        None => seq![],
        Some(t) => if html_elements().contains(t) {
            seq![]
        } else {
            match signature_of(components, t) {
                Some(sig) => keep_if(function_params_spec(sig), starts_with(partial)),
                None => seq![],
            }
        },
    }
}

/// Every signature fits a signed 64-bit length.
pub open spec fn signatures_fit(components: Seq<(String, String)>) -> bool {
    forall|i: int| #![trigger components[i]] 0 <= i < components.len() ==> components[i].1@.len() <= i64::MAX
}

fn keep_starting(names: &Vec<String>, partial: &[char]) -> (r: Vec<String>)
    ensures
        names_of(r@) == keep_if(names_of(names@), starts_with(partial@)),
{
    let mut out: Vec<String> = Vec::new();
    for i in 0..names.len()
        invariant
            names_of(out@) == keep_if(names_of(names@).take(i as int), starts_with(partial@)),
    {
        assert(names_of(names@).take(i + 1).drop_last() =~= names_of(names@).take(i as int));
        assert(names_of(names@).take(i + 1).last() == names@[i as int]@);
        let ghost before = names_of(out@);
        if starts_with_chars(chars_of(names[i].as_str()).as_slice(), partial) {
            out.push(names[i].clone());
            assert(names_of(out@) =~= before.push(names@[i as int]@));
        }
    }
    assert(names_of(names@).take(names@.len() as int) =~= names_of(names@));
    out
}

/// The tag names to offer at a partial tag name `partial`, given every
/// component (name and signature text) the workspace declares.
pub fn tag_name_labels(components: &Vec<(String, String)>, partial: &str) -> (r: Vec<String>)
    ensures
        names_of(r@) == tag_labels_spec(components@, partial@),
{
    let p = chars_of(partial);
    let ghost names = component_names(components@);
    let mut labels: Vec<String> = Vec::new();
    for i in 0..components.len()
        invariant
            p@ == partial@,
            names == component_names(components@),
            names_of(labels@) == matching_names(names.take(i as int), partial@),
    {
        assert(names.take(i + 1).drop_last() =~= names.take(i as int));
        assert(names.take(i + 1).last() == components@[i as int].0@);
        let name = &components[i].0;
        let ghost before = names_of(labels@);
        if starts_with_chars(chars_of(name.as_str()).as_slice(), p.as_slice()) {
            let mut seen = false;
            for k in 0..labels.len()
                invariant
                    before == names_of(labels@),
                    seen == exists|j: int| 0 <= j < k && before[j] == name@,
            {
                assert(before[k as int] == labels@[k as int]@);
                if labels[k] == *name {
                    seen = true;
                }
            }
            assert(seen == before.contains(name@));
            if !seen {
                labels.push(name.clone());
                assert(names_of(labels@) =~= before.push(name@));
            }
        }
    }
    assert(names.take(names.len() as int) =~= names);
    let html = keep_starting(&html_element_list(), p.as_slice());
    let ghost head = names_of(labels@);
    for k in 0..html.len()
        invariant
            names_of(labels@) == head + names_of(html@).take(k as int),
    {
        let ghost prev = labels@;
        labels.push(html[k].clone());
        assert(names_of(labels@) =~= names_of(prev).push(html@[k as int]@));
        assert(names_of(html@).take(k + 1) =~= names_of(html@).take(k as int).push(html@[k as int]@));
        assert(names_of(labels@) =~= head + names_of(html@).take(k + 1));
    }
    assert(names_of(html@).take(html@.len() as int) =~= names_of(html@));
    labels
}

/// The attribute names to offer at a partial attribute name `partial`
/// inside the tag `tag_name`, given every component (name and signature
/// text) the workspace declares.
pub fn attr_name_labels(components: &Vec<(String, String)>, tag_name: Option<&str>, partial: &str) -> (r: Vec<String>)
    requires
        signatures_fit(components@),
    ensures
        names_of(r@) == attr_labels_spec(
            components@,
            match tag_name {
                Some(t) => Some(t@),
                None => None,
            },
            partial@,
        ),
{
    let tag = match tag_name {
        Some(t) => t,
        None => return Vec::new(),
    };
    let html = html_element_list();
    let mut is_html = false;
    for k in 0..html.len()
        invariant
            names_of(html@) == html_elements(),
            is_html == exists|j: int| 0 <= j < k && html_elements()[j] == tag@,
    {
        assert(names_of(html@)[k as int] == html@[k as int]@);
        if same_text(html[k].as_str(), tag) {
            is_html = true;
        }
    }
    assert(is_html == html_elements().contains(tag@));
    if is_html {
        return Vec::new();
    }
    match signature_index(components, tag) {
        Some(i) => {
            assert(components@[i as int].1@.len() <= i64::MAX);
            let params = function_params(components[i].1.as_str());
            keep_starting(&params, chars_of(partial).as_slice())
        },
        None => Vec::new(),
    }
}

fn signature_index(components: &Vec<(String, String)>, tag: &str) -> (r: Option<usize>)
    ensures
        match r {
            Some(i) => i < components@.len() && signature_of(components@, tag@) == Some(components@[i as int].1@),
            None => signature_of(components@, tag@).is_none(),
        },
{
    let n = components.len();
    let mut i: usize = 0;
    assert(components@.subrange(0, n as int) =~= components@);
    while i < n
        invariant
            n == components@.len(),
            0 <= i <= n,
            signature_of(components@, tag@) == signature_of(components@.subrange(i as int, n as int), tag@),
        decreases n - i,
    {
        assert(components@.subrange(i as int, n as int)[0] == components@[i as int]);
        if same_text(components[i].0.as_str(), tag) {
            return Some(i);
        }
        assert(components@.subrange(i as int, n as int).drop_first() =~= components@.subrange(i + 1, n as int));
        i = i + 1;
    }
    None
}

} // verus!
