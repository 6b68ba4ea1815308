//! The semantic token legend this server advertises: rust-analyzer's own
//! legend extended with the overlay type names it lacks (so none of its
//! indices move), or the standard LSP lists when no rust-analyzer is
//! attached.
use vstd::prelude::*;

verus! {

/// Token type of a component reference (`<UserCard>`).
pub const COMPONENT_TYPE: &'static str = "class";

/// Token type of an intrinsic HTML element name (`<div>`).
pub const ELEMENT_TYPE: &'static str = "type";

/// Token type of a JSX attribute name.
pub const ATTRIBUTE_TYPE: &'static str = "property";

/// Token type of an event attribute (`onClick`).
pub const EVENT_TYPE: &'static str = "event";

/// Token type of JSX text content.
pub const TEXT_TYPE: &'static str = "string";

/// The characters of each string, in order.
pub open spec fn names_of(v: Seq<String>) -> Seq<Seq<char>> {
    v.map_values(|s: String| s@)
}

/// The standard LSP semantic token type names, in the specification's own
/// order.
pub open spec fn standard_token_types() -> Seq<Seq<char>> {
    seq![
        "namespace"@,
        "type"@,
        "class"@,
        "enum"@,
        "interface"@,
        "struct"@,
        "typeParameter"@,
        "parameter"@,
        "variable"@,
        "property"@,
        "enumMember"@,
        "event"@,
        "function"@,
        "method"@,
        "macro"@,
        "keyword"@,
        "modifier"@,
        "comment"@,
        "string"@,
        "number"@,
        "regexp"@,
        "operator"@,
        "decorator"@,
    ]
}

/// The standard LSP semantic token modifier names.
pub open spec fn standard_token_modifiers() -> Seq<Seq<char>> {
    seq![
        "declaration"@,
        "definition"@,
        "readonly"@,
        "static"@,
        "deprecated"@,
        "abstract"@,
        "async"@,
        "modification"@,
        "documentation"@,
        "defaultLibrary"@,
    ]
}

/// The five type names Outou's own overlay tokens use, in the order they
/// are appended to a legend that lacks them.
pub open spec fn outou_type_names() -> Seq<Seq<char>> {
    seq![COMPONENT_TYPE@, ELEMENT_TYPE@, ATTRIBUTE_TYPE@, EVENT_TYPE@, TEXT_TYPE@]
}

/// `types` with each of `names` that it does not already hold appended,
/// in order.
pub open spec fn with_missing(types: Seq<Seq<char>>, names: Seq<Seq<char>>) -> Seq<Seq<char>>
    decreases names.len(),
{
    if names.len() == 0 {
        types
    } else {
        let before = with_missing(types, names.drop_last());
        if before.contains(names.last()) {
            before
        } else {
            before.push(names.last())
        }
    }
}

/// The index of the first occurrence of `x` in `s`.
pub open spec fn position_of(s: Seq<Seq<char>>, x: Seq<char>) -> Option<nat>
    decreases s.len(),
{
    if s.len() == 0 {
        None
    } else {
        match position_of(s.drop_last(), x) {
            Some(i) => Some(i),
            None => if s.last() == x {
                Some((s.len() - 1) as nat)
            } else {
                None
            },
        }
    }
}

/// A semantic token legend: the ordered type and modifier names that a
/// response's numeric indices refer to.
#[derive(Debug, Clone, PartialEq, Eq)]
pub struct Legend {
    pub token_types: Vec<String>,
    pub token_modifiers: Vec<String>,
}

/// Copies each string of `v`.
fn copy_strings(v: &Vec<String>) -> (r: Vec<String>)
    ensures
        names_of(r@) == names_of(v@),
{
    let mut out: Vec<String> = Vec::new();
    for i in 0..v.len()
        invariant
            names_of(out@) == names_of(v@.take(i as int)),
    {
        out.push(v[i].clone());
        assert(names_of(v@.take(i + 1)) =~= names_of(v@.take(i as int)).push(v@[i as int]@));
    }
    assert(v@.take(v@.len() as int) =~= v@);
    out
}

impl Legend {
    /// The token type names, as character sequences.
    pub open spec fn type_names(&self) -> Seq<Seq<char>> {
        names_of(self.token_types@)
    }

    /// The token modifier names, as character sequences.
    pub open spec fn modifier_names(&self) -> Seq<Seq<char>> {
        names_of(self.token_modifiers@)
    }

    /// The standard LSP token type and modifier lists, used when no
    /// rust-analyzer legend is available to reuse.
    pub fn default_legend() -> (r: Self)
        ensures
            r.type_names() == standard_token_types(),
            r.modifier_names() == standard_token_modifiers(),
    {
        let mut t: Vec<String> = Vec::new();
        t.push("namespace".to_owned());
        t.push("type".to_owned());
        t.push("class".to_owned());
        t.push("enum".to_owned());
        t.push("interface".to_owned());
        t.push("struct".to_owned());
        t.push("typeParameter".to_owned());
        t.push("parameter".to_owned());
        t.push("variable".to_owned());
        t.push("property".to_owned());
        t.push("enumMember".to_owned());
        t.push("event".to_owned());
        t.push("function".to_owned());
        t.push("method".to_owned());
        t.push("macro".to_owned());
        t.push("keyword".to_owned());
        t.push("modifier".to_owned());
        t.push("comment".to_owned());
        t.push("string".to_owned());
        t.push("number".to_owned());
        t.push("regexp".to_owned());
        t.push("operator".to_owned());
        t.push("decorator".to_owned());
        let mut m: Vec<String> = Vec::new();
        m.push("declaration".to_owned());
        m.push("definition".to_owned());
        m.push("readonly".to_owned());
        m.push("static".to_owned());
        m.push("deprecated".to_owned());
        m.push("abstract".to_owned());
        m.push("async".to_owned());
        m.push("modification".to_owned());
        m.push("documentation".to_owned());
        m.push("defaultLibrary".to_owned());
        let r = Legend { token_types: t, token_modifiers: m };
        assert(r.type_names() =~= standard_token_types());
        assert(r.modifier_names() =~= standard_token_modifiers());
        r
    }

    /// This legend with every overlay type name it lacks appended at the
    /// end, so that no existing index changes.
    pub fn extended_with_outou_types(&self) -> (r: Self)
        ensures
            r.type_names() == with_missing(self.type_names(), outou_type_names()),
            r.modifier_names() == self.modifier_names(),
    {
        let mut token_types = copy_strings(&self.token_types);
        let ghost t0 = self.type_names();
        let ghost names = outou_type_names();
        add_if_missing(&mut token_types, COMPONENT_TYPE);
        assert(names.take(1) =~= seq![names[0]]);
        assert(with_missing(t0, names.take(1)) == with_missing(t0, names.take(0)).push(names[0])
            || with_missing(t0, names.take(1)) == with_missing(t0, names.take(0))) by {
            assert(names.take(1).drop_last() =~= names.take(0));
        }
        assert(names.take(0) =~= Seq::<Seq<char>>::empty());
        assert(names_of(token_types@) == with_missing(t0, names.take(1))) by {
            assert(names.take(1).drop_last() =~= names.take(0));
        }
        add_if_missing(&mut token_types, ELEMENT_TYPE);
        assert(names_of(token_types@) == with_missing(t0, names.take(2))) by {
            assert(names.take(2).drop_last() =~= names.take(1));
        }
        add_if_missing(&mut token_types, ATTRIBUTE_TYPE);
        assert(names_of(token_types@) == with_missing(t0, names.take(3))) by {
            assert(names.take(3).drop_last() =~= names.take(2));
        }
        add_if_missing(&mut token_types, EVENT_TYPE);
        assert(names_of(token_types@) == with_missing(t0, names.take(4))) by {
            assert(names.take(4).drop_last() =~= names.take(3));
        }
        add_if_missing(&mut token_types, TEXT_TYPE);
        assert(names_of(token_types@) == with_missing(t0, names.take(5))) by {
            assert(names.take(5).drop_last() =~= names.take(4));
        }
        assert(names.take(5) =~= names);
        Legend { token_types, token_modifiers: copy_strings(&self.token_modifiers) }
    }

    /// The index of `name` among the token types, if present (the first
    /// occurrence when it appears more than once).
    pub fn type_index(&self, name: &str) -> (r: Option<u32>)
        ensures
            r == (match position_of(self.type_names(), name@) {
                Some(i) => Some(i as u32),
                None => None,
            }),
    {
        let wanted = name.to_owned();
        let n = self.token_types.len();
        let mut i: usize = 0;
        while i < n
            invariant
                n == self.token_types@.len(),
                0 <= i <= n,
                wanted@ == name@,
                position_of(names_of(self.token_types@.take(i as int)), name@).is_none(),
            decreases n - i,
        {
            let ghost prefix = names_of(self.token_types@.take(i as int));
            let ghost next = names_of(self.token_types@.take(i + 1));
            assert(next.drop_last() =~= prefix);
            assert(next =~= self.type_names().take(i + 1));
            if self.token_types[i] == wanted {
                proof {
                    assert(next.last() == name@);
                    lemma_position_of_prefix(self.type_names(), name@, i + 1);
                }
                return Some(i as u32);
            }
            i = i + 1;
        }
        proof {
            assert(self.token_types@.take(n as int) =~= self.token_types@);
        }
        None
    }
}

/// Appends `name` to `types` unless it is already there.
fn add_if_missing(types: &mut Vec<String>, name: &str)
    ensures
        names_of(final(types)@) == (if names_of(old(types)@).contains(name@) {
            names_of(old(types)@)
        } else {
            names_of(old(types)@).push(name@)
        }),
{
    let wanted = name.to_owned();
    let n = types.len();
    let mut found = false;
    for i in 0..n
        invariant
            n == types@.len(),
            wanted@ == name@,
            found == names_of(types@.take(i as int)).contains(name@),
    {
        let ghost prefix = names_of(types@.take(i as int));
        let ghost next = names_of(types@.take(i + 1));
        assert(next =~= prefix.push(types@[i as int]@));
        assert(next.contains(name@) == (prefix.contains(name@) || types@[i as int]@ == name@)) by {
            if prefix.contains(name@) {
                let j = choose|j: int| 0 <= j < prefix.len() && prefix[j] == name@;
                assert(next[j] == prefix[j]);
            }
            if types@[i as int]@ == name@ {
                assert(next[i as int] == name@);
            }
            if next.contains(name@) {
                let j = choose|j: int| 0 <= j < next.len() && next[j] == name@;
                if j < i {
                    assert(prefix[j] == next[j]);
                }
            }
        }
        if types[i] == wanted {
            found = true;
        }
    }
    assert(types@.take(n as int) =~= types@);
    if !found {
        types.push(wanted);
        assert(names_of(types@) =~= names_of(old(types)@).push(name@));
    }
}

/// The first occurrence found in a prefix is the first occurrence in the
/// whole sequence.
proof fn lemma_position_of_prefix(s: Seq<Seq<char>>, x: Seq<char>, k: int)
    requires
        0 <= k <= s.len(),
        position_of(s.take(k), x).is_some(),
    ensures
        position_of(s, x) == position_of(s.take(k), x),
    decreases s.len() - k,
{
    if k < s.len() {
        assert(s.take(k + 1).drop_last() =~= s.take(k));
        assert(position_of(s.take(k + 1), x) == position_of(s.take(k), x));
        lemma_position_of_prefix(s, x, k + 1);
    } else {
        assert(s.take(k) =~= s);
    }
}

/// Appending the missing overlay names never moves an existing name: the
/// original list is a prefix of the extended one, and every name given is
/// present afterwards.
pub proof fn lemma_with_missing_keeps_prefix(types: Seq<Seq<char>>, names: Seq<Seq<char>>)
    ensures
        with_missing(types, names).len() >= types.len(),
        with_missing(types, names).take(types.len() as int) == types,
        forall|i: int| 0 <= i < names.len() ==> with_missing(types, names).contains(#[trigger] names[i]),
        forall|x: Seq<char>| types.contains(x) ==> position_of(with_missing(types, names), x)
            == position_of(types, x),
    decreases names.len(),
{
    if names.len() > 0 {
        let prev = names.drop_last();
        lemma_with_missing_keeps_prefix(types, prev);
        let before = with_missing(types, prev);
        assert forall|i: int| 0 <= i < names.len() implies with_missing(types, names).contains(
            #[trigger] names[i],
        ) by {
            if i < names.len() - 1 {
                assert(prev[i] == names[i]);
                let j = choose|j: int| 0 <= j < before.len() && before[j] == prev[i];
                if !before.contains(names.last()) {
                    assert(before.push(names.last())[j] == before[j]);
                }
            } else if !before.contains(names.last()) {
                assert(before.push(names.last())[before.len() as int] == names.last());
            }
        }
        if !before.contains(names.last()) {
            assert(before.push(names.last()).take(types.len() as int) =~= before.take(
                types.len() as int,
            ));
            assert forall|x: Seq<char>| types.contains(x) implies position_of(
                before.push(names.last()),
                x,
            ) == position_of(types, x) by {
                lemma_position_of_found(before, x);
                assert(before.push(names.last()).drop_last() =~= before);
            }
        }
    } else {
        assert(types.take(types.len() as int) =~= types);
    }
}

/// A sequence that holds `x` has a first position for it.
proof fn lemma_position_of_found(s: Seq<Seq<char>>, x: Seq<char>)
    requires
        s.contains(x),
    ensures
        position_of(s, x).is_some(),
    decreases s.len(),
{
    let j = choose|j: int| 0 <= j < s.len() && s[j] == x;
    if j < s.len() - 1 {
        assert(s.drop_last()[j] == x);
        lemma_position_of_found(s.drop_last(), x);
    }
}

/// A legend that already holds every given name is left unchanged.
pub proof fn lemma_with_missing_idempotent(types: Seq<Seq<char>>, names: Seq<Seq<char>>)
    requires
        forall|i: int| 0 <= i < names.len() ==> types.contains(#[trigger] names[i]),
    ensures
        with_missing(types, names) == types,
    decreases names.len(),
{
    if names.len() > 0 {
        let prev = names.drop_last();
        assert forall|i: int| 0 <= i < prev.len() implies types.contains(#[trigger] prev[i]) by {
            assert(prev[i] == names[i]);
        }
        lemma_with_missing_idempotent(types, prev);
        assert(types.contains(names[names.len() - 1]));
    }
}

/// The standard legend already holds each of the overlay type names, so a
/// legend built without rust-analyzer can type every overlay token.
pub proof fn lemma_standard_types_hold_outou_names()
    ensures
        forall|i: int| 0 <= i < outou_type_names().len() ==> standard_token_types().contains(
            #[trigger] outou_type_names()[i],
        ),
{
    let s = standard_token_types();
    let o = outou_type_names();
    assert(o[0] == s[2]);
    assert(o[1] == s[1]);
    assert(o[2] == s[9]);
    assert(o[3] == s[11]);
    assert(o[4] == s[18]);
}

} // verus!
