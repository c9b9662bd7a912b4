//! A specification compiled into a syntax environment: its grammar roots and
//! their synonyms, its metavariables and their lexical classes, and its
//! productions; used to parse object-language snippets and to typeset them
//! with the `{{ typst ... }}` homs.

use vstd::prelude::*;
use vstd::string::StringExecFns;
use vstd::string::StrSliceExecFns;
use crate::ast::{Item, ItemV, HomBlock, HomBlockV, GrammarRule, GrammarRuleV, Production, ProductionV, MetavarDecl,
    MetavarDeclV, homs_view, strs_view};
use crate::check::CheckedSpec;
use crate::chars::{trim, trim_of, eq_chars, slice_chars};
use crate::error::{OttError, OttErrV, err_plain, error_plain};
use crate::grammar::{Grammar, GrammarBuilder, BuilderV, ProdV, RhsItemV, SymV, Sym, assoc_index, LexPattern, LexPatternV, MetavarDef, MetavarDefV,
    map_view, assoc_insert, map_get, map_insert, compile_prod, defs_view, defs_wf, lex_wf, mv_lookup, find_metavar,
    regex_accepts, regex_compiles, lemma_absent_insert, lemma_lookup_insert};
use crate::template::{Template, PartV, env_lookup, spec_parse_template, spec_render_template};
use crate::termlex::{BuiltinLex, Token, dequote, dequote_of, quote_text, render_ident, typst_quote_text, typst_render_ident,
    lex_snippet, lex_snippet_from, lemma_lex_spans, unexpected_char_error, chars_view};
use crate::earley::{TermNode, TermNodeV, nodes_view, toks_view, parse_tree_of, earley_recognize, earley_parse, failed_msg, failure_at};
use crate::grammar::{lex_missing, sort_missing, values_defined, builder_defined, lemma_compile_prod_defined, lemma_assoc_index};
use crate::termlex::TokenV;
use vstd::string::StringSliceAdditionalSpecFns;
use crate::error::Span;
use crate::text::{chars_of, string_from_chars, byte_offset, utf8_width, lemma_byte_offset_step};

verus! {

/// A compiled syntax environment that parses object-language snippets with
/// the grammars of a specification.
#[derive(Debug, Clone)]
pub struct OttSyntax {
    /// Canonical grammar roots in order of appearance (see `roots`).
    roots: Vec<String>,
    root_alias: Vec<(String, String)>,
    metavars: Vec<(String, MetavarDef)>,
    grammar: Grammar,
    terminals: Vec<String>,
}

pub struct SyntaxV {
    pub roots: Seq<Seq<char>>,
    pub root_alias: Seq<(Seq<char>, Seq<char>)>,
    pub metavars: Seq<(Seq<char>, MetavarDefV)>,
    pub prods: Seq<ProdV>,
    pub terminals: Seq<Seq<char>>,
}

impl View for OttSyntax {
    type V = SyntaxV;

    closed spec fn view(&self) -> SyntaxV {
        SyntaxV {
            roots: strs_view(self.roots),
            root_alias: map_view(self.root_alias),
            metavars: defs_view(self.metavars),
            prods: self.grammar@,
            terminals: strs_view(self.terminals),
        }
    }
}

// ---------------------------------------------------------------------------
// Homs that configure metavariables and productions

/// The first of the blocks `bs[..n]` named `name`.
pub open spec fn first_block(bs: Seq<HomBlockV>, name: Seq<char>, n: int) -> Option<HomBlockV>
    decreases n,
{
    if n <= 0 {
        None
    } else {
        match first_block(bs, name, n - 1) {
            Some(b) => Some(b),
            None => if bs[n - 1].name == name {
                Some(bs[n - 1])
            } else {
                None
            },
        }
    }
}

/// The lexical class of a `{{ lex ... }}` block: a built-in class by name,
/// else the body as a regex matched against whole words (when it compiles).
pub open spec fn lex_block(bs: Seq<HomBlockV>) -> Option<LexPatternV> {
    match first_block(bs, "lex"@, bs.len() as int) {
        None => None,
        Some(b) => {
            let body = trim(b.body);
            if body.len() == 0 {
                None
            } else if body == "alphanum"@ {
                Some(LexPatternV::Builtin(BuiltinLex::Alphanum))
            } else if body == "Alphanum"@ {
                Some(LexPatternV::Builtin(BuiltinLex::AlphanumUpper))
            } else if body == "numeral"@ {
                Some(LexPatternV::Builtin(BuiltinLex::Numeral))
            } else if body == "numeric"@ {
                Some(LexPatternV::Builtin(BuiltinLex::Numeric))
            } else {
                let full = "^(?:"@ + body + ")$"@;
                if regex_accepts(full) {
                    Some(LexPatternV::Regex(full))
                } else {
                    None
                }
            }
        },
    }
}

/// The template of a `{{ typst ... }}` block, if there is a nonempty one.
pub open spec fn typst_block(bs: Seq<HomBlockV>) -> Result<Option<Seq<PartV>>, OttErrV> {
    match first_block(bs, "typst"@, bs.len() as int) {
        None => Ok(None),
        Some(b) => {
            let body = trim(b.body);
            if body.len() == 0 {
                Ok(None)
            } else {
                match spec_parse_template(body) {
                    Ok(t) => Ok(Some(t)),
                    Err(e) => Err(e),
                }
            }
        },
    }
}

// ---------------------------------------------------------------------------
// Compiling a specification

/// `m` with each of the names `names[..n]` (dequoted) bound to `canon`.
pub open spec fn alias_all(m: Seq<(Seq<char>, Seq<char>)>, names: Seq<Seq<char>>, n: int, canon: Seq<char>) -> Seq<(Seq<char>, Seq<char>)>
    decreases n,
{
    if n <= 0 {
        m
    } else {
        assoc_insert(alias_all(m, names, n - 1, canon), dequote(names[n - 1]), canon)
    }
}

/// Roots of the grammar rules `rs[..n]`: each rule's first root is canonical
/// for all of them, and a new canonical root is listed.
pub open spec fn rules_roots(rs: Seq<GrammarRuleV>, n: int, acc: (Seq<(Seq<char>, Seq<char>)>, Seq<Seq<char>>))
    -> Result<(Seq<(Seq<char>, Seq<char>)>, Seq<Seq<char>>), OttErrV>
    decreases n,
{
    if n <= 0 {
        Ok(acc)
    } else {
        match rules_roots(rs, n - 1, acc) {
            Err(e) => Err(e),
            Ok((alias, roots)) => {
                let r = rs[n - 1];
                if r.roots.len() == 0 {
                    Err(err_plain("grammar rule missing root"@))
                } else {
                    let canon = dequote(r.roots[0]);
                    let roots2 = if env_lookup(alias, canon) is None { roots.push(canon) } else { roots };
                    Ok((alias_all(alias, r.roots, r.roots.len() as int, canon), roots2))
                }
            },
        }
    }
}

/// The root synonyms and canonical roots of the grammar sections among `items[..n]`.
pub open spec fn root_pass(items: Seq<ItemV>, n: int) -> Result<(Seq<(Seq<char>, Seq<char>)>, Seq<Seq<char>>), OttErrV>
    decreases n,
{
    if n <= 0 {
        Ok((Seq::empty(), Seq::empty()))
    } else {
        match root_pass(items, n - 1) {
            Err(e) => Err(e),
            Ok(acc) => match items[n - 1] {
                ItemV::Grammar(rs) => rules_roots(rs, rs.len() as int, acc),
                _ => Ok(acc),
            },
        }
    }
}

/// One metavariable declaration: its names become synonyms of the first, and
/// the first declaration of a sort defines its class and template.
pub open spec fn metavar_step(m: MetavarDeclV, acc: (Seq<(Seq<char>, Seq<char>)>, Seq<(Seq<char>, MetavarDefV)>))
    -> Result<(Seq<(Seq<char>, Seq<char>)>, Seq<(Seq<char>, MetavarDefV)>), OttErrV> {
    if m.names.len() == 0 {
        Err(err_plain("metavar decl missing name"@))
    } else {
        let canon = dequote(m.names[0]);
        let alias = alias_all(acc.0, m.names, m.names.len() as int, canon);
        if mv_lookup(acc.1, canon) is Some {
            Ok((alias, acc.1))
        } else {
            match typst_block(m.reps) {
                Err(e) => Err(e),
                Ok(t) => {
                    let lex = match lex_block(m.reps) {
                        Some(l) => l,
                        None => LexPatternV::Builtin(BuiltinLex::Alphanum),
                    };
                    let names = m.names.map_values(|x: Seq<char>| dequote(x));
                    Ok((alias, acc.1.push((canon, MetavarDefV { lex, typst: t, names }))))
                },
            }
        }
    }
}

/// The metavariable synonyms and definitions of `items[..n]`.
pub open spec fn metavar_pass(items: Seq<ItemV>, n: int) -> Result<(Seq<(Seq<char>, Seq<char>)>, Seq<(Seq<char>, MetavarDefV)>), OttErrV>
    decreases n,
{
    if n <= 0 {
        Ok((Seq::empty(), Seq::empty()))
    } else {
        match metavar_pass(items, n - 1) {
            Err(e) => Err(e),
            Ok(acc) => match items[n - 1] {
                ItemV::Metavar(m) => metavar_step(m, acc),
                _ => Ok(acc),
            },
        }
    }
}

/// Compiles the productions `ps[..n]` of nonterminal `canon`.
pub open spec fn prods_pass(ps: Seq<ProductionV>, n: int, canon: Seq<char>, b: BuilderV) -> Result<BuilderV, OttErrV>
    decreases n,
{
    if n <= 0 {
        Ok(b)
    } else {
        match prods_pass(ps, n - 1, canon, b) {
            Err(e) => Err(e),
            Ok(b2) => match typst_block(ps[n - 1].annotations) {
                Err(e) => Err(e),
                Ok(t) => compile_prod(b2, canon, ps[n - 1].pattern, t),
            },
        }
    }
}

pub open spec fn rules_pass(rs: Seq<GrammarRuleV>, n: int, b: BuilderV) -> Result<BuilderV, OttErrV>
    decreases n,
{
    if n <= 0 {
        Ok(b)
    } else {
        match rules_pass(rs, n - 1, b) {
            Err(e) => Err(e),
            Ok(b2) => {
                let r = rs[n - 1];
                if r.roots.len() == 0 {
                    Err(err_plain("grammar rule missing root"@))
                } else {
                    prods_pass(r.productions, r.productions.len() as int, dequote(r.roots[0]), b2)
                }
            },
        }
    }
}

/// Compiles the productions of the grammar sections among `items[..n]`.
pub open spec fn grammar_pass(items: Seq<ItemV>, n: int, b: BuilderV) -> Result<BuilderV, OttErrV>
    decreases n,
{
    if n <= 0 {
        Ok(b)
    } else {
        match grammar_pass(items, n - 1, b) {
            Err(e) => Err(e),
            Ok(b2) => match items[n - 1] {
                ItemV::Grammar(rs) => rules_pass(rs, rs.len() as int, b2),
                _ => Ok(b2),
            },
        }
    }
}

/// The syntax environment of `items`, or the first error.
pub open spec fn spec_compile_syntax(items: Seq<ItemV>) -> Result<SyntaxV, OttErrV> {
    match root_pass(items, items.len() as int) {
        Err(e) => Err(e),
        Ok((ra, roots)) => match metavar_pass(items, items.len() as int) {
            Err(e) => Err(e),
            Ok((ma, defs)) => {
                let b0 = BuilderV { root_alias: ra, metavar_alias: ma, prods: Seq::empty(), terminals: Seq::empty(), counter: 0 };
                match grammar_pass(items, items.len() as int, b0) {
                    Err(e) => Err(e),
                    Ok(b) => Ok(SyntaxV { roots, root_alias: ra, metavars: defs, prods: b.prods, terminals: b.terminals }),
                }
            },
        },
    }
}

// ---------------------------------------------------------------------------
// The roots of a compiled specification

/// The grammar rules of the grammar sections among `items[..n]`, in order.
pub open spec fn rules_of(items: Seq<ItemV>, n: int) -> Seq<GrammarRuleV>
    decreases n,
{
    if n <= 0 {
        Seq::empty()
    } else {
        match items[n - 1] {
            ItemV::Grammar(rs) => rules_of(items, n - 1) + rs,
            _ => rules_of(items, n - 1),
        }
    }
}

/// Rule `r` has `x` (dequoted) among its roots.
pub open spec fn rule_names(r: GrammarRuleV, x: Seq<char>) -> bool {
    exists|j: int| 0 <= j < r.roots.len() && dequote(#[trigger] r.roots[j]) == x
}

/// The canonical root (the first root, dequoted) of the last of the rules
/// `rs[..n]` that has `x` among its roots.
pub open spec fn root_owner(rs: Seq<GrammarRuleV>, n: int, x: Seq<char>) -> Option<Seq<char>>
    decreases n,
{
    if n <= 0 {
        None
    } else if rule_names(rs[n - 1], x) {
        Some(dequote(rs[n - 1].roots[0]))
    } else {
        root_owner(rs, n - 1, x)
    }
}

/// No name is a root of two of the rules `rs`.
pub open spec fn roots_distinct(rs: Seq<GrammarRuleV>) -> bool {
    forall|k1: int, k2: int, x: Seq<char>|
        0 <= k1 < k2 < rs.len() && #[trigger] rule_names(rs[k1], x) ==> !#[trigger] rule_names(rs[k2], x)
}

/// The canonical root of each rule, in order.
pub open spec fn canon_roots(rs: Seq<GrammarRuleV>) -> Seq<Seq<char>> {
    rs.map_values(|r: GrammarRuleV| dequote(r.roots[0]))
}

/// The canonical roots of the rules `rs[..n]` in order of appearance: the
/// canonical root of each rule that no earlier rule has among its roots.
pub open spec fn new_roots(rs: Seq<GrammarRuleV>, n: int) -> Seq<Seq<char>>
    decreases n,
{
    if n <= 0 {
        Seq::empty()
    } else if root_owner(rs, n - 1, dequote(rs[n - 1].roots[0])) is None {
        new_roots(rs, n - 1).push(dequote(rs[n - 1].roots[0]))
    } else {
        new_roots(rs, n - 1)
    }
}

/// The synonyms and roots gathered from the rules `pre`.
spec fn roots_inv(acc: (Seq<(Seq<char>, Seq<char>)>, Seq<Seq<char>>), pre: Seq<GrammarRuleV>) -> bool {
    &&& forall|x: Seq<char>| #[trigger] env_lookup(acc.0, x) == root_owner(pre, pre.len() as int, x)
    &&& acc.1 == new_roots(pre, pre.len() as int)
    &&& acc.1.no_duplicates()
    &&& forall|i: int| 0 <= i < acc.1.len() ==> root_owner(pre, pre.len() as int, #[trigger] acc.1[i]) is Some
}

proof fn lemma_new_roots_prefix(s: Seq<GrammarRuleV>, s2: Seq<GrammarRuleV>, n: int)
    requires
        n <= s.len(),
        n <= s2.len(),
        forall|k: int| 0 <= k < n ==> #[trigger] s[k] == s2[k],
    ensures
        new_roots(s, n) == new_roots(s2, n),
    decreases n,
{
    if n > 0 {
        assert(s[n - 1] == s2[n - 1]);
        lemma_new_roots_prefix(s, s2, n - 1);
        lemma_owner_prefix(s, s2, n - 1, dequote(s[n - 1].roots[0]));
    }
}

proof fn lemma_new_roots_distinct(s: Seq<GrammarRuleV>, n: int)
    requires
        roots_distinct(s),
        0 <= n <= s.len(),
        forall|k: int| 0 <= k < s.len() ==> (#[trigger] s[k]).roots.len() > 0,
    ensures
        new_roots(s, n) == canon_roots(s.take(n)),
    decreases n,
{
    if n == 0 {
        assert(canon_roots(s.take(0)) =~= Seq::<Seq<char>>::empty());
    } else {
        lemma_new_roots_distinct(s, n - 1);
        let canon = dequote(s[n - 1].roots[0]);
        assert(s[n - 1].roots.len() > 0);
        assert(rule_names(s[n - 1], canon));
        assert forall|k: int| 0 <= k < n - 1 implies !rule_names(#[trigger] s[k], canon) by {}
        lemma_owner_none(s, n - 1, canon);
        assert(canon_roots(s.take(n)) =~= canon_roots(s.take(n - 1)).push(canon));
    }
}

proof fn lemma_alias_all(m: Seq<(Seq<char>, Seq<char>)>, names: Seq<Seq<char>>, n: int, canon: Seq<char>, x: Seq<char>)
    requires
        0 <= n <= names.len(),
    ensures
        env_lookup(alias_all(m, names, n, canon), x) == if exists|j: int| 0 <= j < n && dequote(#[trigger] names[j]) == x {
            Some(canon)
        } else {
            env_lookup(m, x)
        },
    decreases n,
{
    if n > 0 {
        lemma_alias_all(m, names, n - 1, canon, x);
        lemma_lookup_insert(alias_all(m, names, n - 1, canon), dequote(names[n - 1]), canon, x);
        if exists|j: int| 0 <= j < n && dequote(#[trigger] names[j]) == x {
            let j = choose|j: int| 0 <= j < n && dequote(#[trigger] names[j]) == x;
            if j < n - 1 {
                assert(exists|j: int| 0 <= j < n - 1 && dequote(#[trigger] names[j]) == x);
            }
        }
    }
}

proof fn lemma_owner_prefix(s: Seq<GrammarRuleV>, s2: Seq<GrammarRuleV>, n: int, x: Seq<char>)
    requires
        n <= s.len(),
        n <= s2.len(),
        forall|k: int| 0 <= k < n ==> #[trigger] s[k] == s2[k],
    ensures
        root_owner(s, n, x) == root_owner(s2, n, x),
    decreases n,
{
    if n > 0 {
        assert(s[n - 1] == s2[n - 1]);
        lemma_owner_prefix(s, s2, n - 1, x);
    }
}

proof fn lemma_owner_none(s: Seq<GrammarRuleV>, n: int, x: Seq<char>)
    requires
        forall|k: int| 0 <= k < n ==> !rule_names(#[trigger] s[k], x),
    ensures
        root_owner(s, n, x) is None,
    decreases n,
{
    if n > 0 {
        assert(!rule_names(s[n - 1], x));
        lemma_owner_none(s, n - 1, x);
    }
}

proof fn lemma_owner_distinct(s: Seq<GrammarRuleV>, n: int, k: int, j: int)
    requires
        roots_distinct(s),
        0 <= k < n <= s.len(),
        0 <= j < s[k].roots.len(),
    ensures
        root_owner(s, n, dequote(s[k].roots[j])) == Some(dequote(s[k].roots[0])),
    decreases n,
{
    let x = dequote(s[k].roots[j]);
    assert(rule_names(s[k], x));
    if n - 1 > k {
        assert(!rule_names(s[n - 1], x));
        lemma_owner_distinct(s, n - 1, k, j);
    }
}

proof fn lemma_rules_roots_inv(
    rs: Seq<GrammarRuleV>,
    n: int,
    acc: (Seq<(Seq<char>, Seq<char>)>, Seq<Seq<char>>),
    pre: Seq<GrammarRuleV>,
)
    requires
        0 <= n <= rs.len(),
        roots_inv(acc, pre),
    ensures
        rules_roots(rs, n, acc) matches Ok(acc2) ==> roots_inv(acc2, pre + rs.take(n)),
    decreases n,
{
    if n == 0 {
        assert(pre + rs.take(0) =~= pre);
    } else {
        lemma_rules_roots_inv(rs, n - 1, acc, pre);
        match rules_roots(rs, n - 1, acc) {
            Ok((alias, roots)) => {
                let r = rs[n - 1];
                if r.roots.len() > 0 {
                    let canon = dequote(r.roots[0]);
                    let p1 = pre + rs.take(n - 1);
                    let p2 = pre + rs.take(n);
                    assert(p2 =~= p1.push(r));
                    let alias2 = alias_all(alias, r.roots, r.roots.len() as int, canon);
                    assert forall|x: Seq<char>| #[trigger] env_lookup(alias2, x) == root_owner(p2, p2.len() as int, x) by {
                        lemma_alias_all(alias, r.roots, r.roots.len() as int, canon, x);
                        assert forall|k: int| 0 <= k < p1.len() implies #[trigger] p1[k] == p2[k] by {}
                        lemma_owner_prefix(p1, p2, p1.len() as int, x);
                        assert(p2[p2.len() - 1] == r);
                        assert(env_lookup(alias, x) == root_owner(p1, p1.len() as int, x));
                    }
                    assert(rule_names(r, canon)) by {
                        assert(dequote(r.roots[0]) == canon);
                    }
                    assert forall|k: int| 0 <= k < p1.len() implies #[trigger] p1[k] == p2[k] by {}
                    lemma_new_roots_prefix(p1, p2, p1.len() as int);
                    lemma_owner_prefix(p1, p2, p1.len() as int, canon);
                    assert(p2[p2.len() - 1] == r);
                    assert(env_lookup(alias, canon) == root_owner(p1, p1.len() as int, canon));
                    let roots2 = if env_lookup(alias, canon) is None {
                        roots.push(canon)
                    } else {
                        roots
                    };
                    assert(roots2 == new_roots(p2, p2.len() as int));
                    assert forall|i: int| 0 <= i < roots2.len() implies root_owner(p2, p2.len() as int, #[trigger] roots2[i]) is Some by {
                        if i < roots.len() {
                            assert(roots2[i] == roots[i]);
                            assert(root_owner(p1, p1.len() as int, roots[i]) is Some);
                            lemma_owner_prefix(p1, p2, p1.len() as int, roots[i]);
                        }
                    }
                    if env_lookup(alias, canon) is None {
                        assert(!roots.contains(canon)) by {
                            if roots.contains(canon) {
                                let w = choose|w: int| 0 <= w < roots.len() && roots[w] == canon;
                                assert(root_owner(p1, p1.len() as int, roots[w]) is Some);
                            }
                        }
                        assert(roots2.no_duplicates()) by {
                            assert forall|a: int, b: int| 0 <= a < b < roots2.len() implies roots2[a] != roots2[b] by {
                                if b == roots.len() {
                                    assert(roots2[a] == roots[a]);
                                    assert(roots.contains(roots[a]));
                                } else {
                                    assert(roots2[a] == roots[a] && roots2[b] == roots[b]);
                                }
                            }
                        }
                    }
                }
            },
            Err(_) => {},
        }
    }
}

proof fn lemma_root_pass_inv(items: Seq<ItemV>, n: int)
    requires
        0 <= n <= items.len(),
    ensures
        root_pass(items, n) matches Ok(acc) ==> roots_inv(acc, rules_of(items, n)),
    decreases n,
{
    if n == 0 {
        let e = Seq::<(Seq<char>, Seq<char>)>::empty();
        assert forall|x: Seq<char>| #[trigger] env_lookup(e, x) == root_owner(rules_of(items, 0), 0, x) by {}
        assert(canon_roots(rules_of(items, 0)) =~= Seq::<Seq<char>>::empty());
    } else {
        lemma_root_pass_inv(items, n - 1);
        match root_pass(items, n - 1) {
            Ok(acc) => match items[n - 1] {
                ItemV::Grammar(rs) => {
                    lemma_rules_roots_inv(rs, rs.len() as int, acc, rules_of(items, n - 1));
                    assert(rs.take(rs.len() as int) =~= rs);
                },
                _ => {},
            },
            Err(_) => {},
        }
    }
}

/// The grammar roots of a compiled specification. A name resolves to the
/// canonical root (first root, dequoted) of the last grammar rule that has it
/// among its roots, and to nothing when no rule has it. The canonical roots
/// are those of the rules in order of appearance, each once: a rule whose
/// canonical root an earlier rule has among its roots adds none. When no
/// name is a root of two rules, they are the canonical roots of all the
/// rules, in order, and every root of a rule resolves to that rule's
/// canonical root.
pub proof fn lemma_compiled_roots(items: Seq<ItemV>, sv: SyntaxV)
    requires
        spec_compile_syntax(items) == Ok::<SyntaxV, OttErrV>(sv),
    ensures
        forall|x: Seq<char>| #[trigger] env_lookup(sv.root_alias, x) == root_owner(
            rules_of(items, items.len() as int),
            rules_of(items, items.len() as int).len() as int,
            x,
        ),
        forall|x: Seq<char>|
            (forall|k: int| 0 <= k < rules_of(items, items.len() as int).len() ==> !rule_names(
                #[trigger] rules_of(items, items.len() as int)[k],
                x,
            )) ==> #[trigger] env_lookup(sv.root_alias, x) is None,
        sv.roots == new_roots(rules_of(items, items.len() as int), rules_of(items, items.len() as int).len() as int),
        sv.roots.no_duplicates(),
        roots_distinct(rules_of(items, items.len() as int)) ==> sv.roots == canon_roots(rules_of(items, items.len() as int)),
        roots_distinct(rules_of(items, items.len() as int)) ==> forall|k: int, j: int|
            0 <= k < rules_of(items, items.len() as int).len() && 0 <= j < rules_of(items, items.len() as int)[k].roots.len()
                ==> env_lookup(sv.root_alias, dequote(#[trigger] rules_of(items, items.len() as int)[k].roots[j])) == Some(
                dequote(rules_of(items, items.len() as int)[k].roots[0]),
            ),
{
    let rs = rules_of(items, items.len() as int);
    lemma_root_pass_inv(items, items.len() as int);
    lemma_rules_have_roots(items, items.len() as int);
    assert forall|x: Seq<char>|
        (forall|k: int| 0 <= k < rs.len() ==> !rule_names(#[trigger] rs[k], x)) implies #[trigger] env_lookup(sv.root_alias, x) is None by {
        lemma_owner_none(rs, rs.len() as int, x);
    }
    if roots_distinct(rs) {
        lemma_new_roots_distinct(rs, rs.len() as int);
        assert(rs.take(rs.len() as int) =~= rs);
        assert forall|k: int, j: int| 0 <= k < rs.len() && 0 <= j < rs[k].roots.len() implies env_lookup(
            sv.root_alias,
            dequote(#[trigger] rs[k].roots[j]),
        ) == Some(dequote(rs[k].roots[0])) by {
            lemma_owner_distinct(rs, rs.len() as int, k, j);
        }
    }
}

/// A specification whose roots pass succeeds has a root in every grammar
/// rule.
proof fn lemma_rules_have_roots(items: Seq<ItemV>, n: int)
    requires
        0 <= n <= items.len(),
        root_pass(items, n) is Ok,
    ensures
        forall|k: int| 0 <= k < rules_of(items, n).len() ==> (#[trigger] rules_of(items, n)[k]).roots.len() > 0,
    decreases n,
{
    if n > 0 {
        if root_pass(items, n - 1) is Err {
            assert(root_pass(items, n) is Err);
        }
        lemma_rules_have_roots(items, n - 1);
        match items[n - 1] {
            ItemV::Grammar(rs) => {
                let acc = root_pass(items, n - 1)->Ok_0;
                lemma_rules_roots_ok(rs, rs.len() as int, acc);
                assert forall|k: int| 0 <= k < rules_of(items, n).len() implies (#[trigger] rules_of(items, n)[k]).roots.len() > 0 by {
                    if k >= rules_of(items, n - 1).len() {
                        assert(rules_of(items, n)[k] == rs[k - rules_of(items, n - 1).len()]);
                    } else {
                        assert(rules_of(items, n)[k] == rules_of(items, n - 1)[k]);
                    }
                }
            },
            _ => {},
        }
    }
}

proof fn lemma_rules_roots_ok(rs: Seq<GrammarRuleV>, n: int, acc: (Seq<(Seq<char>, Seq<char>)>, Seq<Seq<char>>))
    requires
        0 <= n <= rs.len(),
        rules_roots(rs, n, acc) is Ok,
    ensures
        forall|k: int| 0 <= k < n ==> (#[trigger] rs[k]).roots.len() > 0,
    decreases n,
{
    if n > 0 {
        if rules_roots(rs, n - 1, acc) is Err {
            assert(rules_roots(rs, n, acc) is Err);
        }
        lemma_rules_roots_ok(rs, n - 1, acc);
    }
}

// ---------------------------------------------------------------------------
// Every metavariable of a compiled syntax has a lexical class

proof fn lemma_mv_lookup_push(defs: Seq<(Seq<char>, MetavarDefV)>, k: Seq<char>, d: MetavarDefV, s: Seq<char>)
    ensures
        mv_lookup(defs, s) is Some ==> mv_lookup(defs.push((k, d)), s) is Some,
        s == k ==> mv_lookup(defs.push((k, d)), s) is Some,
    decreases defs.len(),
{
    if defs.len() > 0 {
        assert(defs.push((k, d))[0] == defs[0]);
        assert(defs.push((k, d)).drop_first() =~= defs.drop_first().push((k, d)));
        lemma_mv_lookup_push(defs.drop_first(), k, d, s);
    } else {
        assert(defs.push((k, d))[0] == (k, d));
    }
}

proof fn lemma_alias_all_defined(
    m: Seq<(Seq<char>, Seq<char>)>,
    names: Seq<Seq<char>>,
    n: int,
    canon: Seq<char>,
    defs: Seq<(Seq<char>, MetavarDefV)>,
)
    requires
        values_defined(m, defs),
        mv_lookup(defs, canon) is Some,
    ensures
        values_defined(alias_all(m, names, n, canon), defs),
    decreases n,
{
    if n > 0 {
        lemma_alias_all_defined(m, names, n - 1, canon, defs);
        let m2 = alias_all(m, names, n - 1, canon);
        let k = dequote(names[n - 1]);
        let m3 = assoc_insert(m2, k, canon);
        lemma_assoc_index(m2, k, m2.len() as int);
        assert forall|i: int| 0 <= i < m3.len() implies mv_lookup(defs, (#[trigger] m3[i]).1) is Some by {
            match assoc_index(m2, k, m2.len() as int) {
                Some(j) => {
                    if i != j {
                        assert(m3[i] == m2[i]);
                    }
                },
                None => {
                    if i < m2.len() {
                        assert(m3[i] == m2[i]);
                    }
                },
            }
        }
    }
}

proof fn lemma_metavar_pass_defined(items: Seq<ItemV>, n: int)
    ensures
        metavar_pass(items, n) matches Ok((ma, defs)) ==> values_defined(ma, defs),
    decreases n,
{
    if n > 0 {
        lemma_metavar_pass_defined(items, n - 1);
        match metavar_pass(items, n - 1) {
            Err(_) => {},
            Ok(acc) => match items[n - 1] {
                ItemV::Metavar(m) => {
                    if m.names.len() > 0 {
                        let canon = dequote(m.names[0]);
                        if mv_lookup(acc.1, canon) is Some {
                            lemma_alias_all_defined(acc.0, m.names, m.names.len() as int, canon, acc.1);
                        } else {
                            match typst_block(m.reps) {
                                Err(_) => {},
                                Ok(t) => {
                                    let lex = match lex_block(m.reps) {
                                        Some(l) => l,
                                        None => LexPatternV::Builtin(BuiltinLex::Alphanum),
                                    };
                                    let names = m.names.map_values(|x: Seq<char>| dequote(x));
                                    let d = MetavarDefV { lex, typst: t, names };
                                    let defs2 = acc.1.push((canon, d));
                                    assert forall|i: int| 0 <= i < acc.0.len() implies mv_lookup(defs2, (#[trigger] acc.0[i]).1) is Some by {
                                        lemma_mv_lookup_push(acc.1, canon, d, acc.0[i].1);
                                    }
                                    lemma_mv_lookup_push(acc.1, canon, d, canon);
                                    lemma_alias_all_defined(acc.0, m.names, m.names.len() as int, canon, defs2);
                                },
                            }
                        }
                    }
                },
                _ => {},
            },
        }
    }
}

proof fn lemma_prods_pass_defined(ps: Seq<ProductionV>, n: int, canon: Seq<char>, b: BuilderV, defs: Seq<(Seq<char>, MetavarDefV)>)
    requires
        builder_defined(b, defs),
    ensures
        prods_pass(ps, n, canon, b) matches Ok(b2) ==> builder_defined(b2, defs),
    decreases n,
{
    if n > 0 {
        lemma_prods_pass_defined(ps, n - 1, canon, b, defs);
        match prods_pass(ps, n - 1, canon, b) {
            Err(_) => {},
            Ok(b2) => match typst_block(ps[n - 1].annotations) {
                Err(_) => {},
                Ok(t) => {
                    lemma_compile_prod_defined(b2, canon, ps[n - 1].pattern, t, defs);
                },
            },
        }
    }
}

proof fn lemma_rules_pass_defined(rs: Seq<GrammarRuleV>, n: int, b: BuilderV, defs: Seq<(Seq<char>, MetavarDefV)>)
    requires
        builder_defined(b, defs),
    ensures
        rules_pass(rs, n, b) matches Ok(b2) ==> builder_defined(b2, defs),
    decreases n,
{
    if n > 0 {
        lemma_rules_pass_defined(rs, n - 1, b, defs);
        match rules_pass(rs, n - 1, b) {
            Err(_) => {},
            Ok(b2) => {
                let r = rs[n - 1];
                if r.roots.len() > 0 {
                    lemma_prods_pass_defined(r.productions, r.productions.len() as int, dequote(r.roots[0]), b2, defs);
                }
            },
        }
    }
}

proof fn lemma_grammar_pass_defined(items: Seq<ItemV>, n: int, b: BuilderV, defs: Seq<(Seq<char>, MetavarDefV)>)
    requires
        builder_defined(b, defs),
    ensures
        grammar_pass(items, n, b) matches Ok(b2) ==> builder_defined(b2, defs),
    decreases n,
{
    if n > 0 {
        lemma_grammar_pass_defined(items, n - 1, b, defs);
        match grammar_pass(items, n - 1, b) {
            Err(_) => {},
            Ok(b2) => match items[n - 1] {
                ItemV::Grammar(rs) => {
                    lemma_rules_pass_defined(rs, rs.len() as int, b2, defs);
                },
                _ => {},
            },
        }
    }
}

/// Every metavariable in the productions of a compiled syntax has a sort with
/// a lexical class.
pub proof fn lemma_compiled_sorts_defined(items: Seq<ItemV>)
    ensures
        spec_compile_syntax(items) matches Ok(sv) ==> !lex_missing(sv.prods, sv.metavars),
{
    match root_pass(items, items.len() as int) {
        Err(_) => {},
        Ok((ra, roots)) => {
            lemma_metavar_pass_defined(items, items.len() as int);
            match metavar_pass(items, items.len() as int) {
                Err(_) => {},
                Ok((ma, defs)) => {
                    let b0 = BuilderV { root_alias: ra, metavar_alias: ma, prods: Seq::empty(), terminals: Seq::empty(), counter: 0 };
                    lemma_grammar_pass_defined(items, items.len() as int, b0, defs);
                },
            }
        },
    }
}

// ---------------------------------------------------------------------------
// Implementation: compiling

/// The first block of `bs` named `name`.
fn find_block<'a>(bs: &'a Vec<HomBlock>, name: &str) -> (r: Option<&'a HomBlock>)
    ensures
        match first_block(homs_view(*bs), name@, bs@.len() as int) {
            Some(b) => r matches Some(x) && x@ == b,
            None => r is None,
        },
{
    let ghost hv = homs_view(*bs);
    let nm = name.to_owned();
    let mut k: usize = 0;
    while k < bs.len()
        invariant
            k <= bs@.len(),
            hv == homs_view(*bs),
            nm@ == name@,
            first_block(hv, name@, k as int) is None,
        decreases bs@.len() - k,
    {
        assert(hv[k as int] == bs@[k as int]@);
        if bs[k].name == nm {
            proof {
                lemma_first_block_stays(hv, name@, k + 1, bs@.len() as int);
            }
            return Some(&bs[k]);
        }
        k = k + 1;
    }
    None
}

proof fn lemma_first_block_stays(bs: Seq<HomBlockV>, name: Seq<char>, n: int, m: int)
    requires
        0 <= n <= m,
        first_block(bs, name, n) is Some,
    ensures
        first_block(bs, name, m) == first_block(bs, name, n),
    decreases m - n,
{
    if m > n {
        lemma_first_block_stays(bs, name, n, m - 1);
    }
}

fn is_word(s: &[char], w: &str) -> (r: bool)
    ensures
        r == (s@ == w@),
{
    let v = chars_of(w);
    eq_chars(s, v.as_slice())
}

/// The lexical class of the `{{ lex ... }}` block among `bs`.
fn parse_lex_block(bs: &Vec<HomBlock>) -> (r: Option<LexPattern>)
    ensures
        match lex_block(homs_view(*bs)) {
            Some(l) => r matches Some(x) && x@ == l,
            None => r is None,
        },
        r matches Some(x) ==> lex_wf(x@),
{
    let blk = match find_block(bs, "lex") {
        Some(b) => b,
        None => {
            return None;
        },
    };
    let raw = chars_of(blk.body.as_str());
    let body = trim_of(raw.as_slice());
    if body.len() == 0 {
        return None;
    }
    if is_word(body.as_slice(), "alphanum") {
        return Some(LexPattern::Builtin(BuiltinLex::Alphanum));
    }
    if is_word(body.as_slice(), "Alphanum") {
        return Some(LexPattern::Builtin(BuiltinLex::AlphanumUpper));
    }
    if is_word(body.as_slice(), "numeral") {
        return Some(LexPattern::Builtin(BuiltinLex::Numeral));
    }
    if is_word(body.as_slice(), "numeric") {
        return Some(LexPattern::Builtin(BuiltinLex::Numeric));
    }
    let mut full = "^(?:".to_owned();
    let b = string_from_chars(body.as_slice());
    full.append(b.as_str());
    full.append(")$");
    if regex_compiles(full.as_str()) {
        Some(LexPattern::Regex(full))
    } else {
        None
    }
}

/// The template of the `{{ typst ... }}` block among `bs`.
fn parse_typst_template(bs: &Vec<HomBlock>) -> (r: Result<Option<Template>, OttError>)
    ensures
        match typst_block(homs_view(*bs)) {
            Ok(Some(t)) => r matches Ok(Some(x)) && x@ == t,
            Ok(None) => r matches Ok(None),
            Err(e) => r matches Err(x) && x@ == e,
        },
{
    let blk = match find_block(bs, "typst") {
        Some(b) => b,
        None => {
            return Ok(None);
        },
    };
    let raw = chars_of(blk.body.as_str());
    let body = trim_of(raw.as_slice());
    if body.len() == 0 {
        return Ok(None);
    }
    let text = string_from_chars(body.as_slice());
    match Template::parse(text.as_str()) {
        Ok(t) => Ok(Some(t)),
        Err(e) => Err(e),
    }
}

/// Binds each of `names` (dequoted) to `canon` in `m`.
fn alias_names(m: &mut Vec<(String, String)>, names: &Vec<String>, canon: &String)
    ensures
        map_view(*final(m)) == alias_all(map_view(*old(m)), strs_view(*names), names@.len() as int, canon@),
{
    let ghost nv = strs_view(*names);
    let ghost m0 = map_view(*m);
    let mut k: usize = 0;
    while k < names.len()
        invariant
            k <= names@.len(),
            nv == strs_view(*names),
            m0 == map_view(*old(m)),
            map_view(*m) == alias_all(m0, nv, k as int, canon@),
        decreases names@.len() - k,
    {
        assert(nv[k as int] == names@[k as int]@);
        let raw = chars_of(names[k].as_str());
        let d = string_from_chars(dequote_of(raw.as_slice()).as_slice());
        map_insert(m, d, canon.clone());
        k = k + 1;
    }
}

fn dequote_string(s: &String) -> (r: String)
    ensures
        r@ == dequote(s@),
{
    let raw = chars_of(s.as_str());
    string_from_chars(dequote_of(raw.as_slice()).as_slice())
}

proof fn lemma_rules_roots_err(rs: Seq<GrammarRuleV>, n: int, m: int, acc: (Seq<(Seq<char>, Seq<char>)>, Seq<Seq<char>>))
    requires
        0 <= n <= m,
        rules_roots(rs, n, acc) is Err,
    ensures
        rules_roots(rs, m, acc) == rules_roots(rs, n, acc),
    decreases m - n,
{
    if m > n {
        lemma_rules_roots_err(rs, n, m - 1, acc);
    }
}

proof fn lemma_root_pass_err(items: Seq<ItemV>, n: int, m: int)
    requires
        0 <= n <= m,
        root_pass(items, n) is Err,
    ensures
        root_pass(items, m) == root_pass(items, n),
    decreases m - n,
{
    if m > n {
        lemma_root_pass_err(items, n, m - 1);
    }
}

proof fn lemma_metavar_pass_err(items: Seq<ItemV>, n: int, m: int)
    requires
        0 <= n <= m,
        metavar_pass(items, n) is Err,
    ensures
        metavar_pass(items, m) == metavar_pass(items, n),
    decreases m - n,
{
    if m > n {
        lemma_metavar_pass_err(items, n, m - 1);
    }
}

proof fn lemma_prods_pass_err(ps: Seq<ProductionV>, n: int, m: int, canon: Seq<char>, b: BuilderV)
    requires
        0 <= n <= m,
        prods_pass(ps, n, canon, b) is Err,
    ensures
        prods_pass(ps, m, canon, b) == prods_pass(ps, n, canon, b),
    decreases m - n,
{
    if m > n {
        lemma_prods_pass_err(ps, n, m - 1, canon, b);
    }
}

proof fn lemma_rules_pass_err(rs: Seq<GrammarRuleV>, n: int, m: int, b: BuilderV)
    requires
        0 <= n <= m,
        rules_pass(rs, n, b) is Err,
    ensures
        rules_pass(rs, m, b) == rules_pass(rs, n, b),
    decreases m - n,
{
    if m > n {
        lemma_rules_pass_err(rs, n, m - 1, b);
    }
}

proof fn lemma_grammar_pass_err(items: Seq<ItemV>, n: int, m: int, b: BuilderV)
    requires
        0 <= n <= m,
        grammar_pass(items, n, b) is Err,
    ensures
        grammar_pass(items, m, b) == grammar_pass(items, n, b),
    decreases m - n,
{
    if m > n {
        lemma_grammar_pass_err(items, n, m - 1, b);
    }
}

pub open spec fn roots_acc(alias: Vec<(String, String)>, roots: Vec<String>) -> (Seq<(Seq<char>, Seq<char>)>, Seq<Seq<char>>) {
    (map_view(alias), strs_view(roots))
}

/// The first pass: root synonyms and canonical roots.
fn collect_roots(items: &Vec<Item>, alias: &mut Vec<(String, String)>, roots: &mut Vec<String>) -> (r: Result<(), OttError>)
    requires
        map_view(*old(alias)) == Seq::<(Seq<char>, Seq<char>)>::empty(),
        strs_view(*old(roots)) == Seq::<Seq<char>>::empty(),
    ensures
        match root_pass(items@.map_values(|i: Item| i@), items@.len() as int) {
            Ok(acc) => r is Ok && roots_acc(*final(alias), *final(roots)) == acc,
            Err(e) => r matches Err(x) && x@ == e,
        },
{
    let ghost iv = items@.map_values(|i: Item| i@);
    let mut i: usize = 0;
    while i < items.len()
        invariant
            i <= items@.len(),
            iv == items@.map_values(|i: Item| i@),
            root_pass(iv, i as int) == Ok::<(Seq<(Seq<char>, Seq<char>)>, Seq<Seq<char>>), OttErrV>(roots_acc(*alias, *roots)),
        decreases items@.len() - i,
    {
        assert(iv[i as int] == items@[i as int]@);
        match &items[i] {
            Item::Grammar(g) => {
                let ghost rs = g.rules@.map_values(|r: GrammarRule| r@);
                let ghost acc0 = roots_acc(*alias, *roots);
                let mut k: usize = 0;
                while k < g.rules.len()
                    invariant
                        k <= g.rules@.len(),
                        i < items@.len(),
                        iv == items@.map_values(|i: Item| i@),
                        iv[i as int] == ItemV::Grammar(rs),
                        root_pass(iv, i as int) == Ok::<(Seq<(Seq<char>, Seq<char>)>, Seq<Seq<char>>), OttErrV>(acc0),
                        rs == g.rules@.map_values(|r: GrammarRule| r@),
                        rules_roots(rs, k as int, acc0) == Ok::<(Seq<(Seq<char>, Seq<char>)>, Seq<Seq<char>>), OttErrV>(roots_acc(*alias, *roots)),
                    decreases g.rules@.len() - k,
                {
                    let rule = &g.rules[k];
                    assert(rs[k as int] == rule@);
                    if rule.roots.len() == 0 {
                        proof {
                            lemma_rules_roots_err(rs, k + 1, rs.len() as int, acc0);
                            lemma_root_pass_err(iv, i + 1, iv.len() as int);
                        }
                        return Err(error_plain("grammar rule missing root"));
                    }
                    assert(rule@.roots[0] == rule.roots@[0]@);
                    let canon = dequote_string(&rule.roots[0]);
                    let known = map_get(alias, &canon);
                    if known.is_none() {
                        let ghost before = strs_view(*roots);
                        roots.push(canon.clone());
                        assert(strs_view(*roots) =~= before.push(canon@));
                    }
                    alias_names(alias, &rule.roots, &canon);
                    k = k + 1;
                }
                assert(rs.len() == g.rules@.len());
            },
            _ => {},
        }
        i = i + 1;
    }
    Ok(())
}

pub open spec fn mv_acc(alias: Vec<(String, String)>, defs: Vec<(String, MetavarDef)>) -> (Seq<(Seq<char>, Seq<char>)>, Seq<(Seq<char>, MetavarDefV)>) {
    (map_view(alias), defs_view(defs))
}

fn dequote_all(names: &Vec<String>) -> (r: Vec<String>)
    ensures
        strs_view(r) == strs_view(*names).map_values(|x: Seq<char>| dequote(x)),
{
    let ghost nv = strs_view(*names);
    let mut out: Vec<String> = Vec::new();
    let mut k: usize = 0;
    while k < names.len()
        invariant
            k <= names@.len(),
            nv == strs_view(*names),
            strs_view(out) == nv.take(k as int).map_values(|x: Seq<char>| dequote(x)),
        decreases names@.len() - k,
    {
        assert(nv[k as int] == names@[k as int]@);
        let d = dequote_string(&names[k]);
        let ghost before = strs_view(out);
        out.push(d);
        assert(strs_view(out) =~= before.push(dequote(nv[k as int])));
        assert(nv.take(k + 1).map_values(|x: Seq<char>| dequote(x)) =~= nv.take(k as int).map_values(|x: Seq<char>| dequote(x)).push(
            dequote(nv[k as int]),
        ));
        k = k + 1;
    }
    assert(nv.take(names@.len() as int) =~= nv);
    out
}

/// The second pass: metavariable synonyms and definitions.
fn collect_metavars(items: &Vec<Item>, alias: &mut Vec<(String, String)>, defs: &mut Vec<(String, MetavarDef)>) -> (r: Result<(), OttError>)
    requires
        map_view(*old(alias)) == Seq::<(Seq<char>, Seq<char>)>::empty(),
        defs_view(*old(defs)) == Seq::<(Seq<char>, MetavarDefV)>::empty(),
    ensures
        match metavar_pass(items@.map_values(|i: Item| i@), items@.len() as int) {
            Ok(acc) => r is Ok && mv_acc(*final(alias), *final(defs)) == acc,
            Err(e) => r matches Err(x) && x@ == e,
        },
        defs_wf(defs_view(*final(defs))),
{
    let ghost iv = items@.map_values(|i: Item| i@);
    let mut i: usize = 0;
    while i < items.len()
        invariant
            i <= items@.len(),
            iv == items@.map_values(|i: Item| i@),
            metavar_pass(iv, i as int) == Ok::<(Seq<(Seq<char>, Seq<char>)>, Seq<(Seq<char>, MetavarDefV)>), OttErrV>(mv_acc(*alias, *defs)),
            defs_wf(defs_view(*defs)),
        decreases items@.len() - i,
    {
        assert(iv[i as int] == items@[i as int]@);
        match &items[i] {
            Item::Metavar(mv) => {
                if mv.names.len() == 0 {
                    proof {
                        lemma_metavar_pass_err(iv, i + 1, iv.len() as int);
                    }
                    return Err(error_plain("metavar decl missing name"));
                }
                assert(mv@.names[0] == mv.names@[0]@);
                let canon = dequote_string(&mv.names[0]);
                let names = dequote_all(&mv.names);
                alias_names(alias, &mv.names, &canon);
                let known = find_metavar(defs, &canon);
                if known.is_none() {
                    let lex = match parse_lex_block(&mv.reps) {
                        Some(l) => l,
                        None => LexPattern::Builtin(BuiltinLex::Alphanum),
                    };
                    let typst = match parse_typst_template(&mv.reps) {
                        Ok(t) => t,
                        Err(e) => {
                            proof {
                                lemma_metavar_pass_err(iv, i + 1, iv.len() as int);
                            }
                            return Err(e);
                        },
                    };
                    let ghost before = defs_view(*defs);
                    let def = MetavarDef { lex, typst, names };
                    let ghost dv = def@;
                    defs.push((canon, def));
                    assert(defs_view(*defs) =~= before.push((canon@, dv)));
                    assert(defs_wf(defs_view(*defs))) by {
                        let d2 = defs_view(*defs);
                        assert forall|k: int| 0 <= k < d2.len() implies lex_wf(#[trigger] d2[k].1.lex) by {
                            if k < before.len() {
                                assert(d2[k] == before[k]);
                            }
                        }
                    }
                }
            },
            _ => {},
        }
        i = i + 1;
    }
    Ok(())
}

/// The third pass: the productions of every grammar rule.
fn compile_grammars(items: &Vec<Item>, builder: &mut GrammarBuilder) -> (r: Result<(), OttError>)
    ensures
        match grammar_pass(items@.map_values(|i: Item| i@), items@.len() as int, old(builder)@) {
            Ok(b) => r is Ok && final(builder)@ == b,
            Err(e) => r matches Err(x) && x@ == e,
        },
{
    let ghost iv = items@.map_values(|i: Item| i@);
    let ghost b0 = builder@;
    let mut i: usize = 0;
    while i < items.len()
        invariant
            i <= items@.len(),
            iv == items@.map_values(|i: Item| i@),
            b0 == old(builder)@,
            grammar_pass(iv, i as int, b0) == Ok::<BuilderV, OttErrV>(builder@),
        decreases items@.len() - i,
    {
        assert(iv[i as int] == items@[i as int]@);
        match &items[i] {
            Item::Grammar(g) => {
                let ghost rs = g.rules@.map_values(|r: GrammarRule| r@);
                let ghost bi = builder@;
                let mut k: usize = 0;
                while k < g.rules.len()
                    invariant
                        k <= g.rules@.len(),
                        i < items@.len(),
                        iv == items@.map_values(|i: Item| i@),
                        iv[i as int] == ItemV::Grammar(rs),
                        b0 == old(builder)@,
                        grammar_pass(iv, i as int, b0) == Ok::<BuilderV, OttErrV>(bi),
                        rs == g.rules@.map_values(|r: GrammarRule| r@),
                        rules_pass(rs, k as int, bi) == Ok::<BuilderV, OttErrV>(builder@),
                    decreases g.rules@.len() - k,
                {
                    let rule = &g.rules[k];
                    assert(rs[k as int] == rule@);
                    if rule.roots.len() == 0 {
                        proof {
                            lemma_rules_pass_err(rs, k + 1, rs.len() as int, bi);
                            lemma_grammar_pass_err(iv, i + 1, iv.len() as int, b0);
                        }
                        return Err(error_plain("grammar rule missing root"));
                    }
                    assert(rule@.roots[0] == rule.roots@[0]@);
                    let canon = dequote_string(&rule.roots[0]);
                    let ghost ps = rule.productions@.map_values(|p: Production| p@);
                    let ghost bk = builder@;
                    let mut q: usize = 0;
                    while q < rule.productions.len()
                        invariant
                            q <= rule.productions@.len(),
                            k < g.rules@.len(),
                            i < items@.len(),
                            iv == items@.map_values(|i: Item| i@),
                            iv[i as int] == ItemV::Grammar(rs),
                            b0 == old(builder)@,
                            grammar_pass(iv, i as int, b0) == Ok::<BuilderV, OttErrV>(bi),
                            rs == g.rules@.map_values(|r: GrammarRule| r@),
                            rs[k as int] == rule@,
                            rule.roots@.len() > 0,
                            canon@ == dequote(rule@.roots[0]),
                            rules_pass(rs, k as int, bi) == Ok::<BuilderV, OttErrV>(bk),
                            ps == rule.productions@.map_values(|p: Production| p@),
                            prods_pass(ps, q as int, canon@, bk) == Ok::<BuilderV, OttErrV>(builder@),
                        decreases rule.productions@.len() - q,
                    {
                        let prod = &rule.productions[q];
                        assert(ps[q as int] == prod@);
                        let typst = match parse_typst_template(&prod.annotations) {
                            Ok(t) => t,
                            Err(e) => {
                                proof {
                                    lemma_prods_pass_err(ps, q + 1, ps.len() as int, canon@, bk);
                                    lemma_rules_pass_err(rs, k + 1, rs.len() as int, bi);
                                    lemma_grammar_pass_err(iv, i + 1, iv.len() as int, b0);
                                }
                                return Err(e);
                            },
                        };
                        match builder.compile_production(&canon, &prod.pattern, typst) {
                            Ok(()) => {},
                            Err(e) => {
                                proof {
                                    lemma_prods_pass_err(ps, q + 1, ps.len() as int, canon@, bk);
                                    lemma_rules_pass_err(rs, k + 1, rs.len() as int, bi);
                                    lemma_grammar_pass_err(iv, i + 1, iv.len() as int, b0);
                                }
                                return Err(e);
                            },
                        }
                        q = q + 1;
                    }
                    assert(ps.len() == rule.productions@.len());
                    k = k + 1;
                }
                assert(rs.len() == g.rules@.len());
            },
            _ => {},
        }
        i = i + 1;
    }
    Ok(())
}

/// Compiles a checked specification into a syntax environment usable for
/// parsing object-language snippets.
pub fn compile_syntax(spec: &CheckedSpec) -> (r: Result<OttSyntax, OttError>)
    ensures
        match spec_compile_syntax(spec.spec@) {
            Ok(sv) => r matches Ok(x) && x@ == sv && x.wf(),
            Err(e) => r matches Err(x) && x@ == e,
        },
{
    let items = &spec.spec.items;
    let mut root_alias: Vec<(String, String)> = Vec::new();
    let mut roots: Vec<String> = Vec::new();
    assert(map_view(root_alias) =~= Seq::<(Seq<char>, Seq<char>)>::empty());
    assert(strs_view(roots) =~= Seq::<Seq<char>>::empty());
    match collect_roots(items, &mut root_alias, &mut roots) {
        Ok(()) => {},
        Err(e) => {
            return Err(e);
        },
    }
    let mut metavar_alias: Vec<(String, String)> = Vec::new();
    let mut metavars: Vec<(String, MetavarDef)> = Vec::new();
    assert(map_view(metavar_alias) =~= Seq::<(Seq<char>, Seq<char>)>::empty());
    assert(defs_view(metavars) =~= Seq::<(Seq<char>, MetavarDefV)>::empty());
    match collect_metavars(items, &mut metavar_alias, &mut metavars) {
        Ok(()) => {},
        Err(e) => {
            return Err(e);
        },
    }
    let ra = clone_map(&root_alias);
    let mut builder = GrammarBuilder::new(ra, metavar_alias);
    match compile_grammars(items, &mut builder) {
        Ok(()) => {},
        Err(e) => {
            return Err(e);
        },
    }
    proof {
        lemma_compiled_sorts_defined(spec.spec@);
    }
    Ok(OttSyntax { roots, root_alias, metavars, grammar: builder.grammar, terminals: builder.terminals })
}

fn clone_map(m: &Vec<(String, String)>) -> (r: Vec<(String, String)>)
    ensures
        map_view(r) == map_view(*m),
{
    let ghost mv = map_view(*m);
    let mut out: Vec<(String, String)> = Vec::new();
    let mut k: usize = 0;
    while k < m.len()
        invariant
            k <= m@.len(),
            mv == map_view(*m),
            map_view(out) == mv.take(k as int),
        decreases m@.len() - k,
    {
        let ghost before = map_view(out);
        out.push((m[k].0.clone(), m[k].1.clone()));
        assert(map_view(out) =~= before.push(mv[k as int]));
        assert(mv.take(k + 1) =~= mv.take(k as int).push(mv[k as int]));
        k = k + 1;
    }
    assert(mv.take(m@.len() as int) =~= mv);
    out
}

impl OttSyntax {
    /// Every regex that a metavariable holds was accepted.
    pub closed spec fn wf(&self) -> bool {
        &&& defs_wf(defs_view(self.metavars))
        &&& !lex_missing(self.grammar@, defs_view(self.metavars))
    }
}

// ---------------------------------------------------------------------------
// Rendering parse trees

/// The index of the character that starts at byte `b` of `s`, searching from index `a`.
pub open spec fn char_at_byte(s: Seq<char>, b: nat, a: int) -> Option<int>
    decreases s.len() - a,
{
    if a < 0 || a > s.len() {
        None
    } else if byte_offset(s, a) == b {
        Some(a)
    } else if byte_offset(s, a) > b || a == s.len() {
        None
    } else {
        char_at_byte(s, b, a + 1)
    }
}

/// `src.get(span.start..span.end)`: the text between two character boundaries.
pub open spec fn span_text(s: Seq<char>, sp: Span) -> Option<Seq<char>> {
    match char_at_byte(s, sp.start as nat, 0) {
        Some(a) => match char_at_byte(s, sp.end as nat, 0) {
            Some(c) => if a <= c {
                Some(s.subrange(a, c))
            } else {
                None
            },
            None => None,
        },
        None => None,
    }
}

/// Each of `names[..n]` bound to `v`.
pub open spec fn names_env(names: Seq<Seq<char>>, n: int, v: Seq<char>) -> Seq<(Seq<char>, Seq<char>)>
    decreases n,
{
    if n <= 0 {
        Seq::empty()
    } else {
        assoc_insert(names_env(names, n - 1, v), names[n - 1], v)
    }
}

/// A metavariable's text in Typst math: the rendered identifier, through the
/// sort's template (whose holes are the sort's names) when it has one.
pub open spec fn render_mv(defs: Seq<(Seq<char>, MetavarDefV)>, sort: Seq<char>, text: Seq<char>) -> Result<Seq<char>, OttErrV> {
    match mv_lookup(defs, sort) {
        None => Err(err_plain("internal error: missing metavariable sort `"@ + sort + "`"@)),
        Some(d) => {
            let r = render_ident(trim(text));
            match d.typst {
                Some(t) => spec_render_template(t, names_env(d.names, d.names.len() as int, r)),
                None => Ok(r),
            }
        },
    }
}

/// A parse tree in Typst math: leaves as quoted text or rendered
/// metavariables; a node through its production's template, whose holes are
/// the labels of the production's symbols; a node without a template as its
/// source text, quoted.
pub open spec fn render_tree(g: Seq<ProdV>, defs: Seq<(Seq<char>, MetavarDefV)>, src: Seq<char>, n: TermNodeV) -> Result<Seq<char>, OttErrV>
    decreases n, 0nat,
{
    match n {
        TermNodeV::Terminal { text } => Ok(quote_text(text)),
        TermNodeV::Metavar { sort, text } => render_mv(defs, sort, text),
        TermNodeV::Nonterminal { prod_id, children, span } => if prod_id >= g.len() {
            Err(err_plain("internal error: invalid production id"@))
        } else {
            match g[prod_id as int].typst {
                Some(t) => match label_env(g, defs, src, g[prod_id as int].rhs, children, 0, Seq::empty()) {
                    Err(e) => Err(e),
                    Ok(env) => spec_render_template(t, env),
                },
                None => match span_text(src, span) {
                    None => Err(err_plain("internal error: invalid span"@)),
                    Some(sl) => Ok(quote_text(trim(sl))),
                },
            }
        },
    }
}

pub open spec fn dup_label_msg(l: Seq<char>) -> Seq<char> {
    "duplicate label `"@ + l + "` in production (cannot be used in typst template)"@
}

/// The environment of a template: for each labelled symbol among the first
/// `min(rhs, ch)` from `k` on, its label bound to the rendering of its tree.
pub open spec fn label_env(
    g: Seq<ProdV>,
    defs: Seq<(Seq<char>, MetavarDefV)>,
    src: Seq<char>,
    rhs: Seq<RhsItemV>,
    ch: Seq<TermNodeV>,
    k: int,
    env: Seq<(Seq<char>, Seq<char>)>,
) -> Result<Seq<(Seq<char>, Seq<char>)>, OttErrV>
    decreases ch, ch.len() - k,
{
    if k < 0 || k >= rhs.len() || k >= ch.len() {
        Ok(env)
    } else {
        match rhs[k].label {
            None => label_env(g, defs, src, rhs, ch, k + 1, env),
            Some(l) => {
                let v = match rhs[k].sym {
                    SymV::Metavar(sort) => match ch[k] {
                        TermNodeV::Metavar { text, .. } => render_mv(defs, sort, text),
                        _ => Err(err_plain("internal error: metavar hole did not bind a metavar"@)),
                    },
                    SymV::Nonterminal(_) => render_tree(g, defs, src, ch[k]),
                    SymV::Terminal(_) => Err(err_plain("internal error: terminal symbols must not have labels"@)),
                };
                match v {
                    Err(e) => Err(e),
                    Ok(val) => if env_lookup(env, l) is Some {
                        Err(err_plain(dup_label_msg(l)))
                    } else {
                        label_env(g, defs, src, rhs, ch, k + 1, env.push((l, val)))
                    },
                }
            },
        }
    }
}

/// The character index of byte `b` of `s`.
fn byte_to_char(s: &[char], b: usize) -> (r: Option<usize>)
    requires
        vstd::utf8::encode_utf8(s@).len() <= usize::MAX,
    ensures
        match r {
            Some(x) => char_at_byte(s@, b as nat, 0) == Some(x as int) && x <= s@.len(),
            None => char_at_byte(s@, b as nat, 0) is None,
        },
{
    let mut a: usize = 0;
    let mut off: usize = 0;
    proof {
        assert(s@.take(0) =~= Seq::<char>::empty());
        assert(vstd::utf8::encode_utf8(Seq::<char>::empty()) =~= Seq::<u8>::empty());
    }
    loop
        invariant
            a <= s@.len(),
            off == byte_offset(s@, a as int),
            vstd::utf8::encode_utf8(s@).len() <= usize::MAX,
            char_at_byte(s@, b as nat, 0) == char_at_byte(s@, b as nat, a as int),
        decreases s@.len() - a,
    {
        if off == b {
            return Some(a);
        }
        if off > b || a == s.len() {
            return None;
        }
        proof {
            lemma_byte_offset_step(s@, a as int);
        }
        let w = utf8_width(s[a]);
        off = off + w;
        a = a + 1;
    }
}

/// `src.get(span.start..span.end)`.
fn span_to_str(src: &str, span: &Span) -> (r: Option<Vec<char>>)
    ensures
        match span_text(src@, *span) {
            Some(t) => r matches Some(x) && x@ == t,
            None => r is None,
        },
{
    let bytes = src.as_bytes();
    let _nb = bytes.len();
    let s = chars_of(src);
    let a = match byte_to_char(s.as_slice(), span.start) {
        Some(a) => a,
        None => {
            return None;
        },
    };
    let c = match byte_to_char(s.as_slice(), span.end) {
        Some(c) => c,
        None => {
            return None;
        },
    };
    if a <= c {
        Some(slice_chars(s.as_slice(), a, c))
    } else {
        None
    }
}

impl OttSyntax {
    /// The canonical grammar roots in order of appearance, each once (see
    /// `lemma_compiled_roots`).
    pub fn roots(&self) -> (r: &Vec<String>)
        ensures
            strs_view(*r) == self@.roots,
    {
        &self.roots
    }

    /// The first canonical root.
    pub fn default_root(&self) -> (r: Option<&str>)
        ensures
            match r {
                Some(x) => self@.roots.len() > 0 && x@ == self@.roots[0],
                None => self@.roots.len() == 0,
            },
    {
        if self.roots.len() == 0 {
            None
        } else {
            Some(self.roots[0].as_str())
        }
    }

    /// Resolves a grammar root name or synonym to its canonical root name.
    pub fn resolve_root(&self, name: &str) -> (r: Option<&str>)
        ensures
            match env_lookup(self@.root_alias, name@) {
                Some(v) => r matches Some(x) && x@ == v,
                None => r is None,
            },
    {
        let ghost mv = map_view(self.root_alias);
        let key = name.to_owned();
        let mut j: usize = 0;
        assert(mv.subrange(0, mv.len() as int) =~= mv);
        while j < self.root_alias.len()
            invariant
                j <= self.root_alias@.len(),
                mv == map_view(self.root_alias),
                key@ == name@,
                env_lookup(mv, name@) == env_lookup(mv.subrange(j as int, mv.len() as int), name@),
            decreases self.root_alias@.len() - j,
        {
            let ghost rest = mv.subrange(j as int, mv.len() as int);
            assert(rest[0] == mv[j as int]);
            assert(rest.drop_first() =~= mv.subrange(j + 1, mv.len() as int));
            assert(mv[j as int] == (self.root_alias@[j as int].0@, self.root_alias@[j as int].1@));
            if self.root_alias[j].0 == key {
                return Some(self.root_alias[j].1.as_str());
            }
            j = j + 1;
        }
        assert(mv.subrange(j as int, mv.len() as int) =~= Seq::<(Seq<char>, Seq<char>)>::empty());
        None
    }

    /// The tokens of a snippet.
    fn lex_input(&self, src: &str) -> (r: Result<Vec<Token>, OttError>)
        ensures
            match lex_snippet_from(self@.terminals, src@, 0) {
                Ok(toks) => r matches Ok(v) && toks_view(v) == toks,
                Err(j) => r matches Err(e) && 0 <= j < src@.len() && unexpected_char_error(e@, src@, j),
            },
            r matches Ok(v) ==> forall|k: int| 0 <= k < v@.len() ==> (#[trigger] v@[k]).span.start < usize::MAX,
    {
        let ghost tv = strs_view(self.terminals);
        let mut ts: Vec<Vec<char>> = Vec::new();
        let mut k: usize = 0;
        while k < self.terminals.len()
            invariant
                k <= self.terminals@.len(),
                tv == strs_view(self.terminals),
                chars_view(ts) == tv.take(k as int),
            decreases self.terminals@.len() - k,
        {
            let ghost before = chars_view(ts);
            let c = chars_of(self.terminals[k].as_str());
            ts.push(c);
            assert(chars_view(ts) =~= before.push(tv[k as int]));
            assert(tv.take(k + 1) =~= tv.take(k as int).push(tv[k as int]));
            k = k + 1;
        }
        assert(tv.take(self.terminals@.len() as int) =~= tv);
        let bytes = src.as_bytes();
        let _nb = bytes.len();
        proof {
            lemma_lex_spans(tv, src@, 0);
        }
        let r = lex_snippet(&ts, src);
        proof {
            match &r {
                Ok(v) => {
                    assert forall|k: int| 0 <= k < v@.len() implies (#[trigger] v@[k]).span.start < usize::MAX by {
                        assert(toks_view(*v)[k] == v@[k]@);
                    }
                },
                Err(_) => {},
            }
        }
        r
    }

    /// A metavariable's text in Typst math.
    fn render_metavar(&self, sort: &String, text: &String) -> (r: Result<String, OttError>)
        ensures
            match render_mv(self@.metavars, sort@, text@) {
                Ok(s) => r matches Ok(x) && x@ == s,
                Err(e) => r matches Err(x) && x@ == e,
            },
    {
        let def = match find_metavar(&self.metavars, sort) {
            Some(d) => d,
            None => {
                let mut m = "internal error: missing metavariable sort `".to_owned();
                m.append(sort.as_str());
                m.append("`");
                return Err(OttError::new(m));
            },
        };
        let raw = chars_of(text.as_str());
        let t = trim_of(raw.as_slice());
        let rendered = typst_render_ident(t.as_slice());
        match &def.typst {
            Some(tmpl) => {
                let ghost nv = strs_view(def.names);
                let mut env: Vec<(String, String)> = Vec::new();
                assert(map_view(env) =~= names_env(nv, 0, rendered@));
                let mut k: usize = 0;
                while k < def.names.len()
                    invariant
                        k <= def.names@.len(),
                        nv == strs_view(def.names),
                        map_view(env) == names_env(nv, k as int, rendered@),
                    decreases def.names@.len() - k,
                {
                    assert(nv[k as int] == def.names@[k as int]@);
                    map_insert(&mut env, def.names[k].clone(), rendered.clone());
                    k = k + 1;
                }
                assert(def@.names == nv);
                tmpl.render(&env)
            },
            None => Ok(rendered),
        }
    }

    /// A parse tree in Typst math.
    fn render_node(&self, node: &TermNode, src: &str) -> (r: Result<String, OttError>)
        ensures
            match render_tree(self@.prods, self@.metavars, src@, node@) {
                Ok(s) => r matches Ok(x) && x@ == s,
                Err(e) => r matches Err(x) && x@ == e,
            },
        decreases node,
    {
        match node {
            TermNode::Terminal { text } => {
                let raw = chars_of(text.as_str());
                Ok(typst_quote_text(raw.as_slice()))
            },
            TermNode::Metavar { sort, text } => self.render_metavar(sort, text),
            TermNode::Nonterminal { prod_id, children, span } => {
                let ghost gv = self@.prods;
                let ghost chv = node@->children;
                assert(chv =~= nodes_view(*children));
                if *prod_id >= self.grammar.prods.len() {
                    return Err(error_plain("internal error: invalid production id"));
                }
                let prod = &self.grammar.prods[*prod_id];
                assert(gv[*prod_id as int] == prod@);
                match &prod.typst {
                    Some(tmpl) => {
                        let ghost rv = prod@.rhs;
                        assert(node@ == TermNodeV::Nonterminal { prod_id: *prod_id, children: chv, span: *span });
                        assert(render_tree(gv, self@.metavars, src@, node@) == match label_env(gv, self@.metavars, src@, rv, chv, 0, Seq::empty()) {
                            Err(e) => Err(e),
                            Ok(env) => spec_render_template(tmpl@, env),
                        });
                        let mut env: Vec<(String, String)> = Vec::new();
                        let mut k: usize = 0;
                        assert(map_view(env) =~= Seq::<(Seq<char>, Seq<char>)>::empty());
                        while k < prod.rhs.len() && k < children.len()
                            invariant
                                k <= prod.rhs@.len(),
                                rv == prod@.rhs,
                                chv == nodes_view(*children),
                                gv == self@.prods,
                                label_env(gv, self@.metavars, src@, rv, chv, 0, Seq::empty()) == label_env(
                                    gv,
                                    self@.metavars,
                                    src@,
                                    rv,
                                    chv,
                                    k as int,
                                    map_view(env),
                                ),
                                forall|j: int| 0 <= j < children@.len() ==> decreases_to!(*node => #[trigger] children@[j]),
                                render_tree(gv, self@.metavars, src@, node@) == match label_env(gv, self@.metavars, src@, rv, chv, 0, Seq::empty()) {
                                    Err(e) => Err(e),
                                    Ok(env) => spec_render_template(tmpl@, env),
                                },
                            decreases prod.rhs@.len() - k,
                        {
                            let item = &prod.rhs[k];
                            assert(rv[k as int] == item@);
                            assert(chv[k as int] == children@[k as int]@);
                            match &item.label {
                                None => {},
                                Some(l) => {
                                    let value = match &item.sym {
                                        Sym::Metavar(sort) => {
                                            match &children[k] {
                                                TermNode::Metavar { text, .. } => self.render_metavar(sort, text),
                                                _ => Err(error_plain("internal error: metavar hole did not bind a metavar")),
                                            }
                                        },
                                        Sym::Nonterminal(_) => self.render_node(&children[k], src),
                                        Sym::Terminal(_) => Err(error_plain("internal error: terminal symbols must not have labels")),
                                    };
                                    assert(rv[k as int].label == Some(l@));
                                    let v = match value {
                                        Ok(v) => v,
                                        Err(e) => {
                                            assert(label_env(gv, self@.metavars, src@, rv, chv, k as int, map_view(env)) == Err::<Seq<(Seq<char>, Seq<char>)>, OttErrV>(e@));
                                            return Err(e);
                                        },
                                    };
                                    if map_get(&env, l).is_some() {
                                        let mut m = "duplicate label `".to_owned();
                                        m.append(l.as_str());
                                        m.append("` in production (cannot be used in typst template)");
                                        return Err(OttError::new(m));
                                    }
                                    let ghost e0 = map_view(env);
                                    let ghost kv = (l@, v@);
                                    proof {
                                        lemma_absent_insert(e0, l@, v@);
                                    }
                                    map_insert(&mut env, l.clone(), v);
                                    assert(map_view(env) == e0.push(kv));
                                },
                            }
                            k = k + 1;
                        }
                        tmpl.render(&env)
                    },
                    None => {
                        match span_to_str(src, span) {
                            None => Err(error_plain("internal error: invalid span")),
                            Some(sl) => {
                                let t = trim_of(sl.as_slice());
                                Ok(typst_quote_text(t.as_slice()))
                            },
                        }
                    },
                }
            },
        }
    }
}

pub open spec fn unknown_root_msg(root: Seq<char>) -> Seq<char> {
    "unknown grammar root `"@ + root + "`"@
}

/// The snippet `input` (as `toks`) has a parse tree as root `canon`, which
/// renders as `out` when `out` is given.
#[verifier::opaque]
pub open spec fn reading(sv: SyntaxV, toks: Seq<TokenV>, input: Seq<char>, canon: Seq<char>, out: Option<Seq<char>>) -> bool {
    exists|t: TermNodeV| #[trigger] parse_tree_of(sv.prods, sv.metavars, toks, vstd::utf8::encode_utf8(input).len() as usize, canon, t)
        && (out matches Some(o) ==> render_tree(sv.prods, sv.metavars, input, t) == Ok::<Seq<char>, OttErrV>(o))
}

/// A reading of the snippet as the root at index `k` (giving the result `r`
/// when rendered).
pub open spec fn root_reading(sv: SyntaxV, input: Seq<char>, k: int, rendered: bool, r: Result<Seq<char>, OttErrV>) -> bool {
    match lex_snippet_from(sv.terminals, input, 0) {
        Ok(toks) => match r {
            Ok(s) => reading(sv, toks, input, sv.roots[k], if rendered { Some(s) } else { None }),
            Err(_) => false,
        },
        Err(_) => false,
    }
}

/// The snippet has no parse as `canon`, or, when rendering, a parse of it
/// does not render.
pub open spec fn root_fails(sv: SyntaxV, toks: Seq<TokenV>, input: Seq<char>, canon: Seq<char>, rendered: bool) -> bool {
    ||| !reading(sv, toks, input, canon, None)
    ||| rendered && exists|t: TermNodeV|
        #[trigger] parse_tree_of(sv.prods, sv.metavars, toks, vstd::utf8::encode_utf8(input).len() as usize, canon, t) && render_tree(
            sv.prods,
            sv.metavars,
            input,
            t,
        ) is Err
}

pub open spec fn ambiguous_msg(a: Seq<char>, b: Seq<char>) -> Seq<char> {
    "ambiguous snippet: it parses as `"@ + a + "` and as `"@ + b + "`, which render differently"@
}

/// The snippet has readings as `a` and as `b` that render differently.
pub open spec fn renders_apart(sv: SyntaxV, toks: Seq<TokenV>, input: Seq<char>, a: Seq<char>, b: Seq<char>) -> bool {
    exists|s1: Seq<char>, s2: Seq<char>| s1 != s2 && #[trigger] reading(sv, toks, input, a, Some(s1)) && #[trigger] reading(sv, toks, input, b, Some(s2))
}

pub open spec fn no_parse_msg() -> Seq<char> {
    "snippet does not parse as any grammar root"@
}

/// Some parse of the snippet as `canon` renders to the error `e`.
pub open spec fn render_fails_with(sv: SyntaxV, toks: Seq<TokenV>, input: Seq<char>, canon: Seq<char>, e: OttErrV) -> bool {
    exists|t: TermNodeV|
        #[trigger] parse_tree_of(sv.prods, sv.metavars, toks, vstd::utf8::encode_utf8(input).len() as usize, canon, t) && render_tree(
            sv.prods,
            sv.metavars,
            input,
            t,
        ) == Err::<Seq<char>, OttErrV>(e)
}

/// What parsing or rendering a snippet as `root` gives.
///
/// With a root name (and always when only parsing): an unknown root or an
/// unexpected character is reported; a result is owed to a reading of the
/// snippet as that root; a failure is either "failed to parse", when the
/// snippet has no reading (reported at a token or at the end), or (when
/// rendering) the error that a reading renders to.
///
/// With an empty name when rendering, every root is tried: a result is the
/// rendering of the first root that reads and renders, and every root either
/// fails or has a reading that renders the same; otherwise the snippet is
/// reported as ambiguous (two roots whose readings render apart) or as not
/// parsing as any root (every root fails).
pub open spec fn snippet_outcome(sv: SyntaxV, root: Seq<char>, input: Seq<char>, r: Result<Seq<char>, OttErrV>, rendered: bool) -> bool {
    if root.len() > 0 || !rendered {
        match env_lookup(sv.root_alias, root) {
            None => r == Err::<Seq<char>, OttErrV>(err_plain(unknown_root_msg(root))),
            Some(canon) => match lex_snippet_from(sv.terminals, input, 0) {
                Err(j) => r matches Err(e) && unexpected_char_error(e, input, j),
                Ok(toks) => {
                    &&& r matches Ok(s) ==> reading(sv, toks, input, canon, if rendered { Some(s) } else { None })
                    &&& r matches Err(e) ==> (e.message == failed_msg(canon) && !reading(sv, toks, input, canon, None) && failure_at(
                        sv.prods,
                        sv.metavars,
                        toks,
                        canon,
                        input,
                        e,
                    )) || (rendered && render_fails_with(sv, toks, input, canon, e))
                },
            },
        }
    } else {
        match lex_snippet_from(sv.terminals, input, 0) {
            Err(j) => r matches Err(e) && unexpected_char_error(e, input, j),
            Ok(toks) => {
                &&& r is Ok ==> exists|k: int| 0 <= k < sv.roots.len()
                    && #[trigger] root_reading(sv, input, k, true, r) && forall|k2: int| 0 <= k2 < k ==> root_fails(
                    sv,
                    toks,
                    input,
                    #[trigger] sv.roots[k2],
                    true,
                )
                &&& r matches Ok(s) ==> forall|k: int| 0 <= k < sv.roots.len() ==> root_fails(sv, toks, input, #[trigger] sv.roots[k], true)
                    || reading(sv, toks, input, sv.roots[k], Some(s))
                &&& r is Err && r != Err::<Seq<char>, OttErrV>(err_plain(no_parse_msg())) ==> exists|j: int, k: int|
                    #![trigger sv.roots[j], sv.roots[k]]
                    0 <= j < k < sv.roots.len() && r == Err::<Seq<char>, OttErrV>(err_plain(ambiguous_msg(sv.roots[j], sv.roots[k])))
                        && renders_apart(sv, toks, input, sv.roots[j], sv.roots[k])
                &&& r == Err::<Seq<char>, OttErrV>(err_plain(no_parse_msg())) ==> forall|k: int|
                    0 <= k < sv.roots.len() ==> root_fails(sv, toks, input, #[trigger] sv.roots[k], true)
            },
        }
    }
}

/// A snippet that renders as a named root also parses as that root.
pub proof fn lemma_rendered_snippet_parses(
    sv: SyntaxV,
    root: Seq<char>,
    input: Seq<char>,
    rendered: Result<Seq<char>, OttErrV>,
    parsed: Result<Seq<char>, OttErrV>,
)
    requires
        root.len() > 0,
        snippet_outcome(sv, root, input, rendered, true),
        snippet_outcome(sv, root, input, parsed, false),
        rendered is Ok,
    ensures
        parsed is Ok,
{
    reveal(reading);
}

pub open spec fn res_view(r: Result<String, OttError>) -> Result<Seq<char>, OttErrV> {
    match r {
        Ok(s) => Ok::<Seq<char>, OttErrV>(s@),
        Err(e) => Err::<Seq<char>, OttErrV>(e@),
    }
}

pub(crate) fn trimmed(input: &str) -> (r: String)
    ensures
        r@ == trim(input@),
{
    let raw = chars_of(input);
    string_from_chars(trim_of(raw.as_slice()).as_slice())
}

impl OttSyntax {
    /// Parses (recognises) `input` as the grammar root `root` (a name or
    /// synonym). On success, gives the trimmed input.
    pub fn parse(&self, root: &str, input: &str) -> (r: Result<String, OttError>)
        requires
            self.wf(),
            input.spec_bytes().len() < usize::MAX,
        ensures
            snippet_outcome(self@, root@, input@, res_view(r), false),
            r matches Ok(s) ==> s@ == trim(input@),
    {
        let ghost sv = self@;
        let canon = match self.resolve_root(root) {
            Some(c) => c.to_owned(),
            None => {
                let mut m = "unknown grammar root `".to_owned();
                m.append(root);
                m.append("`");
                return Err(OttError::new(m));
            },
        };
        let toks = match self.lex_input(input) {
            Ok(t) => t,
            Err(e) => {
                return Err(e);
            },
        };
        match earley_recognize(&canon, &self.grammar, &self.metavars, &toks, input) {
            Ok(()) => {
                proof {
                    reveal(reading);
                }
                assert(reading(sv, toks_view(toks), input@, canon@, None));
                Ok(trimmed(input))
            },
            Err(e) => {
                proof {
                    reveal(reading);
                }
                Err(e)
            },
        }
    }

    /// Parses `input` as the grammar root `root` and writes it as Typst math
    /// code with the `{{ typst ... }}` homs. With an empty root every root is
    /// tried: the snippet must have readings, and they must render alike.
    pub fn render_typst_math(&self, root: &str, input: &str) -> (r: Result<String, OttError>)
        requires
            self.wf(),
            input.spec_bytes().len() < usize::MAX,
        ensures
            snippet_outcome(self@, root@, input@, res_view(r), true),
    {
        let ghost sv = self@;
        if root.unicode_len() == 0 {
            let toks = match self.lex_input(input) {
                Ok(t) => t,
                Err(e) => {
                    return Err(e);
                },
            };
            let mut found: Option<(usize, String)> = None;
            let mut k: usize = 0;
            while k < self.roots.len()
                invariant
                    sv == self@,
                    self.wf(),
                    input.spec_bytes().len() < usize::MAX,
                    forall|q: int| 0 <= q < toks@.len() ==> (#[trigger] toks@[q]).span.start < usize::MAX,
                    lex_snippet_from(sv.terminals, input@, 0) == Ok::<Seq<TokenV>, int>(toks_view(toks)),
                    root@.len() == 0,
                    found matches Some((j, s)) ==> j < sv.roots.len() && root_reading(sv, input@, j as int, true, Ok::<Seq<char>, OttErrV>(s@)),
                    found is None ==> forall|k2: int| 0 <= k2 < k ==> root_fails(
                        sv,
                        toks_view(toks),
                        input@,
                        #[trigger] sv.roots[k2],
                        true,
                    ),
                    found matches Some((j, s)) ==> forall|k2: int| 0 <= k2 < j ==> root_fails(
                        sv,
                        toks_view(toks),
                        input@,
                        #[trigger] sv.roots[k2],
                        true,
                    ),
                    found matches Some((j, s)) ==> j < k,
                    found matches Some((j, s)) ==> forall|k2: int| 0 <= k2 < k ==> root_fails(
                        sv,
                        toks_view(toks),
                        input@,
                        #[trigger] sv.roots[k2],
                        true,
                    ) || reading(sv, toks_view(toks), input@, sv.roots[k2], Some(s@)),
                decreases self.roots@.len() - k,
            {
                proof {
                    assert(sv.roots[k as int] == self.roots@[k as int]@);
                }
                match earley_parse(&self.roots[k], &self.grammar, &self.metavars, &toks, input) {
                    Ok(tree) => {
                        match self.render_node(&tree, input) {
                            Ok(out) => {
                                proof {
                                    assert(sv.roots[k as int] == self.roots@[k as int]@);
                                    assert(parse_tree_of(sv.prods, sv.metavars, toks_view(toks), vstd::utf8::encode_utf8(input@).len() as usize, sv.roots[k as int], tree@));
                                    reveal(reading);
                                    assert(reading(sv, toks_view(toks), input@, sv.roots[k as int], Some(out@)));
                                }
                                match &found {
                                    None => {
                                        found = Some((k, out));
                                    },
                                    Some((j, first)) => {
                                        if *first != out {
                                            let mut m = "ambiguous snippet: it parses as `".to_owned();
                                            m.append(self.roots[*j].as_str());
                                            m.append("` and as `");
                                            m.append(self.roots[k].as_str());
                                            m.append("`, which render differently");
                                            proof {
                                                reveal_strlit("ambiguous snippet: it parses as `");
                                                reveal_strlit("snippet does not parse as any grammar root");
                                                assert(m@[0] == 'a');
                                                assert(no_parse_msg()[0] == 's');
                                                let jj = *j as int;
                                                assert(sv.roots[jj] == self.roots@[jj]@);
                                                assert(m@ == ambiguous_msg(sv.roots[jj], sv.roots[k as int]));
                                                assert(root_reading(sv, input@, jj, true, Ok::<Seq<char>, OttErrV>(first@)));
                                                assert(reading(sv, toks_view(toks), input@, sv.roots[jj], Some(first@)));
                                                assert(renders_apart(sv, toks_view(toks), input@, sv.roots[jj], sv.roots[k as int]));
                                            }
                                            return Err(OttError::new(m));
                                        }
                                    },
                                }
                            },
                            Err(e) => {
                                proof {
                                    assert(parse_tree_of(sv.prods, sv.metavars, toks_view(toks), vstd::utf8::encode_utf8(input@).len() as usize, sv.roots[k as int], tree@));
                                    assert(render_tree(sv.prods, sv.metavars, input@, tree@) is Err);
                                }
                            },
                        }
                    },
                    Err(e) => {
                        proof {
                            reveal(reading);
                        }
                    },
                }
                k = k + 1;
            }
            return match found {
                Some((_, s)) => Ok(s),
                None => Err(error_plain("snippet does not parse as any grammar root")),
            };
        }
        let canon = match self.resolve_root(root) {
            Some(c) => c.to_owned(),
            None => {
                let mut m = "unknown grammar root `".to_owned();
                m.append(root);
                m.append("`");
                return Err(OttError::new(m));
            },
        };
        let toks = match self.lex_input(input) {
            Ok(t) => t,
            Err(e) => {
                return Err(e);
            },
        };
        let tree = match earley_parse(&canon, &self.grammar, &self.metavars, &toks, input) {
            Ok(t) => t,
            Err(e) => {
                proof {
                    reveal(reading);
                }
                return Err(e);
            },
        };
        let out = self.render_node(&tree, input);
        proof {
            match &out {
                Ok(o) => {
                    reveal(reading);
                    assert(reading(sv, toks_view(toks), input@, canon@, Some(o@)));
                },
                Err(_) => {
                    assert(parse_tree_of(sv.prods, sv.metavars, toks_view(toks), vstd::utf8::encode_utf8(input@).len() as usize, canon@, tree@));
                },
            }
        }
        out
    }
}

} // verus!
