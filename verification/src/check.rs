//! Static checks on a parsed specification: grammar roots are declared once,
//! binding specifications parse, subrules name declared roots, and inference
//! rules have conclusions and distinct names within their block.

use vstd::prelude::*;
use vstd::string::StringExecFns;
use crate::ast::{
    Spec, Item, ItemV, GrammarRule, GrammarRuleV, Production, ProductionV, Subrule, SubruleV,
    InferenceRule, InferenceRuleV, strs_view,
};
use crate::error::{OttError, OttErrV, Position, err_at_line};
use crate::chars::{lines, first_word, trim_start};
use crate::parser::{
    spec_parse_spec, items_from, item_at, rules_from, rule_header, rule_annos_from, rule_prods_from,
    find_com, skip_trivia_from, toplevel,
};
use crate::bind::{BindErrV, BindParseError, parse_bind_spec, spec_parse_bind_spec, bind_error_text};
use crate::text::chars_of;

verus! {

#[derive(Debug, Clone)]
pub struct OttOptions {
    /// Also check that every binding specification parses.
    pub strict: bool,
}

impl Default for OttOptions {
    fn default() -> (o: Self)
        ensures
            o.strict,
    {
        Self { strict: true }
    }
}

/// A specification that passed the checks, with the grammar roots it declares.
#[derive(Debug, Clone)]
pub struct CheckedSpec {
    pub spec: Spec,
    /// Grammar roots declared in the `grammar` section(s), in the order of
    /// strings; no root occurs twice.
    pub grammar_roots: Vec<String>,
    /// For the root at each position of `grammar_roots`, the index of the item
    /// that declares it.
    pub grammar_index: Vec<usize>,
}

/// Roots declared so far, each with the index of the item that declares it.
pub open spec fn roots_view(names: Vec<String>, idxs: Vec<usize>) -> (Seq<Seq<char>>, Seq<nat>) {
    (strs_view(names), idxs@.map_values(|x: usize| x as nat))
}

impl CheckedSpec {
    /// The roots are distinct and in the order of strings, and each has its
    /// item index.
    pub open spec fn wf(&self) -> bool {
        &&& strs_view(self.grammar_roots).no_duplicates()
        &&& names_sorted(strs_view(self.grammar_roots))
        &&& self.grammar_index@.len() == self.grammar_roots@.len()
    }

    /// Whether `root` is a declared grammar root.
    pub fn has_root(&self, root: &String) -> (b: bool)
        ensures
            b == strs_view(self.grammar_roots).contains(root@),
    {
        contains_string(&self.grammar_roots, root)
    }

    /// The index of the item that declares `root`, if it is a declared root.
    pub fn root_index(&self, root: &String) -> (r: Option<usize>)
        requires
            self.wf(),
        ensures
            match r {
                Some(ix) => exists|k: int|
                    0 <= k < self.grammar_roots@.len() && self.grammar_roots@[k]@ == root@
                        && self.grammar_index@[k] == ix,
                None => !strs_view(self.grammar_roots).contains(root@),
            },
    {
        let mut k: usize = 0;
        while k < self.grammar_roots.len()
            invariant
                k <= self.grammar_roots@.len(),
                self.grammar_index@.len() == self.grammar_roots@.len(),
                forall|j: int| 0 <= j < k ==> self.grammar_roots@[j]@ != root@,
            decreases self.grammar_roots@.len() - k,
        {
            if self.grammar_roots[k] == *root {
                return Some(self.grammar_index[k]);
            }
            k = k + 1;
        }
        proof {
            let s = strs_view(self.grammar_roots);
            assert forall|j: int| 0 <= j < s.len() implies s[j] != root@ by {
                assert(s[j] == self.grammar_roots@[j]@);
            }
        }
        None
    }
}

// ---------------------------------------------------------------------------
// What the checks report

/// An error reported for the item with 0-based index `idx`, at position
/// (`idx + 1`, 1).
pub open spec fn err_at_item(message: Seq<char>, idx: int) -> OttErrV {
    err_at_line(message, idx + 1)
}

pub open spec fn dup_root_msg(root: Seq<char>) -> Seq<char> {
    "duplicate grammar root `"@ + root + "`"@
}

pub open spec fn bad_bind_msg(primary: Seq<char>, text: Seq<char>) -> Seq<char> {
    "invalid binding specification in grammar `"@ + primary + "`: "@ + text
}

pub open spec fn unknown_root_msg(root: Seq<char>) -> Seq<char> {
    "subrules references unknown grammar root `"@ + root + "`"@
}

pub open spec fn empty_conclusion_msg(name: Seq<char>) -> Seq<char> {
    "inference rule `"@ + name + "` has empty conclusion"@
}

pub open spec fn dup_rule_msg(name: Seq<char>) -> Seq<char> {
    "duplicate inference rule name `"@ + name + "` within a defn block"@
}

// ---------------------------------------------------------------------------
// First pass: grammar roots and binding specifications

/// Declares the roots `rs[..n]` of item `idx` after `decl`, or reports the
/// first one that is already declared.
pub open spec fn declare_roots(rs: Seq<Seq<char>>, n: int, idx: int, decl: (Seq<Seq<char>>, Seq<nat>))
    -> Result<(Seq<Seq<char>>, Seq<nat>), OttErrV>
    decreases n,
{
    if n <= 0 {
        Ok(decl)
    } else {
        match declare_roots(rs, n - 1, idx, decl) {
            Err(e) => Err(e),
            Ok(d) => if d.0.contains(rs[n - 1]) {
                Err(err_at_item(dup_root_msg(rs[n - 1]), idx))
            } else {
                Ok((d.0.push(rs[n - 1]), d.1.push(idx as nat)))
            },
        }
    }
}

/// The error of parsing the binding specification `s`, if it does not parse.
#[verifier::opaque]
pub open spec fn bind_error(s: Seq<char>) -> Option<BindErrV> {
    match spec_parse_bind_spec(s) {
        Err(e) => Some(e),
        Ok(_) => None,
    }
}

/// The first of the binding specifications `bs[..n]` that does not parse,
/// reported against grammar `primary` of item `idx`.
pub open spec fn bind_specs_error(bs: Seq<Seq<char>>, n: int, primary: Seq<char>, idx: int) -> Option<OttErrV>
    decreases n,
{
    if n <= 0 {
        None
    } else {
        match bind_specs_error(bs, n - 1, primary, idx) {
            Some(e) => Some(e),
            None => match bind_error(bs[n - 1]) {
                Some(be) => Some(err_at_item(bad_bind_msg(primary, bind_error_text(be)), idx)),
                None => None,
            },
        }
    }
}

/// The first binding specification error among the productions `ps[..n]`.
pub open spec fn productions_error(ps: Seq<ProductionV>, n: int, primary: Seq<char>, idx: int) -> Option<OttErrV>
    decreases n,
{
    if n <= 0 {
        None
    } else {
        match productions_error(ps, n - 1, primary, idx) {
            Some(e) => Some(e),
            None => bind_specs_error(ps[n - 1].bind_specs, ps[n - 1].bind_specs.len() as int, primary, idx),
        }
    }
}

/// Checks the grammar rules `rs[..n]` of item `idx`: each declares its roots,
/// then (when `strict`) its binding specifications must parse.
pub open spec fn check_rules(rs: Seq<GrammarRuleV>, n: int, idx: int, strict: bool, decl: (Seq<Seq<char>>, Seq<nat>))
    -> Result<(Seq<Seq<char>>, Seq<nat>), OttErrV>
    decreases n,
{
    if n <= 0 {
        Ok(decl)
    } else {
        match check_rules(rs, n - 1, idx, strict, decl) {
            Err(e) => Err(e),
            Ok(d) => {
                let r = rs[n - 1];
                match declare_roots(r.roots, r.roots.len() as int, idx, d) {
                    Err(e) => Err(e),
                    Ok(d2) => if strict {
                        match productions_error(r.productions, r.productions.len() as int, r.roots[0], idx) {
                            Some(e) => Err(e),
                            None => Ok(d2),
                        }
                    } else {
                        Ok(d2)
                    },
                }
            },
        }
    }
}

/// The roots declared by the grammar sections among `items[..n]`, with their
/// item indices, or the first error of the first pass.
pub open spec fn declared_roots(items: Seq<ItemV>, n: int, strict: bool)
    -> Result<(Seq<Seq<char>>, Seq<nat>), OttErrV>
    decreases n,
{
    if n <= 0 {
        Ok((Seq::empty(), Seq::empty()))
    } else {
        match declared_roots(items, n - 1, strict) {
            Err(e) => Err(e),
            Ok(d) => match items[n - 1] {
                ItemV::Grammar(rs) => check_rules(rs, rs.len() as int, n - 1, strict, d),
                _ => Ok(d),
            },
        }
    }
}

// ---------------------------------------------------------------------------
// Second pass: subrules and inference rules

/// The first relation among `rels[..n]` that names a root outside `roots`.
pub open spec fn subrules_error(rels: Seq<SubruleV>, n: int, roots: Seq<Seq<char>>, idx: int) -> Option<OttErrV>
    decreases n,
{
    if n <= 0 {
        None
    } else {
        match subrules_error(rels, n - 1, roots, idx) {
            Some(e) => Some(e),
            None => if !roots.contains(rels[n - 1].sub) {
                Some(err_at_item(unknown_root_msg(rels[n - 1].sub), idx))
            } else if !roots.contains(rels[n - 1].sup) {
                Some(err_at_item(unknown_root_msg(rels[n - 1].sup), idx))
            } else {
                None
            },
        }
    }
}

/// The names of the inference rules `rs[..n]`.
pub open spec fn rule_names(rs: Seq<InferenceRuleV>, n: int) -> Seq<Seq<char>> {
    rs.take(n).map_values(|r: InferenceRuleV| r.name)
}

/// The first of the inference rules `rs[..n]` with an empty conclusion or a
/// name already used by an earlier rule of the block.
pub open spec fn rules_error(rs: Seq<InferenceRuleV>, n: int, idx: int) -> Option<OttErrV>
    decreases n,
{
    if n <= 0 {
        None
    } else {
        match rules_error(rs, n - 1, idx) {
            Some(e) => Some(e),
            None => if rs[n - 1].conclusion.len() == 0 {
                Some(err_at_item(empty_conclusion_msg(rs[n - 1].name), idx))
            } else if rule_names(rs, n - 1).contains(rs[n - 1].name) {
                Some(err_at_item(dup_rule_msg(rs[n - 1].name), idx))
            } else {
                None
            },
        }
    }
}

/// The first error of the second pass among `items[..n]`, given the declared roots.
pub open spec fn references_error(items: Seq<ItemV>, n: int, roots: Seq<Seq<char>>) -> Option<OttErrV>
    decreases n,
{
    if n <= 0 {
        None
    } else {
        match references_error(items, n - 1, roots) {
            Some(e) => Some(e),
            None => match items[n - 1] {
                ItemV::Subrules(rels) => subrules_error(rels, rels.len() as int, roots, n - 1),
                ItemV::Defn(d) => rules_error(d.rules, d.rules.len() as int, n - 1),
                _ => None,
            },
        }
    }
}

/// The outcome of checking `items`: the declared roots with their item
/// indices, or the first error (first pass before second pass).
pub open spec fn spec_check_spec(items: Seq<ItemV>, strict: bool) -> Result<(Seq<Seq<char>>, Seq<nat>), OttErrV> {
    match declared_roots(items, items.len() as int, strict) {
        Err(e) => Err(e),
        Ok(d) => match references_error(items, items.len() as int, d.0) {
            Some(e) => Err(e),
            None => Ok(d),
        },
    }
}

/// Every grammar rule among `items` names at least one root.
pub open spec fn rules_have_roots(items: Seq<ItemV>) -> bool {
    forall|i: int| 0 <= i < items.len() ==> (#[trigger] items[i] matches ItemV::Grammar(rs) ==> forall|j: int|
        0 <= j < rs.len() ==> (#[trigger] rs[j]).roots.len() > 0)
}

/// Rule `j` of item `i` names no root, and the first pass reaches it: every
/// rule before it passed.
pub open spec fn rootless_at(items: Seq<ItemV>, strict: bool, i: int, j: int) -> bool {
    &&& 0 <= i < items.len()
    &&& items[i] matches ItemV::Grammar(rs)
    &&& 0 <= j < rs.len()
    &&& rs[j].roots.len() == 0
    &&& declared_roots(items, i, strict) matches Ok(d)
    &&& check_rules(rs, j, i, strict, d) is Ok
}

/// In strict mode, the first pass reaches a grammar rule that names no root,
/// whose first root it would report binding errors against.
pub open spec fn reaches_rootless(items: Seq<ItemV>, strict: bool) -> bool {
    strict && exists|i: int, j: int| #[trigger] rootless_at(items, strict, i, j)
}

/// A specification whose grammar rules all name a root reaches no rule
/// without one.
pub proof fn lemma_rooted_not_rootless(items: Seq<ItemV>, strict: bool)
    requires
        rules_have_roots(items),
    ensures
        !reaches_rootless(items, strict),
{
    if reaches_rootless(items, strict) {
        let (i, j) = choose|i: int, j: int| #[trigger] rootless_at(items, strict, i, j);
        assert(items[i] matches ItemV::Grammar(rs) ==> rs[j].roots.len() > 0);
    }
}

// ---------------------------------------------------------------------------
// Lemmas

proof fn lemma_declare_roots(rs: Seq<Seq<char>>, n: int, idx: int, decl: (Seq<Seq<char>>, Seq<nat>))
    requires
        decl.0.no_duplicates(),
        decl.0.len() == decl.1.len(),
        0 <= n <= rs.len(),
    ensures
        declare_roots(rs, n, idx, decl) matches Ok(d) ==> d.0.no_duplicates() && d.0.len() == d.1.len(),
    decreases n,
{
    if n > 0 {
        lemma_declare_roots(rs, n - 1, idx, decl);
        match declare_roots(rs, n - 1, idx, decl) {
            Ok(d) => {
                if !d.0.contains(rs[n - 1]) {
                    let s = d.0.push(rs[n - 1]);
                    assert forall|a: int, b: int| 0 <= a < s.len() && 0 <= b < s.len() && a != b implies s[a] != s[b] by {
                        if a == s.len() - 1 {
                            assert(d.0[b] == s[b]);
                        } else if b == s.len() - 1 {
                            assert(d.0[a] == s[a]);
                        }
                    }
                }
            },
            Err(_) => {},
        }
    }
}

proof fn lemma_check_rules(rs: Seq<GrammarRuleV>, n: int, idx: int, strict: bool, decl: (Seq<Seq<char>>, Seq<nat>))
    requires
        decl.0.no_duplicates(),
        decl.0.len() == decl.1.len(),
        0 <= n <= rs.len(),
    ensures
        check_rules(rs, n, idx, strict, decl) matches Ok(d) ==> d.0.no_duplicates() && d.0.len() == d.1.len(),
    decreases n,
{
    if n > 0 {
        lemma_check_rules(rs, n - 1, idx, strict, decl);
        match check_rules(rs, n - 1, idx, strict, decl) {
            Ok(d) => {
                lemma_declare_roots(rs[n - 1].roots, rs[n - 1].roots.len() as int, idx, d);
            },
            Err(_) => {},
        }
    }
}

/// The roots declared by any prefix of the items are distinct.
pub proof fn lemma_declared_roots_distinct(items: Seq<ItemV>, n: int, strict: bool)
    requires
        0 <= n <= items.len(),
    ensures
        declared_roots(items, n, strict) matches Ok(d) ==> d.0.no_duplicates() && d.0.len() == d.1.len(),
    decreases n,
{
    if n > 0 {
        lemma_declared_roots_distinct(items, n - 1, strict);
        match declared_roots(items, n - 1, strict) {
            Ok(d) => match items[n - 1] {
                ItemV::Grammar(rs) => {
                    lemma_check_rules(rs, rs.len() as int, n - 1, strict, d);
                },
                _ => {},
            },
            Err(_) => {},
        }
    }
}

proof fn lemma_declare_err_stays(rs: Seq<Seq<char>>, n: int, m: int, idx: int, decl: (Seq<Seq<char>>, Seq<nat>))
    requires
        0 <= n <= m,
        declare_roots(rs, n, idx, decl) is Err,
    ensures
        declare_roots(rs, m, idx, decl) == declare_roots(rs, n, idx, decl),
    decreases m - n,
{
    if m > n {
        lemma_declare_err_stays(rs, n, m - 1, idx, decl);
    }
}

proof fn lemma_bind_specs_err_stays(bs: Seq<Seq<char>>, n: int, m: int, primary: Seq<char>, idx: int)
    requires
        0 <= n <= m,
        bind_specs_error(bs, n, primary, idx) is Some,
    ensures
        bind_specs_error(bs, m, primary, idx) == bind_specs_error(bs, n, primary, idx),
    decreases m - n,
{
    if m > n {
        lemma_bind_specs_err_stays(bs, n, m - 1, primary, idx);
    }
}

proof fn lemma_productions_err_stays(ps: Seq<ProductionV>, n: int, m: int, primary: Seq<char>, idx: int)
    requires
        0 <= n <= m,
        productions_error(ps, n, primary, idx) is Some,
    ensures
        productions_error(ps, m, primary, idx) == productions_error(ps, n, primary, idx),
    decreases m - n,
{
    if m > n {
        lemma_productions_err_stays(ps, n, m - 1, primary, idx);
    }
}

proof fn lemma_check_rules_err_stays(rs: Seq<GrammarRuleV>, n: int, m: int, idx: int, strict: bool, decl: (Seq<Seq<char>>, Seq<nat>))
    requires
        0 <= n <= m,
        check_rules(rs, n, idx, strict, decl) is Err,
    ensures
        check_rules(rs, m, idx, strict, decl) == check_rules(rs, n, idx, strict, decl),
    decreases m - n,
{
    if m > n {
        lemma_check_rules_err_stays(rs, n, m - 1, idx, strict, decl);
    }
}

proof fn lemma_subrules_err_stays(rels: Seq<SubruleV>, n: int, m: int, roots: Seq<Seq<char>>, idx: int)
    requires
        0 <= n <= m,
        subrules_error(rels, n, roots, idx) is Some,
    ensures
        subrules_error(rels, m, roots, idx) == subrules_error(rels, n, roots, idx),
    decreases m - n,
{
    if m > n {
        lemma_subrules_err_stays(rels, n, m - 1, roots, idx);
    }
}

proof fn lemma_rules_err_stays(rs: Seq<InferenceRuleV>, n: int, m: int, idx: int)
    requires
        0 <= n <= m,
        rules_error(rs, n, idx) is Some,
    ensures
        rules_error(rs, m, idx) == rules_error(rs, n, idx),
    decreases m - n,
{
    if m > n {
        lemma_rules_err_stays(rs, n, m - 1, idx);
    }
}

proof fn lemma_declared_err_stays(items: Seq<ItemV>, n: int, m: int, strict: bool)
    requires
        0 <= n <= m,
        declared_roots(items, n, strict) is Err,
    ensures
        declared_roots(items, m, strict) == declared_roots(items, n, strict),
    decreases m - n,
{
    if m > n {
        lemma_declared_err_stays(items, n, m - 1, strict);
    }
}

proof fn lemma_references_err_stays(items: Seq<ItemV>, n: int, m: int, roots: Seq<Seq<char>>)
    requires
        0 <= n <= m,
        references_error(items, n, roots) is Some,
    ensures
        references_error(items, m, roots) == references_error(items, n, roots),
    decreases m - n,
{
    if m > n {
        lemma_references_err_stays(items, n, m - 1, roots);
    }
}

proof fn lemma_rules_from_roots(l: Seq<Seq<char>>, i: int, rules: Seq<GrammarRuleV>)
    requires
        forall|j: int| 0 <= j < rules.len() ==> (#[trigger] rules[j]).roots.len() > 0,
    ensures
        rules_from(l, i, rules) matches Ok((rs, _)) ==> forall|j: int| 0 <= j < rs.len() ==> (#[trigger] rs[j]).roots.len() > 0,
    decreases l.len() - i,
{
    if 0 <= i < l.len() {
        let j = skip_trivia_from(l, i);
        if i <= j < l.len() && !toplevel(l[j]) {
            match rule_header(l[j], j + 1) {
                Err(_) => {},
                Ok((roots, sort, annos)) => match rule_annos_from(l, j + 1, annos) {
                    Err(_) => {},
                    Ok((annos2, k2)) => match rule_prods_from(l, k2, Seq::empty()) {
                        Err(_) => {},
                        Ok((prods, k3)) => if i < k3 <= l.len() {
                            let r = GrammarRuleV {
                                roots,
                                sort,
                                comment: find_com(annos2),
                                annotations: annos2,
                                productions: prods,
                            };
                            let rules2 = rules.push(r);
                            assert forall|q: int| 0 <= q < rules2.len() implies (#[trigger] rules2[q]).roots.len() > 0 by {
                                if q < rules.len() {
                                    assert(rules2[q] == rules[q]);
                                }
                            }
                            lemma_rules_from_roots(l, k3, rules2);
                        },
                    },
                },
            }
        }
    }
}

proof fn lemma_items_from_roots(l: Seq<Seq<char>>, i: int, acc: Seq<ItemV>)
    requires
        rules_have_roots(acc),
    ensures
        items_from(l, i, acc) matches Ok(items) ==> rules_have_roots(items),
    decreases l.len() - i,
{
    if 0 <= i < l.len() {
        let j = skip_trivia_from(l, i);
        if i <= j < l.len() {
            match item_at(l, j) {
                Err(_) => {},
                Ok((it, k)) => if i < k <= l.len() {
                    let kw = first_word(trim_start(l[j]));
                    if kw == "grammar"@ {
                        lemma_rules_from_roots(l, j + 1, Seq::empty());
                    }
                    let acc2 = acc.push(it);
                    assert forall|q: int| 0 <= q < acc2.len() implies (#[trigger] acc2[q] matches ItemV::Grammar(rs) ==> forall|r: int|
                        0 <= r < rs.len() ==> (#[trigger] rs[r]).roots.len() > 0) by {
                        if q < acc.len() {
                            assert(acc2[q] == acc[q]);
                        }
                    }
                    lemma_items_from_roots(l, k, acc2);
                },
            }
        }
    }
}

/// Every grammar rule of a parsed specification names at least one root, so a
/// parsed specification always meets the requirement of `check_spec`.
pub proof fn lemma_parsed_rules_have_roots(src: Seq<char>)
    ensures
        spec_parse_spec(src) matches Ok(items) ==> rules_have_roots(items),
{
    lemma_items_from_roots(lines(src), 0, Seq::empty());
}

// ---------------------------------------------------------------------------
// Implementation

/// Whether `v` holds a string equal to `s`.
fn contains_string(v: &Vec<String>, s: &String) -> (b: bool)
    ensures
        b == strs_view(*v).contains(s@),
{
    let mut k: usize = 0;
    while k < v.len()
        invariant
            k <= v@.len(),
            forall|j: int| 0 <= j < k ==> v@[j]@ != s@,
        decreases v@.len() - k,
    {
        if v[k] == *s {
            proof {
                assert(strs_view(*v)[k as int] == s@);
            }
            return true;
        }
        k = k + 1;
    }
    proof {
        let w = strs_view(*v);
        assert forall|j: int| 0 <= j < w.len() implies w[j] != s@ by {
            assert(w[j] == v@[j]@);
        }
    }
    false
}

/// `prefix`, `name` and `suffix` joined.
fn quoted(prefix: &str, name: &str, suffix: &str) -> (s: String)
    ensures
        s@ == prefix@ + name@ + suffix@,
{
    let mut s = prefix.to_owned();
    s.append(name);
    s.append(suffix);
    s
}

/// The error `message` reported for the item with index `idx`.
fn error_at_item(message: String, idx: usize) -> (e: OttError)
    requires
        idx < usize::MAX,
    ensures
        e@ == err_at_item(message@, idx as int),
{
    OttError::new(message).with_position(Position::new(idx + 1, 1))
}

/// Declares the roots of one grammar rule of item `idx`.
fn declare_rule_roots(roots: &Vec<String>, idx: usize, names: &mut Vec<String>, idxs: &mut Vec<usize>) -> (r: Option<OttError>)
    requires
        idx < usize::MAX,
    ensures
        match declare_roots(strs_view(*roots), roots@.len() as int, idx as int, roots_view(*old(names), *old(idxs))) {
            Ok(d) => r is None && roots_view(*final(names), *final(idxs)) == d,
            Err(e) => r matches Some(x) && x@ == e,
        },
{
    let ghost rs = strs_view(*roots);
    let ghost d0 = roots_view(*names, *idxs);
    let mut k: usize = 0;
    while k < roots.len()
        invariant
            k <= roots@.len(),
            idx < usize::MAX,
            rs == strs_view(*roots),
            d0 == roots_view(*old(names), *old(idxs)),
            declare_roots(rs, k as int, idx as int, d0) == Ok::<(Seq<Seq<char>>, Seq<nat>), OttErrV>(roots_view(*names, *idxs)),
        decreases roots@.len() - k,
    {
        let root = &roots[k];
        assert(rs[k as int] == root@);
        if contains_string(names, root) {
            let e = error_at_item(quoted("duplicate grammar root `", root.as_str(), "`"), idx);
            proof {
                lemma_declare_err_stays(rs, k + 1, rs.len() as int, idx as int, d0);
            }
            return Some(e);
        }
        let ghost before = roots_view(*names, *idxs);
        names.push(root.clone());
        idxs.push(idx);
        assert(roots_view(*names, *idxs).0 =~= before.0.push(root@));
        assert(roots_view(*names, *idxs).1 =~= before.1.push(idx as nat));
        k = k + 1;
    }
    None
}

/// The error of parsing the binding specification `s`, if any.
fn bind_error_of(s: &String) -> (r: Option<BindParseError>)
    ensures
        match bind_error(s@) {
            Some(e) => r matches Some(x) && x@ == e,
            None => r is None,
        },
{
    proof {
        reveal(bind_error);
    }
    match parse_bind_spec(s.as_str()) {
        Err(e) => Some(e),
        Ok(_) => None,
    }
}

/// The first binding specification in `bs` that does not parse.
fn bind_specs_error_of(bs: &Vec<String>, primary: &String, idx: usize) -> (r: Option<OttError>)
    requires
        idx < usize::MAX,
    ensures
        match bind_specs_error(strs_view(*bs), bs@.len() as int, primary@, idx as int) {
            Some(e) => r matches Some(x) && x@ == e,
            None => r is None,
        },
{
    let ghost s = strs_view(*bs);
    let mut k: usize = 0;
    while k < bs.len()
        invariant
            k <= bs@.len(),
            idx < usize::MAX,
            s == strs_view(*bs),
            bind_specs_error(s, k as int, primary@, idx as int) is None,
        decreases bs@.len() - k,
    {
        assert(s[k as int] == bs@[k as int]@);
        match bind_error_of(&bs[k]) {
            Some(be) => {
                let mut m = quoted("invalid binding specification in grammar `", primary.as_str(), "`: ");
                let text = be.to_string();
                m.append(text.as_str());
                proof {
                    lemma_bind_specs_err_stays(s, k + 1, s.len() as int, primary@, idx as int);
                }
                return Some(error_at_item(m, idx));
            },
            None => {},
        }
        k = k + 1;
    }
    None
}

/// The first binding specification error among the productions `ps`.
fn productions_error_of(ps: &Vec<Production>, primary: &String, idx: usize) -> (r: Option<OttError>)
    requires
        idx < usize::MAX,
    ensures
        match productions_error(ps@.map_values(|p: Production| p@), ps@.len() as int, primary@, idx as int) {
            Some(e) => r matches Some(x) && x@ == e,
            None => r is None,
        },
{
    let ghost s = ps@.map_values(|p: Production| p@);
    let mut k: usize = 0;
    while k < ps.len()
        invariant
            k <= ps@.len(),
            idx < usize::MAX,
            s == ps@.map_values(|p: Production| p@),
            productions_error(s, k as int, primary@, idx as int) is None,
        decreases ps@.len() - k,
    {
        assert(s[k as int] == ps@[k as int]@);
        let r = bind_specs_error_of(&ps[k].bind_specs, primary, idx);
        if r.is_some() {
            proof {
                lemma_productions_err_stays(s, k + 1, s.len() as int, primary@, idx as int);
            }
            return r;
        }
        k = k + 1;
    }
    None
}

/// Checks the grammar rules of item `idx`.
fn check_grammar(rules: &Vec<GrammarRule>, idx: usize, strict: bool, names: &mut Vec<String>, idxs: &mut Vec<usize>)
    -> (r: Option<OttError>)
    requires
        idx < usize::MAX,
        strict ==> forall|j: int|
            0 <= j < rules@.len() && check_rules(
                rules@.map_values(|g: GrammarRule| g@),
                j,
                idx as int,
                strict,
                roots_view(*old(names), *old(idxs)),
            ) is Ok ==> (#[trigger] rules@[j]).roots@.len() > 0,
    ensures
        match check_rules(rules@.map_values(|g: GrammarRule| g@), rules@.len() as int, idx as int, strict,
            roots_view(*old(names), *old(idxs))) {
            Ok(d) => r is None && roots_view(*final(names), *final(idxs)) == d,
            Err(e) => r matches Some(x) && x@ == e,
        },
{
    let ghost s = rules@.map_values(|g: GrammarRule| g@);
    let ghost d0 = roots_view(*names, *idxs);
    let mut k: usize = 0;
    while k < rules.len()
        invariant
            k <= rules@.len(),
            idx < usize::MAX,
            s == rules@.map_values(|g: GrammarRule| g@),
            d0 == roots_view(*old(names), *old(idxs)),
            strict ==> forall|j: int|
                0 <= j < rules@.len() && check_rules(s, j, idx as int, strict, d0) is Ok ==> (#[trigger] rules@[j]).roots@.len() > 0,
            check_rules(s, k as int, idx as int, strict, d0) == Ok::<(Seq<Seq<char>>, Seq<nat>), OttErrV>(roots_view(*names, *idxs)),
        decreases rules@.len() - k,
    {
        let rule = &rules[k];
        assert(s[k as int] == rule@);
        let r = declare_rule_roots(&rule.roots, idx, names, idxs);
        if r.is_some() {
            proof {
                lemma_check_rules_err_stays(s, k + 1, s.len() as int, idx as int, strict, d0);
            }
            return r;
        }
        if strict {
            assert(rules@[k as int].roots@.len() > 0);
            assert(s[k as int].roots[0] == rule.roots@[0]@);
            let r2 = productions_error_of(&rule.productions, &rule.roots[0], idx);
            if r2.is_some() {
                proof {
                    lemma_check_rules_err_stays(s, k + 1, s.len() as int, idx as int, strict, d0);
                }
                return r2;
            }
        }
        k = k + 1;
    }
    None
}

/// The first unknown root named by the relations `rels`.
fn subrules_error_of(rels: &Vec<Subrule>, roots: &Vec<String>, idx: usize) -> (r: Option<OttError>)
    requires
        idx < usize::MAX,
    ensures
        match subrules_error(rels@.map_values(|x: Subrule| x@), rels@.len() as int, strs_view(*roots), idx as int) {
            Some(e) => r matches Some(x) && x@ == e,
            None => r is None,
        },
{
    let ghost s = rels@.map_values(|x: Subrule| x@);
    let mut k: usize = 0;
    while k < rels.len()
        invariant
            k <= rels@.len(),
            idx < usize::MAX,
            s == rels@.map_values(|x: Subrule| x@),
            subrules_error(s, k as int, strs_view(*roots), idx as int) is None,
        decreases rels@.len() - k,
    {
        let rel = &rels[k];
        assert(s[k as int] == rel@);
        if !contains_string(roots, &rel.sub) {
            proof {
                lemma_subrules_err_stays(s, k + 1, s.len() as int, strs_view(*roots), idx as int);
            }
            return Some(error_at_item(quoted("subrules references unknown grammar root `", rel.sub.as_str(), "`"), idx));
        }
        if !contains_string(roots, &rel.sup) {
            proof {
                lemma_subrules_err_stays(s, k + 1, s.len() as int, strs_view(*roots), idx as int);
            }
            return Some(error_at_item(quoted("subrules references unknown grammar root `", rel.sup.as_str(), "`"), idx));
        }
        k = k + 1;
    }
    None
}

/// The first inference rule with an empty conclusion or a repeated name.
fn rules_error_of(rules: &Vec<InferenceRule>, idx: usize) -> (r: Option<OttError>)
    requires
        idx < usize::MAX,
    ensures
        match rules_error(rules@.map_values(|x: InferenceRule| x@), rules@.len() as int, idx as int) {
            Some(e) => r matches Some(x) && x@ == e,
            None => r is None,
        },
{
    let ghost s = rules@.map_values(|x: InferenceRule| x@);
    let mut seen: Vec<String> = Vec::new();
    let mut k: usize = 0;
    assert(strs_view(seen) =~= rule_names(s, 0));
    while k < rules.len()
        invariant
            k <= rules@.len(),
            idx < usize::MAX,
            s == rules@.map_values(|x: InferenceRule| x@),
            strs_view(seen) == rule_names(s, k as int),
            rules_error(s, k as int, idx as int) is None,
        decreases rules@.len() - k,
    {
        let rule = &rules[k];
        assert(s[k as int] == rule@);
        if rule.conclusion.len() == 0 {
            proof {
                lemma_rules_err_stays(s, k + 1, s.len() as int, idx as int);
            }
            return Some(error_at_item(quoted("inference rule `", rule.name.as_str(), "` has empty conclusion"), idx));
        }
        if contains_string(&seen, &rule.name) {
            proof {
                lemma_rules_err_stays(s, k + 1, s.len() as int, idx as int);
            }
            return Some(error_at_item(
                quoted("duplicate inference rule name `", rule.name.as_str(), "` within a defn block"),
                idx,
            ));
        }
        let ghost before = strs_view(seen);
        seen.push(rule.name.clone());
        assert(strs_view(seen) =~= before.push(rule.name@));
        assert(rule_names(s, k + 1) =~= rule_names(s, k as int).push(s[k as int].name));
        k = k + 1;
    }
    None
}

// ---------------------------------------------------------------------------
// Roots in the order of strings

/// `a` comes before `b` in the order of strings: at the first place where
/// they differ `a` has the smaller character, or `a` is a proper prefix of
/// `b`. UTF-8 keeps this order, so it is the byte order that `String`s are
/// compared by.
pub open spec fn text_lt(a: Seq<char>, b: Seq<char>) -> bool
    decreases a.len(),
{
    if a.len() == 0 {
        b.len() > 0
    } else if b.len() == 0 {
        false
    } else if a[0] != b[0] {
        (a[0] as u32) < (b[0] as u32)
    } else {
        text_lt(a.drop_first(), b.drop_first())
    }
}

/// Each name comes before the next in the order of strings.
pub open spec fn names_sorted(s: Seq<Seq<char>>) -> bool {
    forall|i: int, j: int| #![trigger s[i], s[j]] 0 <= i && j == i + 1 && j < s.len() ==> text_lt(s[i], s[j])
}

/// The (root, item index) pairs of `d`.
pub open spec fn root_entries(d: (Seq<Seq<char>>, Seq<nat>)) -> Set<(Seq<char>, nat)> {
    Set::new(|p: (Seq<char>, nat)| exists|j: int| 0 <= j < d.0.len() && p == (d.0[j], d.1[j]))
}

/// Of two different texts, one comes before the other.
proof fn lemma_text_lt_total(a: Seq<char>, b: Seq<char>)
    ensures
        a != b ==> text_lt(a, b) || text_lt(b, a),
    decreases a.len(),
{
    if a.len() > 0 && b.len() > 0 && a[0] == b[0] {
        lemma_text_lt_total(a.drop_first(), b.drop_first());
        if a.drop_first() == b.drop_first() {
            assert forall|i: int| 0 <= i < a.len() implies a[i] == b[i] by {
                if i > 0 {
                    assert(a[i] == a.drop_first()[i - 1]);
                    assert(b[i] == b.drop_first()[i - 1]);
                }
            }
            assert(a =~= b);
        }
    } else if a.len() == 0 && b.len() == 0 {
        assert(a =~= b);
    } else if a.len() > 0 && b.len() > 0 {
        vstd::utf8::char_u32_cast(a[0], a[0] as u32);
        vstd::utf8::char_u32_cast(b[0], b[0] as u32);
        assert((a[0] as u32) != (b[0] as u32));
    }
}

/// Whether `a` comes before `b` in the order of strings.
fn text_less(a: &String, b: &String) -> (r: bool)
    ensures
        r == text_lt(a@, b@),
{
    let x = chars_of(a.as_str());
    let y = chars_of(b.as_str());
    let mut i: usize = 0;
    assert(x@.skip(0) =~= x@);
    assert(y@.skip(0) =~= y@);
    while i < x.len() && i < y.len() && x[i] == y[i]
        invariant
            i <= x@.len(),
            i <= y@.len(),
            x@ == a@,
            y@ == b@,
            text_lt(a@, b@) == text_lt(x@.skip(i as int), y@.skip(i as int)),
        decreases x@.len() - i,
    {
        assert(x@.skip(i as int).drop_first() =~= x@.skip(i + 1));
        assert(y@.skip(i as int).drop_first() =~= y@.skip(i + 1));
        assert(x@.skip(i as int)[0] == x@[i as int]);
        assert(y@.skip(i as int)[0] == y@[i as int]);
        i = i + 1;
    }
    if i == x.len() {
        i < y.len()
    } else if i == y.len() {
        false
    } else {
        assert(x@.skip(i as int)[0] == x@[i as int]);
        assert(y@.skip(i as int)[0] == y@[i as int]);
        (x[i] as u32) < (y[i] as u32)
    }
}

/// Putting a pair in at place `k` adds it to the pairs.
proof fn lemma_entries_insert(a: Seq<Seq<char>>, b: Seq<nat>, k: int, x: Seq<char>, y: nat)
    requires
        a.len() == b.len(),
        0 <= k <= a.len(),
    ensures
        root_entries((a.insert(k, x), b.insert(k, y))) == root_entries((a, b)).insert((x, y)),
{
    let a2 = a.insert(k, x);
    let b2 = b.insert(k, y);
    assert forall|p: (Seq<char>, nat)| #[trigger] root_entries((a2, b2)).contains(p) <==> root_entries((a, b)).insert((x, y)).contains(p) by {
        if root_entries((a2, b2)).contains(p) {
            let j = choose|j: int| 0 <= j < a2.len() && p == (a2[j], b2[j]);
            if j > k {
                assert(p == (a[j - 1], b[j - 1]));
            } else if j < k {
                assert(p == (a[j], b[j]));
            }
        }
        if root_entries((a, b)).contains(p) {
            let j = choose|j: int| 0 <= j < a.len() && p == (a[j], b[j]);
            if j >= k {
                assert(p == (a2[j + 1], b2[j + 1]));
            } else {
                assert(p == (a2[j], b2[j]));
            }
        }
        if p == (x, y) {
            assert(p == (a2[k], b2[k]));
        }
    }
    assert(root_entries((a2, b2)) =~= root_entries((a, b)).insert((x, y)));
}

/// The roots `names` (with their item indices `idxs`), in the order of strings.
fn sort_roots(names: &Vec<String>, idxs: &Vec<usize>) -> (r: (Vec<String>, Vec<usize>))
    requires
        strs_view(*names).no_duplicates(),
        idxs@.len() == names@.len(),
    ensures
        r.1@.len() == r.0@.len(),
        r.0@.len() == names@.len(),
        strs_view(r.0).no_duplicates(),
        names_sorted(strs_view(r.0)),
        root_entries(roots_view(r.0, r.1)) == root_entries(roots_view(*names, *idxs)),
{
    let ghost d = roots_view(*names, *idxs);
    let mut out_n: Vec<String> = Vec::new();
    let mut out_i: Vec<usize> = Vec::new();
    proof {
        assert(root_entries(roots_view(out_n, out_i)) =~= root_entries((d.0.take(0), d.1.take(0))));
    }
    let mut j: usize = 0;
    while j < names.len()
        invariant
            j <= names@.len(),
            idxs@.len() == names@.len(),
            d == roots_view(*names, *idxs),
            d.0.no_duplicates(),
            out_n@.len() == j,
            out_i@.len() == j,
            strs_view(out_n).no_duplicates(),
            names_sorted(strs_view(out_n)),
            root_entries(roots_view(out_n, out_i)) == root_entries((d.0.take(j as int), d.1.take(j as int))),
        decreases names@.len() - j,
    {
        let name = &names[j];
        let ghost s = strs_view(out_n);
        let ghost ix = out_i@.map_values(|x: usize| x as nat);
        assert(d.0[j as int] == name@);
        let mut k: usize = 0;
        while k < out_n.len() && !text_less(name, &out_n[k])
            invariant
                k <= out_n@.len(),
                s == strs_view(out_n),
                forall|m: int| 0 <= m < k ==> !text_lt(name@, #[trigger] s[m]),
            decreases out_n@.len() - k,
        {
            assert(s[k as int] == out_n@[k as int]@);
            k = k + 1;
        }
        proof {
            if k < s.len() {
                assert(s[k as int] == out_n@[k as int]@);
                assert(text_lt(name@, s[k as int]));
            }
            assert forall|m: int| 0 <= m < s.len() implies s[m] != name@ by {
                if s[m] == name@ {
                    assert(root_entries(roots_view(out_n, out_i)).contains((s[m], ix[m])));
                    let q = choose|q: int| 0 <= q < j && (s[m], ix[m]) == (d.0.take(j as int)[q], d.1.take(j as int)[q]);
                    assert(d.0[q] == d.0[j as int]);
                }
            }
            assert forall|m: int| 0 <= m < k implies text_lt(#[trigger] s[m], name@) by {
                lemma_text_lt_total(s[m], name@);
            }
        }
        let ghost idx = idxs@[j as int];
        out_n.insert(k, name.clone());
        out_i.insert(k, idxs[j]);
        proof {
            let s2 = strs_view(out_n);
            assert(s2 =~= s.insert(k as int, name@));
            let ix2 = out_i@.map_values(|x: usize| x as nat);
            assert(ix2 =~= ix.insert(k as int, idx as nat));
            assert(s2.no_duplicates()) by {
                assert forall|a: int, b: int| 0 <= a < b < s2.len() implies s2[a] != s2[b] by {
                    if a == k {
                        assert(s2[b] == s[b - 1]);
                    } else if b == k {
                        assert(s2[a] == s[a]);
                    } else {
                        let a0 = if a < k { a } else { a - 1 };
                        let b0 = if b < k { b } else { b - 1 };
                        assert(s2[a] == s[a0] && s2[b] == s[b0]);
                    }
                }
            }
            assert forall|a: int, b: int| #![trigger s2[a], s2[b]] 0 <= a && b == a + 1 && b < s2.len() implies text_lt(s2[a], s2[b]) by {
                if b < k {
                    assert(s2[a] == s[a] && s2[b] == s[b]);
                } else if b == k {
                    assert(s2[a] == s[a]);
                } else if a == k {
                    assert(s2[b] == s[a]);
                } else {
                    assert(s2[a] == s[a - 1] && s2[b] == s[b - 1]);
                }
            }
            lemma_entries_insert(s, ix, k as int, name@, idx as nat);
            lemma_entries_insert(d.0.take(j as int), d.1.take(j as int), j as int, d.0[j as int], d.1[j as int]);
            assert(d.0.take(j as int).insert(j as int, d.0[j as int]) =~= d.0.take(j + 1));
            assert(d.1.take(j as int).insert(j as int, d.1[j as int]) =~= d.1.take(j + 1));
        }
        j = j + 1;
    }
    proof {
        assert(d.0.take(names@.len() as int) =~= d.0);
        assert(d.1.take(names@.len() as int) =~= d.1);
    }
    (out_n, out_i)
}

/// Checks a parsed specification and collects its grammar roots.
pub fn check_spec(spec: Spec, opts: &OttOptions) -> (r: Result<CheckedSpec, OttError>)
    requires
        !reaches_rootless(spec@, opts.strict),
    ensures
        match spec_check_spec(spec@, opts.strict) {
            Ok(d) => r matches Ok(c) && c.spec == spec && c.wf() && c.grammar_roots@.len() == d.0.len()
                && root_entries(roots_view(c.grammar_roots, c.grammar_index)) == root_entries(d),
            Err(e) => r matches Err(x) && x@ == e,
        },
{
    let ghost items = spec@;
    let strict = opts.strict;
    let mut names: Vec<String> = Vec::new();
    let mut idxs: Vec<usize> = Vec::new();
    assert(roots_view(names, idxs).0 =~= Seq::<Seq<char>>::empty());
    assert(roots_view(names, idxs).1 =~= Seq::<nat>::empty());
    let mut i: usize = 0;
    while i < spec.items.len()
        invariant
            i <= spec.items@.len(),
            items == spec@,
            strict == opts.strict,
            !reaches_rootless(items, strict),
            declared_roots(items, i as int, strict) == Ok::<(Seq<Seq<char>>, Seq<nat>), OttErrV>(roots_view(names, idxs)),
        decreases spec.items@.len() - i,
    {
        assert(items[i as int] == spec.items@[i as int]@);
        match &spec.items[i] {
            Item::Grammar(g) => {
                proof {
                    if strict {
                        let rs = g.rules@.map_values(|x: GrammarRule| x@);
                        assert(items[i as int] matches ItemV::Grammar(q) && q == rs);
                        assert forall|j: int|
                            0 <= j < g.rules@.len() && check_rules(rs, j, i as int, strict, roots_view(names, idxs)) is Ok implies (
                            #[trigger] g.rules@[j]).roots@.len() > 0 by {
                            assert(rs[j] == g.rules@[j]@);
                            if rs[j].roots.len() == 0 {
                                assert(rootless_at(items, strict, i as int, j));
                            }
                        }
                    }
                }
                let r = check_grammar(&g.rules, i, strict, &mut names, &mut idxs);
                match r {
                    Some(e) => {
                        proof {
                            lemma_declared_err_stays(items, i + 1, items.len() as int, strict);
                        }
                        return Err(e);
                    },
                    None => {},
                }
            },
            _ => {},
        }
        i = i + 1;
    }
    let ghost d = roots_view(names, idxs);
    proof {
        lemma_declared_roots_distinct(items, items.len() as int, strict);
    }
    let mut i: usize = 0;
    while i < spec.items.len()
        invariant
            i <= spec.items@.len(),
            items == spec@,
            d == roots_view(names, idxs),
            strict == opts.strict,
            declared_roots(items, items.len() as int, strict) == Ok::<(Seq<Seq<char>>, Seq<nat>), OttErrV>(d),
            d.0.no_duplicates(),
            d.0.len() == d.1.len(),
            references_error(items, i as int, d.0) is None,
        decreases spec.items@.len() - i,
    {
        assert(items[i as int] == spec.items@[i as int]@);
        match &spec.items[i] {
            Item::Subrules(s) => {
                let r = subrules_error_of(&s.relations, &names, i);
                match r {
                    Some(e) => {
                        proof {
                            lemma_references_err_stays(items, i + 1, items.len() as int, d.0);
                        }
                        return Err(e);
                    },
                    None => {},
                }
            },
            Item::Defn(b) => {
                let r = rules_error_of(&b.rules, i);
                match r {
                    Some(e) => {
                        proof {
                            lemma_references_err_stays(items, i + 1, items.len() as int, d.0);
                        }
                        return Err(e);
                    },
                    None => {},
                }
            },
            _ => {},
        }
        i = i + 1;
    }
    let (grammar_roots, grammar_index) = sort_roots(&names, &idxs);
    Ok(CheckedSpec { spec, grammar_roots, grammar_index })
}

// ---------------------------------------------------------------------------
// What a successful check guarantees

proof fn lemma_subrules_ok(rels: Seq<SubruleV>, n: int, roots: Seq<Seq<char>>, idx: int)
    requires
        0 <= n <= rels.len(),
        subrules_error(rels, n, roots, idx) is None,
    ensures
        forall|j: int| 0 <= j < n ==> roots.contains((#[trigger] rels[j]).sub) && roots.contains(rels[j].sup),
    decreases n,
{
    if n > 0 {
        lemma_subrules_ok(rels, n - 1, roots, idx);
    }
}

proof fn lemma_rules_ok(rs: Seq<InferenceRuleV>, n: int, idx: int)
    requires
        0 <= n <= rs.len(),
        rules_error(rs, n, idx) is None,
    ensures
        forall|j: int| 0 <= j < n ==> (#[trigger] rs[j]).conclusion.len() > 0,
        forall|j1: int, j2: int| 0 <= j1 < j2 < n ==> (#[trigger] rs[j1]).name != (#[trigger] rs[j2]).name,
    decreases n,
{
    if n > 0 {
        lemma_rules_ok(rs, n - 1, idx);
        assert forall|j1: int| 0 <= j1 < n - 1 implies (#[trigger] rs[j1]).name != rs[n - 1].name by {
            assert(rule_names(rs, n - 1)[j1] == rs[j1].name);
        }
    }
}

proof fn lemma_references_ok(items: Seq<ItemV>, n: int, roots: Seq<Seq<char>>)
    requires
        0 <= n <= items.len(),
        references_error(items, n, roots) is None,
    ensures
        forall|i: int| 0 <= i < n ==> match #[trigger] items[i] {
            ItemV::Subrules(rels) => subrules_error(rels, rels.len() as int, roots, i) is None,
            ItemV::Defn(d) => rules_error(d.rules, d.rules.len() as int, i) is None,
            _ => true,
        },
    decreases n,
{
    if n > 0 {
        lemma_references_ok(items, n - 1, roots);
    }
}

/// The subrule relations an item declares (none unless it is a subrules block).
pub open spec fn item_relations(item: ItemV) -> Seq<SubruleV> {
    match item {
        ItemV::Subrules(rels) => rels,
        _ => Seq::empty(),
    }
}

/// The grammar rules an item declares (none unless it is a grammar block).
pub open spec fn item_grammar(item: ItemV) -> Seq<GrammarRuleV> {
    match item {
        ItemV::Grammar(rs) => rs,
        _ => Seq::empty(),
    }
}

/// The inference rules an item declares (none unless it is a defn block).
pub open spec fn item_rules(item: ItemV) -> Seq<InferenceRuleV> {
    match item {
        ItemV::Defn(b) => b.rules,
        _ => Seq::empty(),
    }
}

/// In a specification that passes the checks, every subrule relation names
/// declared grammar roots on both sides.
pub proof fn lemma_checked_subrules_declared(items: Seq<ItemV>, strict: bool)
    ensures
        spec_check_spec(items, strict) matches Ok(d) ==> forall|i: int, j: int|
            0 <= i < items.len() && 0 <= j < item_relations(items[i]).len() ==> d.0.contains(
                (#[trigger] item_relations(items[i])[j]).sub,
            ) && d.0.contains(item_relations(items[i])[j].sup),
{
    match spec_check_spec(items, strict) {
        Ok(d) => {
            lemma_references_ok(items, items.len() as int, d.0);
            assert forall|i: int, j: int|
                0 <= i < items.len() && 0 <= j < item_relations(items[i]).len() implies d.0.contains(
                    (#[trigger] item_relations(items[i])[j]).sub,
                ) && d.0.contains(item_relations(items[i])[j].sup) by {
                match items[i] {
                    ItemV::Subrules(rels) => {
                        lemma_subrules_ok(rels, rels.len() as int, d.0, i);
                    },
                    _ => {},
                }
            }
        },
        Err(_) => {},
    }
}

/// In a specification that passes the checks, every inference rule has a
/// conclusion, and the rules of a defn block have distinct names.
pub proof fn lemma_checked_rules_named_once(items: Seq<ItemV>, strict: bool)
    ensures
        spec_check_spec(items, strict) is Ok ==> forall|i: int, j: int|
            0 <= i < items.len() && 0 <= j < item_rules(items[i]).len() ==> (#[trigger] item_rules(items[i])[j]).conclusion.len() > 0,
        spec_check_spec(items, strict) is Ok ==> forall|i: int, j1: int, j2: int|
            0 <= i < items.len() && 0 <= j1 < j2 < item_rules(items[i]).len() ==> (#[trigger] item_rules(items[i])[j1]).name
                != (#[trigger] item_rules(items[i])[j2]).name,
{
    match spec_check_spec(items, strict) {
        Ok(d) => {
            lemma_references_ok(items, items.len() as int, d.0);
            assert forall|i: int, j: int| 0 <= i < items.len() && 0 <= j < item_rules(items[i]).len() implies (#[trigger] item_rules(
                items[i],
            )[j]).conclusion.len() > 0 by {
                if let ItemV::Defn(b) = items[i] {
                    lemma_rules_ok(b.rules, b.rules.len() as int, i);
                }
            }
            assert forall|i: int, j1: int, j2: int| 0 <= i < items.len() && 0 <= j1 < j2 < item_rules(items[i]).len() implies (
            #[trigger] item_rules(items[i])[j1]).name != (#[trigger] item_rules(items[i])[j2]).name by {
                if let ItemV::Defn(b) = items[i] {
                    lemma_rules_ok(b.rules, b.rules.len() as int, i);
                }
            }
        },
        Err(_) => {},
    }
}

proof fn lemma_declare_roots_covers(rs: Seq<Seq<char>>, n: int, idx: int, decl: (Seq<Seq<char>>, Seq<nat>))
    requires
        0 <= n <= rs.len(),
    ensures
        declare_roots(rs, n, idx, decl) matches Ok(d) ==> d.0.len() >= decl.0.len() && d.0.subrange(0, decl.0.len() as int) == decl.0
            && forall|k: int| 0 <= k < n ==> d.0.contains(#[trigger] rs[k]),
    decreases n,
{
    if n > 0 {
        lemma_declare_roots_covers(rs, n - 1, idx, decl);
        match declare_roots(rs, n - 1, idx, decl) {
            Ok(d) => {
                if !d.0.contains(rs[n - 1]) {
                    let d2 = d.0.push(rs[n - 1]);
                    assert(d2.subrange(0, decl.0.len() as int) =~= d.0.subrange(0, decl.0.len() as int));
                    assert forall|k: int| 0 <= k < n implies d2.contains(#[trigger] rs[k]) by {
                        if k < n - 1 {
                            let w = choose|w: int| 0 <= w < d.0.len() && d.0[w] == rs[k];
                            assert(d2[w] == rs[k]);
                        } else {
                            assert(d2[d.0.len() as int] == rs[k]);
                        }
                    }
                }
            },
            Err(_) => {},
        }
    } else {
        assert(decl.0.subrange(0, decl.0.len() as int) =~= decl.0);
    }
}

proof fn lemma_prefix_contains(a: Seq<Seq<char>>, b: Seq<Seq<char>>, x: Seq<char>)
    requires
        b.len() >= a.len(),
        b.subrange(0, a.len() as int) == a,
        a.contains(x),
    ensures
        b.contains(x),
{
    let w = choose|w: int| 0 <= w < a.len() && a[w] == x;
    assert(b.subrange(0, a.len() as int)[w] == b[w]);
}

proof fn lemma_check_rules_covers(rs: Seq<GrammarRuleV>, n: int, idx: int, strict: bool, decl: (Seq<Seq<char>>, Seq<nat>))
    requires
        0 <= n <= rs.len(),
    ensures
        check_rules(rs, n, idx, strict, decl) matches Ok(d) ==> d.0.len() >= decl.0.len() && d.0.subrange(0, decl.0.len() as int)
            == decl.0 && forall|r: int, k: int| 0 <= r < n && 0 <= k < rs[r].roots.len() ==> d.0.contains(#[trigger] rs[r].roots[k]),
    decreases n,
{
    if n > 0 {
        lemma_check_rules_covers(rs, n - 1, idx, strict, decl);
        match check_rules(rs, n - 1, idx, strict, decl) {
            Ok(d) => {
                let r = rs[n - 1];
                lemma_declare_roots_covers(r.roots, r.roots.len() as int, idx, d);
                match declare_roots(r.roots, r.roots.len() as int, idx, d) {
                    Ok(d2) => {
                        assert(d2.0.subrange(0, decl.0.len() as int) =~= d2.0.subrange(0, d.0.len() as int).subrange(0, decl.0.len() as int));
                        assert forall|q: int, k: int| 0 <= q < n && 0 <= k < rs[q].roots.len() implies d2.0.contains(#[trigger] rs[q].roots[k]) by {
                            if q < n - 1 {
                                lemma_prefix_contains(d.0, d2.0, rs[q].roots[k]);
                            }
                        }
                    },
                    Err(_) => {},
                }
            },
            Err(_) => {},
        }
    } else {
        assert(decl.0.subrange(0, decl.0.len() as int) =~= decl.0);
    }
}

proof fn lemma_declared_roots_covers(items: Seq<ItemV>, n: int, strict: bool)
    requires
        0 <= n <= items.len(),
    ensures
        declared_roots(items, n, strict) matches Ok(d) ==> forall|i: int, r: int, k: int|
            0 <= i < n && 0 <= r < item_grammar(items[i]).len() && 0 <= k < item_grammar(items[i])[r].roots.len()
                ==> d.0.contains(#[trigger] item_grammar(items[i])[r].roots[k]),
    decreases n,
{
    if n > 0 {
        lemma_declared_roots_covers(items, n - 1, strict);
        match declared_roots(items, n - 1, strict) {
            Ok(d) => match items[n - 1] {
                ItemV::Grammar(rs) => {
                    lemma_check_rules_covers(rs, rs.len() as int, n - 1, strict, d);
                    match check_rules(rs, rs.len() as int, n - 1, strict, d) {
                        Ok(d2) => {
                            assert forall|i: int, r: int, k: int|
                                0 <= i < n && 0 <= r < item_grammar(items[i]).len() && 0 <= k < item_grammar(items[i])[r].roots.len()
                                    implies d2.0.contains(#[trigger] item_grammar(items[i])[r].roots[k]) by {
                                if i < n - 1 {
                                    lemma_prefix_contains(d.0, d2.0, item_grammar(items[i])[r].roots[k]);
                                }
                            }
                        },
                        Err(_) => {},
                    }
                },
                _ => {},
            },
            Err(_) => {},
        }
    }
}

/// In a specification that passes the checks, every root of every grammar
/// rule is among the reported grammar roots.
pub proof fn lemma_checked_roots_cover_grammar(items: Seq<ItemV>, strict: bool)
    ensures
        spec_check_spec(items, strict) matches Ok(d) ==> forall|i: int, r: int, k: int|
            0 <= i < items.len() && 0 <= r < item_grammar(items[i]).len() && 0 <= k < item_grammar(items[i])[r].roots.len()
                ==> d.0.contains(#[trigger] item_grammar(items[i])[r].roots[k]),
{
    lemma_declared_roots_covers(items, items.len() as int, strict);
}


// ---------------------------------------------------------------------------
// Which roots are reported, and with which item

/// Item `i` declares `root` as a root of one of its grammar rules.
pub open spec fn item_declares(items: Seq<ItemV>, i: int, root: Seq<char>) -> bool {
    &&& 0 <= i < items.len()
    &&& exists|r: int, q: int|
        0 <= r < item_grammar(items[i]).len() && 0 <= q < item_grammar(items[i])[r].roots.len() && #[trigger] item_grammar(
            items[i],
        )[r].roots[q] == root
}

/// `d` extends `decl`: the same entries first.
pub open spec fn extends_decl(decl: (Seq<Seq<char>>, Seq<nat>), d: (Seq<Seq<char>>, Seq<nat>)) -> bool {
    &&& decl.0.len() <= d.0.len()
    &&& d.0.len() == d.1.len()
    &&& forall|k: int| 0 <= k < decl.0.len() ==> d.0[k] == decl.0[k] && d.1[k] == decl.1[k]
}

/// `x` is among `rs[..n]`.
pub open spec fn among(rs: Seq<Seq<char>>, n: int, x: Seq<char>) -> bool {
    exists|q: int| 0 <= q < n && rs[q] == x
}

/// `x` is a root of one of the rules `rs[..n]`.
pub open spec fn rule_root(rs: Seq<GrammarRuleV>, n: int, x: Seq<char>) -> bool {
    exists|r: int| 0 <= r < n && #[trigger] among(rs[r].roots, rs[r].roots.len() as int, x)
}

/// `d` holds `x` with index `idx` at a position from `lo` on.
pub open spec fn entry_at(d: (Seq<Seq<char>>, Seq<nat>), lo: int, x: Seq<char>, idx: int) -> bool {
    exists|k: int| lo <= k < d.0.len() && d.0[k] == x && d.1[k] == idx
}

proof fn lemma_declare_roots_index(rs: Seq<Seq<char>>, n: int, idx: int, decl: (Seq<Seq<char>>, Seq<nat>))
    requires
        0 <= n <= rs.len(),
        0 <= idx,
        decl.0.len() == decl.1.len(),
    ensures
        declare_roots(rs, n, idx, decl) matches Ok(d) ==> {
            &&& extends_decl(decl, d)
            &&& forall|k: int|
                #![trigger d.0[k]]
                #![trigger d.1[k]]
                decl.0.len() <= k < d.0.len() ==> d.1[k] == idx && among(rs, n, d.0[k])
            &&& forall|q: int| 0 <= q < n ==> entry_at(d, decl.0.len() as int, #[trigger] rs[q], idx)
        },
    decreases n,
{
    if n > 0 {
        lemma_declare_roots_index(rs, n - 1, idx, decl);
        match declare_roots(rs, n - 1, idx, decl) {
            Ok(d) => {
                if !d.0.contains(rs[n - 1]) {
                    let d2 = (d.0.push(rs[n - 1]), d.1.push(idx as nat));
                    assert forall|k: int| 0 <= k < decl.0.len() implies d2.0[k] == decl.0[k] && d2.1[k] == decl.1[k] by {
                        assert(d2.0[k] == d.0[k] && d2.1[k] == d.1[k]);
                    }
                    assert(extends_decl(decl, d2));
                    assert forall|k: int| decl.0.len() <= k < d2.0.len() implies d2.1[k] == idx && among(rs, n, #[trigger] d2.0[k]) by {
                        if k < d.0.len() {
                            assert(d2.0[k] == d.0[k]);
                            assert(among(rs, n - 1, d.0[k]));
                            let q = choose|q: int| 0 <= q < n - 1 && rs[q] == d.0[k];
                            assert(0 <= q < n && rs[q] == d2.0[k]);
                        } else {
                            assert(0 <= n - 1 < n && rs[n - 1] == d2.0[k]);
                        }
                    }
                    assert forall|q: int| 0 <= q < n implies entry_at(d2, decl.0.len() as int, #[trigger] rs[q], idx) by {
                        if q < n - 1 {
                            assert(entry_at(d, decl.0.len() as int, rs[q], idx));
                            let k = choose|k: int| decl.0.len() <= k < d.0.len() && d.0[k] == rs[q] && d.1[k] == idx;
                            assert(d2.0[k] == rs[q] && d2.1[k] == idx);
                        } else {
                            let k = d.0.len() as int;
                            assert(d2.0[k] == rs[q] && d2.1[k] == idx);
                        }
                    }
                }
            },
            Err(_) => {},
        }
    }
}

proof fn lemma_check_rules_index(rs: Seq<GrammarRuleV>, n: int, idx: int, strict: bool, decl: (Seq<Seq<char>>, Seq<nat>))
    requires
        0 <= n <= rs.len(),
        0 <= idx,
        decl.0.len() == decl.1.len(),
    ensures
        check_rules(rs, n, idx, strict, decl) matches Ok(d) ==> {
            &&& extends_decl(decl, d)
            &&& forall|k: int|
                #![trigger d.0[k]]
                #![trigger d.1[k]]
                decl.0.len() <= k < d.0.len() ==> d.1[k] == idx && rule_root(rs, n, d.0[k])
            &&& forall|r: int, q: int| 0 <= r < n && 0 <= q < rs[r].roots.len() ==> entry_at(d, decl.0.len() as int, #[trigger] rs[r].roots[q], idx)
        },
    decreases n,
{
    if n > 0 {
        lemma_check_rules_index(rs, n - 1, idx, strict, decl);
        match check_rules(rs, n - 1, idx, strict, decl) {
            Ok(d) => {
                let rr = rs[n - 1];
                lemma_declare_roots_index(rr.roots, rr.roots.len() as int, idx, d);
                match declare_roots(rr.roots, rr.roots.len() as int, idx, d) {
                    Ok(d2) => {
                        assert forall|k: int| decl.0.len() <= k < d2.0.len() implies d2.1[k] == idx && rule_root(rs, n, #[trigger] d2.0[k]) by {
                            if k < d.0.len() {
                                assert(d2.0[k] == d.0[k]);
                                assert(rule_root(rs, n - 1, d.0[k]));
                                let r = choose|r: int| 0 <= r < n - 1 && #[trigger] among(rs[r].roots, rs[r].roots.len() as int, d.0[k]);
                                assert(among(rs[r].roots, rs[r].roots.len() as int, d2.0[k]));
                            } else {
                                assert(among(rr.roots, rr.roots.len() as int, d2.0[k]));
                                assert(among(rs[n - 1].roots, rs[n - 1].roots.len() as int, d2.0[k]));
                            }
                        }
                        assert forall|r: int, q: int| 0 <= r < n && 0 <= q < rs[r].roots.len() implies entry_at(
                            d2,
                            decl.0.len() as int,
                            #[trigger] rs[r].roots[q],
                            idx,
                        ) by {
                            if r < n - 1 {
                                assert(entry_at(d, decl.0.len() as int, rs[r].roots[q], idx));
                                let k = choose|k: int| decl.0.len() <= k < d.0.len() && d.0[k] == rs[r].roots[q] && d.1[k] == idx;
                                assert(d2.0[k] == rs[r].roots[q] && d2.1[k] == idx);
                            } else {
                                assert(rr.roots[q] == rs[r].roots[q]);
                                assert(entry_at(d2, d.0.len() as int, rr.roots[q], idx));
                                let k = choose|k: int| d.0.len() <= k < d2.0.len() && d2.0[k] == rr.roots[q] && d2.1[k] == idx;
                                assert(decl.0.len() <= k);
                            }
                        }
                    },
                    Err(_) => {},
                }
            },
            Err(_) => {},
        }
    }
}

/// Each root in `d` is declared by its item, one of `items[..n]`.
pub open spec fn reported_from(items: Seq<ItemV>, n: int, d: (Seq<Seq<char>>, Seq<nat>)) -> bool {
    forall|k: int|
        #![trigger d.0[k]]
        #![trigger d.1[k]]
        0 <= k < d.0.len() ==> d.1[k] < n && item_declares(items, d.1[k] as int, d.0[k])
}

proof fn lemma_declared_roots_index(items: Seq<ItemV>, n: int, strict: bool)
    requires
        0 <= n <= items.len(),
    ensures
        declared_roots(items, n, strict) matches Ok(d) ==> {
            &&& d.0.len() == d.1.len()
            &&& reported_from(items, n, d)
            &&& forall|i: int, r: int, q: int|
                0 <= i < n && 0 <= r < item_grammar(items[i]).len() && 0 <= q < item_grammar(items[i])[r].roots.len() ==> entry_at(
                    d,
                    0,
                    #[trigger] item_grammar(items[i])[r].roots[q],
                    i,
                )
        },
    decreases n,
{
    if n > 0 {
        lemma_declared_roots_index(items, n - 1, strict);
        match declared_roots(items, n - 1, strict) {
            Ok(d) => match items[n - 1] {
                ItemV::Grammar(rs) => {
                    lemma_check_rules_index(rs, rs.len() as int, n - 1, strict, d);
                    match check_rules(rs, rs.len() as int, n - 1, strict, d) {
                        Ok(d2) => {
                            assert(declared_roots(items, n - 1, strict) == Ok::<(Seq<Seq<char>>, Seq<nat>), OttErrV>(d));
                            assert(check_rules(rs, rs.len() as int, n - 1, strict, d) == Ok::<(Seq<Seq<char>>, Seq<nat>), OttErrV>(d2));
                            assert forall|k: int| 0 <= k < d2.0.len() implies d2.1[k] < n && item_declares(items, d2.1[k] as int, #[trigger] d2.0[k]) by {
                                if k < d.0.len() {
                                    assert(d2.0[k] == d.0[k] && d2.1[k] == d.1[k]);
                                    assert(item_declares(items, d.1[k] as int, d.0[k]) && d.1[k] < n - 1);
                                } else {
                                    let x = d2.0[k];
                                    assert(d2.1[k] == n - 1 && rule_root(rs, rs.len() as int, x));
                                    let r = choose|r: int| 0 <= r < rs.len() && #[trigger] among(rs[r].roots, rs[r].roots.len() as int, d2.0[k]);
                                    let q = choose|q: int| 0 <= q < rs[r].roots.len() && rs[r].roots[q] == d2.0[k];
                                    assert(item_grammar(items[n - 1]) == rs);
                                    assert(item_grammar(items[n - 1])[r].roots[q] == d2.0[k]);
                                }
                            }
                            assert forall|i: int, r: int, q: int|
                                0 <= i < n && 0 <= r < item_grammar(items[i]).len() && 0 <= q < item_grammar(items[i])[r].roots.len() implies entry_at(
                                d2,
                                0,
                                #[trigger] item_grammar(items[i])[r].roots[q],
                                i,
                            ) by {
                                if i < n - 1 {
                                    assert(entry_at(d, 0, item_grammar(items[i])[r].roots[q], i));
                                    let k = choose|k: int| 0 <= k < d.0.len() && d.0[k] == item_grammar(items[i])[r].roots[q] && d.1[k] == i;
                                    assert(d2.0[k] == d.0[k] && d2.1[k] == d.1[k]);
                                } else {
                                    assert(item_grammar(items[i]) == rs);
                                    assert(entry_at(d2, d.0.len() as int, rs[r].roots[q], n - 1));
                                    let k = choose|k: int| d.0.len() <= k < d2.0.len() && d2.0[k] == rs[r].roots[q] && d2.1[k] == n - 1;
                                    assert(0 <= k);
                                }
                            }
                            assert(declared_roots(items, n, strict) == Ok::<(Seq<Seq<char>>, Seq<nat>), OttErrV>(d2));
                            assert(reported_from(items, n, d2));
                        },
                        Err(_) => {},
                    }
                },
                _ => {
                    assert forall|k: int| 0 <= k < d.0.len() implies d.1[k] < n && item_declares(items, d.1[k] as int, #[trigger] d.0[k]) by {
                        assert(declared_roots(items, n - 1, strict) == Ok::<(Seq<Seq<char>>, Seq<nat>), OttErrV>(d));
                        assert(item_declares(items, d.1[k] as int, d.0[k]));
                        assert(d.1[k] < n - 1);
                    }
                    assert forall|i: int, r: int, q: int|
                        0 <= i < n && 0 <= r < item_grammar(items[i]).len() && 0 <= q < item_grammar(items[i])[r].roots.len() implies entry_at(
                        d,
                        0,
                        #[trigger] item_grammar(items[i])[r].roots[q],
                        i,
                    ) by {
                        if i == n - 1 {
                            assert(item_grammar(items[i]).len() == 0);
                        }
                    }
                    assert(declared_roots(items, n, strict) == Ok::<(Seq<Seq<char>>, Seq<nat>), OttErrV>(d));
                    assert(reported_from(items, n, d));
                },
            },
            Err(_) => {},
        }
    }
}

/// In a specification that passes the checks, each reported root is declared
/// by the item reported with it, and by no other item.
pub proof fn lemma_checked_roots_declared_once(items: Seq<ItemV>, strict: bool)
    ensures
        spec_check_spec(items, strict) matches Ok(d) ==> forall|k: int| 0 <= k < d.0.len() ==> {
            &&& item_declares(items, d.1[k] as int, #[trigger] d.0[k])
            &&& forall|i: int| item_declares(items, i, d.0[k]) ==> i == d.1[k]
        },
{
    lemma_declared_roots_index(items, items.len() as int, strict);
    lemma_declared_roots_distinct(items, items.len() as int, strict);
    match spec_check_spec(items, strict) {
        Ok(d) => {
            assert forall|k: int, i: int| 0 <= k < d.0.len() && #[trigger] item_declares(items, i, d.0[k]) implies i == d.1[k] by {
                let (r, q) = choose|r: int, q: int|
                    0 <= r < item_grammar(items[i]).len() && 0 <= q < item_grammar(items[i])[r].roots.len() && #[trigger] item_grammar(
                        items[i],
                    )[r].roots[q] == d.0[k];
                assert(entry_at(d, 0, item_grammar(items[i])[r].roots[q], i));
                let k2 = choose|k2: int| 0 <= k2 < d.0.len() && d.0[k2] == item_grammar(items[i])[r].roots[q] && d.1[k2] == i;
                assert(d.0[k2] == d.0[k]);
            }
        },
        Err(_) => {},
    }
}

proof fn lemma_check_rules_relaxed(rs: Seq<GrammarRuleV>, n: int, idx: int, decl: (Seq<Seq<char>>, Seq<nat>))
    ensures
        check_rules(rs, n, idx, true, decl) matches Ok(d) ==> check_rules(rs, n, idx, false, decl) == Ok::<(Seq<Seq<char>>, Seq<nat>), OttErrV>(d),
    decreases n,
{
    if n > 0 {
        lemma_check_rules_relaxed(rs, n - 1, idx, decl);
    }
}

proof fn lemma_declared_roots_relaxed(items: Seq<ItemV>, n: int)
    ensures
        declared_roots(items, n, true) matches Ok(d) ==> declared_roots(items, n, false) == Ok::<(Seq<Seq<char>>, Seq<nat>), OttErrV>(d),
    decreases n,
{
    if n > 0 {
        lemma_declared_roots_relaxed(items, n - 1);
        match declared_roots(items, n - 1, true) {
            Ok(d) => match items[n - 1] {
                ItemV::Grammar(rs) => {
                    lemma_check_rules_relaxed(rs, rs.len() as int, n - 1, d);
                },
                _ => {},
            },
            Err(_) => {},
        }
    }
}

/// A specification that passes the strict checks passes the relaxed ones, with
/// the same roots.
pub proof fn lemma_strict_implies_relaxed(items: Seq<ItemV>)
    ensures
        spec_check_spec(items, true) matches Ok(d) ==> spec_check_spec(items, false) == Ok::<(Seq<Seq<char>>, Seq<nat>), OttErrV>(d),
{
    lemma_declared_roots_relaxed(items, items.len() as int);
}

// ---------------------------------------------------------------------------
// When the checks pass

/// The roots of the rules `rs[..n]`, in order.
pub open spec fn rules_roots_flat(rs: Seq<GrammarRuleV>, n: int) -> Seq<Seq<char>>
    decreases n,
{
    if n <= 0 {
        Seq::empty()
    } else {
        rules_roots_flat(rs, n - 1) + rs[n - 1].roots
    }
}

/// The roots of the grammar rules among `items[..n]`, in order of declaration.
pub open spec fn roots_upto(items: Seq<ItemV>, n: int) -> Seq<Seq<char>>
    decreases n,
{
    if n <= 0 {
        Seq::empty()
    } else {
        roots_upto(items, n - 1) + rules_roots_flat(item_grammar(items[n - 1]), item_grammar(items[n - 1]).len() as int)
    }
}

/// The roots of all grammar rules of `items`, in order of declaration.
pub open spec fn all_roots(items: Seq<ItemV>) -> Seq<Seq<char>> {
    roots_upto(items, items.len() as int)
}

proof fn lemma_push_nodup(a: Seq<Seq<char>>, x: Seq<char>)
    ensures
        a.push(x).no_duplicates() <==> a.no_duplicates() && !a.contains(x),
{
    let p = a.push(x);
    if p.no_duplicates() {
        assert forall|i: int, j: int| 0 <= i < a.len() && 0 <= j < a.len() && i != j implies a[i] != a[j] by {
            assert(p[i] == a[i] && p[j] == a[j]);
        }
        if a.contains(x) {
            let w = choose|w: int| 0 <= w < a.len() && a[w] == x;
            assert(p[w] == p[a.len() as int]);
        }
    }
    if a.no_duplicates() && !a.contains(x) {
        assert forall|i: int, j: int| 0 <= i < p.len() && 0 <= j < p.len() && i != j implies p[i] != p[j] by {
            if i < a.len() && j < a.len() {
                assert(p[i] == a[i] && p[j] == a[j]);
            } else if i < a.len() {
                assert(p[i] == a[i]);
            } else if j < a.len() {
                assert(p[j] == a[j]);
            }
        }
    }
}

proof fn lemma_prefix_nodup(a: Seq<Seq<char>>, b: Seq<Seq<char>>)
    requires
        (a + b).no_duplicates(),
    ensures
        a.no_duplicates(),
{
    assert forall|i: int, j: int| 0 <= i < a.len() && 0 <= j < a.len() && i != j implies a[i] != a[j] by {
        assert((a + b)[i] == a[i] && (a + b)[j] == a[j]);
    }
}

proof fn lemma_declare_roots_iff(rs: Seq<Seq<char>>, n: int, idx: int, decl: (Seq<Seq<char>>, Seq<nat>))
    requires
        0 <= n <= rs.len(),
        decl.0.no_duplicates(),
    ensures
        declare_roots(rs, n, idx, decl) is Ok <==> (decl.0 + rs.take(n)).no_duplicates(),
        declare_roots(rs, n, idx, decl) matches Ok(d) ==> d.0 == decl.0 + rs.take(n),
    decreases n,
{
    if n == 0 {
        assert(decl.0 + rs.take(0) =~= decl.0);
    } else {
        lemma_declare_roots_iff(rs, n - 1, idx, decl);
        let a = decl.0 + rs.take(n - 1);
        assert(decl.0 + rs.take(n) =~= a.push(rs[n - 1]));
        lemma_push_nodup(a, rs[n - 1]);
        match declare_roots(rs, n - 1, idx, decl) {
            Ok(d) => {},
            Err(_) => {},
        }
    }
}

proof fn lemma_check_rules_iff(rs: Seq<GrammarRuleV>, n: int, idx: int, strict: bool, decl: (Seq<Seq<char>>, Seq<nat>))
    requires
        0 <= n <= rs.len(),
        decl.0.no_duplicates(),
    ensures
        check_rules(rs, n, idx, strict, decl) is Ok <==> (decl.0 + rules_roots_flat(rs, n)).no_duplicates() && (strict ==> forall|r: int|
            0 <= r < n ==> productions_error(
                (#[trigger] rs[r]).productions,
                rs[r].productions.len() as int,
                rs[r].roots[0],
                idx,
            ) is None),
        check_rules(rs, n, idx, strict, decl) matches Ok(d) ==> d.0 == decl.0 + rules_roots_flat(rs, n),
    decreases n,
{
    if n == 0 {
        assert(decl.0 + rules_roots_flat(rs, 0) =~= decl.0);
    } else {
        lemma_check_rules_iff(rs, n - 1, idx, strict, decl);
        let a = decl.0 + rules_roots_flat(rs, n - 1);
        let rr = rs[n - 1];
        assert(decl.0 + rules_roots_flat(rs, n) =~= a + rr.roots);
        assert(a + rr.roots.take(rr.roots.len() as int) =~= a + rr.roots);
        match check_rules(rs, n - 1, idx, strict, decl) {
            Ok(d) => {
                lemma_declare_roots_iff(rr.roots, rr.roots.len() as int, idx, d);
            },
            Err(_) => {
                if (a + rr.roots).no_duplicates() {
                    lemma_prefix_nodup(a, rr.roots);
                }
            },
        }
    }
}

proof fn lemma_declared_roots_iff(items: Seq<ItemV>, n: int, strict: bool)
    requires
        0 <= n <= items.len(),
    ensures
        declared_roots(items, n, strict) is Ok <==> roots_upto(items, n).no_duplicates() && (strict ==> forall|i: int, r: int|
            0 <= i < n && 0 <= r < item_grammar(items[i]).len() ==> productions_error(
                (#[trigger] item_grammar(items[i])[r]).productions,
                item_grammar(items[i])[r].productions.len() as int,
                item_grammar(items[i])[r].roots[0],
                i,
            ) is None),
        declared_roots(items, n, strict) matches Ok(d) ==> d.0 == roots_upto(items, n),
    decreases n,
{
    if n > 0 {
        lemma_declared_roots_iff(items, n - 1, strict);
        let a = roots_upto(items, n - 1);
        let g = item_grammar(items[n - 1]);
        let fl = rules_roots_flat(g, g.len() as int);
        match declared_roots(items, n - 1, strict) {
            Ok(d) => match items[n - 1] {
                ItemV::Grammar(rs) => {
                    lemma_check_rules_iff(rs, rs.len() as int, n - 1, strict, d);
                },
                _ => {
                    assert(fl =~= Seq::<Seq<char>>::empty());
                    assert(a + fl =~= a);
                },
            },
            Err(_) => {
                if (a + fl).no_duplicates() {
                    lemma_prefix_nodup(a, fl);
                }
            },
        }
    }
}

proof fn lemma_bind_specs_iff(bs: Seq<Seq<char>>, n: int, primary: Seq<char>, idx: int)
    requires
        0 <= n <= bs.len(),
    ensures
        bind_specs_error(bs, n, primary, idx) is None <==> forall|b: int| 0 <= b < n ==> spec_parse_bind_spec(#[trigger] bs[b]) is Ok,
    decreases n,
{
    reveal(bind_error);
    if n > 0 {
        lemma_bind_specs_iff(bs, n - 1, primary, idx);
    }
}

proof fn lemma_productions_iff(ps: Seq<ProductionV>, n: int, primary: Seq<char>, idx: int)
    requires
        0 <= n <= ps.len(),
    ensures
        productions_error(ps, n, primary, idx) is None <==> forall|q: int, b: int|
            0 <= q < n && 0 <= b < ps[q].bind_specs.len() ==> spec_parse_bind_spec(#[trigger] ps[q].bind_specs[b]) is Ok,
    decreases n,
{
    if n > 0 {
        lemma_productions_iff(ps, n - 1, primary, idx);
        lemma_bind_specs_iff(ps[n - 1].bind_specs, ps[n - 1].bind_specs.len() as int, primary, idx);
        if productions_error(ps, n - 1, primary, idx) is None && bind_specs_error(
            ps[n - 1].bind_specs,
            ps[n - 1].bind_specs.len() as int,
            primary,
            idx,
        ) is None {
            assert forall|q: int, b: int| 0 <= q < n && 0 <= b < ps[q].bind_specs.len() implies spec_parse_bind_spec(
                #[trigger] ps[q].bind_specs[b],
            ) is Ok by {
                if q == n - 1 {
                    assert(spec_parse_bind_spec(ps[n - 1].bind_specs[b]) is Ok);
                }
            }
        }
    }
}

proof fn lemma_subrules_iff(rels: Seq<SubruleV>, n: int, roots: Seq<Seq<char>>, idx: int)
    requires
        0 <= n <= rels.len(),
    ensures
        subrules_error(rels, n, roots, idx) is None <==> forall|j: int| 0 <= j < n ==> roots.contains((#[trigger] rels[j]).sub) && roots.contains(rels[j].sup),
    decreases n,
{
    if n > 0 {
        lemma_subrules_iff(rels, n - 1, roots, idx);
    }
}

proof fn lemma_rules_iff(rs: Seq<InferenceRuleV>, n: int, idx: int)
    requires
        0 <= n <= rs.len(),
    ensures
        rules_error(rs, n, idx) is None <==> (forall|j: int| 0 <= j < n ==> (#[trigger] rs[j]).conclusion.len() > 0) && (forall|j1: int, j2: int|
            0 <= j1 < j2 < n ==> (#[trigger] rs[j1]).name != (#[trigger] rs[j2]).name),
    decreases n,
{
    if n > 0 {
        lemma_rules_iff(rs, n - 1, idx);
        if rules_error(rs, n - 1, idx) is None && rs[n - 1].conclusion.len() > 0 && rule_names(rs, n - 1).contains(rs[n - 1].name) {
            let w = choose|w: int| 0 <= w < rule_names(rs, n - 1).len() && #[trigger] rule_names(rs, n - 1)[w] == rs[n - 1].name;
            assert(rs[w].name == rs[n - 1].name);
        }
        if rules_error(rs, n - 1, idx) is None {
            lemma_rules_ok(rs, n - 1, idx);
            if rs[n - 1].conclusion.len() > 0 && !rule_names(rs, n - 1).contains(rs[n - 1].name) {
                assert forall|j1: int, j2: int| 0 <= j1 < j2 < n implies (#[trigger] rs[j1]).name != (#[trigger] rs[j2]).name by {
                    if j2 == n - 1 {
                        assert(rule_names(rs, n - 1)[j1] == rs[j1].name);
                    }
                }
            }
        }
    }
}

proof fn lemma_references_iff(items: Seq<ItemV>, n: int, roots: Seq<Seq<char>>)
    requires
        0 <= n <= items.len(),
    ensures
        references_error(items, n, roots) is None <==> {
            &&& forall|i: int, j: int| 0 <= i < n && 0 <= j < item_relations(items[i]).len() ==> roots.contains(
                (#[trigger] item_relations(items[i])[j]).sub,
            ) && roots.contains(item_relations(items[i])[j].sup)
            &&& forall|i: int, j: int| 0 <= i < n && 0 <= j < item_rules(items[i]).len() ==> (#[trigger] item_rules(items[i])[j]).conclusion.len() > 0
            &&& forall|i: int, j1: int, j2: int|
                0 <= i < n && 0 <= j1 < j2 < item_rules(items[i]).len() ==> (#[trigger] item_rules(items[i])[j1]).name != (#[trigger] item_rules(
                    items[i],
                )[j2]).name
        },
    decreases n,
{
    if n > 0 {
        lemma_references_iff(items, n - 1, roots);
        let it = items[n - 1];
        lemma_subrules_iff(item_relations(it), item_relations(it).len() as int, roots, n - 1);
        lemma_rules_iff(item_rules(it), item_rules(it).len() as int, n - 1);
        match it {
            ItemV::Subrules(rels) => {
                assert(item_rules(it).len() == 0);
            },
            ItemV::Defn(d) => {
                assert(item_relations(it).len() == 0);
            },
            _ => {
                assert(item_relations(it).len() == 0);
                assert(item_rules(it).len() == 0);
            },
        }
    }
}

/// Every binding specification of every production of a grammar rule of
/// `items` parses.
pub open spec fn binds_parse(items: Seq<ItemV>) -> bool {
    forall|i: int, r: int, q: int, b: int|
        0 <= i < items.len() && 0 <= r < item_grammar(items[i]).len() && 0 <= q < item_grammar(items[i])[r].productions.len() && 0 <= b
            < item_grammar(items[i])[r].productions[q].bind_specs.len() ==> spec_parse_bind_spec(
            #[trigger] item_grammar(items[i])[r].productions[q].bind_specs[b],
        ) is Ok
}

/// What the checks ask of a specification: no grammar root is declared twice;
/// (when strict) every binding specification parses; every subrule relation
/// names declared roots; every inference rule has a conclusion, and the rules
/// of a defn block have distinct names.
pub open spec fn checks_hold(items: Seq<ItemV>, strict: bool) -> bool {
    &&& all_roots(items).no_duplicates()
    &&& strict ==> binds_parse(items)
    &&& forall|i: int, j: int| 0 <= i < items.len() && 0 <= j < item_relations(items[i]).len() ==> all_roots(items).contains(
        (#[trigger] item_relations(items[i])[j]).sub,
    ) && all_roots(items).contains(item_relations(items[i])[j].sup)
    &&& forall|i: int, j: int| 0 <= i < items.len() && 0 <= j < item_rules(items[i]).len() ==> (#[trigger] item_rules(items[i])[j]).conclusion.len() > 0
    &&& forall|i: int, j1: int, j2: int|
        0 <= i < items.len() && 0 <= j1 < j2 < item_rules(items[i]).len() ==> (#[trigger] item_rules(items[i])[j1]).name != (#[trigger] item_rules(
            items[i],
        )[j2]).name
}

/// A specification passes the checks exactly when it meets what they ask, and
/// then the reported roots are all the declared roots, in order.
pub proof fn lemma_check_spec_iff(items: Seq<ItemV>, strict: bool)
    ensures
        spec_check_spec(items, strict) is Ok <==> checks_hold(items, strict),
        spec_check_spec(items, strict) matches Ok(d) ==> d.0 == all_roots(items),
{
    let n = items.len() as int;
    lemma_declared_roots_iff(items, n, strict);
    assert((strict ==> forall|i: int, r: int|
        0 <= i < n && 0 <= r < item_grammar(items[i]).len() ==> productions_error(
            (#[trigger] item_grammar(items[i])[r]).productions,
            item_grammar(items[i])[r].productions.len() as int,
            item_grammar(items[i])[r].roots[0],
            i,
        ) is None) <==> (strict ==> binds_parse(items))) by {
        assert forall|i: int, r: int| 0 <= i < n && 0 <= r < item_grammar(items[i]).len() implies (productions_error(
            (#[trigger] item_grammar(items[i])[r]).productions,
            item_grammar(items[i])[r].productions.len() as int,
            item_grammar(items[i])[r].roots[0],
            i,
        ) is None <==> forall|q: int, b: int|
            0 <= q < item_grammar(items[i])[r].productions.len() && 0 <= b < item_grammar(items[i])[r].productions[q].bind_specs.len()
                ==> spec_parse_bind_spec(#[trigger] item_grammar(items[i])[r].productions[q].bind_specs[b]) is Ok) by {
            let ps = item_grammar(items[i])[r].productions;
            lemma_productions_iff(ps, ps.len() as int, item_grammar(items[i])[r].roots[0], i);
        }
    }
    match declared_roots(items, n, strict) {
        Ok(d) => {
            lemma_references_iff(items, n, d.0);
        },
        Err(_) => {},
    }
}

} // verus!
