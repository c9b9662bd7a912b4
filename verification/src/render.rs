//! The document handed to the Typst side: grammar rules with their
//! alternatives, and inference rules grouped under section titles.

use vstd::prelude::*;
use vstd::string::StringExecFns;
use crate::ast::{Item, ItemV, GrammarRule, GrammarRuleV, Production, ProductionV, InferenceRule, InferenceRuleV,
    DefnBlock, DefnBlockV, strs_view, opt_view};
use crate::chars::{join, trim, trim_of};
use crate::check::{CheckedSpec, rules_have_roots, item_rules, item_grammar};
use crate::text::{chars_of, string_from_chars};

verus! {

#[derive(Debug, Clone)]
pub struct TypstRenderDoc {
    pub items: Vec<TypstRenderItem>,
}

impl TypstRenderDoc {
    pub fn new(items: Vec<TypstRenderItem>) -> (d: Self)
        ensures
            d.items == items,
    {
        Self { items }
    }
}

#[derive(Debug, Clone)]
pub enum TypstRenderItem {
    Section { title: String },
    Grammar { nonterminal: String, comment: Option<String>, alternatives: Vec<String> },
    Rule { name: String, comment: Option<String>, premises: Vec<String>, conclusion: String },
}

/// An error of encoding or decoding a render document.
#[derive(Debug)]
pub struct RenderError {
    message: String,
}

impl RenderError {
    pub fn new(message: String) -> (e: Self)
        ensures
            e.message() == message@,
    {
        Self { message }
    }

    pub closed spec fn message(&self) -> Seq<char> {
        self.message@
    }

    /// The message.
    pub fn to_string(&self) -> (s: String)
        ensures
            s@ == self.message(),
    {
        self.message.clone()
    }
}

/// Mathematical model of a render item.
pub enum RenderItemV {
    Section { title: Seq<char> },
    Grammar { nonterminal: Seq<char>, comment: Option<Seq<char>>, alternatives: Seq<Seq<char>> },
    Rule { name: Seq<char>, comment: Option<Seq<char>>, premises: Seq<Seq<char>>, conclusion: Seq<char> },
}

impl View for TypstRenderItem {
    type V = RenderItemV;

    open spec fn view(&self) -> RenderItemV {
        match *self {
            TypstRenderItem::Section { title } => RenderItemV::Section { title: title@ },
            TypstRenderItem::Grammar { nonterminal, comment, alternatives } => RenderItemV::Grammar {
                nonterminal: nonterminal@,
                comment: opt_view(comment),
                alternatives: strs_view(alternatives),
            },
            TypstRenderItem::Rule { name, comment, premises, conclusion } => RenderItemV::Rule {
                name: name@,
                comment: opt_view(comment),
                premises: strs_view(premises),
                conclusion: conclusion@,
            },
        }
    }
}

impl View for TypstRenderDoc {
    type V = Seq<RenderItemV>;

    open spec fn view(&self) -> Seq<RenderItemV> {
        self.items@.map_values(|i: TypstRenderItem| i@)
    }
}

// ---------------------------------------------------------------------------
// What is rendered

/// ` (+ b +)` for each binding specification `b` of `bs[..n]`, trimmed.
pub open spec fn bind_suffix(bs: Seq<Seq<char>>, n: int) -> Seq<char>
    decreases n,
{
    if n <= 0 {
        Seq::empty()
    } else {
        bind_suffix(bs, n - 1) + " (+ "@ + trim(bs[n - 1]) + " +)"@
    }
}

/// An alternative of a grammar rule: the pattern, then its binding specifications.
pub open spec fn alternative(p: ProductionV) -> Seq<char> {
    p.pattern + bind_suffix(p.bind_specs, p.bind_specs.len() as int)
}

/// A grammar rule, named by its first root.
pub open spec fn grammar_item(r: GrammarRuleV) -> RenderItemV {
    RenderItemV::Grammar {
        nonterminal: r.roots[0],
        comment: r.comment,
        alternatives: r.productions.map_values(|p: ProductionV| alternative(p)),
    }
}

/// An inference rule, its conclusion lines joined by spaces.
pub open spec fn rule_item(r: InferenceRuleV) -> RenderItemV {
    RenderItemV::Rule { name: r.name, comment: None, premises: r.premises, conclusion: join(r.conclusion, " "@) }
}

/// The section title of a defn block: its comment, else its header.
pub open spec fn defn_title(d: DefnBlockV) -> Seq<char> {
    match d.comment {
        Some(c) => c,
        None => d.header,
    }
}

/// What one item contributes: one entry per grammar rule; a section and one
/// entry per inference rule for a defn block; nothing for the other items.
pub open spec fn item_render(it: ItemV) -> Seq<RenderItemV> {
    match it {
        ItemV::Grammar(rs) => rs.map_values(|r: GrammarRuleV| grammar_item(r)),
        ItemV::Defn(d) => seq![RenderItemV::Section { title: defn_title(d) }] + d.rules.map_values(
            |r: InferenceRuleV| rule_item(r),
        ),
        _ => Seq::empty(),
    }
}

/// The render of the items `items[..n]`, in order.
pub open spec fn render_items(items: Seq<ItemV>, n: int) -> Seq<RenderItemV>
    decreases n,
{
    if n <= 0 {
        Seq::empty()
    } else {
        render_items(items, n - 1) + item_render(items[n - 1])
    }
}

/// The render of a prefix of the items is a prefix of the render of more.
proof fn lemma_render_prefix(items: Seq<ItemV>, m: int, n: int)
    requires
        0 <= m <= n <= items.len(),
    ensures
        render_items(items, m).len() <= render_items(items, n).len(),
        forall|x: int| 0 <= x < render_items(items, m).len() ==> #[trigger] render_items(items, n)[x] == render_items(items, m)[x],
    decreases n - m,
{
    if n > m {
        lemma_render_prefix(items, m, n - 1);
        let a = render_items(items, n - 1);
        assert forall|x: int| 0 <= x < a.len() implies #[trigger] render_items(items, n)[x] == a[x] by {
            assert((a + item_render(items[n - 1]))[x] == a[x]);
        }
    }
}

proof fn lemma_rendered_rule(items: Seq<ItemV>, q: int, j: int)
    requires
        0 <= q < items.len(),
        0 <= j < item_rules(items[q]).len(),
    ensures
        render_items(items, items.len() as int)[render_items(items, q).len() + 1 + j] == rule_item(item_rules(items[q])[j]),
{
    let d = items[q]->Defn_0;
    let pre = render_items(items, q);
    let it = item_render(items[q]);
    assert(render_items(items, q + 1) == pre + it);
    let rs = d.rules.map_values(|r: InferenceRuleV| rule_item(r));
    assert(it == seq![RenderItemV::Section { title: defn_title(d) }] + rs);
    assert(it[1 + j] == rs[j]);
    assert(rs[j] == rule_item(d.rules[j]));
    let x = pre.len() + 1 + j;
    assert(render_items(items, q + 1)[x] == it[1 + j]);
    lemma_render_prefix(items, q + 1, items.len() as int);
    assert(x < render_items(items, q + 1).len());
}

/// Every inference rule of a defn block is rendered, after the block's
/// section entry and the rules before it, as a rule entry with the rule's
/// name, exactly its premises (in order), and its conclusion lines joined by
/// spaces; every grammar rule is rendered as an entry named by its first
/// root with one alternative per production.
pub proof fn lemma_rendered_rules(items: Seq<ItemV>)
    ensures
        forall|q: int, j: int|
            #![trigger item_rules(items[q])[j]]
            0 <= q < items.len() && 0 <= j < item_rules(items[q]).len() ==> {
                let r = item_rules(items[q])[j];
                render_items(items, items.len() as int)[render_items(items, q).len() + 1 + j] == (RenderItemV::Rule {
                    name: r.name,
                    comment: None,
                    premises: r.premises,
                    conclusion: join(r.conclusion, " "@),
                })
            },
        forall|q: int, j: int|
            #![trigger item_grammar(items[q])[j]]
            0 <= q < items.len() && 0 <= j < item_grammar(items[q]).len() ==> {
                let r = item_grammar(items[q])[j];
                let e = render_items(items, items.len() as int)[render_items(items, q).len() + j];
                &&& e matches RenderItemV::Grammar { nonterminal, alternatives, .. }
                &&& nonterminal == r.roots[0]
                &&& alternatives.len() == r.productions.len()
            },
{
    assert forall|q: int, j: int| #![trigger item_rules(items[q])[j]] 0 <= q < items.len() && 0 <= j < item_rules(items[q]).len() implies {
        let r = item_rules(items[q])[j];
        render_items(items, items.len() as int)[render_items(items, q).len() + 1 + j] == (RenderItemV::Rule {
            name: r.name,
            comment: None,
            premises: r.premises,
            conclusion: join(r.conclusion, " "@),
        })
    } by {
        lemma_rendered_rule(items, q, j);
    }
    assert forall|q: int, j: int| #![trigger item_grammar(items[q])[j]] 0 <= q < items.len() && 0 <= j < item_grammar(items[q]).len() implies {
        let r = item_grammar(items[q])[j];
        let e = render_items(items, items.len() as int)[render_items(items, q).len() + j];
        &&& e matches RenderItemV::Grammar { nonterminal, alternatives, .. }
        &&& nonterminal == r.roots[0]
        &&& alternatives.len() == r.productions.len()
    } by {
        let rs = items[q]->Grammar_0;
        let pre = render_items(items, q);
        let it = item_render(items[q]);
        assert(render_items(items, q + 1) == pre + it);
        let x = pre.len() + j;
        assert(it[j] == grammar_item(rs[j]));
        assert(render_items(items, q + 1)[x] == it[j]);
        lemma_render_prefix(items, q + 1, items.len() as int);
    }
}

// ---------------------------------------------------------------------------
// Implementation

/// The strings of `parts` joined by `sep`.
fn join_strings(parts: &Vec<String>, sep: &str) -> (r: String)
    ensures
        r@ == join(strs_view(*parts), sep@),
{
    let ghost pv = strs_view(*parts);
    let mut out = String::new();
    let mut i: usize = 0;
    while i < parts.len()
        invariant
            i <= parts@.len(),
            pv == strs_view(*parts),
            out@ == join(pv.take(i as int), sep@),
        decreases parts@.len() - i,
    {
        assert(pv.take(i + 1).drop_last() =~= pv.take(i as int));
        assert(pv[i as int] == parts@[i as int]@);
        if i == 0 {
            out.append(parts[i].as_str());
            assert(pv.take(1) =~= seq![pv[0]]);
        } else {
            out.append(sep);
            out.append(parts[i].as_str());
        }
        i = i + 1;
    }
    assert(pv.take(parts@.len() as int) =~= pv);
    out
}

/// The text of one alternative.
fn render_alternative(p: &Production) -> (r: String)
    ensures
        r@ == alternative(p@),
{
    let ghost bs = strs_view(p.bind_specs);
    let mut out = p.pattern.clone();
    let mut k: usize = 0;
    while k < p.bind_specs.len()
        invariant
            k <= p.bind_specs@.len(),
            bs == strs_view(p.bind_specs),
            out@ == p.pattern@ + bind_suffix(bs, k as int),
        decreases p.bind_specs@.len() - k,
    {
        assert(bs[k as int] == p.bind_specs@[k as int]@);
        let b = chars_of(p.bind_specs[k].as_str());
        let t = string_from_chars(trim_of(b.as_slice()).as_slice());
        out.append(" (+ ");
        out.append(t.as_str());
        out.append(" +)");
        k = k + 1;
    }
    out
}

/// The entry of one grammar rule.
fn render_grammar_rule(r: &GrammarRule) -> (item: TypstRenderItem)
    requires
        r.roots@.len() > 0,
    ensures
        item@ == grammar_item(r@),
{
    let ghost ps = r.productions@.map_values(|p: Production| p@);
    let mut alternatives: Vec<String> = Vec::new();
    let mut k: usize = 0;
    while k < r.productions.len()
        invariant
            k <= r.productions@.len(),
            ps == r.productions@.map_values(|p: Production| p@),
            strs_view(alternatives) == ps.take(k as int).map_values(|p: ProductionV| alternative(p)),
        decreases r.productions@.len() - k,
    {
        assert(ps[k as int] == r.productions@[k as int]@);
        let a = render_alternative(&r.productions[k]);
        let ghost before = strs_view(alternatives);
        alternatives.push(a);
        assert(strs_view(alternatives) =~= before.push(a@));
        assert(ps.take(k + 1).map_values(|p: ProductionV| alternative(p)) =~= ps.take(k as int).map_values(
            |p: ProductionV| alternative(p),
        ).push(alternative(ps[k as int])));
        k = k + 1;
    }
    assert(ps.take(r.productions@.len() as int) =~= ps);
    assert(r@.roots[0] == r.roots@[0]@);
    TypstRenderItem::Grammar { nonterminal: r.roots[0].clone(), comment: r.comment.clone(), alternatives }
}

/// The entry of one inference rule.
fn render_rule(r: &InferenceRule) -> (item: TypstRenderItem)
    ensures
        item@ == rule_item(r@),
{
    TypstRenderItem::Rule {
        name: r.name.clone(),
        comment: None,
        premises: r.premises.clone(),
        conclusion: join_strings(&r.conclusion, " "),
    }
}

/// Appends the entries of a defn block.
fn render_defn(d: &DefnBlock, out: &mut Vec<TypstRenderItem>)
    ensures
        final(out)@.map_values(|i: TypstRenderItem| i@) == old(out)@.map_values(|i: TypstRenderItem| i@) + item_render(
            ItemV::Defn(d@),
        ),
{
    let ghost o0 = out@.map_values(|i: TypstRenderItem| i@);
    let ghost rs = d.rules@.map_values(|r: InferenceRule| r@);
    let title = match &d.comment {
        Some(c) => c.clone(),
        None => d.header.clone(),
    };
    out.push(TypstRenderItem::Section { title });
    let ghost sec = seq![RenderItemV::Section { title: defn_title(d@) }];
    assert(out@.map_values(|i: TypstRenderItem| i@) =~= o0 + sec);
    let mut k: usize = 0;
    while k < d.rules.len()
        invariant
            k <= d.rules@.len(),
            rs == d.rules@.map_values(|r: InferenceRule| r@),
            out@.map_values(|i: TypstRenderItem| i@) == o0 + sec + rs.take(k as int).map_values(
                |r: InferenceRuleV| rule_item(r),
            ),
        decreases d.rules@.len() - k,
    {
        assert(rs[k as int] == d.rules@[k as int]@);
        let it = render_rule(&d.rules[k]);
        let ghost before = out@.map_values(|i: TypstRenderItem| i@);
        out.push(it);
        assert(out@.map_values(|i: TypstRenderItem| i@) =~= before.push(it@));
        assert(rs.take(k + 1).map_values(|r: InferenceRuleV| rule_item(r)) =~= rs.take(k as int).map_values(
            |r: InferenceRuleV| rule_item(r),
        ).push(rule_item(rs[k as int])));
        k = k + 1;
    }
    assert(rs.take(d.rules@.len() as int) =~= rs);
}

/// Appends the entries of the grammar rules `rules`.
fn render_grammar(rules: &Vec<GrammarRule>, out: &mut Vec<TypstRenderItem>)
    requires
        forall|j: int| 0 <= j < rules@.len() ==> (#[trigger] rules@[j]).roots@.len() > 0,
    ensures
        final(out)@.map_values(|i: TypstRenderItem| i@) == old(out)@.map_values(|i: TypstRenderItem| i@) + rules@.map_values(
            |g: GrammarRule| g@,
        ).map_values(|r: GrammarRuleV| grammar_item(r)),
{
    let ghost o0 = out@.map_values(|i: TypstRenderItem| i@);
    let ghost rs = rules@.map_values(|g: GrammarRule| g@);
    let mut k: usize = 0;
    assert(o0 + rs.take(0).map_values(|r: GrammarRuleV| grammar_item(r)) =~= o0);
    while k < rules.len()
        invariant
            k <= rules@.len(),
            rs == rules@.map_values(|g: GrammarRule| g@),
            forall|j: int| 0 <= j < rules@.len() ==> (#[trigger] rules@[j]).roots@.len() > 0,
            out@.map_values(|i: TypstRenderItem| i@) == o0 + rs.take(k as int).map_values(
                |r: GrammarRuleV| grammar_item(r),
            ),
        decreases rules@.len() - k,
    {
        assert(rs[k as int] == rules@[k as int]@);
        let it = render_grammar_rule(&rules[k]);
        let ghost before = out@.map_values(|i: TypstRenderItem| i@);
        out.push(it);
        assert(out@.map_values(|i: TypstRenderItem| i@) =~= before.push(it@));
        assert(rs.take(k + 1).map_values(|r: GrammarRuleV| grammar_item(r)) =~= rs.take(k as int).map_values(
            |r: GrammarRuleV| grammar_item(r),
        ).push(grammar_item(rs[k as int])));
        k = k + 1;
    }
    assert(rs.take(rules@.len() as int) =~= rs);
}

/// The render document of a checked specification: for each grammar rule an
/// entry with its alternatives, for each defn block a section followed by its
/// rules, in the order of the items.
pub fn render_for_typst(spec: &CheckedSpec) -> (doc: TypstRenderDoc)
    requires
        rules_have_roots(spec.spec@),
    ensures
        doc@ == render_items(spec.spec@, spec.spec@.len() as int),
{
    let ghost items = spec.spec@;
    let mut out: Vec<TypstRenderItem> = Vec::new();
    assert(out@.map_values(|i: TypstRenderItem| i@) =~= render_items(items, 0));
    let mut i: usize = 0;
    while i < spec.spec.items.len()
        invariant
            i <= spec.spec.items@.len(),
            items == spec.spec@,
            rules_have_roots(items),
            out@.map_values(|i: TypstRenderItem| i@) == render_items(items, i as int),
        decreases spec.spec.items@.len() - i,
    {
        assert(items[i as int] == spec.spec.items@[i as int]@);
        match &spec.spec.items[i] {
            Item::Grammar(g) => {
                proof {
                    assert forall|j: int| 0 <= j < g.rules@.len() implies (#[trigger] g.rules@[j]).roots@.len() > 0 by {
                        let rs = g.rules@.map_values(|x: GrammarRule| x@);
                        assert(items[i as int] matches ItemV::Grammar(q) && q == rs);
                        assert(rs[j] == g.rules@[j]@);
                    }
                }
                render_grammar(&g.rules, &mut out);
            },
            Item::Defn(d) => {
                render_defn(d, &mut out);
            },
            _ => {
                assert(item_render(items[i as int]) =~= Seq::<RenderItemV>::empty());
                assert(out@.map_values(|i: TypstRenderItem| i@) =~= render_items(items, i + 1));
            },
        }
        i = i + 1;
    }
    TypstRenderDoc::new(out)
}

} // verus!
