//! Earley recognition and parsing of snippets against a compiled grammar.
//!
//! The chart of position `p` holds items `(production, dot, origin)`; each
//! item that has moved past a symbol keeps back pointers, the first of which
//! was recorded when the item was first added and so points at earlier
//! items. Parse trees are rebuilt along first back pointers.

use vstd::prelude::*;
use crate::grammar::{Grammar, Prod, ProdV, RhsItem, RhsItemV, Sym, SymV, MetavarDef, MetavarDefV, defs_view,
    mv_lookup, defs_wf, lex_ok, find_metavar, sym_eq, sort_missing, lex_missing};
use crate::termlex::{Token, TokenKind, TokenV, TokenKindV};
use vstd::string::StringExecFns;
use vstd::string::StringSliceAdditionalSpecFns;
use crate::error::{OttError, OttErrV, Span, spec_position_from_offset, err_plain, lemma_position_fits};

verus! {

#[derive(Debug, Clone, Copy, PartialEq, Eq, Structural)]
pub struct State {
    pub prod_id: usize,
    pub dot: usize,
    pub origin: usize,
}

#[derive(Debug, Clone, Copy, PartialEq, Eq, Structural)]
pub enum BackPtr {
    Scan { prev: State, token_index: usize },
    Complete { prev: State, completed: State },
}

#[derive(Debug, Clone)]
pub struct Chart {
    pub states: Vec<State>,
    /// The back pointers of the item at the same position of `states`.
    pub back: Vec<Vec<BackPtr>>,
}

pub struct ChartV {
    pub states: Seq<State>,
    pub back: Seq<Seq<BackPtr>>,
}

impl View for Chart {
    type V = ChartV;

    open spec fn view(&self) -> ChartV {
        ChartV { states: self.states@, back: self.back@.map_values(|b: Vec<BackPtr>| b@) }
    }
}

pub open spec fn charts_view(cs: Vec<Chart>) -> Seq<ChartV> {
    cs@.map_values(|c: Chart| c@)
}

/// A parse tree.
#[derive(Debug)]
pub enum TermNode {
    Terminal { text: String },
    Metavar { sort: String, text: String },
    Nonterminal { prod_id: usize, children: Vec<TermNode>, span: Span },
}

pub enum TermNodeV {
    Terminal { text: Seq<char> },
    Metavar { sort: Seq<char>, text: Seq<char> },
    Nonterminal { prod_id: usize, children: Seq<TermNodeV>, span: Span },
}

pub open spec fn node_view(n: TermNode) -> TermNodeV
    decreases n,
{
    match n {
        TermNode::Terminal { text } => TermNodeV::Terminal { text: text@ },
        TermNode::Metavar { sort, text } => TermNodeV::Metavar { sort: sort@, text: text@ },
        TermNode::Nonterminal { prod_id, children, span } => TermNodeV::Nonterminal {
            prod_id,
            children: Seq::new(children@.len(), |i: int| {
                if 0 <= i < children@.len() {
                    node_view(children@[i])
                } else {
                    TermNodeV::Terminal { text: Seq::empty() }
                }
            }),
            span,
        },
    }
}

impl View for TermNode {
    type V = TermNodeV;

    open spec fn view(&self) -> TermNodeV {
        node_view(*self)
    }
}

pub open spec fn nodes_view(v: Vec<TermNode>) -> Seq<TermNodeV> {
    v@.map_values(|n: TermNode| n@)
}

// ---------------------------------------------------------------------------
// What a parse tree is

/// The number of tokens that a tree covers.
pub open spec fn width(n: TermNodeV) -> nat
    decreases n, 0nat,
{
    match n {
        TermNodeV::Nonterminal { children, .. } => seq_width(children, 0),
        _ => 1,
    }
}

/// The number of tokens that the trees `ch[k..]` cover.
pub open spec fn seq_width(ch: Seq<TermNodeV>, k: int) -> nat
    decreases ch, ch.len() - k,
{
    if 0 <= k < ch.len() {
        width(ch[k]) + seq_width(ch, k + 1)
    } else {
        0
    }
}

/// Token `tok` can stand for symbol `sym`: the same terminal, or a word of
/// the metavariable's class.
pub open spec fn scan_ok(mvs: Seq<(Seq<char>, MetavarDefV)>, tok: TokenV, sym: SymV) -> bool {
    match sym {
        SymV::Terminal(t) => tok.kind == TokenKindV::Terminal(t),
        SymV::Metavar(s) => match mv_lookup(mvs, s) {
            Some(d) => match tok.kind {
                TokenKindV::Word(w) => lex_ok(d.lex, w),
                _ => false,
            },
            None => false,
        },
        SymV::Nonterminal(_) => false,
    }
}

/// The span of the tokens `from..to` in a snippet of `srclen` bytes (an
/// empty span at the next token, or at the end, when no token is covered).
pub open spec fn spec_state_span(toks: Seq<TokenV>, srclen: usize, from: int, to: int) -> Span {
    if from == to {
        let off = if 0 <= from < toks.len() { toks[from].span.start } else { srclen };
        Span { start: off, end: off }
    } else {
        let start = if 0 <= from < toks.len() { toks[from].span.start } else { srclen };
        let last = if to >= 1 { to - 1 } else { 0 };
        let end = if 0 <= last < toks.len() { toks[last].span.end } else { srclen };
        Span { start, end }
    }
}

/// The tree `n` derives the tokens from index `from` on: leaves are the tokens
/// they stand for, and each inner node follows its production.
pub open spec fn node_ok(g: Seq<ProdV>, mvs: Seq<(Seq<char>, MetavarDefV)>, toks: Seq<TokenV>, srclen: usize, n: TermNodeV, from: int) -> bool
    decreases n, 0nat,
{
    match n {
        TermNodeV::Terminal { text } => 0 <= from < toks.len() && toks[from].kind == TokenKindV::Terminal(text),
        TermNodeV::Metavar { sort, text } => 0 <= from < toks.len() && scan_ok(mvs, toks[from], SymV::Metavar(sort))
            && toks[from].kind == TokenKindV::Word(text),
        TermNodeV::Nonterminal { prod_id, children, span } => {
            &&& prod_id < g.len()
            &&& children.len() == g[prod_id as int].rhs.len()
            &&& span == spec_state_span(toks, srclen, from, from + seq_width(children, 0))
            &&& children_ok(g, mvs, toks, srclen, g[prod_id as int].rhs, children, 0, from)
        },
    }
}

/// Each tree `ch[k..]` stands for the matching symbol of `rhs` and derives
/// the tokens after those of the trees before it, starting at `from`.
pub open spec fn children_ok(
    g: Seq<ProdV>,
    mvs: Seq<(Seq<char>, MetavarDefV)>,
    toks: Seq<TokenV>,
    srclen: usize,
    rhs: Seq<RhsItemV>,
    ch: Seq<TermNodeV>,
    k: int,
    from: int,
) -> bool
    decreases ch, ch.len() - k,
{
    if 0 <= k < ch.len() {
        &&& k < rhs.len()
        &&& sym_fits(g, rhs[k].sym, ch[k])
        &&& node_ok(g, mvs, toks, srclen, ch[k], from)
        &&& children_ok(g, mvs, toks, srclen, rhs, ch, k + 1, from + width(ch[k]))
    } else {
        true
    }
}

/// A tree stands for a symbol: a terminal by a leaf of its text, a
/// metavariable by a leaf of its sort, a nonterminal by a node of one of its
/// productions.
pub open spec fn sym_fits(g: Seq<ProdV>, sym: SymV, n: TermNodeV) -> bool {
    match sym {
        SymV::Terminal(t) => n == TermNodeV::Terminal { text: t },
        SymV::Metavar(s) => n matches TermNodeV::Metavar { sort, .. } && sort == s,
        SymV::Nonterminal(a) => n matches TermNodeV::Nonterminal { prod_id, .. } && prod_id < g.len()
            && g[prod_id as int].lhs == a,
    }
}

/// `t` is a parse of all of `toks` as nonterminal `root`.
pub open spec fn parse_tree_of(g: Seq<ProdV>, mvs: Seq<(Seq<char>, MetavarDefV)>, toks: Seq<TokenV>, srclen: usize, root: Seq<char>, t: TermNodeV) -> bool {
    &&& sym_fits(g, SymV::Nonterminal(root), t)
    &&& node_ok(g, mvs, toks, srclen, t, 0)
    &&& width(t) == toks.len()
}

// ---------------------------------------------------------------------------
// Charts

/// The first index of `x` in `s` (the length when absent).
pub open spec fn first_index(s: Seq<State>, x: State) -> int
    decreases s.len(),
{
    if s.len() == 0 {
        0
    } else if s[0] == x {
        0
    } else {
        first_index(s.drop_first(), x) + 1
    }
}

pub open spec fn rhs_len(g: Seq<ProdV>, st: State) -> int {
    g[st.prod_id as int].rhs.len() as int
}

pub open spec fn state_wf(g: Seq<ProdV>, st: State, p: int) -> bool {
    &&& st.prod_id < g.len()
    &&& st.dot <= g[st.prod_id as int].rhs.len()
    &&& st.origin <= p
}

/// `prev` moves past one symbol to `st`.
pub open spec fn advances(g: Seq<ProdV>, prev: State, st: State) -> bool {
    &&& prev.prod_id == st.prod_id
    &&& prev.origin == st.origin
    &&& prev.dot + 1 == st.dot
    &&& prev.prod_id < g.len()
    &&& prev.dot < g[prev.prod_id as int].rhs.len()
}

/// The first back pointer of item `k` of chart `p` explains it by items that
/// come earlier (a lower position, or a lower index at the same position).
pub open spec fn first_back_ok(g: Seq<ProdV>, mvs: Seq<(Seq<char>, MetavarDefV)>, toks: Seq<TokenV>, cs: Seq<ChartV>, p: int, k: int) -> bool {
    let st = cs[p].states[k];
    match cs[p].back[k][0] {
        BackPtr::Scan { prev, token_index } => {
            &&& p >= 1
            &&& token_index == p - 1
            &&& token_index < toks.len()
            &&& first_index(cs[p - 1].states, prev) < cs[p - 1].states.len()
            &&& advances(g, prev, st)
            &&& scan_ok(mvs, toks[token_index as int], g[prev.prod_id as int].rhs[prev.dot as int].sym)
        },
        BackPtr::Complete { prev, completed } => {
            &&& first_index(cs[p].states, completed) < k
            &&& completed.prod_id < g.len()
            &&& completed.dot == g[completed.prod_id as int].rhs.len()
            &&& completed.origin <= p
            &&& first_index(cs[completed.origin as int].states, prev) < cs[completed.origin as int].states.len()
            &&& (completed.origin < p || first_index(cs[p].states, prev) < k)
            &&& advances(g, prev, st)
            &&& g[prev.prod_id as int].rhs[prev.dot as int].sym == SymV::Nonterminal(g[completed.prod_id as int].lhs)
        },
    }
}

/// Chart `p` is sound: its items are well formed, and each item past its
/// first symbol has a first back pointer that explains it.
pub open spec fn chart_ok(g: Seq<ProdV>, mvs: Seq<(Seq<char>, MetavarDefV)>, toks: Seq<TokenV>, cs: Seq<ChartV>, p: int) -> bool {
    &&& cs[p].back.len() == cs[p].states.len()
    &&& forall|k: int| 0 <= k < cs[p].states.len() ==> state_wf(g, #[trigger] cs[p].states[k], p)
    &&& forall|k: int| 0 <= k < cs[p].states.len() && (#[trigger] cs[p].states[k]).dot == 0 ==> cs[p].states[k].origin == p
    &&& forall|k: int| 0 <= k < cs[p].states.len() && (#[trigger] cs[p].states[k]).dot > 0 ==> cs[p].back[k].len() > 0
        && first_back_ok(g, mvs, toks, cs, p, k)
}

pub open spec fn charts_ok(g: Seq<ProdV>, mvs: Seq<(Seq<char>, MetavarDefV)>, toks: Seq<TokenV>, cs: Seq<ChartV>) -> bool {
    forall|p: int| 0 <= p < cs.len() ==> #[trigger] chart_ok(g, mvs, toks, cs, p)
}

/// The leaf for the token that a scan moved past.
pub open spec fn leaf_for(sym: SymV, tok: TokenV) -> TermNodeV {
    match sym {
        SymV::Metavar(sort) => TermNodeV::Metavar {
            sort,
            text: match tok.kind {
                TokenKindV::Word(w) => w,
                TokenKindV::Terminal(t) => t,
            },
        },
        SymV::Terminal(t) => TermNodeV::Terminal { text: t },
        SymV::Nonterminal(_) => TermNodeV::Terminal { text: Seq::empty() },
    }
}

/// The children of item `k` of chart `p`, rebuilt along first back pointers.
pub open spec fn tree_children(g: Seq<ProdV>, toks: Seq<TokenV>, srclen: usize, cs: Seq<ChartV>, p: int, k: int) -> Seq<TermNodeV>
    decreases p, k, 0int,
{
    if p < 0 || p >= cs.len() || k < 0 || k >= cs[p].states.len() || k >= cs[p].back.len() {
        Seq::empty()
    } else {
        let st = cs[p].states[k];
        if st.dot == 0 || cs[p].back[k].len() == 0 {
            Seq::empty()
        } else {
            match cs[p].back[k][0] {
                BackPtr::Scan { prev, token_index } => {
                    let kp = first_index(cs[p - 1].states, prev);
                    if p >= 1 && 0 <= kp {
                        let sym = g[prev.prod_id as int].rhs[prev.dot as int].sym;
                        tree_children(g, toks, srclen, cs, p - 1, kp).push(leaf_for(sym, toks[token_index as int]))
                    } else {
                        Seq::empty()
                    }
                },
                BackPtr::Complete { prev, completed } => {
                    let kc = first_index(cs[p].states, completed);
                    let o = completed.origin as int;
                    let kp = first_index(cs[o].states, prev);
                    if 0 <= kc < k && o <= p && 0 <= kp && (o < p || kp < k) {
                        tree_children(g, toks, srclen, cs, o, kp).push(tree_node(g, toks, srclen, cs, p, kc))
                    } else {
                        Seq::empty()
                    }
                },
            }
        }
    }
}

/// The tree of the complete item `k` of chart `p`.
pub open spec fn tree_node(g: Seq<ProdV>, toks: Seq<TokenV>, srclen: usize, cs: Seq<ChartV>, p: int, k: int) -> TermNodeV
    decreases p, k, 1int,
{
    if p < 0 || p >= cs.len() || k < 0 || k >= cs[p].states.len() {
        TermNodeV::Terminal { text: Seq::empty() }
    } else {
        let st = cs[p].states[k];
        TermNodeV::Nonterminal {
            prod_id: st.prod_id,
            children: tree_children(g, toks, srclen, cs, p, k),
            span: spec_state_span(toks, srclen, st.origin as int, p),
        }
    }
}

// ---------------------------------------------------------------------------
// Lemmas

proof fn lemma_first_index(s: Seq<State>, x: State)
    ensures
        0 <= first_index(s, x) <= s.len(),
        first_index(s, x) < s.len() ==> s[first_index(s, x)] == x,
        forall|j: int| 0 <= j < s.len() && s[j] == x ==> first_index(s, x) <= j,
    decreases s.len(),
{
    if s.len() > 0 && s[0] != x {
        lemma_first_index(s.drop_first(), x);
        assert forall|j: int| 0 <= j < s.len() && s[j] == x implies first_index(s, x) <= j by {
            if j > 0 {
                assert(s.drop_first()[j - 1] == s[j]);
            }
        }
    }
}

proof fn lemma_seq_width_push(ch: Seq<TermNodeV>, x: TermNodeV, k: int)
    requires
        0 <= k <= ch.len(),
    ensures
        seq_width(ch.push(x), k) == seq_width(ch, k) + width(x),
    decreases ch.len() - k,
{
    if k < ch.len() {
        lemma_seq_width_push(ch, x, k + 1);
        assert(ch.push(x)[k] == ch[k]);
    } else {
        assert(ch.push(x)[k] == x);
        assert(seq_width(ch.push(x), k + 1) == 0);
    }
}

proof fn lemma_children_ok_push(
    g: Seq<ProdV>,
    mvs: Seq<(Seq<char>, MetavarDefV)>,
    toks: Seq<TokenV>,
    srclen: usize,
    rhs: Seq<RhsItemV>,
    ch: Seq<TermNodeV>,
    x: TermNodeV,
    k: int,
    from: int,
)
    requires
        0 <= k <= ch.len(),
        ch.len() < rhs.len(),
        children_ok(g, mvs, toks, srclen, rhs, ch, k, from),
        sym_fits(g, rhs[ch.len() as int].sym, x),
        node_ok(g, mvs, toks, srclen, x, from + seq_width(ch, k)),
    ensures
        children_ok(g, mvs, toks, srclen, rhs, ch.push(x), k, from),
    decreases ch.len() - k,
{
    if k < ch.len() {
        assert(ch.push(x)[k] == ch[k]);
        assert(seq_width(ch, k) == width(ch[k]) + seq_width(ch, k + 1));
        lemma_children_ok_push(g, mvs, toks, srclen, rhs, ch, x, k + 1, from + width(ch[k]));
    } else {
        assert(ch.push(x)[k] == x);
        assert(seq_width(ch, k) == 0);
        assert(children_ok(g, mvs, toks, srclen, rhs, ch.push(x), k + 1, from + width(x)));
    }
}

/// The trees rebuilt from sound charts are parse trees: the children of item
/// `k` of chart `p` derive the tokens from its origin to `p`, and stand for the
/// symbols its dot has moved past.
pub proof fn lemma_tree_sound(g: Seq<ProdV>, mvs: Seq<(Seq<char>, MetavarDefV)>, toks: Seq<TokenV>, srclen: usize, cs: Seq<ChartV>, p: int, k: int)
    requires
        charts_ok(g, mvs, toks, cs),
        0 <= p < cs.len(),
        0 <= k < cs[p].states.len(),
    ensures
        ({
            let st = cs[p].states[k];
            let ch = tree_children(g, toks, srclen, cs, p, k);
            &&& ch.len() == st.dot
            &&& seq_width(ch, 0) == p - st.origin
            &&& children_ok(g, mvs, toks, srclen, g[st.prod_id as int].rhs, ch, 0, st.origin as int)
        }),
        cs[p].states[k].dot == rhs_len(g, cs[p].states[k]) ==> node_ok(g, mvs, toks, srclen, tree_node(g, toks, srclen, cs, p, k), cs[p].states[k].origin as int)
            && width(tree_node(g, toks, srclen, cs, p, k)) == p - cs[p].states[k].origin,
    decreases p, k,
{
    assert(chart_ok(g, mvs, toks, cs, p));
    let st = cs[p].states[k];
    assert(state_wf(g, st, p));
    let ch = tree_children(g, toks, srclen, cs, p, k);
    let rhs = g[st.prod_id as int].rhs;
    if st.dot == 0 {
        assert(ch =~= Seq::<TermNodeV>::empty());
    } else {
        assert(cs[p].back[k].len() > 0 && first_back_ok(g, mvs, toks, cs, p, k));
        match cs[p].back[k][0] {
            BackPtr::Scan { prev, token_index } => {
                let kp = first_index(cs[p - 1].states, prev);
                lemma_first_index(cs[p - 1].states, prev);
                lemma_tree_sound(g, mvs, toks, srclen, cs, p - 1, kp);
                assert(cs[p - 1].states[kp] == prev);
                let pre = tree_children(g, toks, srclen, cs, p - 1, kp);
                let sym = rhs[prev.dot as int].sym;
                let leaf = leaf_for(sym, toks[token_index as int]);
                assert(ch == pre.push(leaf));
                lemma_seq_width_push(pre, leaf, 0);
                assert(node_ok(g, mvs, toks, srclen, leaf, prev.origin + seq_width(pre, 0))) by {
                    match sym {
                        SymV::Metavar(s) => {
                            assert(toks[token_index as int].kind is Word);
                        },
                        _ => {},
                    }
                }
                lemma_children_ok_push(g, mvs, toks, srclen, rhs, pre, leaf, 0, st.origin as int);
            },
            BackPtr::Complete { prev, completed } => {
                let kc = first_index(cs[p].states, completed);
                let o = completed.origin as int;
                let kp = first_index(cs[o].states, prev);
                lemma_first_index(cs[p].states, completed);
                lemma_first_index(cs[o].states, prev);
                lemma_first_index(cs[p].states, prev);
                assert(cs[p].states[kc] == completed);
                assert(cs[o].states[kp] == prev);
                lemma_tree_sound(g, mvs, toks, srclen, cs, p, kc);
                lemma_tree_sound(g, mvs, toks, srclen, cs, o, kp);
                let pre = tree_children(g, toks, srclen, cs, o, kp);
                let node = tree_node(g, toks, srclen, cs, p, kc);
                assert(ch == pre.push(node));
                lemma_seq_width_push(pre, node, 0);
                lemma_children_ok_push(g, mvs, toks, srclen, rhs, pre, node, 0, st.origin as int);
            },
        }
    }
    if st.dot == rhs_len(g, st) {
        let n = tree_node(g, toks, srclen, cs, p, k);
        assert(n == TermNodeV::Nonterminal { prod_id: st.prod_id, children: ch, span: spec_state_span(toks, srclen, st.origin as int, p) });
        assert(seq_width(ch, 0) == width(n));
    }
}

proof fn lemma_first_index_push(s: Seq<State>, y: State, x: State)
    ensures
        first_index(s, x) < s.len() ==> first_index(s.push(y), x) == first_index(s, x),
        first_index(s, x) >= s.len() && x == y ==> first_index(s.push(y), x) == s.len(),
        first_index(s, x) >= s.len() && x != y ==> first_index(s.push(y), x) >= s.len() + 1,
    decreases s.len(),
{
    lemma_first_index(s, x);
    lemma_first_index(s.push(y), x);
    if s.len() > 0 {
        assert(s.push(y)[0] == s[0]);
        if s[0] != x {
            assert(s.push(y).drop_first() =~= s.drop_first().push(y));
            lemma_first_index_push(s.drop_first(), y, x);
        }
    } else {
        assert(s.push(y)[0] == y);
        if y != x {
            assert(s.push(y).drop_first() =~= Seq::<State>::empty());
        }
    }
}

// ---------------------------------------------------------------------------
// Implementation: charts

/// The index of `st` in `states`, if it is there.
fn find_state(states: &Vec<State>, st: State) -> (r: Option<usize>)
    ensures
        match r {
            Some(k) => k == first_index(states@, st) && k < states@.len(),
            None => first_index(states@, st) >= states@.len(),
        },
{
    proof {
        lemma_first_index(states@, st);
    }
    let mut k: usize = 0;
    while k < states.len()
        invariant
            k <= states@.len(),
            forall|j: int| 0 <= j < k ==> states@[j] != st,
            0 <= first_index(states@, st) <= states@.len(),
            first_index(states@, st) < states@.len() ==> states@[first_index(states@, st)] == st,
            forall|j: int| 0 <= j < states@.len() && states@[j] == st ==> first_index(states@, st) <= j,
        decreases states@.len() - k,
    {
        if states[k] == st {
            return Some(k);
        }
        k = k + 1;
    }
    None
}

impl Chart {
    pub fn new() -> (c: Self)
        ensures
            c@.states == Seq::<State>::empty(),
            c@.back == Seq::<Seq<BackPtr>>::empty(),
    {
        let c = Chart { states: Vec::new(), back: Vec::new() };
        assert(c@.back =~= Seq::<Seq<BackPtr>>::empty());
        c
    }

    /// Adds item `st` (with back pointer `bp`) unless it is there; a back
    /// pointer of an item already there is appended to its own.
    pub fn insert(&mut self, st: State, bp: Option<BackPtr>) -> (added: bool)
        requires
            old(self)@.back.len() == old(self)@.states.len(),
        ensures
            final(self)@.back.len() == final(self)@.states.len(),
            added == (first_index(old(self)@.states, st) >= old(self)@.states.len()),
            added ==> final(self)@.states == old(self)@.states.push(st) && final(self)@.back == old(self)@.back.push(
                match bp {
                    Some(b) => seq![b],
                    None => Seq::empty(),
                },
            ),
            !added ==> final(self)@.states == old(self)@.states && final(self)@.back.len() == old(self)@.back.len()
                && forall|j: int| 0 <= j < old(self)@.back.len() && old(self)@.back[j].len() > 0 ==> (#[trigger] final(self)@.back[j]).len() > 0
                && final(self)@.back[j][0] == old(self)@.back[j][0],
            final(self)@.states.contains(st),
            old(self)@.states.no_duplicates() ==> final(self)@.states.no_duplicates(),
    {
        let ghost b0 = self@.back;
        let ghost s0 = self@.states;
        proof {
            lemma_first_index(s0, st);
        }
        match find_state(&self.states, st) {
            Some(k) => {
                match bp {
                    Some(b) => {
                        let mut v = self.back[k].clone();
                        let ghost v0 = v@;
                        v.push(b);
                        assert(v@[0] == v0[0] || v0.len() == 0);
                        let ghost vv = v@;
                        self.back.set(k, v);
                        assert forall|j: int| 0 <= j < b0.len() && b0[j].len() > 0 implies (#[trigger] self@.back[j]).len() > 0
                            && self@.back[j][0] == b0[j][0] by {
                            if j == k {
                                assert(self@.back[j] == vv);
                            } else {
                                assert(self@.back[j] == b0[j]);
                            }
                        }
                    },
                    None => {},
                }
                false
            },
            None => {
                self.states.push(st);
                assert(self@.states[s0.len() as int] == st);
                assert(!s0.contains(st));
                assert(s0.no_duplicates() ==> self@.states.no_duplicates()) by {
                    if s0.no_duplicates() {
                        assert forall|a: int, b: int| 0 <= a < b < self@.states.len() implies self@.states[a] != self@.states[b] by {
                            if b == s0.len() {
                                assert(self@.states[a] == s0[a]);
                            } else {
                                assert(self@.states[a] == s0[a] && self@.states[b] == s0[b]);
                            }
                        }
                    }
                }
                let mut v: Vec<BackPtr> = Vec::new();
                match bp {
                    Some(b) => {
                        v.push(b);
                        assert(v@ =~= seq![b]);
                    },
                    None => {
                        assert(v@ =~= Seq::<BackPtr>::empty());
                    },
                }
                let ghost vv = v@;
                self.back.push(v);
                assert(self@.back =~= b0.push(vv));
                true
            },
        }
    }
}

// ---------------------------------------------------------------------------
// Keeping charts sound

/// Adding a new item at the end of the last chart keeps the charts sound when
/// the new item is itself explained.
proof fn lemma_extend_added(g: Seq<ProdV>, mvs: Seq<(Seq<char>, MetavarDefV)>, toks: Seq<TokenV>, cs: Seq<ChartV>, c2: ChartV)
    requires
        cs.len() > 0,
        charts_ok(g, mvs, toks, cs),
        c2.states.len() == cs.last().states.len() + 1,
        c2.states.drop_last() == cs.last().states,
        c2.back.drop_last() == cs.last().back,
        c2.back.len() == c2.states.len(),
        ({
            let cs2 = cs.update(cs.len() - 1, c2);
            let k = c2.states.len() - 1;
            let p = cs.len() - 1;
            &&& state_wf(g, c2.states[k], p)
            &&& c2.states[k].dot == 0 ==> c2.states[k].origin == p
            &&& c2.states[k].dot > 0 ==> c2.back[k].len() > 0 && first_back_ok(g, mvs, toks, cs2, p, k)
        }),
    ensures
        charts_ok(g, mvs, toks, cs.update(cs.len() - 1, c2)),
{
    let p = cs.len() - 1;
    let cs2 = cs.update(p, c2);
    let old_states = cs.last().states;
    assert forall|q: int| 0 <= q < cs2.len() implies #[trigger] chart_ok(g, mvs, toks, cs2, q) by {
        assert(chart_ok(g, mvs, toks, cs, q));
        if q < p {
            assert(cs2[q] == cs[q]);
            assert forall|k: int| 0 <= k < cs2[q].states.len() && (#[trigger] cs2[q].states[k]).dot > 0 implies cs2[q].back[k].len() > 0
                && first_back_ok(g, mvs, toks, cs2, q, k) by {
                assert(first_back_ok(g, mvs, toks, cs, q, k));
                match cs[q].back[k][0] {
                    BackPtr::Scan { prev, token_index } => {
                        assert(cs2[q - 1] == cs[q - 1]);
                    },
                    BackPtr::Complete { prev, completed } => {
                        assert(cs2[completed.origin as int] == cs[completed.origin as int]);
                    },
                }
            }
        } else {
            assert forall|k: int| 0 <= k < c2.states.len() implies state_wf(g, #[trigger] c2.states[k], p) by {
                if k < old_states.len() {
                    assert(c2.states[k] == old_states[k]);
                }
            }
            assert forall|k: int| 0 <= k < c2.states.len() && (#[trigger] c2.states[k]).dot == 0 implies c2.states[k].origin == p by {
                if k < old_states.len() {
                    assert(c2.states[k] == old_states[k]);
                }
            }
            assert forall|k: int| 0 <= k < c2.states.len() && (#[trigger] c2.states[k]).dot > 0 implies c2.back[k].len() > 0
                && first_back_ok(g, mvs, toks, cs2, p, k) by {
                if k < old_states.len() {
                    assert(c2.states[k] == old_states[k]);
                    assert(c2.back[k] == cs[p].back[k]);
                    assert(first_back_ok(g, mvs, toks, cs, p, k));
                    match cs[p].back[k][0] {
                        BackPtr::Scan { prev, token_index } => {
                            assert(cs2[p - 1] == cs[p - 1]);
                        },
                        BackPtr::Complete { prev, completed } => {
                            lemma_first_index_push(old_states, c2.states[old_states.len() as int], completed);
                            lemma_first_index_push(old_states, c2.states[old_states.len() as int], prev);
                            assert(c2.states =~= old_states.push(c2.states[old_states.len() as int]));
                            if completed.origin < p {
                                assert(cs2[completed.origin as int] == cs[completed.origin as int]);
                            }
                        },
                    }
                }
            }
        }
    }
}

/// Appending a back pointer to an item that has one keeps the charts sound.
proof fn lemma_extend_same(g: Seq<ProdV>, mvs: Seq<(Seq<char>, MetavarDefV)>, toks: Seq<TokenV>, cs: Seq<ChartV>, c2: ChartV)
    requires
        cs.len() > 0,
        charts_ok(g, mvs, toks, cs),
        c2.states == cs.last().states,
        c2.back.len() == cs.last().back.len(),
        forall|j: int| 0 <= j < cs.last().back.len() && cs.last().back[j].len() > 0 ==> (#[trigger] c2.back[j]).len() > 0
            && c2.back[j][0] == cs.last().back[j][0],
    ensures
        charts_ok(g, mvs, toks, cs.update(cs.len() - 1, c2)),
{
    let p = cs.len() - 1;
    let cs2 = cs.update(p, c2);
    assert forall|q: int| 0 <= q < cs2.len() implies #[trigger] chart_ok(g, mvs, toks, cs2, q) by {
        assert(chart_ok(g, mvs, toks, cs, q));
        if q < p {
            assert(cs2[q] == cs[q]);
            assert forall|k: int| 0 <= k < cs2[q].states.len() && (#[trigger] cs2[q].states[k]).dot > 0 implies cs2[q].back[k].len() > 0
                && first_back_ok(g, mvs, toks, cs2, q, k) by {
                assert(first_back_ok(g, mvs, toks, cs, q, k));
                match cs[q].back[k][0] {
                    BackPtr::Scan { prev, token_index } => {
                        assert(cs2[q - 1] == cs[q - 1]);
                    },
                    BackPtr::Complete { prev, completed } => {
                        assert(cs2[completed.origin as int] == cs[completed.origin as int]);
                    },
                }
            }
        } else {
            assert forall|k: int| 0 <= k < c2.states.len() && (#[trigger] c2.states[k]).dot > 0 implies c2.back[k].len() > 0
                && first_back_ok(g, mvs, toks, cs2, p, k) by {
                assert(cs[p].back[k].len() > 0);
                assert(c2.back[k][0] == cs[p].back[k][0]);
                assert(first_back_ok(g, mvs, toks, cs, p, k));
                match cs[p].back[k][0] {
                    BackPtr::Scan { prev, token_index } => {
                        assert(cs2[p - 1] == cs[p - 1]);
                    },
                    BackPtr::Complete { prev, completed } => {
                        if completed.origin < p {
                            assert(cs2[completed.origin as int] == cs[completed.origin as int]);
                        }
                    },
                }
            }
        }
    }
}

/// Charts of finished positions, then the chart being filled.
pub open spec fn all_charts(charts: Vec<Chart>, cur: Chart) -> Seq<ChartV> {
    charts_view(charts).push(cur@)
}

/// Whether nonterminal symbol `sym` is `name`.
fn is_nonterminal(sym: &Sym, name: &String) -> (r: bool)
    ensures
        r == (sym@ == SymV::Nonterminal(name@)),
{
    match sym {
        Sym::Nonterminal(x) => *x == *name,
        _ => false,
    }
}

/// The items of chart `o`, when the charts of the earlier positions are
/// `charts` and the chart being filled holds `last`.
pub open spec fn chart_states(charts: Seq<ChartV>, last: Seq<State>, o: int) -> Seq<State> {
    if o == charts.len() {
        last
    } else {
        charts[o].states
    }
}

/// The chart being filled holds no more items than it can.
proof fn lemma_cur_bounded(g: Seq<ProdV>, mvs: Seq<(Seq<char>, MetavarDefV)>, toks: Seq<TokenV>, charts: Vec<Chart>, cur: Chart)
    requires
        charts_ok(g, mvs, toks, all_charts(charts, cur)),
        cur@.states.no_duplicates(),
    ensures
        cur@.states.len() <= state_cap(g, charts@.len() as int),
{
    let cs = all_charts(charts, cur);
    let i = charts@.len() as int;
    assert(chart_ok(g, mvs, toks, cs, i));
    assert(cs[i] == cur@);
    lemma_states_bounded(g, cur@.states, i);
}

/// Adds to chart `i` the items that prediction and completion give, round
/// after round until a round adds nothing; then the chart is closed.
#[verifier::rlimit(40)]
fn close_chart(g: &Grammar, charts: &Vec<Chart>, cur: &mut Chart, i: usize, Ghost(mvs): Ghost<Seq<(Seq<char>, MetavarDefV)>>, Ghost(toks): Ghost<Seq<TokenV>>, Ghost(start): Ghost<Seq<char>>)
    requires
        charts@.len() == i,
        charts_ok(g@, mvs, toks, all_charts(*charts, *old(cur))),
        charts_proved(g@, mvs, toks, start, all_charts(*charts, *old(cur))),
        old(cur)@.states.no_duplicates(),
    ensures
        charts_ok(g@, mvs, toks, all_charts(*charts, *final(cur))),
        charts_proved(g@, mvs, toks, start, all_charts(*charts, *final(cur))),
        final(cur)@.states.no_duplicates(),
        old(cur)@.states.len() <= final(cur)@.states.len(),
        forall|q: int| 0 <= q < old(cur)@.states.len() ==> final(cur)@.states[q] == old(cur)@.states[q],
        chart_closed(g@, all_charts(*charts, *final(cur)), i as int),
{
    let ghost gv = g@;
    let ghost s0 = cur@.states;
    let ghost cv = charts_view(*charts);
    let nprods = g.prods.len();
    let mut changed = true;
    proof {
        lemma_cur_bounded(gv, mvs, toks, *charts, *cur);
    }
    while changed
        invariant
            charts@.len() == i,
            gv == g@,
            cv == charts_view(*charts),
            nprods == g.prods@.len(),
            charts_ok(gv, mvs, toks, all_charts(*charts, *cur)),
            charts_proved(gv, mvs, toks, start, all_charts(*charts, *cur)),
            cur@.states.no_duplicates(),
            cur@.states.len() <= state_cap(gv, i as int),
            s0.len() <= cur@.states.len(),
            forall|q: int| 0 <= q < s0.len() ==> cur@.states[q] == s0[q],
            !changed ==> chart_closed(gv, all_charts(*charts, *cur), i as int),
        decreases (state_cap(gv, i as int) - cur@.states.len()) * 2 + if changed {
            1int
        } else {
            0int
        },
    {
        let ghost round_len = cur@.states.len();
        changed = false;
        let snapshot = cur.states.clone();
        let mut j: usize = 0;
        while j < snapshot.len()
            invariant
                charts@.len() == i,
                gv == g@,
                cv == charts_view(*charts),
                nprods == g.prods@.len(),
                charts_ok(gv, mvs, toks, all_charts(*charts, *cur)),
                charts_proved(gv, mvs, toks, start, all_charts(*charts, *cur)),
                cur@.states.no_duplicates(),
                s0.len() <= cur@.states.len(),
                forall|q: int| 0 <= q < s0.len() ==> cur@.states[q] == s0[q],
                snapshot@.len() == round_len,
                snapshot@.len() <= cur@.states.len(),
                forall|q: int| 0 <= q < snapshot@.len() ==> cur@.states[q] == snapshot@[q],
                changed ==> round_len < cur@.states.len(),
                !changed ==> cur@.states == snapshot@,
                !changed ==> forall|jj: int| 0 <= jj < j ==> predicted(gv, snapshot@, i as int, #[trigger] snapshot@[jj]) && completed(
                    gv,
                    chart_states(cv, snapshot@, snapshot@[jj].origin as int),
                    snapshot@,
                    snapshot@[jj],
                ),
            decreases snapshot@.len() - j,
        {
            let st = snapshot[j];
            proof {
                assert(chart_ok(gv, mvs, toks, all_charts(*charts, *cur), i as int));
                assert(all_charts(*charts, *cur)[i as int] == cur@);
                assert(cur@.states[j as int] == st);
                assert(all_charts(*charts, *cur)[i as int].states[j as int] == st);
                assert(item_valid(gv, mvs, toks, start, i as int, st));
                assert(state_wf(gv, st, i as int));
                assert(gv[st.prod_id as int] == g.prods@[st.prod_id as int]@);
            }
            let prod = &g.prods[st.prod_id];
            if st.dot < prod.rhs.len() {
                assert(prod@.rhs[st.dot as int] == prod.rhs@[st.dot as int]@);
                match &prod.rhs[st.dot].sym {
                    Sym::Nonterminal(nt) => {
                        assert(next_sym(gv, st) == Some(SymV::Nonterminal(nt@)));
                        let ghost was = changed;
                        let mut pid: usize = 0;
                        while pid < nprods
                            invariant
                                was ==> changed,
                                item_valid(gv, mvs, toks, start, i as int, st),
                                next_sym(gv, st) == Some(SymV::Nonterminal(nt@)),
                                charts@.len() == i,
                                gv == g@,
                                cv == charts_view(*charts),
                                nprods == g.prods@.len(),
                                charts_ok(gv, mvs, toks, all_charts(*charts, *cur)),
                                charts_proved(gv, mvs, toks, start, all_charts(*charts, *cur)),
                                cur@.states.no_duplicates(),
                                s0.len() <= cur@.states.len(),
                                forall|q: int| 0 <= q < s0.len() ==> cur@.states[q] == s0[q],
                                snapshot@.len() == round_len,
                                snapshot@.len() <= cur@.states.len(),
                                forall|q: int| 0 <= q < snapshot@.len() ==> cur@.states[q] == snapshot@[q],
                                changed ==> round_len < cur@.states.len(),
                                !changed ==> cur@.states == snapshot@,
                                !changed ==> forall|pid2: usize| pid2 < pid && (#[trigger] gv[pid2 as int]).lhs == nt@ ==> snapshot@.contains(
                                    State { prod_id: pid2, dot: 0, origin: i },
                                ),
                            decreases nprods - pid,
                        {
                            assert(gv[pid as int] == g.prods@[pid as int]@);
                            if g.prods[pid].lhs == *nt {
                                let ghost cs = all_charts(*charts, *cur);
                                let ghost c0 = cur@;
                                proof {
                                    assert(chart_ok(gv, mvs, toks, cs, i as int));
                                }
                                let nst = State { prod_id: pid, dot: 0, origin: i };
                                proof {
                                    lemma_predict_valid(gv, mvs, toks, start, i, st, pid);
                                }
                                let added = cur.insert(nst, None);
                                proof {
                                    assert(cs.last() == c0);
                                    lemma_proved_update(gv, mvs, toks, start, cs, cur@, nst);
                                    assert(all_charts(*charts, *cur) == cs.update(cs.len() - 1, cur@));
                                    if added {
                                        assert(cur@.states.drop_last() =~= c0.states);
                                        assert(cur@.back.drop_last() =~= c0.back);
                                        lemma_extend_added(gv, mvs, toks, cs, cur@);
                                        assert forall|q: int| 0 <= q < snapshot@.len() implies cur@.states[q] == snapshot@[q] by {
                                            assert(cur@.states[q] == c0.states[q]);
                                        }
                                        assert forall|q: int| 0 <= q < s0.len() implies cur@.states[q] == s0[q] by {
                                            assert(cur@.states[q] == c0.states[q]);
                                        }
                                    } else {
                                        lemma_extend_same(gv, mvs, toks, cs, cur@);
                                    }
                                }
                                changed = changed || added;
                            }
                            pid = pid + 1;
                        }
                        proof {
                            if !changed {
                                assert(predicted(gv, snapshot@, i as int, st));
                            }
                        }
                    },
                    _ => {},
                }
                proof {
                    if !changed {
                        assert(next_sym(gv, st) == Some(prod.rhs@[st.dot as int]@.sym));
                        assert(predicted(gv, snapshot@, i as int, st));
                        assert(completed(gv, chart_states(cv, snapshot@, st.origin as int), snapshot@, st));
                    }
                }
            } else {
                let origin_states = if st.origin == i {
                    cur.states.clone()
                } else {
                    charts[st.origin].states.clone()
                };
                let ghost o = st.origin as int;
                let ghost lhs = gv[st.prod_id as int].lhs;
                proof {
                    let cs = all_charts(*charts, *cur);
                    assert(cs[o].states == origin_states@);
                    if o < i {
                        assert(cs[o] == cv[o]);
                    }
                    assert(st.dot == gv[st.prod_id as int].rhs.len());
                    assert(lhs == g.prods@[st.prod_id as int].lhs@);
                }
                let ghost was = changed;
                let mut q: usize = 0;
                while q < origin_states.len()
                    invariant
                        was ==> changed,
                        item_valid(gv, mvs, toks, start, i as int, st),
                        charts@.len() == i,
                        gv == g@,
                        cv == charts_view(*charts),
                        nprods == g.prods@.len(),
                        charts_ok(gv, mvs, toks, all_charts(*charts, *cur)),
                        charts_proved(gv, mvs, toks, start, all_charts(*charts, *cur)),
                        cur@.states.no_duplicates(),
                        s0.len() <= cur@.states.len(),
                        forall|q2: int| 0 <= q2 < s0.len() ==> cur@.states[q2] == s0[q2],
                        snapshot@.len() == round_len,
                        snapshot@.len() <= cur@.states.len(),
                        forall|q2: int| 0 <= q2 < snapshot@.len() ==> cur@.states[q2] == snapshot@[q2],
                        changed ==> round_len < cur@.states.len(),
                        !changed ==> cur@.states == snapshot@,
                        j < snapshot@.len(),
                        st == snapshot@[j as int],
                        state_wf(gv, st, i as int),
                        st.dot == gv[st.prod_id as int].rhs.len(),
                        lhs == gv[st.prod_id as int].lhs,
                        lhs == g.prods@[st.prod_id as int].lhs@,
                        o == st.origin,
                        origin_states@.len() <= all_charts(*charts, *cur)[o].states.len(),
                        forall|q2: int| 0 <= q2 < origin_states@.len() ==> all_charts(*charts, *cur)[o].states[q2]
                            == origin_states@[q2],
                        o == i ==> origin_states@.len() <= cur@.states.len(),
                        !changed ==> origin_states@ == chart_states(cv, snapshot@, o),
                        !changed ==> forall|q2: int| 0 <= q2 < q && next_sym(gv, #[trigger] origin_states@[q2]) == Some(SymV::Nonterminal(lhs))
                            ==> snapshot@.contains(advance(origin_states@[q2])),
                    decreases origin_states@.len() - q,
                {
                    let prev = origin_states[q];
                    proof {
                        let cs = all_charts(*charts, *cur);
                        assert(chart_ok(gv, mvs, toks, cs, o));
                        assert(cs[o].states[q as int] == prev);
                        assert(state_wf(gv, prev, o));
                        assert(gv[prev.prod_id as int] == g.prods@[prev.prod_id as int]@);
                    }
                    let pp = &g.prods[prev.prod_id];
                    let waits = prev.dot < pp.rhs.len() && is_nonterminal(&pp.rhs[prev.dot].sym, &g.prods[st.prod_id].lhs);
                    proof {
                        if prev.dot < pp.rhs@.len() {
                            assert(pp@.rhs[prev.dot as int] == pp.rhs@[prev.dot as int]@);
                        }
                        assert(waits == (next_sym(gv, prev) == Some(SymV::Nonterminal(lhs))));
                    }
                    if waits {
                        let adv = State { prod_id: prev.prod_id, dot: prev.dot + 1, origin: prev.origin };
                        assert(adv == advance(prev));
                        let bp = BackPtr::Complete { prev, completed: st };
                        let ghost cs = all_charts(*charts, *cur);
                        let ghost c0 = cur@;
                        proof {
                            assert(chart_ok(gv, mvs, toks, cs, i as int));
                            assert(cs[i as int] == cur@);
                        }
                        proof {
                            assert(cs[o].states[q as int] == prev);
                            assert(item_valid(gv, mvs, toks, start, o, prev));
                            lemma_complete_valid(gv, mvs, toks, start, o, prev, i as int, st);
                        }
                        let added = cur.insert(adv, Some(bp));
                        proof {
                            assert(cs.last() == c0);
                            lemma_proved_update(gv, mvs, toks, start, cs, cur@, adv);
                            assert(all_charts(*charts, *cur) == cs.update(cs.len() - 1, cur@));
                            if added {
                                assert(cur@.states.drop_last() =~= c0.states);
                                assert(cur@.back.drop_last() =~= c0.back);
                                let cs2 = cs.update(cs.len() - 1, cur@);
                                let k = c0.states.len() as int;
                                assert(cur@.states[k] == adv);
                                assert(cur@.back[k] == seq![bp]);
                                lemma_first_index(c0.states, st);
                                lemma_first_index_push(c0.states, adv, st);
                                assert(c0.states[j as int] == st);
                                assert(cur@.states =~= c0.states.push(adv));
                                assert(first_index(cs2[i as int].states, st) < k);
                                lemma_first_index(cs[o].states, prev);
                                assert(cs[o].states[q as int] == prev);
                                if o == i {
                                    lemma_first_index_push(c0.states, adv, prev);
                                    assert(first_index(cs2[i as int].states, prev) < k);
                                } else {
                                    assert(cs2[o] == cs[o]);
                                }
                                assert(first_back_ok(gv, mvs, toks, cs2, i as int, k));
                                lemma_extend_added(gv, mvs, toks, cs, cur@);
                                assert forall|q2: int| 0 <= q2 < snapshot@.len() implies cur@.states[q2] == snapshot@[q2] by {
                                    assert(cur@.states[q2] == c0.states[q2]);
                                }
                                assert forall|q2: int| 0 <= q2 < s0.len() implies cur@.states[q2] == s0[q2] by {
                                    assert(cur@.states[q2] == c0.states[q2]);
                                }
                                if o == i {
                                    assert forall|q2: int| 0 <= q2 < origin_states@.len() implies all_charts(*charts, *cur)[o].states[q2]
                                        == origin_states@[q2] by {
                                        assert(cur@.states[q2] == c0.states[q2]);
                                    }
                                } else {
                                    assert(all_charts(*charts, *cur)[o] == cs[o]);
                                }
                            } else {
                                lemma_extend_same(gv, mvs, toks, cs, cur@);
                                assert(all_charts(*charts, *cur)[o].states == cs[o].states);
                            }
                        }
                        changed = changed || added;
                    }
                    q = q + 1;
                }
                proof {
                    if !changed {
                        assert(completed(gv, chart_states(cv, snapshot@, o), snapshot@, st));
                        assert(next_sym(gv, st) is None);
                        assert(predicted(gv, snapshot@, i as int, st));
                    }
                }
            }
            j = j + 1;
        }
        proof {
            lemma_cur_bounded(gv, mvs, toks, *charts, *cur);
            if !changed {
                let cs = all_charts(*charts, *cur);
                assert(cs[i as int] == cur@);
                assert forall|k: int| 0 <= k < cs[i as int].states.len() implies predicted(gv, cs[i as int].states, i as int, #[trigger] cs[i as int].states[k])
                    && completed(gv, cs[cs[i as int].states[k].origin as int].states, cs[i as int].states, cs[i as int].states[k]) by {
                    assert(cs[i as int].states[k] == snapshot@[k]);
                    assert(chart_ok(gv, mvs, toks, cs, i as int));
                    assert(state_wf(gv, cs[i as int].states[k], i as int));
                    let o = cs[i as int].states[k].origin as int;
                    if o < i {
                        assert(cs[o] == cv[o]);
                    }
                    assert(cs[o].states == chart_states(cv, snapshot@, o));
                }
            }
        }
    }
}

pub open spec fn missing_lex_msg(sort: Seq<char>) -> Seq<char> {
    "missing lex specification for metavariable sort `"@ + sort + "`"@
}

pub open spec fn toks_view(v: Vec<Token>) -> Seq<TokenV> {
    v@.map_values(|t: Token| t@)
}

/// Whether token `tok` can stand for terminal `t`.
fn is_terminal_token(tok: &Token, t: &String) -> (r: bool)
    ensures
        r == (tok@.kind == TokenKindV::Terminal(t@)),
{
    match &tok.kind {
        TokenKind::Terminal(x) => *x == *t,
        TokenKind::Word(_) => false,
    }
}

/// The chart of position `i + 1`: the items of chart `i` (`cur`) moved past
/// token `i`.
fn scan_chart(g: &Grammar, metavars: &Vec<(String, MetavarDef)>, charts: &Vec<Chart>, cur: &Chart, toks: &Vec<Token>, i: usize, Ghost(start): Ghost<Seq<char>>)
    -> (r: Result<Chart, OttError>)
    requires
        charts@.len() == i,
        i < toks@.len(),
        defs_wf(defs_view(*metavars)),
        charts_ok(g@, defs_view(*metavars), toks_view(*toks), all_charts(*charts, *cur)),
        charts_proved(g@, defs_view(*metavars), toks_view(*toks), start, all_charts(*charts, *cur)),
    ensures
        match r {
            Ok(next) => charts_ok(g@, defs_view(*metavars), toks_view(*toks), all_charts(*charts, *cur).push(next@))
                && next@.states.no_duplicates() && chart_scanned(
                g@,
                defs_view(*metavars),
                toks_view(*toks),
                all_charts(*charts, *cur).push(next@),
                i as int,
            ) && charts_proved(g@, defs_view(*metavars), toks_view(*toks), start, all_charts(*charts, *cur).push(next@))
                && forall|k: int| 0 <= k < cur@.states.len() ==> !waits_missing(g@, defs_view(*metavars), #[trigger] cur@.states[k]),
            Err(e) => exists|s: Seq<char>|
                missing_at(g@, defs_view(*metavars), toks_view(*toks), start, i as int, s) && e@ == #[trigger] err_plain(
                    missing_lex_msg(s),
                ),
        },
{
    let ghost gv = g@;
    let ghost mvs = defs_view(*metavars);
    let ghost tv = toks_view(*toks);
    let ghost cs = all_charts(*charts, *cur);
    let tok = &toks[i];
    assert(tv[i as int] == tok@);
    let mut next = Chart::new();
    proof {
        assert(chart_ok(gv, mvs, tv, cs, i as int));
        assert(cs[i as int] == cur@);
        let cs1 = cs.push(next@);
        lemma_proved_push_empty(gv, mvs, tv, start, cs, next@);
        assert forall|p: int| 0 <= p < cs1.len() implies #[trigger] chart_ok(gv, mvs, tv, cs1, p) by {
            if p < cs.len() {
                assert(chart_ok(gv, mvs, tv, cs, p));
                assert(cs1[p] == cs[p]);
                assert forall|k: int| 0 <= k < cs1[p].states.len() && (#[trigger] cs1[p].states[k]).dot > 0 implies cs1[p].back[k].len() > 0
                    && first_back_ok(gv, mvs, tv, cs1, p, k) by {
                    assert(first_back_ok(gv, mvs, tv, cs, p, k));
                    match cs[p].back[k][0] {
                        BackPtr::Scan { prev, token_index } => {
                            assert(cs1[p - 1] == cs[p - 1]);
                        },
                        BackPtr::Complete { prev, completed } => {
                            assert(cs1[completed.origin as int] == cs[completed.origin as int]);
                        },
                    }
                }
            }
        }
    }
    let mut k: usize = 0;
    while k < cur.states.len()
        invariant
            charts@.len() == i,
            i < toks@.len(),
            gv == g@,
            mvs == defs_view(*metavars),
            tv == toks_view(*toks),
            defs_wf(mvs),
            cs == all_charts(*charts, *cur),
            tv[i as int] == tok@,
            charts_ok(gv, mvs, tv, cs),
            charts_ok(gv, mvs, tv, cs.push(next@)),
            charts_proved(gv, mvs, tv, start, cs),
            charts_proved(gv, mvs, tv, start, cs.push(next@)),
            forall|k2: int| 0 <= k2 < k ==> !waits_missing(gv, mvs, #[trigger] cur@.states[k2]),
            next@.states.no_duplicates(),
            forall|k2: int| 0 <= k2 < k ==> (next_sym(gv, #[trigger] cur@.states[k2]) matches Some(sy) && scan_ok(mvs, tv[i as int], sy)
                ==> next@.states.contains(advance(cur@.states[k2]))),
        decreases cur.states@.len() - k,
    {
        let st = cur.states[k];
        proof {
            assert(chart_ok(gv, mvs, tv, cs, i as int));
            assert(cs[i as int] == cur@);
            assert(cs[i as int].states[k as int] == st);
            assert(item_valid(gv, mvs, tv, start, i as int, st));
            assert(state_wf(gv, st, i as int));
            assert(gv[st.prod_id as int] == g.prods@[st.prod_id as int]@);
        }
        let prod = &g.prods[st.prod_id];
        if st.dot < prod.rhs.len() {
            let ghost sym = gv[st.prod_id as int].rhs[st.dot as int].sym;
            assert(sym == prod.rhs@[st.dot as int]@.sym);
            let matches = match &prod.rhs[st.dot].sym {
                Sym::Terminal(t) => is_terminal_token(tok, t),
                Sym::Metavar(sort) => {
                    match find_metavar(metavars, sort) {
                        None => {
                            let mut m = "missing lex specification for metavariable sort `".to_owned();
                            m.append(sort.as_str());
                            m.append("`");
                            let e = OttError::new(m);
                            assert(e@ == err_plain(missing_lex_msg(sort@)));
                            assert(sort_missing(mvs, gv[st.prod_id as int].rhs[st.dot as int].sym));
                            assert(next_sym(gv, st) == Some(SymV::Metavar(sort@)));
                            assert(missing_at(gv, mvs, tv, start, i as int, sort@));
                            return Err(e);
                        },
                        Some(def) => {
                            match &tok.kind {
                                TokenKind::Word(w) => def.lex.matches(w),
                                TokenKind::Terminal(_) => false,
                            }
                        },
                    }
                },
                Sym::Nonterminal(_) => false,
            };
            assert(matches == scan_ok(mvs, tv[i as int], sym));
            assert(next_sym(gv, st) == Some(sym));
            assert(!waits_missing(gv, mvs, st));
            if matches {
                let adv = State { prod_id: st.prod_id, dot: st.dot + 1, origin: st.origin };
                assert(adv == advance(st));
                let ghost n0 = next@.states;
                let bp = BackPtr::Scan { prev: st, token_index: i };
                let ghost cs1 = cs.push(next@);
                let ghost c0 = next@;
                proof {
                    assert(chart_ok(gv, mvs, tv, cs1, i + 1));
                    assert(cs1[i + 1] == next@);
                }
                proof {
                    lemma_scan_valid(gv, mvs, tv, start, i as int, st, sym);
                }
                let added = next.insert(adv, Some(bp));
                proof {
                    assert(cs1.last() == c0);
                    lemma_proved_update(gv, mvs, tv, start, cs1, next@, adv);
                    assert(cs.push(next@) == cs1.update(cs1.len() - 1, next@));
                    if added {
                        assert(next@.states.drop_last() =~= c0.states);
                        assert(next@.back.drop_last() =~= c0.back);
                        let cs2 = cs1.update(cs1.len() - 1, next@);
                        let kk = c0.states.len() as int;
                        assert(next@.states[kk] == adv);
                        assert(next@.back[kk] == seq![bp]);
                        assert(cs2[i as int] == cs[i as int]);
                        lemma_first_index(cs[i as int].states, st);
                        assert(cs[i as int].states[k as int] == st);
                        assert(scan_ok(mvs, tv[i as int], sym));
                        assert(first_back_ok(gv, mvs, tv, cs2, i + 1, kk));
                        lemma_extend_added(gv, mvs, tv, cs1, next@);
                    } else {
                        lemma_extend_same(gv, mvs, tv, cs1, next@);
                    }
                    assert forall|x: State| n0.contains(x) implies next@.states.contains(x) by {
                        let w = choose|w: int| 0 <= w < n0.len() && n0[w] == x;
                        if added {
                            assert(next@.states =~= n0.push(adv));
                        }
                        assert(next@.states[w] == x);
                    }
                }
            }
        }
        assert(cur@.states[k as int] == st);
        assert(!waits_missing(gv, mvs, st));
        k = k + 1;
    }
    proof {
        let cs1 = cs.push(next@);
        assert(cs1[i as int] == cur@);
        assert(cs1[i + 1] == next@);
        assert(tv[i as int] == toks@[i as int]@);
    }
    Ok(next)
}

/// `b` keeps the items of `a` at their places, and may have more after them.
pub open spec fn extends(a: Seq<State>, b: Seq<State>) -> bool {
    &&& a.len() <= b.len()
    &&& forall|q: int| 0 <= q < a.len() ==> b[q] == a[q]
}

proof fn lemma_extends_contains(a: Seq<State>, b: Seq<State>, x: State)
    requires
        extends(a, b),
        a.contains(x),
    ensures
        b.contains(x),
{
    let w = choose|w: int| 0 <= w < a.len() && a[w] == x;
    assert(b[w] == x);
}

/// Closure of chart `p` depends only on the charts up to `p`.
proof fn lemma_closed_stable(g: Seq<ProdV>, cs: Seq<ChartV>, cs2: Seq<ChartV>, p: int)
    requires
        0 <= p < cs.len(),
        p < cs2.len(),
        chart_closed(g, cs, p),
        forall|k: int| 0 <= k < cs[p].states.len() ==> (#[trigger] cs[p].states[k]).origin <= p,
        forall|q: int| 0 <= q <= p ==> (#[trigger] cs2[q]).states == cs[q].states,
    ensures
        chart_closed(g, cs2, p),
{
    assert forall|k: int| 0 <= k < cs2[p].states.len() implies predicted(g, cs2[p].states, p, #[trigger] cs2[p].states[k]) && completed(
        g,
        cs2[cs2[p].states[k].origin as int].states,
        cs2[p].states,
        cs2[p].states[k],
    ) by {
        assert(cs2[p].states == cs[p].states);
        let o = cs[p].states[k].origin as int;
        assert(cs2[o].states == cs[o].states);
    }
}

/// Scanning chart `p` into chart `p + 1` survives items added to chart `p + 1`.
proof fn lemma_scanned_stable(
    g: Seq<ProdV>,
    mvs: Seq<(Seq<char>, MetavarDefV)>,
    toks: Seq<TokenV>,
    cs: Seq<ChartV>,
    cs2: Seq<ChartV>,
    p: int,
)
    requires
        0 <= p,
        p + 1 < cs.len(),
        p + 1 < cs2.len(),
        chart_scanned(g, mvs, toks, cs, p),
        cs2[p].states == cs[p].states,
        extends(cs[p + 1].states, cs2[p + 1].states),
    ensures
        chart_scanned(g, mvs, toks, cs2, p),
{
    assert forall|k: int| 0 <= k < cs2[p].states.len() implies (next_sym(g, #[trigger] cs2[p].states[k]) matches Some(sy) && scan_ok(
        mvs,
        toks[p],
        sy,
    ) ==> cs2[p + 1].states.contains(advance(cs2[p].states[k]))) by {
        if next_sym(g, cs2[p].states[k]) matches Some(sy) && scan_ok(mvs, toks[p], sy) {
            assert(cs[p].states[k] == cs2[p].states[k]);
            lemma_extends_contains(cs[p + 1].states, cs2[p + 1].states, advance(cs[p].states[k]));
        }
    }
}

/// The charts of positions `0..=n` for the `n` tokens, starting from the
/// productions of `start`: each closed, and each scanned into the next.
#[verifier::rlimit(30)]
fn build_chart(start: &String, g: &Grammar, metavars: &Vec<(String, MetavarDef)>, toks: &Vec<Token>)
    -> (r: Result<Vec<Chart>, OttError>)
    requires
        defs_wf(defs_view(*metavars)),
    ensures
        match r {
            Ok(cs) => charts_ok(g@, defs_view(*metavars), toks_view(*toks), charts_view(cs)) && cs@.len() == toks@.len() + 1
                && charts_complete(g@, defs_view(*metavars), toks_view(*toks), charts_view(cs), start@)
                && charts_proved(g@, defs_view(*metavars), toks_view(*toks), start@, charts_view(cs))
                && forall|s: Seq<char>| !#[trigger] sort_reached(g@, defs_view(*metavars), toks_view(*toks), start@, s),
            Err(e) => exists|s: Seq<char>| sort_reached(g@, defs_view(*metavars), toks_view(*toks), start@, s) && e@ == #[trigger] err_plain(
                missing_lex_msg(s),
            ),
        },
{
    let ghost gv = g@;
    let ghost mvs = defs_view(*metavars);
    let ghost tv = toks_view(*toks);
    let n = toks.len();
    let mut charts: Vec<Chart> = Vec::new();
    let mut cur = Chart::new();
    proof {
        let cs = all_charts(charts, cur);
        assert(charts_view(charts) =~= Seq::<ChartV>::empty());
        lemma_proved_push_empty(gv, mvs, tv, start@, charts_view(charts), cur@);
        assert forall|p: int| 0 <= p < cs.len() implies #[trigger] chart_ok(gv, mvs, tv, cs, p) by {
            assert(cs[p] == cur@);
        }
    }
    let mut pid: usize = 0;
    while pid < g.prods.len()
        invariant
            gv == g@,
            charts@.len() == 0,
            charts_ok(gv, mvs, tv, all_charts(charts, cur)),
            charts_proved(gv, mvs, tv, start@, all_charts(charts, cur)),
            cur@.states.no_duplicates(),
            forall|pid2: usize| pid2 < pid && (#[trigger] gv[pid2 as int]).lhs == start@ ==> cur@.states.contains(
                State { prod_id: pid2, dot: 0, origin: 0 },
            ),
        decreases g.prods@.len() - pid,
    {
        assert(gv[pid as int] == g.prods@[pid as int]@);
        if g.prods[pid].lhs == *start {
            let ghost cs = all_charts(charts, cur);
            let ghost c0 = cur@;
            proof {
                assert(chart_ok(gv, mvs, tv, cs, 0));
                assert(cs[0] == cur@);
            }
            proof {
                lemma_start_valid(gv, mvs, tv, start@, pid);
            }
            let added = cur.insert(State { prod_id: pid, dot: 0, origin: 0 }, None);
            proof {
                assert(cs.last() == c0);
                lemma_proved_update(gv, mvs, tv, start@, cs, cur@, State { prod_id: pid, dot: 0, origin: 0 });
                assert(all_charts(charts, cur) == cs.update(cs.len() - 1, cur@));
                if added {
                    assert(cur@.states.drop_last() =~= c0.states);
                    assert(cur@.back.drop_last() =~= c0.back);
                    lemma_extend_added(gv, mvs, tv, cs, cur@);
                    assert(extends(c0.states, cur@.states));
                } else {
                    lemma_extend_same(gv, mvs, tv, cs, cur@);
                }
                assert forall|pid2: usize| pid2 < pid && (#[trigger] gv[pid2 as int]).lhs == start@ implies cur@.states.contains(
                    State { prod_id: pid2, dot: 0, origin: 0 },
                ) by {
                    if added {
                        lemma_extends_contains(c0.states, cur@.states, State { prod_id: pid2, dot: 0, origin: 0 });
                    }
                }
            }
        }
        pid = pid + 1;
    }
    let mut i: usize = 0;
    loop
        invariant
            gv == g@,
            mvs == defs_view(*metavars),
            tv == toks_view(*toks),
            defs_wf(mvs),
            n == toks@.len(),
            i <= n,
            charts@.len() == i,
            charts_ok(gv, mvs, tv, all_charts(charts, cur)),
            charts_proved(gv, mvs, tv, start@, all_charts(charts, cur)),
            cur@.states.no_duplicates(),
            chart_started(gv, all_charts(charts, cur)[0], start@),
            forall|p: int| 0 <= p < i ==> #[trigger] chart_closed(gv, all_charts(charts, cur), p),
            forall|p: int| 0 <= p < i ==> #[trigger] chart_scanned(gv, mvs, tv, all_charts(charts, cur), p),
            forall|p: int, k: int| 0 <= p < i && 0 <= k < all_charts(charts, cur)[p].states.len() ==> !waits_missing(
                gv,
                mvs,
                #[trigger] all_charts(charts, cur)[p].states[k],
            ),
        decreases n - i,
    {
        let ghost cs0 = all_charts(charts, cur);
        close_chart(g, &charts, &mut cur, i, Ghost(mvs), Ghost(tv), Ghost(start@));
        proof {
            let cs1 = all_charts(charts, cur);
            assert(extends(cs0[i as int].states, cs1[i as int].states));
            assert forall|p: int| 0 <= p < i implies #[trigger] chart_closed(gv, cs1, p) by {
                assert(chart_ok(gv, mvs, tv, cs0, p));
                assert forall|q: int| 0 <= q <= p implies (#[trigger] cs1[q]).states == cs0[q].states by {
                    assert(cs1[q] == cs0[q]);
                }
                lemma_closed_stable(gv, cs0, cs1, p);
            }
            assert forall|p: int, k: int| 0 <= p < i && 0 <= k < cs1[p].states.len() implies !waits_missing(
                gv,
                mvs,
                #[trigger] cs1[p].states[k],
            ) by {
                assert(cs1[p] == cs0[p]);
            }
            assert forall|p: int| 0 <= p < i implies #[trigger] chart_scanned(gv, mvs, tv, cs1, p) by {
                assert(cs1[p] == cs0[p]);
                if p + 1 < i {
                    assert(cs1[p + 1] == cs0[p + 1]);
                }
                lemma_scanned_stable(gv, mvs, tv, cs0, cs1, p);
            }
            if i == 0 {
                assert forall|pid2: usize| pid2 < gv.len() && (#[trigger] gv[pid2 as int]).lhs == start@ implies cs1[0].states.contains(
                    State { prod_id: pid2, dot: 0, origin: 0 },
                ) by {
                    lemma_extends_contains(cs0[0].states, cs1[0].states, State { prod_id: pid2, dot: 0, origin: 0 });
                }
            } else {
                assert(cs1[0] == cs0[0]);
            }
        }
        if i == n {
            let ghost cs = all_charts(charts, cur);
            proof {
                assert(charts_upto(gv, mvs, tv, cs, start@, n as int));
                lemma_no_missing(gv, mvs, tv, cs, start@);
            }
            charts.push(cur);
            assert(charts_view(charts) =~= cs);
            return Ok(charts);
        }
        let next = match scan_chart(g, metavars, &charts, &cur, toks, i, Ghost(start@)) {
            Ok(c) => c,
            Err(e) => {
                proof {
                    let cs1 = all_charts(charts, cur);
                    let s = choose|s: Seq<char>| missing_at(gv, mvs, tv, start@, i as int, s) && e@ == #[trigger] err_plain(missing_lex_msg(s));
                    assert(charts_upto(gv, mvs, tv, cs1, start@, i as int));
                    lemma_first_missing(gv, mvs, tv, cs1, start@, i as int, s);
                }
                return Err(e);
            },
        };
        let ghost cs = all_charts(charts, cur);
        let ghost cur_before = cur;
        charts.push(cur);
        assert(charts_view(charts) =~= cs);
        cur = next;
        proof {
            let cs2 = all_charts(charts, cur);
            assert(cs2 =~= cs.push(cur@));
            assert forall|p: int| 0 <= p <= i implies #[trigger] chart_closed(gv, cs2, p) by {
                assert(chart_ok(gv, mvs, tv, cs, p));
                assert forall|q: int| 0 <= q <= p implies (#[trigger] cs2[q]).states == cs[q].states by {
                    assert(cs2[q] == cs[q]);
                }
                lemma_closed_stable(gv, cs, cs2, p);
            }
            assert forall|p: int| 0 <= p <= i implies #[trigger] chart_scanned(gv, mvs, tv, cs2, p) by {
                if p < i {
                    assert(cs2[p] == cs[p]);
                    assert(cs2[p + 1] == cs[p + 1]);
                    lemma_scanned_stable(gv, mvs, tv, cs, cs2, p);
                }
            }
            assert(cs2[0] == cs[0]);
            assert forall|p: int, k: int| 0 <= p < i + 1 && 0 <= k < cs2[p].states.len() implies !waits_missing(
                gv,
                mvs,
                #[trigger] cs2[p].states[k],
            ) by {
                assert(cs2[p] == cs[p]);
                if p == i {
                    assert(cs[p] == cur_before@);
                }
            }
        }
        i = i + 1;
    }
}

// ---------------------------------------------------------------------------
// Implementation: trees

/// The span of the tokens `origin..pos`.
fn state_span(toks: &Vec<Token>, srclen: usize, origin: usize, pos: usize) -> (s: Span)
    ensures
        s == spec_state_span(toks_view(*toks), srclen, origin as int, pos as int),
{
    let ghost tv = toks_view(*toks);
    if origin == pos {
        let off = if origin < toks.len() {
            assert(tv[origin as int] == toks@[origin as int]@);
            toks[origin].span.start
        } else {
            srclen
        };
        return Span::new(off, off);
    }
    let start = if origin < toks.len() {
        assert(tv[origin as int] == toks@[origin as int]@);
        toks[origin].span.start
    } else {
        srclen
    };
    let last = pos.saturating_sub(1);
    let end = if last < toks.len() {
        assert(tv[last as int] == toks@[last as int]@);
        toks[last].span.end
    } else {
        srclen
    };
    Span::new(start, end)
}

/// The children of item `k` of chart `p`, rebuilt along first back pointers.
fn build_children(
    charts: &Vec<Chart>,
    g: &Grammar,
    toks: &Vec<Token>,
    srclen: usize,
    p: usize,
    k: usize,
    Ghost(mvs): Ghost<Seq<(Seq<char>, MetavarDefV)>>,
) -> (r: Option<Vec<TermNode>>)
    ensures
        r matches Some(v) ==> nodes_view(v) == tree_children(g@, toks_view(*toks), srclen, charts_view(*charts), p as int, k as int),
        charts_ok(g@, mvs, toks_view(*toks), charts_view(*charts)) && p < charts@.len() && k < charts@[p as int]@.states.len() ==> r is Some,
    decreases p, k, 0int,
{
    let ghost cs = charts_view(*charts);
    let ghost tv = toks_view(*toks);
    proof {
        if charts_ok(g@, mvs, tv, cs) && p < charts@.len() && k < charts@[p as int]@.states.len() {
            assert(chart_ok(g@, mvs, tv, cs, p as int));
            assert(cs[p as int] == charts@[p as int]@);
            if cs[p as int].states[k as int].dot > 0 {
                assert(cs[p as int].back[k as int].len() > 0);
            }
        }
    }
    if p >= charts.len() || k >= charts[p].states.len() || k >= charts[p].back.len() {
        return None;
    }
    assert(cs[p as int] == charts@[p as int]@);
    let st = charts[p].states[k];
    if st.dot == 0 {
        let v: Vec<TermNode> = Vec::new();
        assert(nodes_view(v) =~= Seq::<TermNodeV>::empty());
        return Some(v);
    }
    if charts[p].back[k].len() == 0 {
        return None;
    }
    assert(cs[p as int].back[k as int] == charts@[p as int].back@[k as int]@);
    match charts[p].back[k][0] {
        BackPtr::Scan { prev, token_index } => {
            if p == 0 || prev.prod_id >= g.prods.len() || token_index >= toks.len() {
                return None;
            }
            assert(cs[p - 1] == charts@[p - 1]@);
            let kp = match find_state(&charts[p - 1].states, prev) {
                Some(x) => x,
                None => {
                    return None;
                },
            };
            let prod = &g.prods[prev.prod_id];
            if prev.dot >= prod.rhs.len() {
                return None;
            }
            assert(g@[prev.prod_id as int] == prod@);
            assert(prod@.rhs[prev.dot as int] == prod.rhs@[prev.dot as int]@);
            assert(tv[token_index as int] == toks@[token_index as int]@);
            let leaf = match &prod.rhs[prev.dot].sym {
                Sym::Terminal(t) => TermNode::Terminal { text: t.clone() },
                Sym::Metavar(sort) => {
                    match &toks[token_index].kind {
                        TokenKind::Word(w) => TermNode::Metavar { sort: sort.clone(), text: w.clone() },
                        TokenKind::Terminal(_) => {
                            return None;
                        },
                    }
                },
                Sym::Nonterminal(_) => {
                    return None;
                },
            };
            let mut prefix = match build_children(charts, g, toks, srclen, p - 1, kp, Ghost(mvs)) {
                Some(v) => v,
                None => {
                    return None;
                },
            };
            let ghost pv = nodes_view(prefix);
            let ghost lv = leaf@;
            prefix.push(leaf);
            assert(nodes_view(prefix) =~= pv.push(lv));
            Some(prefix)
        },
        BackPtr::Complete { prev, completed } => {
            let kc = match find_state(&charts[p].states, completed) {
                Some(x) => x,
                None => {
                    return None;
                },
            };
            let o = completed.origin;
            if kc >= k || o > p {
                return None;
            }
            assert(cs[o as int] == charts@[o as int]@);
            let kp = match find_state(&charts[o].states, prev) {
                Some(x) => x,
                None => {
                    return None;
                },
            };
            if !(o < p || kp < k) {
                return None;
            }
            proof {
                lemma_first_index(cs[p as int].states, completed);
                assert(cs[p as int].states[kc as int] == completed);
            }
            let node = match build_node(charts, g, toks, srclen, p, kc, Ghost(mvs)) {
                Some(n) => n,
                None => {
                    return None;
                },
            };
            let mut prefix = match build_children(charts, g, toks, srclen, o, kp, Ghost(mvs)) {
                Some(v) => v,
                None => {
                    return None;
                },
            };
            let ghost pv = nodes_view(prefix);
            let ghost nv = node@;
            prefix.push(node);
            assert(nodes_view(prefix) =~= pv.push(nv));
            Some(prefix)
        },
    }
}

/// The tree of the complete item `k` of chart `p`.
fn build_node(
    charts: &Vec<Chart>,
    g: &Grammar,
    toks: &Vec<Token>,
    srclen: usize,
    p: usize,
    k: usize,
    Ghost(mvs): Ghost<Seq<(Seq<char>, MetavarDefV)>>,
) -> (r: Option<TermNode>)
    ensures
        r matches Some(n) ==> n@ == tree_node(g@, toks_view(*toks), srclen, charts_view(*charts), p as int, k as int),
        charts_ok(g@, mvs, toks_view(*toks), charts_view(*charts)) && p < charts@.len() && k < charts@[p as int]@.states.len()
            && charts@[p as int]@.states[k as int].prod_id < g@.len() && charts@[p as int]@.states[k as int].dot
            == g@[charts@[p as int]@.states[k as int].prod_id as int].rhs.len() ==> r is Some,
    decreases p, k, 1int,
{
    let ghost cs = charts_view(*charts);
    if p >= charts.len() || k >= charts[p].states.len() {
        return None;
    }
    assert(cs[p as int] == charts@[p as int]@);
    let st = charts[p].states[k];
    if st.prod_id >= g.prods.len() {
        return None;
    }
    if st.dot != g.prods[st.prod_id].rhs.len() {
        return None;
    }
    let children = match build_children(charts, g, toks, srclen, p, k, Ghost(mvs)) {
        Some(v) => v,
        None => {
            return None;
        },
    };
    let span = state_span(toks, srclen, st.origin, p);
    let ghost chv = nodes_view(children);
    let ghost cv = children@;
    assert(tree_node(g@, toks_view(*toks), srclen, cs, p as int, k as int) == TermNodeV::Nonterminal {
        prod_id: st.prod_id,
        children: tree_children(g@, toks_view(*toks), srclen, cs, p as int, k as int),
        span: spec_state_span(toks_view(*toks), srclen, st.origin as int, p as int),
    });
    let node = TermNode::Nonterminal { prod_id: st.prod_id, children, span };
    assert(node@->children =~= chv);
    Some(node)
}

// ---------------------------------------------------------------------------
// Closed charts, and why they miss no parse

/// The symbol after the dot of item `st`, if any.
pub open spec fn next_sym(g: Seq<ProdV>, st: State) -> Option<SymV> {
    if st.prod_id < g.len() && st.dot < g[st.prod_id as int].rhs.len() {
        Some(g[st.prod_id as int].rhs[st.dot as int].sym)
    } else {
        None
    }
}

/// Item `st` with its dot moved past one symbol.
pub open spec fn advance(st: State) -> State {
    State { prod_id: st.prod_id, dot: (st.dot + 1) as usize, origin: st.origin }
}

/// Item `st` of the chart of position `p` (with items `states`) has its
/// predictions there: an item at the start of every production of the
/// nonterminal it waits for.
pub open spec fn predicted(g: Seq<ProdV>, states: Seq<State>, p: int, st: State) -> bool {
    next_sym(g, st) matches Some(SymV::Nonterminal(b)) ==> forall|pid: usize|
        pid < g.len() && (#[trigger] g[pid as int]).lhs == b ==> states.contains(State { prod_id: pid, dot: 0, origin: p as usize })
}

/// When item `st` is complete, every item of its origin's chart (`ostates`)
/// that waits for its nonterminal has moved past it into the chart of `st`
/// (with items `states`).
pub open spec fn completed(g: Seq<ProdV>, ostates: Seq<State>, states: Seq<State>, st: State) -> bool {
    st.prod_id < g.len() && st.dot == g[st.prod_id as int].rhs.len() ==> forall|q: int|
        0 <= q < ostates.len() && next_sym(g, #[trigger] ostates[q]) == Some(SymV::Nonterminal(g[st.prod_id as int].lhs))
            ==> states.contains(advance(ostates[q]))
}

/// Chart `p` is closed under prediction and completion.
pub open spec fn chart_closed(g: Seq<ProdV>, cs: Seq<ChartV>, p: int) -> bool {
    forall|k: int| 0 <= k < cs[p].states.len() ==> predicted(g, cs[p].states, p, #[trigger] cs[p].states[k]) && completed(
        g,
        cs[cs[p].states[k].origin as int].states,
        cs[p].states,
        cs[p].states[k],
    )
}

/// Chart `p + 1` holds every item of chart `p` that token `p` moves past a
/// symbol.
pub open spec fn chart_scanned(g: Seq<ProdV>, mvs: Seq<(Seq<char>, MetavarDefV)>, toks: Seq<TokenV>, cs: Seq<ChartV>, p: int) -> bool {
    forall|k: int| 0 <= k < cs[p].states.len() ==> (next_sym(g, #[trigger] cs[p].states[k]) matches Some(s) && scan_ok(mvs, toks[p], s)
        ==> cs[p + 1].states.contains(advance(cs[p].states[k])))
}

/// Chart 0 holds an item at the start of every production of `start`.
pub open spec fn chart_started(g: Seq<ProdV>, c: ChartV, start: Seq<char>) -> bool {
    forall|pid: usize| pid < g.len() && (#[trigger] g[pid as int]).lhs == start ==> c.states.contains(State { prod_id: pid, dot: 0, origin: 0 })
}

/// The charts of a finished run over all the tokens: started, every chart
/// closed, and every chart but the last scanned into the next.
pub open spec fn charts_complete(g: Seq<ProdV>, mvs: Seq<(Seq<char>, MetavarDefV)>, toks: Seq<TokenV>, cs: Seq<ChartV>, start: Seq<char>) -> bool {
    &&& cs.len() == toks.len() + 1
    &&& chart_started(g, cs[0], start)
    &&& forall|p: int| 0 <= p < cs.len() ==> #[trigger] chart_closed(g, cs, p)
    &&& forall|p: int| 0 <= p < toks.len() ==> #[trigger] chart_scanned(g, mvs, toks, cs, p)
}

/// Every right-hand side has a length that fits a `usize`.
pub open spec fn rhs_bounded(g: Seq<ProdV>) -> bool {
    forall|i: int| 0 <= i < g.len() ==> (#[trigger] g[i]).rhs.len() <= usize::MAX
}

/// An item of the last chart that recognises all the tokens as `start`.
pub open spec fn accepting(g: Seq<ProdV>, st: State, start: Seq<char>) -> bool {
    &&& st.origin == 0
    &&& st.prod_id < g.len()
    &&& g[st.prod_id as int].lhs == start
    &&& st.dot == g[st.prod_id as int].rhs.len()
}

proof fn lemma_contains_index(s: Seq<State>, x: State) -> (k: int)
    requires
        s.contains(x),
    ensures
        0 <= k < s.len(),
        s[k] == x,
{
    choose|k: int| 0 <= k < s.len() && s[k] == x
}

/// The longest right-hand side among the first `n` productions.
pub open spec fn max_rhs(g: Seq<ProdV>, n: int) -> nat
    decreases n,
{
    if n <= 0 {
        0
    } else if g[n - 1].rhs.len() > max_rhs(g, n - 1) {
        g[n - 1].rhs.len()
    } else {
        max_rhs(g, n - 1)
    }
}

proof fn lemma_max_rhs(g: Seq<ProdV>, n: int, k: int)
    requires
        0 <= k < n,
    ensures
        g[k].rhs.len() <= max_rhs(g, n),
    decreases n,
{
    if k < n - 1 {
        lemma_max_rhs(g, n - 1, k);
    }
}

/// How many distinct well-formed items the chart of position `p` can hold.
pub open spec fn state_cap(g: Seq<ProdV>, p: int) -> int {
    g.len() * (max_rhs(g, g.len() as int) + 1) * (p + 1)
}

/// A number that tells well-formed items of the chart of position `p` apart.
pub open spec fn state_code(g: Seq<ProdV>, p: int, st: State) -> int {
    (st.prod_id * (max_rhs(g, g.len() as int) + 1) + st.dot) * (p + 1) + st.origin
}

proof fn lemma_code_bounds(pid: int, dot: int, o: int, np: int, m: int, i: int)
    requires
        0 <= pid < np,
        0 <= dot <= m,
        0 <= o <= i,
    ensures
        0 <= (pid * (m + 1) + dot) * (i + 1) + o < np * (m + 1) * (i + 1),
{
    assert(pid * (m + 1) + dot <= np * (m + 1) - 1) by (nonlinear_arith)
        requires
            0 <= pid < np,
            0 <= dot <= m,
    ;
    assert((pid * (m + 1) + dot) * (i + 1) <= (np * (m + 1) - 1) * (i + 1)) by (nonlinear_arith)
        requires
            pid * (m + 1) + dot <= np * (m + 1) - 1,
            0 <= i,
    ;
    assert((np * (m + 1) - 1) * (i + 1) == np * (m + 1) * (i + 1) - (i + 1)) by (nonlinear_arith);
    assert(0 <= (pid * (m + 1) + dot) * (i + 1)) by (nonlinear_arith)
        requires
            0 <= pid,
            0 <= dot,
            0 <= m,
            0 <= i,
    ;
}

proof fn lemma_code_injective(a: State, b: State, m: int, i: int)
    requires
        0 <= m,
        0 <= i,
        a.dot <= m,
        b.dot <= m,
        a.origin <= i,
        b.origin <= i,
        (a.prod_id * (m + 1) + a.dot) * (i + 1) + a.origin == (b.prod_id * (m + 1) + b.dot) * (i + 1) + b.origin,
    ensures
        a == b,
{
    let x = (a.prod_id * (m + 1) + a.dot) * (i + 1) + a.origin;
    vstd::arithmetic::div_mod::lemma_fundamental_div_mod_converse(x, i + 1, a.prod_id * (m + 1) + a.dot, a.origin as int);
    vstd::arithmetic::div_mod::lemma_fundamental_div_mod_converse(x, i + 1, b.prod_id * (m + 1) + b.dot, b.origin as int);
    let y = a.prod_id * (m + 1) + a.dot;
    vstd::arithmetic::div_mod::lemma_fundamental_div_mod_converse(y, m + 1, a.prod_id as int, a.dot as int);
    vstd::arithmetic::div_mod::lemma_fundamental_div_mod_converse(y, m + 1, b.prod_id as int, b.dot as int);
}

/// Distinct well-formed items of the chart of position `p` are at most
/// `state_cap(g, p)`.
proof fn lemma_states_bounded(g: Seq<ProdV>, states: Seq<State>, p: int)
    requires
        0 <= p,
        states.no_duplicates(),
        forall|k: int| 0 <= k < states.len() ==> state_wf(g, #[trigger] states[k], p),
    ensures
        states.len() <= state_cap(g, p),
{
    let m = max_rhs(g, g.len() as int) as int;
    let codes = states.map_values(|st: State| state_code(g, p, st));
    assert forall|a: int, b: int| 0 <= a < b < codes.len() implies codes[a] != codes[b] by {
        let sa = states[a];
        let sb = states[b];
        assert(state_wf(g, sa, p));
        assert(state_wf(g, sb, p));
        lemma_max_rhs(g, g.len() as int, sa.prod_id as int);
        lemma_max_rhs(g, g.len() as int, sb.prod_id as int);
        if codes[a] == codes[b] {
            lemma_code_injective(sa, sb, m, p);
        }
    }
    assert(codes.no_duplicates());
    codes.unique_seq_to_set();
    let range = vstd::set_lib::set_int_range(0, state_cap(g, p));
    assert forall|c: int| codes.to_set().contains(c) implies range.contains(c) by {
        let k = choose|k: int| 0 <= k < codes.len() && codes[k] == c;
        let st = states[k];
        assert(state_wf(g, st, p));
        lemma_max_rhs(g, g.len() as int, st.prod_id as int);
        lemma_code_bounds(st.prod_id as int, st.dot as int, st.origin as int, g.len() as int, m, p);
    }
    vstd::set_lib::lemma_int_range(0, state_cap(g, p));
    vstd::set_lib::lemma_len_subset(codes.to_set(), range);
}

/// An item waiting at chart `p` for the symbol that tree `t` stands for, where
/// `t` derives the tokens from `p` on, has moved past it into the chart where
/// `t` ends.
proof fn lemma_advance_over(
    g: Seq<ProdV>,
    mvs: Seq<(Seq<char>, MetavarDefV)>,
    toks: Seq<TokenV>,
    srclen: usize,
    cs: Seq<ChartV>,
    start: Seq<char>,
    st: State,
    p: int,
    t: TermNodeV,
)
    requires
        charts_complete(g, mvs, toks, cs, start),
        rhs_bounded(g),
        toks.len() < usize::MAX,
        0 <= p <= toks.len(),
        cs[p].states.contains(st),
        next_sym(g, st) matches Some(s) && sym_fits(g, s, t),
        node_ok(g, mvs, toks, srclen, t, p),
    ensures
        p + width(t) <= toks.len(),
        cs[p + width(t)].states.contains(advance(st)),
    decreases t, 0int,
{
    let k = lemma_contains_index(cs[p].states, st);
    let s = next_sym(g, st)->Some_0;
    match t {
        TermNodeV::Terminal { text } => {
            assert(chart_scanned(g, mvs, toks, cs, p));
            assert(scan_ok(mvs, toks[p], s));
            assert(next_sym(g, cs[p].states[k]) == Some(s));
            assert(cs[p + 1].states.contains(advance(cs[p].states[k])));
            assert(width(t) == 1);
        },
        TermNodeV::Metavar { sort, text } => {
            assert(chart_scanned(g, mvs, toks, cs, p));
            assert(scan_ok(mvs, toks[p], s));
            assert(next_sym(g, cs[p].states[k]) == Some(s));
            assert(cs[p + 1].states.contains(advance(cs[p].states[k])));
            assert(width(t) == 1);
        },
        TermNodeV::Nonterminal { prod_id, children, span } => {
            assert(chart_closed(g, cs, p));
            assert(predicted(g, cs[p].states, p, cs[p].states[k]));
            let first = State { prod_id, dot: 0, origin: p as usize };
            assert(sym_fits(g, SymV::Nonterminal(g[prod_id as int].lhs), t));
            assert(cs[p].states.contains(first));
            lemma_children_over(g, mvs, toks, srclen, cs, start, prod_id, p, children, 0, p);
            let q = p + seq_width(children, 0);
            let done = State { prod_id, dot: children.len() as usize, origin: p as usize };
            let kd = lemma_contains_index(cs[q].states, done);
            assert(chart_closed(g, cs, q));
            assert(completed(g, cs[p].states, cs[q].states, cs[q].states[kd]));
            assert(next_sym(g, cs[p].states[k]) == Some(SymV::Nonterminal(g[prod_id as int].lhs)));
        },
    }
}

/// The item of production `pid` from `origin`, with its dot before child `k`
/// at chart `from`, has moved past all the children into the chart where they
/// end.
proof fn lemma_children_over(
    g: Seq<ProdV>,
    mvs: Seq<(Seq<char>, MetavarDefV)>,
    toks: Seq<TokenV>,
    srclen: usize,
    cs: Seq<ChartV>,
    start: Seq<char>,
    pid: usize,
    origin: int,
    ch: Seq<TermNodeV>,
    k: int,
    from: int,
)
    requires
        charts_complete(g, mvs, toks, cs, start),
        rhs_bounded(g),
        toks.len() < usize::MAX,
        0 <= origin <= from <= toks.len(),
        pid < g.len(),
        ch.len() == g[pid as int].rhs.len(),
        0 <= k <= ch.len(),
        cs[from].states.contains(State { prod_id: pid, dot: k as usize, origin: origin as usize }),
        children_ok(g, mvs, toks, srclen, g[pid as int].rhs, ch, k, from),
    ensures
        from + seq_width(ch, k) <= toks.len(),
        cs[from + seq_width(ch, k)].states.contains(State { prod_id: pid, dot: ch.len() as usize, origin: origin as usize }),
    decreases ch, ch.len() - k,
{
    if k < ch.len() {
        let st = State { prod_id: pid, dot: k as usize, origin: origin as usize };
        assert(g[pid as int].rhs.len() <= usize::MAX);
        assert(next_sym(g, st) == Some(g[pid as int].rhs[k].sym));
        lemma_advance_over(g, mvs, toks, srclen, cs, start, st, from, ch[k]);
        assert(advance(st) == State { prod_id: pid, dot: (k + 1) as usize, origin: origin as usize });
        lemma_children_over(g, mvs, toks, srclen, cs, start, pid, origin, ch, k + 1, from + width(ch[k]));
    }
}

/// The production at the top of a tree (0 for a leaf).
pub open spec fn tree_prod(t: TermNodeV) -> usize {
    match t {
        TermNodeV::Nonterminal { prod_id, .. } => prod_id,
        _ => 0,
    }
}

/// Complete charts hold an accepting item when the tokens parse as `start`,
/// for the production at the top of the parse.
proof fn lemma_charts_complete(
    g: Seq<ProdV>,
    mvs: Seq<(Seq<char>, MetavarDefV)>,
    toks: Seq<TokenV>,
    srclen: usize,
    cs: Seq<ChartV>,
    start: Seq<char>,
    t: TermNodeV,
)
    requires
        charts_complete(g, mvs, toks, cs, start),
        rhs_bounded(g),
        toks.len() < usize::MAX,
        parse_tree_of(g, mvs, toks, srclen, start, t),
    ensures
        exists|k: int| 0 <= k < cs[toks.len() as int].states.len() && accepting(g, #[trigger] cs[toks.len() as int].states[k], start)
            && cs[toks.len() as int].states[k].prod_id == tree_prod(t),
{
    match t {
        TermNodeV::Nonterminal { prod_id, children, span } => {
            assert(g[prod_id as int].lhs == start);
            assert(cs[0].states.contains(State { prod_id, dot: 0, origin: 0 }));
            lemma_children_over(g, mvs, toks, srclen, cs, start, prod_id, 0, children, 0, 0);
            let n = toks.len() as int;
            let done = State { prod_id, dot: children.len() as usize, origin: 0 };
            let k = lemma_contains_index(cs[n].states, done);
            assert(g[prod_id as int].rhs.len() <= usize::MAX);
            assert(accepting(g, cs[n].states[k], start));
        },
        _ => {},
    }
}

// ---------------------------------------------------------------------------
// Earley's deduction system: which items are valid

/// A derivation of an item at a position in Earley's deduction system.
pub enum ItemProof {
    /// An item at the start of a production of the start symbol, at 0.
    Start { prod: usize },
    /// An item at the start of a production of the nonterminal that a valid
    /// item waits for, at that item's position.
    Predict { from: Box<ItemProof>, prod: usize },
    /// A valid item moved past the token at its position.
    Scan { from: Box<ItemProof> },
    /// A valid item moved past the nonterminal of a complete item that starts
    /// where it stands.
    Complete { waiting: Box<ItemProof>, done: Box<ItemProof> },
}

/// What the derivation `pf` proves: a position and an item there, or nothing
/// when a step does not apply.
pub open spec fn proves(g: Seq<ProdV>, mvs: Seq<(Seq<char>, MetavarDefV)>, toks: Seq<TokenV>, start: Seq<char>, pf: ItemProof) -> Option<(int, State)>
    decreases pf,
{
    match pf {
        ItemProof::Start { prod } => if prod < g.len() && g[prod as int].lhs == start {
            Some((0, State { prod_id: prod, dot: 0, origin: 0 }))
        } else {
            None
        },
        ItemProof::Predict { from, prod } => match proves(g, mvs, toks, start, *from) {
            Some((i, st)) => if prod < g.len() && next_sym(g, st) == Some(SymV::Nonterminal(g[prod as int].lhs)) {
                Some((i, State { prod_id: prod, dot: 0, origin: i as usize }))
            } else {
                None
            },
            None => None,
        },
        ItemProof::Scan { from } => match proves(g, mvs, toks, start, *from) {
            Some((i, st)) => match next_sym(g, st) {
                Some(sy) => if 0 <= i < toks.len() && scan_ok(mvs, toks[i], sy) {
                    Some((i + 1, advance(st)))
                } else {
                    None
                },
                None => None,
            },
            None => None,
        },
        ItemProof::Complete { waiting, done } => match proves(g, mvs, toks, start, *waiting) {
            Some((k, w)) => match proves(g, mvs, toks, start, *done) {
                Some((i, d)) => if d.prod_id < g.len() && d.dot == g[d.prod_id as int].rhs.len() && d.origin == k && next_sym(g, w)
                    == Some(SymV::Nonterminal(g[d.prod_id as int].lhs)) {
                    Some((i, advance(w)))
                } else {
                    None
                },
                None => None,
            },
            None => None,
        },
    }
}

/// Item `st` at position `i` has a derivation: the tokens before `i` begin a
/// derivation of `start` in which the item is met.
pub open spec fn item_valid(g: Seq<ProdV>, mvs: Seq<(Seq<char>, MetavarDefV)>, toks: Seq<TokenV>, start: Seq<char>, i: int, st: State) -> bool {
    exists|pf: ItemProof| #[trigger] proves(g, mvs, toks, start, pf) == Some((i, st))
}

/// Some item is valid at position `i`: the tokens before it begin a
/// derivation of `start`.
pub open spec fn reached(g: Seq<ProdV>, mvs: Seq<(Seq<char>, MetavarDefV)>, toks: Seq<TokenV>, start: Seq<char>, i: int) -> bool {
    exists|st: State| #[trigger] item_valid(g, mvs, toks, start, i, st)
}

/// The last position from 1 up to `k` that is reached (0 when none is).
pub open spec fn last_reached(g: Seq<ProdV>, mvs: Seq<(Seq<char>, MetavarDefV)>, toks: Seq<TokenV>, start: Seq<char>, k: int) -> int
    decreases k,
{
    if k <= 0 {
        0
    } else if reached(g, mvs, toks, start, k) {
        k
    } else {
        last_reached(g, mvs, toks, start, k - 1)
    }
}

/// Item `st` waits for a metavariable whose sort has no lexical class.
pub open spec fn waits_missing(g: Seq<ProdV>, mvs: Seq<(Seq<char>, MetavarDefV)>, st: State) -> bool {
    next_sym(g, st) matches Some(SymV::Metavar(s)) && mv_lookup(mvs, s) is None
}

/// A valid item at position `i` waits for a metavariable of sort `s`, which
/// has no lexical class.
pub open spec fn missing_at(g: Seq<ProdV>, mvs: Seq<(Seq<char>, MetavarDefV)>, toks: Seq<TokenV>, start: Seq<char>, i: int, s: Seq<char>) -> bool {
    exists|st: State|
        #[trigger] item_valid(g, mvs, toks, start, i, st) && next_sym(g, st) == Some(SymV::Metavar(s)) && mv_lookup(mvs, s) is None
}

/// Sort `s` has no lexical class and a valid item waits for it at the first
/// position (before the last token) where a valid item waits for a sort
/// without one.
pub open spec fn sort_reached(g: Seq<ProdV>, mvs: Seq<(Seq<char>, MetavarDefV)>, toks: Seq<TokenV>, start: Seq<char>, s: Seq<char>) -> bool {
    exists|i: int|
        0 <= i < toks.len() && #[trigger] missing_at(g, mvs, toks, start, i, s) && forall|i2: int, s2: Seq<char>|
            0 <= i2 < i ==> !#[trigger] missing_at(g, mvs, toks, start, i2, s2)
}

/// Every item of the charts is valid at its chart's position.
pub open spec fn charts_proved(g: Seq<ProdV>, mvs: Seq<(Seq<char>, MetavarDefV)>, toks: Seq<TokenV>, start: Seq<char>, cs: Seq<ChartV>) -> bool {
    forall|p: int, k: int| 0 <= p < cs.len() && 0 <= k < cs[p].states.len() ==> item_valid(g, mvs, toks, start, p, #[trigger] cs[p].states[k])
}

/// An item at the start of a production of the start symbol is valid at 0.
proof fn lemma_start_valid(g: Seq<ProdV>, mvs: Seq<(Seq<char>, MetavarDefV)>, toks: Seq<TokenV>, start: Seq<char>, pid: usize)
    requires
        pid < g.len(),
        g[pid as int].lhs == start,
    ensures
        item_valid(g, mvs, toks, start, 0, State { prod_id: pid, dot: 0, origin: 0 }),
{
    let pf = ItemProof::Start { prod: pid };
    assert(proves(g, mvs, toks, start, pf) == Some((0int, State { prod_id: pid, dot: 0, origin: 0 })));
}

/// Prediction from a valid item gives a valid item.
proof fn lemma_predict_valid(g: Seq<ProdV>, mvs: Seq<(Seq<char>, MetavarDefV)>, toks: Seq<TokenV>, start: Seq<char>, i: usize, st: State, pid: usize)
    requires
        item_valid(g, mvs, toks, start, i as int, st),
        pid < g.len(),
        next_sym(g, st) == Some(SymV::Nonterminal(g[pid as int].lhs)),
    ensures
        item_valid(g, mvs, toks, start, i as int, State { prod_id: pid, dot: 0, origin: i }),
{
    let pf = choose|pf: ItemProof| #[trigger] proves(g, mvs, toks, start, pf) == Some((i as int, st));
    let pf2 = ItemProof::Predict { from: Box::new(pf), prod: pid };
    assert(proves(g, mvs, toks, start, pf2) == Some((i as int, State { prod_id: pid, dot: 0, origin: i })));
}

/// Scanning a valid item over the token at its position gives a valid item.
proof fn lemma_scan_valid(g: Seq<ProdV>, mvs: Seq<(Seq<char>, MetavarDefV)>, toks: Seq<TokenV>, start: Seq<char>, i: int, st: State, sy: SymV)
    requires
        item_valid(g, mvs, toks, start, i, st),
        next_sym(g, st) == Some(sy),
        0 <= i < toks.len(),
        scan_ok(mvs, toks[i], sy),
    ensures
        item_valid(g, mvs, toks, start, i + 1, advance(st)),
{
    let pf = choose|pf: ItemProof| #[trigger] proves(g, mvs, toks, start, pf) == Some((i, st));
    let pf2 = ItemProof::Scan { from: Box::new(pf) };
    assert(proves(g, mvs, toks, start, pf2) == Some((i + 1, advance(st))));
}

/// Completing a valid waiting item by a valid complete item gives a valid
/// item.
proof fn lemma_complete_valid(
    g: Seq<ProdV>,
    mvs: Seq<(Seq<char>, MetavarDefV)>,
    toks: Seq<TokenV>,
    start: Seq<char>,
    o: int,
    w: State,
    i: int,
    d: State,
)
    requires
        item_valid(g, mvs, toks, start, o, w),
        item_valid(g, mvs, toks, start, i, d),
        d.prod_id < g.len(),
        d.dot == g[d.prod_id as int].rhs.len(),
        d.origin == o,
        next_sym(g, w) == Some(SymV::Nonterminal(g[d.prod_id as int].lhs)),
    ensures
        item_valid(g, mvs, toks, start, i, advance(w)),
{
    let pw = choose|pf: ItemProof| #[trigger] proves(g, mvs, toks, start, pf) == Some((o, w));
    let pd = choose|pf: ItemProof| #[trigger] proves(g, mvs, toks, start, pf) == Some((i, d));
    let pf2 = ItemProof::Complete { waiting: Box::new(pw), done: Box::new(pd) };
    assert(proves(g, mvs, toks, start, pf2) == Some((i, advance(w))));
}

/// Replacing the last chart by one with the same items, or with one more
/// valid item at the end, keeps every item valid.
proof fn lemma_proved_update(
    g: Seq<ProdV>,
    mvs: Seq<(Seq<char>, MetavarDefV)>,
    toks: Seq<TokenV>,
    start: Seq<char>,
    cs: Seq<ChartV>,
    c2: ChartV,
    x: State,
)
    requires
        cs.len() > 0,
        charts_proved(g, mvs, toks, start, cs),
        c2.states == cs.last().states || (c2.states == cs.last().states.push(x) && item_valid(g, mvs, toks, start, cs.len() - 1, x)),
    ensures
        charts_proved(g, mvs, toks, start, cs.update(cs.len() - 1, c2)),
{
    let l = cs.len() - 1;
    let cs2 = cs.update(l, c2);
    assert forall|p: int, k: int| 0 <= p < cs2.len() && 0 <= k < cs2[p].states.len() implies item_valid(
        g,
        mvs,
        toks,
        start,
        p,
        #[trigger] cs2[p].states[k],
    ) by {
        if p < l {
            assert(cs2[p] == cs[p]);
        } else if k < cs[l].states.len() {
            assert(cs2[p].states[k] == cs[l].states[k]);
        } else {
            assert(cs2[p].states[k] == x);
        }
    }
}

/// Adding an empty chart keeps every item valid.
proof fn lemma_proved_push_empty(
    g: Seq<ProdV>,
    mvs: Seq<(Seq<char>, MetavarDefV)>,
    toks: Seq<TokenV>,
    start: Seq<char>,
    cs: Seq<ChartV>,
    c: ChartV,
)
    requires
        charts_proved(g, mvs, toks, start, cs),
        c.states.len() == 0,
    ensures
        charts_proved(g, mvs, toks, start, cs.push(c)),
{
    assert forall|p: int, k: int| 0 <= p < cs.push(c).len() && 0 <= k < cs.push(c)[p].states.len() implies item_valid(
        g,
        mvs,
        toks,
        start,
        p,
        #[trigger] cs.push(c)[p].states[k],
    ) by {
        assert(cs.push(c)[p] == cs[p]);
    }
}

/// A sort whose lexical class a valid item waits for is missing from a
/// production.
pub proof fn lemma_sort_reached_missing(
    g: Seq<ProdV>,
    mvs: Seq<(Seq<char>, MetavarDefV)>,
    toks: Seq<TokenV>,
    start: Seq<char>,
    s: Seq<char>,
)
    requires
        sort_reached(g, mvs, toks, start, s),
    ensures
        lex_missing(g, mvs),
{
    let i = choose|i: int|
        0 <= i < toks.len() && #[trigger] missing_at(g, mvs, toks, start, i, s) && forall|i2: int, s2: Seq<char>|
            0 <= i2 < i ==> !#[trigger] missing_at(g, mvs, toks, start, i2, s2);
    let st = choose|st: State|
        #[trigger] item_valid(g, mvs, toks, start, i, st) && next_sym(g, st) == Some(SymV::Metavar(s)) && mv_lookup(mvs, s) is None;
    assert(sort_missing(mvs, g[st.prod_id as int].rhs[st.dot as int].sym));
}

/// The charts up to position `m` of a run: started, closed up to `m`, and
/// scanned into the next up to `m`.
pub open spec fn charts_upto(g: Seq<ProdV>, mvs: Seq<(Seq<char>, MetavarDefV)>, toks: Seq<TokenV>, cs: Seq<ChartV>, start: Seq<char>, m: int) -> bool {
    &&& 0 <= m < cs.len()
    &&& m <= toks.len()
    &&& chart_started(g, cs[0], start)
    &&& forall|p: int| 0 <= p <= m ==> #[trigger] chart_closed(g, cs, p)
    &&& forall|p: int| 0 <= p < m ==> #[trigger] chart_scanned(g, mvs, toks, cs, p)
}

/// A valid item stands at a position up to the number of tokens, and starts
/// at or before it.
proof fn lemma_valid_pos(g: Seq<ProdV>, mvs: Seq<(Seq<char>, MetavarDefV)>, toks: Seq<TokenV>, start: Seq<char>, pf: ItemProof)
    requires
        toks.len() <= usize::MAX,
    ensures
        proves(g, mvs, toks, start, pf) matches Some((i, st)) ==> 0 <= i <= toks.len() && st.origin <= i,
    decreases pf,
{
    match pf {
        ItemProof::Start { prod } => {},
        ItemProof::Predict { from, prod } => {
            lemma_valid_pos(g, mvs, toks, start, *from);
        },
        ItemProof::Scan { from } => {
            lemma_valid_pos(g, mvs, toks, start, *from);
        },
        ItemProof::Complete { waiting, done } => {
            lemma_valid_pos(g, mvs, toks, start, *waiting);
            lemma_valid_pos(g, mvs, toks, start, *done);
        },
    }
}

/// The charts up to position `m` hold every valid item up to `m`.
proof fn lemma_valid_in_prefix(
    g: Seq<ProdV>,
    mvs: Seq<(Seq<char>, MetavarDefV)>,
    toks: Seq<TokenV>,
    cs: Seq<ChartV>,
    start: Seq<char>,
    m: int,
    pf: ItemProof,
)
    requires
        charts_upto(g, mvs, toks, cs, start, m),
        toks.len() <= usize::MAX,
    ensures
        proves(g, mvs, toks, start, pf) matches Some((i, st)) ==> (i <= m ==> cs[i].states.contains(st)),
    decreases pf,
{
    lemma_valid_pos(g, mvs, toks, start, pf);
    match pf {
        ItemProof::Start { prod } => {},
        ItemProof::Predict { from, prod } => {
            lemma_valid_in_prefix(g, mvs, toks, cs, start, m, *from);
            lemma_valid_pos(g, mvs, toks, start, *from);
            match proves(g, mvs, toks, start, *from) {
                Some((i, st)) => {
                    if prod < g.len() && next_sym(g, st) == Some(SymV::Nonterminal(g[prod as int].lhs)) && i <= m {
                        let k = lemma_contains_index(cs[i].states, st);
                        assert(chart_closed(g, cs, i));
                        assert(predicted(g, cs[i].states, i, cs[i].states[k]));
                    }
                },
                None => {},
            }
        },
        ItemProof::Scan { from } => {
            lemma_valid_in_prefix(g, mvs, toks, cs, start, m, *from);
            lemma_valid_pos(g, mvs, toks, start, *from);
            match proves(g, mvs, toks, start, *from) {
                Some((i, st)) => match next_sym(g, st) {
                    Some(sy) => {
                        if 0 <= i < toks.len() && scan_ok(mvs, toks[i], sy) && i + 1 <= m {
                            let k = lemma_contains_index(cs[i].states, st);
                            assert(chart_scanned(g, mvs, toks, cs, i));
                            assert(next_sym(g, cs[i].states[k]) == Some(sy));
                        }
                    },
                    None => {},
                },
                None => {},
            }
        },
        ItemProof::Complete { waiting, done } => {
            lemma_valid_in_prefix(g, mvs, toks, cs, start, m, *waiting);
            lemma_valid_in_prefix(g, mvs, toks, cs, start, m, *done);
            lemma_valid_pos(g, mvs, toks, start, *waiting);
            lemma_valid_pos(g, mvs, toks, start, *done);
            match proves(g, mvs, toks, start, *waiting) {
                Some((k, w)) => match proves(g, mvs, toks, start, *done) {
                    Some((i, d)) => {
                        if d.prod_id < g.len() && d.dot == g[d.prod_id as int].rhs.len() && d.origin == k && next_sym(g, w) == Some(
                            SymV::Nonterminal(g[d.prod_id as int].lhs),
                        ) && i <= m {
                            let kd = lemma_contains_index(cs[i].states, d);
                            let kw = lemma_contains_index(cs[k].states, w);
                            assert(chart_closed(g, cs, i));
                            assert(completed(g, cs[cs[i].states[kd].origin as int].states, cs[i].states, cs[i].states[kd]));
                            assert(cs[k].states[kw] == w);
                        }
                    },
                    None => {},
                },
                None => {},
            }
        },
    }
}

/// When no chart before the last holds an item that waits for a sort
/// without a lexical class, no such sort is reached.
proof fn lemma_no_missing(g: Seq<ProdV>, mvs: Seq<(Seq<char>, MetavarDefV)>, toks: Seq<TokenV>, cs: Seq<ChartV>, start: Seq<char>)
    requires
        charts_upto(g, mvs, toks, cs, start, toks.len() as int),
        toks.len() <= usize::MAX,
        forall|p: int, k: int| 0 <= p < toks.len() && 0 <= k < cs[p].states.len() ==> !waits_missing(g, mvs, #[trigger] cs[p].states[k]),
    ensures
        forall|s: Seq<char>| !#[trigger] sort_reached(g, mvs, toks, start, s),
{
    assert forall|s: Seq<char>| !#[trigger] sort_reached(g, mvs, toks, start, s) by {
        if sort_reached(g, mvs, toks, start, s) {
            let i = choose|i: int|
                0 <= i < toks.len() && #[trigger] missing_at(g, mvs, toks, start, i, s) && forall|i2: int, s2: Seq<char>|
                    0 <= i2 < i ==> !#[trigger] missing_at(g, mvs, toks, start, i2, s2);
            let st = choose|st: State|
                #[trigger] item_valid(g, mvs, toks, start, i, st) && next_sym(g, st) == Some(SymV::Metavar(s)) && mv_lookup(mvs, s) is None;
            let pf = choose|pf: ItemProof| #[trigger] proves(g, mvs, toks, start, pf) == Some((i, st));
            lemma_valid_in_prefix(g, mvs, toks, cs, start, toks.len() as int, pf);
            let k = lemma_contains_index(cs[i].states, st);
            assert(waits_missing(g, mvs, cs[i].states[k]));
        }
    }
}

/// Complete charts hold every valid item.
proof fn lemma_valid_in_charts(
    g: Seq<ProdV>,
    mvs: Seq<(Seq<char>, MetavarDefV)>,
    toks: Seq<TokenV>,
    cs: Seq<ChartV>,
    start: Seq<char>,
    pf: ItemProof,
)
    requires
        charts_complete(g, mvs, toks, cs, start),
        toks.len() < usize::MAX,
    ensures
        proves(g, mvs, toks, start, pf) matches Some((i, st)) ==> 0 <= i <= toks.len() && cs[i].states.contains(st),
{
    lemma_valid_pos(g, mvs, toks, start, pf);
    lemma_valid_in_prefix(g, mvs, toks, cs, start, toks.len() as int, pf);
}

/// When no chart before position `i` holds an item that waits for a sort
/// without a lexical class, and a valid item at `i` waits for sort `s`
/// without one, `s` is reached first there.
proof fn lemma_first_missing(
    g: Seq<ProdV>,
    mvs: Seq<(Seq<char>, MetavarDefV)>,
    toks: Seq<TokenV>,
    cs: Seq<ChartV>,
    start: Seq<char>,
    i: int,
    s: Seq<char>,
)
    requires
        charts_upto(g, mvs, toks, cs, start, i),
        toks.len() <= usize::MAX,
        i < toks.len(),
        forall|p: int, k: int| 0 <= p < i && 0 <= k < cs[p].states.len() ==> !waits_missing(g, mvs, #[trigger] cs[p].states[k]),
        missing_at(g, mvs, toks, start, i, s),
    ensures
        sort_reached(g, mvs, toks, start, s),
{
    assert forall|i2: int, s2: Seq<char>| 0 <= i2 < i implies !#[trigger] missing_at(g, mvs, toks, start, i2, s2) by {
        if missing_at(g, mvs, toks, start, i2, s2) {
            let st = choose|st: State|
                #[trigger] item_valid(g, mvs, toks, start, i2, st) && next_sym(g, st) == Some(SymV::Metavar(s2)) && mv_lookup(mvs, s2) is None;
            let pf = choose|pf: ItemProof| #[trigger] proves(g, mvs, toks, start, pf) == Some((i2, st));
            lemma_valid_in_prefix(g, mvs, toks, cs, start, i, pf);
            let k = lemma_contains_index(cs[i2].states, st);
            assert(waits_missing(g, mvs, cs[i2].states[k]));
        }
    }
}

/// For complete charts whose items are all valid, a chart holds an item
/// exactly when its position is reached.
proof fn lemma_nonempty_iff_reached(
    g: Seq<ProdV>,
    mvs: Seq<(Seq<char>, MetavarDefV)>,
    toks: Seq<TokenV>,
    cs: Seq<ChartV>,
    start: Seq<char>,
)
    requires
        charts_complete(g, mvs, toks, cs, start),
        charts_proved(g, mvs, toks, start, cs),
        toks.len() < usize::MAX,
    ensures
        forall|j: int| 0 <= j < cs.len() ==> (#[trigger] cs[j].states.len() > 0) == reached(g, mvs, toks, start, j),
{
    assert forall|j: int| 0 <= j < cs.len() implies (#[trigger] cs[j].states.len() > 0) == reached(g, mvs, toks, start, j) by {
        if cs[j].states.len() > 0 {
            assert(item_valid(g, mvs, toks, start, j, cs[j].states[0]));
        }
        if reached(g, mvs, toks, start, j) {
            let st = choose|st: State| #[trigger] item_valid(g, mvs, toks, start, j, st);
            let pf = choose|pf: ItemProof| #[trigger] proves(g, mvs, toks, start, pf) == Some((j, st));
            lemma_valid_in_charts(g, mvs, toks, cs, start, pf);
        }
    }
}

// ---------------------------------------------------------------------------
// Recognising and parsing

/// Where a failure to parse `toks` as `start` is reported: at the token at
/// the last position that the tokens before it reach (see `reached`), or at
/// the empty span at the end of the snippet `src` when that position is the
/// end; with the line and column of the span's start.
pub open spec fn failure_at(
    g: Seq<ProdV>,
    mvs: Seq<(Seq<char>, MetavarDefV)>,
    toks: Seq<TokenV>,
    start: Seq<char>,
    src: Seq<char>,
    e: OttErrV,
) -> bool {
    let len = vstd::utf8::encode_utf8(src).len();
    let far = last_reached(g, mvs, toks, start, toks.len() as int);
    let sp = if far < toks.len() {
        toks[far].span
    } else {
        Span { start: len as usize, end: len as usize }
    };
    &&& e.span == Some(sp)
    &&& e.position matches Some(p) && (p.line as nat, p.column as nat) == spec_position_from_offset(
        vstd::utf8::encode_utf8(src),
        sp.start as nat,
    )
}

/// The last reached position is one of the positions up to `k`.
proof fn lemma_last_reached_range(g: Seq<ProdV>, mvs: Seq<(Seq<char>, MetavarDefV)>, toks: Seq<TokenV>, start: Seq<char>, k: int)
    ensures
        0 <= last_reached(g, mvs, toks, start, k),
        k >= 0 ==> last_reached(g, mvs, toks, start, k) <= k,
    decreases k,
{
    if k > 0 {
        lemma_last_reached_range(g, mvs, toks, start, k - 1);
    }
}

pub open spec fn failed_msg(start: Seq<char>) -> Seq<char> {
    "failed to parse input as `"@ + start + "`"@
}

/// The error of a snippet that does not parse as `start`, reported at the
/// first token of the last nonempty chart (or at the end): when each chart
/// holds an item exactly when its position is reached, that is the token at
/// the last reached position.
fn parse_failure(
    charts: &Vec<Chart>,
    toks: &Vec<Token>,
    start: &String,
    src: &str,
    Ghost(g): Ghost<Seq<ProdV>>,
    Ghost(mvs): Ghost<Seq<(Seq<char>, MetavarDefV)>>,
) -> (e: OttError)
    requires
        charts@.len() == toks@.len() + 1,
        src.spec_bytes().len() < usize::MAX,
        forall|k: int| 0 <= k < toks@.len() ==> (#[trigger] toks@[k]).span.start < usize::MAX,
        forall|j: int| 0 <= j < charts@.len() ==> (#[trigger] charts_view(*charts)[j].states.len() > 0) == reached(
            g,
            mvs,
            toks_view(*toks),
            start@,
            j,
        ),
    ensures
        e@.message == failed_msg(start@),
        failure_at(g, mvs, toks_view(*toks), start@, src@, e@),
{
    let ghost tv = toks_view(*toks);
    let n = toks.len();
    let mut farthest: usize = 0;
    let mut i: usize = 0;
    let _c = charts.len();
    while i <= n
        invariant
            n == toks@.len(),
            charts@.len() == n + 1,
            n < usize::MAX,
            i <= n + 1,
            farthest <= n,
            tv == toks_view(*toks),
            farthest == last_reached(g, mvs, tv, start@, i - 1),
            forall|j: int| 0 <= j < charts@.len() ==> (#[trigger] charts_view(*charts)[j].states.len() > 0) == reached(
                g,
                mvs,
                tv,
                start@,
                j,
            ),
        decreases n + 1 - i,
    {
        proof {
            assert(charts_view(*charts)[i as int] == charts@[i as int]@);
            assert((charts_view(*charts)[i as int].states.len() > 0) == reached(g, mvs, tv, start@, i as int));
            lemma_last_reached_range(g, mvs, tv, start@, i - 1);
        }
        if charts[i].states.len() > 0 {
            farthest = i;
        }
        assert(farthest == last_reached(g, mvs, tv, start@, i as int));
        i = i + 1;
    }
    let bytes = src.as_bytes();
    let len = bytes.len();
    let span = if farthest < n {
        assert(toks_view(*toks)[farthest as int] == toks@[farthest as int]@);
        Span::new(toks[farthest].span.start, toks[farthest].span.end)
    } else {
        Span::new(len, len)
    };
    let mut m = "failed to parse input as `".to_owned();
    m.append(start.as_str());
    m.append("`");
    proof {
        lemma_position_fits(src.spec_bytes(), span.start as nat);
    }
    OttError::new(m).with_span(span, src)
}

proof fn lemma_msgs_differ(s: Seq<char>, start: Seq<char>)
    ensures
        missing_lex_msg(s) != failed_msg(start),
{
    reveal_strlit("missing lex specification for metavariable sort `");
    reveal_strlit("failed to parse input as `");
    assert(missing_lex_msg(s)[0] == 'm');
    assert(failed_msg(start)[0] == 'f');
}

proof fn lemma_rhs_bounded(g: &Grammar)
    ensures
        rhs_bounded(g@),
{
    assert forall|i: int| 0 <= i < g@.len() implies (#[trigger] g@[i]).rhs.len() <= usize::MAX by {
        assert(g@[i] == g.prods@[i]@);
        assert(g.prods@[i].rhs.len() == g.prods@[i].rhs@.len());
    }
}

/// When the tokens parse as `start`, the last of complete charts holds an
/// accepting item.
proof fn lemma_accepting_exists(
    g: Seq<ProdV>,
    mvs: Seq<(Seq<char>, MetavarDefV)>,
    toks: Seq<TokenV>,
    srclen: usize,
    cs: Seq<ChartV>,
    start: Seq<char>,
)
    requires
        charts_complete(g, mvs, toks, cs, start),
        rhs_bounded(g),
        toks.len() < usize::MAX,
        exists|t: TermNodeV| #[trigger] parse_tree_of(g, mvs, toks, srclen, start, t),
    ensures
        exists|k: int| 0 <= k < cs[toks.len() as int].states.len() && accepting(g, #[trigger] cs[toks.len() as int].states[k], start),
{
    let t = choose|t: TermNodeV| #[trigger] parse_tree_of(g, mvs, toks, srclen, start, t);
    lemma_charts_complete(g, mvs, toks, srclen, cs, start, t);
}

/// Whether `input` (as `toks`) parses as `start`.
pub fn earley_recognize(start: &String, g: &Grammar, metavars: &Vec<(String, MetavarDef)>, toks: &Vec<Token>, src: &str)
    -> (r: Result<(), OttError>)
    requires
        defs_wf(defs_view(*metavars)),
        src.spec_bytes().len() < usize::MAX,
        forall|k: int| 0 <= k < toks@.len() ==> (#[trigger] toks@[k]).span.start < usize::MAX,
    ensures
        r is Ok ==> exists|t: TermNodeV| #[trigger] parse_tree_of(g@, defs_view(*metavars), toks_view(*toks), src.spec_bytes().len() as usize, start@, t),
        r matches Err(e) ==> e@.message == failed_msg(start@) || exists|s: Seq<char>|
            sort_reached(g@, defs_view(*metavars), toks_view(*toks), start@, s) && e@ == #[trigger] err_plain(missing_lex_msg(s)),
        (exists|s: Seq<char>| sort_reached(g@, defs_view(*metavars), toks_view(*toks), start@, s)) ==> (r matches Err(e)
            && e@.message != failed_msg(start@)),
        r matches Err(e) && e@.message == failed_msg(start@) ==> forall|t: TermNodeV| !#[trigger] parse_tree_of(g@, defs_view(*metavars), toks_view(*toks), src.spec_bytes().len() as usize, start@, t),
        r matches Err(e) ==> (e@.message == failed_msg(start@) ==> failure_at(
            g@,
            defs_view(*metavars),
            toks_view(*toks),
            start@,
            src@,
            e@,
        )),
{
    let ghost gv = g@;
    let ghost mvs = defs_view(*metavars);
    let ghost tv = toks_view(*toks);
    let bytes = src.as_bytes();
    let srclen = bytes.len();
    let charts = match build_chart(start, g, metavars, toks) {
        Ok(c) => c,
        Err(e) => {
            proof {
                let s = choose|s: Seq<char>| e@ == #[trigger] err_plain(missing_lex_msg(s));
                lemma_msgs_differ(s, start@);
            }
            return Err(e);
        },
    };
    let ghost cs = charts_view(charts);
    let n = toks.len();
    assert(cs[n as int] == charts@[n as int]@);
    let mut k: usize = 0;
    while k < charts[n].states.len()
        invariant
            n == toks@.len(),
            charts@.len() == n + 1,
            cs == charts_view(charts),
            cs[n as int] == charts@[n as int]@,
            gv == g@,
            charts_ok(gv, mvs, tv, cs),
            tv == toks_view(*toks),
            mvs == defs_view(*metavars),
            srclen == src.spec_bytes().len() as usize,
            charts_complete(gv, mvs, tv, cs, start@),
            forall|s: Seq<char>| !#[trigger] sort_reached(gv, mvs, tv, start@, s),
            forall|k2: int| 0 <= k2 < k ==> !accepting(gv, #[trigger] cs[n as int].states[k2], start@),
        decreases charts@[n as int].states@.len() - k,
    {
        let st = charts[n].states[k];
        proof {
            if st.prod_id < g.prods@.len() {
                assert(gv[st.prod_id as int] == g.prods@[st.prod_id as int]@);
            }
        }
        if st.origin == 0 && st.prod_id < g.prods.len() && g.prods[st.prod_id].lhs == *start && st.dot == g.prods[st.prod_id].rhs.len() {
            proof {
                assert(gv[st.prod_id as int] == g.prods@[st.prod_id as int]@);
                lemma_tree_sound(gv, mvs, tv, srclen, cs, n as int, k as int);
                let t = tree_node(gv, tv, srclen, cs, n as int, k as int);
                assert(parse_tree_of(gv, mvs, tv, srclen, start@, t));
            }
            return Ok(());
        }
        k = k + 1;
    }
    proof {
        lemma_rhs_bounded(g);
        if exists|t: TermNodeV| #[trigger] parse_tree_of(gv, mvs, tv, srclen, start@, t) {
            lemma_accepting_exists(gv, mvs, tv, srclen, cs, start@);
        }
    }
    proof {
        lemma_nonempty_iff_reached(gv, mvs, tv, cs, start@);
    }
    Err(parse_failure(&charts, toks, start, src, Ghost(gv), Ghost(mvs)))
}

/// A parse tree of `input` (as `toks`) as `start`.
pub fn earley_parse(start: &String, g: &Grammar, metavars: &Vec<(String, MetavarDef)>, toks: &Vec<Token>, src: &str)
    -> (r: Result<TermNode, OttError>)
    requires
        defs_wf(defs_view(*metavars)),
        src.spec_bytes().len() < usize::MAX,
        forall|k: int| 0 <= k < toks@.len() ==> (#[trigger] toks@[k]).span.start < usize::MAX,
    ensures
        r matches Ok(t) ==> parse_tree_of(g@, defs_view(*metavars), toks_view(*toks), src.spec_bytes().len() as usize, start@, t@),
        r matches Ok(t) ==> forall|t2: TermNodeV| #[trigger] parse_tree_of(g@, defs_view(*metavars), toks_view(*toks), src.spec_bytes().len() as usize, start@, t2)
            ==> tree_prod(t@) <= tree_prod(t2),
        r matches Err(e) ==> e@.message == failed_msg(start@) || exists|s: Seq<char>|
            sort_reached(g@, defs_view(*metavars), toks_view(*toks), start@, s) && e@ == #[trigger] err_plain(missing_lex_msg(s)),
        (exists|s: Seq<char>| sort_reached(g@, defs_view(*metavars), toks_view(*toks), start@, s)) ==> (r matches Err(e)
            && e@.message != failed_msg(start@)),
        r matches Err(e) && e@.message == failed_msg(start@) ==> forall|t: TermNodeV| !#[trigger] parse_tree_of(g@, defs_view(*metavars), toks_view(*toks), src.spec_bytes().len() as usize, start@, t),
        r matches Err(e) ==> (e@.message == failed_msg(start@) ==> failure_at(
            g@,
            defs_view(*metavars),
            toks_view(*toks),
            start@,
            src@,
            e@,
        )),
{
    let ghost gv = g@;
    let ghost mvs = defs_view(*metavars);
    let ghost tv = toks_view(*toks);
    let bytes = src.as_bytes();
    let srclen = bytes.len();
    let charts = match build_chart(start, g, metavars, toks) {
        Ok(c) => c,
        Err(e) => {
            proof {
                let s = choose|s: Seq<char>| e@ == #[trigger] err_plain(missing_lex_msg(s));
                lemma_msgs_differ(s, start@);
            }
            return Err(e);
        },
    };
    let ghost cs = charts_view(charts);
    let n = toks.len();
    assert(cs[n as int] == charts@[n as int]@);
    let mut pid: usize = 0;
    while pid < g.prods.len()
        invariant
            n == toks@.len(),
            charts@.len() == n + 1,
            cs == charts_view(charts),
            cs[n as int] == charts@[n as int]@,
            gv == g@,
            charts_ok(gv, mvs, tv, cs),
            tv == toks_view(*toks),
            mvs == defs_view(*metavars),
            srclen == src.spec_bytes().len() as usize,
            charts_complete(gv, mvs, tv, cs, start@),
            forall|s: Seq<char>| !#[trigger] sort_reached(gv, mvs, tv, start@, s),
            forall|k2: int| 0 <= k2 < cs[n as int].states.len() && accepting(gv, #[trigger] cs[n as int].states[k2], start@) ==> cs[n as int].states[k2].prod_id >= pid,
        decreases g.prods@.len() - pid,
    {
        assert(gv[pid as int] == g.prods@[pid as int]@);
        if g.prods[pid].lhs == *start {
            let st = State { prod_id: pid, dot: g.prods[pid].rhs.len(), origin: 0 };
            proof {
                lemma_first_index(cs[n as int].states, st);
            }
            match find_state(&charts[n].states, st) {
                Some(k) => {
                    return match build_node(&charts, g, toks, srclen, n, k, Ghost(mvs)) {
                        Some(t) => {
                            proof {
                                assert(gv[pid as int] == g.prods@[pid as int]@);
                                lemma_first_index(cs[n as int].states, st);
                                lemma_tree_sound(gv, mvs, tv, srclen, cs, n as int, k as int);
                                lemma_rhs_bounded(g);
                                assert(charts.len() == charts@.len());
                                assert(tree_prod(t@) == pid);
                                assert forall|t2: TermNodeV| #[trigger] parse_tree_of(gv, mvs, tv, srclen, start@, t2) implies tree_prod(t@)
                                    <= tree_prod(t2) by {
                                    lemma_charts_complete(gv, mvs, tv, srclen, cs, start@, t2);
                                }
                            }
                            Ok(t)
                        },
                        None => {
                            // Never taken: sound charts always give back a tree.
                            proof {
                                lemma_first_index(cs[n as int].states, st);
                                assert(cs[n as int] == charts@[n as int]@);
                                assert(false);
                            }
                            Err(OttError::new("internal error: failed to reconstruct parse tree".to_owned()))
                        },
                    };
                },
                None => {},
            }
        }
        pid = pid + 1;
    }
    proof {
        lemma_rhs_bounded(g);
        if exists|t: TermNodeV| #[trigger] parse_tree_of(gv, mvs, tv, srclen, start@, t) {
            lemma_accepting_exists(gv, mvs, tv, srclen, cs, start@);
        }
    }
    proof {
        lemma_nonempty_iff_reached(gv, mvs, tv, cs, start@);
    }
    Err(parse_failure(&charts, toks, start, src, Ghost(gv), Ghost(mvs)))
}

} // verus!
