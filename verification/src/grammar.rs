//! Compiled grammars: productions over terminals, nonterminals and
//! metavariables, built from the patterns of a specification's grammar rules.
//! List forms (`</ ... // ... />` and dot forms `x1 .. xn`) become fresh list
//! nonterminals.

use vstd::prelude::*;
use vstd::string::StringExecFns;
use vstd::string::StrSliceExecFns;
use crate::chars::{words, trim, words_of, trim_of, eq_chars};
use crate::error::{OttError, OttErrV, err_plain, error_plain};
use crate::template::{Template, PartV, env_lookup, env_view};
use crate::termlex::{BuiltinLex, builtin_matches, dequote, dequote_of, index_suffix, index_suffix_base};
use crate::text::{dec_digits, push_decimal, chars_of, string_from_chars};

verus! {

#[derive(Debug, Clone)]
pub enum Sym {
    Terminal(String),
    Nonterminal(String),
    Metavar(String),
}

#[derive(Debug, Clone)]
pub struct RhsItem {
    pub sym: Sym,
    /// Label used by template holes like `[[t1]]`; only nonterminal and
    /// metavariable occurrences carry one.
    pub label: Option<String>,
}

#[derive(Debug, Clone)]
pub struct Prod {
    pub lhs: String,
    pub rhs: Vec<RhsItem>,
    pub typst: Option<Template>,
}

#[derive(Debug, Clone)]
pub struct Grammar {
    pub prods: Vec<Prod>,
}

pub enum SymV {
    Terminal(Seq<char>),
    Nonterminal(Seq<char>),
    Metavar(Seq<char>),
}

pub struct RhsItemV {
    pub sym: SymV,
    pub label: Option<Seq<char>>,
}

pub struct ProdV {
    pub lhs: Seq<char>,
    pub rhs: Seq<RhsItemV>,
    pub typst: Option<Seq<PartV>>,
}

impl View for Sym {
    type V = SymV;

    open spec fn view(&self) -> SymV {
        match *self {
            Sym::Terminal(s) => SymV::Terminal(s@),
            Sym::Nonterminal(s) => SymV::Nonterminal(s@),
            Sym::Metavar(s) => SymV::Metavar(s@),
        }
    }
}

impl View for RhsItem {
    type V = RhsItemV;

    open spec fn view(&self) -> RhsItemV {
        RhsItemV {
            sym: self.sym@,
            label: match self.label {
                Some(l) => Some(l@),
                None => None,
            },
        }
    }
}

pub open spec fn rhs_view(v: Vec<RhsItem>) -> Seq<RhsItemV> {
    v@.map_values(|r: RhsItem| r@)
}

pub open spec fn template_view(t: Option<Template>) -> Option<Seq<PartV>> {
    match t {
        Some(x) => Some(x@),
        None => None,
    }
}

impl View for Prod {
    type V = ProdV;

    open spec fn view(&self) -> ProdV {
        ProdV { lhs: self.lhs@, rhs: rhs_view(self.rhs), typst: template_view(self.typst) }
    }
}

impl View for Grammar {
    type V = Seq<ProdV>;

    open spec fn view(&self) -> Seq<ProdV> {
        self.prods@.map_values(|p: Prod| p@)
    }
}

/// Whether two symbols are the same.
pub fn sym_eq(a: &Sym, b: &Sym) -> (r: bool)
    ensures
        r == (a@ == b@),
{
    match a {
        Sym::Terminal(x) => match b {
            Sym::Terminal(y) => *x == *y,
            _ => false,
        },
        Sym::Nonterminal(x) => match b {
            Sym::Nonterminal(y) => *x == *y,
            _ => false,
        },
        Sym::Metavar(x) => match b {
            Sym::Metavar(y) => *x == *y,
            _ => false,
        },
    }
}

fn clone_sym(s: &Sym) -> (r: Sym)
    ensures
        r@ == s@,
{
    match s {
        Sym::Terminal(x) => Sym::Terminal(x.clone()),
        Sym::Nonterminal(x) => Sym::Nonterminal(x.clone()),
        Sym::Metavar(x) => Sym::Metavar(x.clone()),
    }
}

pub fn clone_item(r: &RhsItem) -> (c: RhsItem)
    ensures
        c@ == r@,
{
    RhsItem {
        sym: clone_sym(&r.sym),
        label: match &r.label {
            Some(l) => Some(l.clone()),
            None => None,
        },
    }
}

// ---------------------------------------------------------------------------
// Name maps
//
// A name map binds each key once; binding a bound key replaces its value in
// place, so keys keep the order in which they were first bound.

pub open spec fn assoc_index(m: Seq<(Seq<char>, Seq<char>)>, k: Seq<char>, n: int) -> Option<int>
    decreases n,
{
    if n <= 0 {
        None
    } else {
        match assoc_index(m, k, n - 1) {
            Some(i) => Some(i),
            None => if m[n - 1].0 == k {
                Some(n - 1)
            } else {
                None
            },
        }
    }
}

pub open spec fn assoc_insert(m: Seq<(Seq<char>, Seq<char>)>, k: Seq<char>, v: Seq<char>) -> Seq<(Seq<char>, Seq<char>)> {
    match assoc_index(m, k, m.len() as int) {
        Some(i) => m.update(i, (k, v)),
        None => m.push((k, v)),
    }
}

pub open spec fn map_view(m: Vec<(String, String)>) -> Seq<(Seq<char>, Seq<char>)> {
    env_view(m)
}

pub(crate) proof fn lemma_assoc_index(m: Seq<(Seq<char>, Seq<char>)>, k: Seq<char>, n: int)
    requires
        0 <= n <= m.len(),
    ensures
        assoc_index(m, k, n) matches Some(i) ==> 0 <= i < n && m[i].0 == k,
        assoc_index(m, k, n) is None ==> forall|j: int| 0 <= j < n ==> m[j].0 != k,
        assoc_index(m, k, n) is None <==> env_lookup(m.take(n), k) is None,
        assoc_index(m, k, n) matches Some(i) ==> env_lookup(m.take(n), k) == Some(m[i].1),
    decreases n,
{
    if n > 0 {
        lemma_assoc_index(m, k, n - 1);
        lemma_lookup_push(m.take(n - 1), m[n - 1], k);
        assert(m.take(n) =~= m.take(n - 1).push(m[n - 1]));
    } else {
        assert(m.take(0) =~= Seq::<(Seq<char>, Seq<char>)>::empty());
    }
}

proof fn lemma_lookup_push(m: Seq<(Seq<char>, Seq<char>)>, b: (Seq<char>, Seq<char>), k: Seq<char>)
    ensures
        env_lookup(m.push(b), k) == match env_lookup(m, k) {
            Some(v) => Some(v),
            None => if b.0 == k {
                Some(b.1)
            } else {
                None
            },
        },
    decreases m.len(),
{
    if m.len() > 0 {
        assert(m.push(b)[0] == m[0]);
        assert(m.push(b).drop_first() =~= m.drop_first().push(b));
        lemma_lookup_push(m.drop_first(), b, k);
    } else {
        assert(m.push(b)[0] == b);
        assert(m.push(b).drop_first() =~= Seq::<(Seq<char>, Seq<char>)>::empty());
        assert(env_lookup(Seq::<(Seq<char>, Seq<char>)>::empty(), k) is None);
    }
}

/// Binding a key that is not bound appends it.
pub proof fn lemma_absent_insert(m: Seq<(Seq<char>, Seq<char>)>, k: Seq<char>, v: Seq<char>)
    requires
        env_lookup(m, k) is None,
    ensures
        assoc_insert(m, k, v) == m.push((k, v)),
{
    lemma_assoc_index(m, k, m.len() as int);
    assert(m.take(m.len() as int) =~= m);
}

/// Two maps with the same keys at the same places find a key at the same place.
proof fn lemma_assoc_index_same_keys(m: Seq<(Seq<char>, Seq<char>)>, m2: Seq<(Seq<char>, Seq<char>)>, x: Seq<char>, n: int)
    requires
        0 <= n <= m.len(),
        m.len() == m2.len(),
        forall|j: int| 0 <= j < m.len() ==> (#[trigger] m[j]).0 == m2[j].0,
    ensures
        assoc_index(m, x, n) == assoc_index(m2, x, n),
    decreases n,
{
    if n > 0 {
        lemma_assoc_index_same_keys(m, m2, x, n - 1);
        assert(m[n - 1].0 == m2[n - 1].0);
    }
}

/// After binding `k` to `v`, `k` gives `v` and every other key what it gave.
pub(crate) proof fn lemma_lookup_insert(m: Seq<(Seq<char>, Seq<char>)>, k: Seq<char>, v: Seq<char>, x: Seq<char>)
    ensures
        env_lookup(assoc_insert(m, k, v), x) == if x == k {
            Some(v)
        } else {
            env_lookup(m, x)
        },
{
    let n = m.len() as int;
    lemma_assoc_index(m, k, n);
    assert(m.take(n) =~= m);
    match assoc_index(m, k, n) {
        Some(i) => {
            let m2 = m.update(i, (k, v));
            assert forall|j: int| 0 <= j < m.len() implies (#[trigger] m[j]).0 == m2[j].0 by {}
            lemma_assoc_index_same_keys(m, m2, x, n);
            lemma_assoc_index(m, x, n);
            lemma_assoc_index(m2, x, n);
            assert(m2.take(n) =~= m2);
        },
        None => {
            lemma_lookup_push(m, (k, v), x);
            lemma_lookup_push(m, (k, v), k);
        },
    }
}

/// The value bound to `k`.
pub fn map_get(m: &Vec<(String, String)>, k: &String) -> (r: Option<String>)
    ensures
        match env_lookup(map_view(*m), k@) {
            Some(v) => r matches Some(x) && x@ == v,
            None => r is None,
        },
{
    let ghost mv = map_view(*m);
    proof {
        lemma_assoc_index(mv, k@, mv.len() as int);
        assert(mv.take(mv.len() as int) =~= mv);
    }
    let mut j: usize = 0;
    while j < m.len()
        invariant
            j <= m@.len(),
            mv == map_view(*m),
            forall|i: int| 0 <= i < j ==> mv[i].0 != k@,
            assoc_index(mv, k@, mv.len() as int) is None <==> env_lookup(mv, k@) is None,
            assoc_index(mv, k@, mv.len() as int) matches Some(i) ==> env_lookup(mv, k@) == Some(mv[i].1),
            assoc_index(mv, k@, mv.len() as int) matches Some(i) ==> 0 <= i < mv.len() && mv[i].0 == k@,
            assoc_index(mv, k@, mv.len() as int) is None ==> forall|i: int| 0 <= i < mv.len() ==> mv[i].0 != k@,
        decreases m@.len() - j,
    {
        assert(mv[j as int] == (m@[j as int].0@, m@[j as int].1@));
        if m[j].0 == *k {
            proof {
                lemma_assoc_first(mv, k@, j as int);
            }
            return Some(m[j].1.clone());
        }
        j = j + 1;
    }
    None
}

proof fn lemma_assoc_first(m: Seq<(Seq<char>, Seq<char>)>, k: Seq<char>, j: int)
    requires
        0 <= j < m.len(),
        m[j].0 == k,
        forall|i: int| 0 <= i < j ==> m[i].0 != k,
    ensures
        assoc_index(m, k, m.len() as int) == Some(j),
{
    lemma_assoc_prefix(m, k, j + 1, m.len() as int);
    lemma_assoc_index(m, k, j);
}

proof fn lemma_assoc_prefix(m: Seq<(Seq<char>, Seq<char>)>, k: Seq<char>, n: int, n2: int)
    requires
        0 <= n <= n2 <= m.len(),
        assoc_index(m, k, n) is Some,
    ensures
        assoc_index(m, k, n2) == assoc_index(m, k, n),
    decreases n2 - n,
{
    if n2 > n {
        lemma_assoc_prefix(m, k, n, n2 - 1);
    }
}

/// Binds `k` to `v`.
pub fn map_insert(m: &mut Vec<(String, String)>, k: String, v: String)
    ensures
        map_view(*final(m)) == assoc_insert(map_view(*old(m)), k@, v@),
{
    let ghost mv = map_view(*m);
    proof {
        lemma_assoc_index(mv, k@, mv.len() as int);
    }
    let mut j: usize = 0;
    while j < m.len()
        invariant
            j <= m@.len(),
            mv == map_view(*m),
            mv == map_view(*old(m)),
            forall|i: int| 0 <= i < j ==> mv[i].0 != k@,
        decreases m@.len() - j,
    {
        assert(mv[j as int] == (m@[j as int].0@, m@[j as int].1@));
        if m[j].0 == k {
            proof {
                lemma_assoc_first(mv, k@, j as int);
            }
            let ghost kv = (k@, v@);
            m.set(j, (k, v));
            assert(map_view(*m) =~= mv.update(j as int, kv));
            return;
        }
        j = j + 1;
    }
    proof {
        match assoc_index(mv, k@, mv.len() as int) {
            Some(i) => {
                assert(mv[i].0 == k@);
            },
            None => {},
        }
    }
    let ghost kv = (k@, v@);
    m.push((k, v));
    assert(map_view(*m) =~= mv.push(kv));
}

// ---------------------------------------------------------------------------
// The builder's state

pub enum PatTokV {
    Atom(RhsItemV),
    Dots(u8),
}

#[derive(Debug, Clone)]
pub enum PatToken {
    Atom(RhsItem),
    Dots(u8),
}

impl View for PatToken {
    type V = PatTokV;

    open spec fn view(&self) -> PatTokV {
        match *self {
            PatToken::Atom(a) => PatTokV::Atom(a@),
            PatToken::Dots(d) => PatTokV::Dots(d),
        }
    }
}

pub open spec fn toks_view(v: Vec<PatToken>) -> Seq<PatTokV> {
    v@.map_values(|t: PatToken| t@)
}

/// What the builder has collected: the name maps it resolves patterns
/// against, the productions, the terminals, and how many list nonterminals it
/// has made.
pub struct BuilderV {
    pub root_alias: Seq<(Seq<char>, Seq<char>)>,
    pub metavar_alias: Seq<(Seq<char>, Seq<char>)>,
    pub prods: Seq<ProdV>,
    pub terminals: Seq<Seq<char>>,
    pub counter: usize,
}

pub struct GrammarBuilder {
    pub root_alias: Vec<(String, String)>,
    pub metavar_alias: Vec<(String, String)>,
    pub grammar: Grammar,
    pub terminals: Vec<String>,
    pub list_counter: usize,
}

impl View for GrammarBuilder {
    type V = BuilderV;

    open spec fn view(&self) -> BuilderV {
        BuilderV {
            root_alias: map_view(self.root_alias),
            metavar_alias: map_view(self.metavar_alias),
            prods: self.grammar@,
            terminals: self.terminals@.map_values(|t: String| t@),
            counter: self.list_counter,
        }
    }
}

/// Adds the nonempty terminals among `rhs[..n]` to `ts`, each once.
pub open spec fn add_terminals(ts: Seq<Seq<char>>, rhs: Seq<RhsItemV>, n: int) -> Seq<Seq<char>>
    decreases n,
{
    if n <= 0 {
        ts
    } else {
        let ts2 = add_terminals(ts, rhs, n - 1);
        match rhs[n - 1].sym {
            SymV::Terminal(t) => if t.len() > 0 && !ts2.contains(t) {
                ts2.push(t)
            } else {
                ts2
            },
            _ => ts2,
        }
    }
}

/// The builder after adding the production `lhs ::= rhs`.
pub open spec fn add_prod(b: BuilderV, lhs: Seq<char>, rhs: Seq<RhsItemV>, typst: Option<Seq<PartV>>) -> BuilderV {
    BuilderV {
        prods: b.prods.push(ProdV { lhs, rhs, typst }),
        terminals: add_terminals(b.terminals, rhs, rhs.len() as int),
        ..b
    }
}

/// The counter after making one more list nonterminal (it wraps).
pub open spec fn next_counter(c: usize) -> usize {
    if c == usize::MAX {
        0
    } else {
        (c + 1) as usize
    }
}

/// The name of the list nonterminal made at counter value `c`.
pub open spec fn list_name(c: usize) -> Seq<char> {
    "__ott_list_"@ + dec_digits(c as nat)
}

pub open spec fn unlabelled(item: Seq<RhsItemV>) -> Seq<RhsItemV> {
    item.map_values(|it: RhsItemV| RhsItemV { sym: it.sym, label: None })
}

pub open spec fn nt_item(name: Seq<char>) -> RhsItemV {
    RhsItemV { sym: SymV::Nonterminal(name), label: None }
}

/// The builder after defining list nonterminal `nt` for one or more `item`s,
/// separated by `sep` when there is one: `nt ::= item tail`,
/// `tail ::= ` and `tail ::= sep item tail`.
pub open spec fn define_list(b: BuilderV, nt: Seq<char>, item: Seq<RhsItemV>, sep: Option<Seq<char>>) -> BuilderV {
    let tail = nt + "__tail"@;
    let syms = unlabelled(item);
    let b1 = add_prod(b, nt, syms.push(nt_item(tail)), None);
    let b2 = add_prod(b1, tail, Seq::empty(), None);
    let lead = match sep {
        Some(s) => seq![RhsItemV { sym: SymV::Terminal(s), label: None }],
        None => Seq::empty(),
    };
    add_prod(b2, tail, (lead + syms).push(nt_item(tail)), None)
}

/// How a pattern word is read: a root or metavariable name (possibly with an
/// index suffix) refers to it, labelled by the word; anything else is a terminal.
pub open spec fn classify(b: BuilderV, raw: Seq<char>) -> RhsItemV {
    let tok = dequote(trim(raw));
    if tok.len() == 0 {
        RhsItemV { sym: SymV::Terminal(Seq::empty()), label: None }
    } else {
        match env_lookup(b.root_alias, tok) {
            Some(c) => RhsItemV { sym: SymV::Nonterminal(c), label: Some(tok) },
            None => match env_lookup(b.metavar_alias, tok) {
                Some(c) => RhsItemV { sym: SymV::Metavar(c), label: Some(tok) },
                None => match index_suffix(tok) {
                    Some((base, _)) => match env_lookup(b.root_alias, base) {
                        Some(c) => RhsItemV { sym: SymV::Nonterminal(c), label: Some(tok) },
                        None => match env_lookup(b.metavar_alias, base) {
                            Some(c) => RhsItemV { sym: SymV::Metavar(c), label: Some(tok) },
                            None => RhsItemV { sym: SymV::Terminal(tok), label: None },
                        },
                    },
                    None => RhsItemV { sym: SymV::Terminal(tok), label: None },
                },
            },
        }
    }
}

pub open spec fn classify_all(b: BuilderV, raw: Seq<Seq<char>>) -> Seq<RhsItemV> {
    raw.map_values(|w: Seq<char>| classify(b, w))
}

/// First index at or after `i` holding `//` (or the end).
pub open spec fn find_word(raw: Seq<Seq<char>>, w: Seq<char>, i: int) -> int
    decreases raw.len() - i,
{
    if i < 0 || i >= raw.len() || raw[i] == w {
        i
    } else {
        find_word(raw, w, i + 1)
    }
}

/// A comprehension form `</ item... // [sep //] bound... />` starting at
/// word `start`: the list nonterminal it stands for, and the index after `/>`.
pub open spec fn comp_form(b: BuilderV, raw: Seq<Seq<char>>, start: int) -> Result<(BuilderV, RhsItemV, int), OttErrV> {
    let i = find_word(raw, "//"@, start + 1);
    if i >= raw.len() {
        Err(err_plain("unterminated comprehension form: expected `//`"@))
    } else if i + 1 >= raw.len() {
        Err(err_plain("unterminated comprehension form: expected bound or separator"@))
    } else {
        let has_sep = i + 2 < raw.len() && raw[i + 2] == "//"@;
        let sep = if has_sep { Some(dequote(raw[i + 1])) } else { None };
        let k = if has_sep { i + 3 } else { i + 1 };
        let close = find_word(raw, "/>"@, k);
        if close >= raw.len() {
            Err(err_plain("unterminated comprehension form: expected `/>`"@))
        } else {
            let item = classify_all(b, raw.subrange(start + 1, i));
            if item.len() == 0 {
                Err(err_plain("empty comprehension item pattern"@))
            } else {
                let c = next_counter(b.counter);
                let nt = list_name(c);
                let b2 = define_list(BuilderV { counter: c, ..b }, nt, item, sep);
                Ok((b2, nt_item(nt), close + 1))
            }
        }
    }
}

/// The tokens of the pattern words `raw` from index `i` on: dot forms, list
/// forms, and classified words.
pub open spec fn pattern_tokens(b: BuilderV, raw: Seq<Seq<char>>, i: int) -> Result<(BuilderV, Seq<PatTokV>), OttErrV>
    decreases raw.len() - i,
{
    if i < 0 || i >= raw.len() {
        Ok((b, Seq::empty()))
    } else {
        let w = raw[i];
        if w == ".."@ || w == "..."@ || w == "...."@ {
            let d: u8 = if w == ".."@ { 2 } else if w == "..."@ { 3 } else { 4 };
            match pattern_tokens(b, raw, i + 1) {
                Ok((b2, rest)) => Ok((b2, seq![PatTokV::Dots(d)] + rest)),
                Err(e) => Err(e),
            }
        } else if w == "</"@ {
            match comp_form(b, raw, i) {
                Err(e) => Err(e),
                Ok((b2, item, nx)) => if nx <= i {
                    Err(err_plain(Seq::empty()))
                } else {
                    match pattern_tokens(b2, raw, nx) {
                        Ok((b3, rest)) => Ok((b3, seq![PatTokV::Atom(item)] + rest)),
                        Err(e) => Err(e),
                    }
                },
            }
        } else {
            match pattern_tokens(b, raw, i + 1) {
                Ok((b2, rest)) => Ok((b2, seq![PatTokV::Atom(classify(b, w))] + rest)),
                Err(e) => Err(e),
            }
        }
    }
}

/// The atoms among `toks`, in order.
pub open spec fn atoms(toks: Seq<PatTokV>) -> Seq<RhsItemV>
    decreases toks.len(),
{
    if toks.len() == 0 {
        Seq::empty()
    } else {
        let rest = atoms(toks.drop_last());
        match toks.last() {
            PatTokV::Atom(a) => rest.push(a),
            PatTokV::Dots(_) => rest,
        }
    }
}

pub open spec fn as_toks(items: Seq<RhsItemV>) -> Seq<PatTokV> {
    items.map_values(|a: RhsItemV| PatTokV::Atom(a))
}

/// The first dot form among `toks`.
pub open spec fn first_dots(toks: Seq<PatTokV>, n: int) -> Option<int>
    decreases n,
{
    if n <= 0 {
        None
    } else {
        match first_dots(toks, n - 1) {
            Some(i) => Some(i),
            None => if toks[n - 1] is Dots {
                Some(n - 1)
            } else {
                None
            },
        }
    }
}

/// The last `c` atoms of `la` have the symbols of the first `c` atoms of `ra`.
pub open spec fn aligned(la: Seq<RhsItemV>, ra: Seq<RhsItemV>, c: int) -> bool {
    forall|j: int| 0 <= j < c ==> (#[trigger] la[la.len() - c + j]).sym == ra[j].sym
}

/// The largest `c` in `1..=m` for which the two sides align.
pub open spec fn best_align(la: Seq<RhsItemV>, ra: Seq<RhsItemV>, m: int) -> Option<int>
    decreases m,
{
    if m < 1 {
        None
    } else if aligned(la, ra, m) {
        Some(m)
    } else {
        best_align(la, ra, m - 1)
    }
}

pub open spec fn atom_sym(t: PatTokV) -> Option<SymV> {
    match t {
        PatTokV::Atom(a) => Some(a.sym),
        PatTokV::Dots(_) => None,
    }
}

/// The dot form at `idx` is flanked by the same terminal, its separator.
pub open spec fn dots_sep(toks: Seq<PatTokV>, idx: int) -> Option<Seq<char>> {
    if idx >= 1 && idx + 1 < toks.len() {
        match toks[idx - 1] {
            PatTokV::Atom(a) => match a.sym {
                SymV::Terminal(t) => {
                    let other = match atom_sym(toks[idx + 1]) {
                        Some(s) => s,
                        None => SymV::Terminal(Seq::empty()),
                    };
                    if a.sym == other {
                        Some(t)
                    } else {
                        None
                    }
                },
                _ => None,
            },
            PatTokV::Dots(_) => None,
        }
    } else {
        None
    }
}

/// Replaces the dot form at `idx` (`x1 .. xn`, or `x1 , .. , xn` with a
/// separator) by a list nonterminal over the longest run of atoms before it
/// that matches the atoms after it.
pub open spec fn expand_once(b: BuilderV, toks: Seq<PatTokV>, idx: int) -> Result<(BuilderV, Seq<PatTokV>), OttErrV> {
    let sep = dots_sep(toks, idx);
    let left = if sep is Some { toks.subrange(0, idx - 1) } else { toks.subrange(0, idx) };
    let right = if sep is Some {
        toks.subrange(idx + 2, toks.len() as int)
    } else {
        toks.subrange(idx + 1, toks.len() as int)
    };
    let la = atoms(left);
    let ra = atoms(right);
    let m = if la.len() <= ra.len() { la.len() as int } else { ra.len() as int };
    match best_align(la, ra, m) {
        None => Err(err_plain("cannot interpret dot-form list: failed to align left/right patterns"@)),
        Some(k) => {
            let c = next_counter(b.counter);
            let nt = list_name(c);
            let b2 = define_list(BuilderV { counter: c, ..b }, nt, la.subrange(la.len() - k, la.len() as int), sep);
            Ok((b2, as_toks(la.subrange(0, la.len() - k)).push(PatTokV::Atom(nt_item(nt))) + as_toks(
                ra.subrange(k, ra.len() as int),
            )))
        },
    }
}

/// Expands dot forms until none is left.
pub open spec fn expand_all(b: BuilderV, toks: Seq<PatTokV>) -> Result<(BuilderV, Seq<PatTokV>), OttErrV>
    decreases toks.len(),
{
    match first_dots(toks, toks.len() as int) {
        None => Ok((b, toks)),
        Some(idx) => match expand_once(b, toks, idx) {
            Err(e) => Err(e),
            Ok((b2, t2)) => if t2.len() >= toks.len() {
                Err(err_plain(Seq::empty()))
            } else {
                expand_all(b2, t2)
            },
        },
    }
}

/// The builder after compiling the production `lhs ::= pattern`.
pub open spec fn compile_prod(b: BuilderV, lhs: Seq<char>, pattern: Seq<char>, typst: Option<Seq<PartV>>) -> Result<BuilderV, OttErrV> {
    match pattern_tokens(b, words(pattern), 0) {
        Err(e) => Err(e),
        Ok((b2, toks)) => match expand_all(b2, toks) {
            Err(e) => Err(e),
            Ok((b3, t3)) => Ok(add_prod(b3, lhs, atoms(t3), typst)),
        },
    }
}

// ---------------------------------------------------------------------------
// Lemmas

proof fn lemma_atoms_len(toks: Seq<PatTokV>)
    ensures
        atoms(toks).len() <= toks.len(),
    decreases toks.len(),
{
    if toks.len() > 0 {
        lemma_atoms_len(toks.drop_last());
    }
}

proof fn lemma_atoms_push(toks: Seq<PatTokV>, t: PatTokV)
    ensures
        atoms(toks.push(t)) == match t {
            PatTokV::Atom(a) => atoms(toks).push(a),
            PatTokV::Dots(_) => atoms(toks),
        },
{
    assert(toks.push(t).drop_last() =~= toks);
}

proof fn lemma_first_dots(toks: Seq<PatTokV>, n: int)
    requires
        0 <= n <= toks.len(),
    ensures
        first_dots(toks, n) matches Some(i) ==> 0 <= i < n && toks[i] is Dots,
        first_dots(toks, n) is None ==> forall|j: int| 0 <= j < n ==> !(#[trigger] toks[j] is Dots),
    decreases n,
{
    if n > 0 {
        lemma_first_dots(toks, n - 1);
    }
}

proof fn lemma_first_dots_prefix(toks: Seq<PatTokV>, n: int, m: int)
    requires
        0 <= n <= m <= toks.len(),
        first_dots(toks, n) is Some,
    ensures
        first_dots(toks, m) == first_dots(toks, n),
    decreases m - n,
{
    if m > n {
        lemma_first_dots_prefix(toks, n, m - 1);
    }
}

// ---------------------------------------------------------------------------
// Implementation

/// The `n` of a list nonterminal name `__ott_list_n`.
fn list_name_of(c: usize) -> (r: String)
    ensures
        r@ == list_name(c),
{
    let mut s = "__ott_list_".to_owned();
    push_decimal(&mut s, c);
    s
}

fn unlabelled_of(item: &Vec<RhsItem>) -> (r: Vec<RhsItem>)
    ensures
        rhs_view(r) == unlabelled(rhs_view(*item)),
{
    let ghost iv = rhs_view(*item);
    let mut out: Vec<RhsItem> = Vec::new();
    let mut k: usize = 0;
    while k < item.len()
        invariant
            k <= item@.len(),
            iv == rhs_view(*item),
            rhs_view(out) == unlabelled(iv.take(k as int)),
        decreases item@.len() - k,
    {
        assert(iv[k as int] == item@[k as int]@);
        let ghost before = rhs_view(out);
        out.push(RhsItem { sym: clone_sym(&item[k].sym), label: None });
        assert(rhs_view(out) =~= before.push(RhsItemV { sym: iv[k as int].sym, label: None }));
        assert(unlabelled(iv.take(k + 1)) =~= unlabelled(iv.take(k as int)).push(
            RhsItemV { sym: iv[k as int].sym, label: None },
        ));
        k = k + 1;
    }
    assert(iv.take(item@.len() as int) =~= iv);
    out
}

fn contains_str(v: &Vec<String>, s: &String) -> (b: bool)
    ensures
        b == v@.map_values(|t: String| t@).contains(s@),
{
    let ghost w = v@.map_values(|t: String| t@);
    let mut k: usize = 0;
    while k < v.len()
        invariant
            k <= v@.len(),
            w == v@.map_values(|t: String| t@),
            forall|j: int| 0 <= j < k ==> w[j] != s@,
        decreases v@.len() - k,
    {
        assert(w[k as int] == v@[k as int]@);
        if v[k] == *s {
            return true;
        }
        k = k + 1;
    }
    false
}

impl GrammarBuilder {
    pub fn new(root_alias: Vec<(String, String)>, metavar_alias: Vec<(String, String)>) -> (b: Self)
        ensures
            b@ == (BuilderV {
                root_alias: map_view(root_alias),
                metavar_alias: map_view(metavar_alias),
                prods: Seq::empty(),
                terminals: Seq::empty(),
                counter: 0,
            }),
    {
        let b = GrammarBuilder {
            root_alias,
            metavar_alias,
            grammar: Grammar { prods: Vec::new() },
            terminals: Vec::new(),
            list_counter: 0,
        };
        assert(b@.prods =~= Seq::<ProdV>::empty());
        assert(b@.terminals =~= Seq::<Seq<char>>::empty());
        b
    }

    /// Adds the production `lhs ::= rhs`, noting its terminals.
    pub fn add_prod(&mut self, lhs: String, rhs: Vec<RhsItem>, typst: Option<Template>)
        ensures
            final(self)@ == add_prod(old(self)@, lhs@, rhs_view(rhs), template_view(typst)),
    {
        let ghost rv = rhs_view(rhs);
        let ghost t0 = self@.terminals;
        let mut k: usize = 0;
        while k < rhs.len()
            invariant
                k <= rhs@.len(),
                rv == rhs_view(rhs),
                self@.terminals == add_terminals(t0, rv, k as int),
                self.root_alias == old(self).root_alias,
                self.metavar_alias == old(self).metavar_alias,
                self.grammar == old(self).grammar,
                self.list_counter == old(self).list_counter,
                t0 == old(self)@.terminals,
            decreases rhs@.len() - k,
        {
            assert(rv[k as int] == rhs@[k as int]@);
            match &rhs[k].sym {
                Sym::Terminal(t) => {
                    if t.as_str().unicode_len() > 0 && !contains_str(&self.terminals, t) {
                        let ghost before = self@.terminals;
                        self.terminals.push(t.clone());
                        assert(self@.terminals =~= before.push(t@));
                    }
                },
                _ => {},
            }
            k = k + 1;
        }
        let ghost p0 = self.grammar@;
        let ghost pv = ProdV { lhs: lhs@, rhs: rv, typst: template_view(typst) };
        self.grammar.prods.push(Prod { lhs, rhs, typst });
        assert(self.grammar@ =~= p0.push(pv));
    }

    /// Makes the name of a fresh list nonterminal.
    pub fn fresh_list_nonterminal(&mut self) -> (r: String)
        ensures
            final(self)@ == (BuilderV { counter: next_counter(old(self)@.counter), ..old(self)@ }),
            r@ == list_name(final(self)@.counter),
    {
        self.list_counter = self.list_counter.wrapping_add(1);
        list_name_of(self.list_counter)
    }

    /// Defines the list nonterminal `nt` for one or more `item`s separated by `sep`.
    pub fn define_list_nonterminal(&mut self, nt: &String, item: &Vec<RhsItem>, sep: Option<String>)
        ensures
            final(self)@ == define_list(old(self)@, nt@, rhs_view(*item), match sep {
                Some(s) => Some(s@),
                None => None,
            }),
    {
        let mut tail = nt.clone();
        tail.append("__tail");
        let syms = unlabelled_of(item);
        let ghost sv = rhs_view(syms);
        let mut rhs = unlabelled_of(item);
        let ghost r0 = rhs_view(rhs);
        rhs.push(RhsItem { sym: Sym::Nonterminal(tail.clone()), label: None });
        assert(rhs_view(rhs) =~= r0.push(nt_item(tail@)));
        self.add_prod(nt.clone(), rhs, None);
        let empty: Vec<RhsItem> = Vec::new();
        assert(rhs_view(empty) =~= Seq::<RhsItemV>::empty());
        self.add_prod(tail.clone(), empty, None);
        let mut rhs2: Vec<RhsItem> = Vec::new();
        let ghost lead = match &sep {
            Some(s) => seq![RhsItemV { sym: SymV::Terminal(s@), label: None }],
            None => Seq::<RhsItemV>::empty(),
        };
        match &sep {
            Some(s) => {
                rhs2.push(RhsItem { sym: Sym::Terminal(s.clone()), label: None });
            },
            None => {},
        }
        assert(rhs_view(rhs2) =~= lead);
        let mut k: usize = 0;
        while k < syms.len()
            invariant
                k <= syms@.len(),
                sv == rhs_view(syms),
                rhs_view(rhs2) == lead + sv.take(k as int),
            decreases syms@.len() - k,
        {
            let ghost before = rhs_view(rhs2);
            let c = clone_item(&syms[k]);
            rhs2.push(c);
            assert(rhs_view(rhs2) =~= before.push(sv[k as int]));
            assert(lead + sv.take(k + 1) =~= (lead + sv.take(k as int)).push(sv[k as int]));
            k = k + 1;
        }
        assert(sv.take(syms@.len() as int) =~= sv);
        let ghost r2 = rhs_view(rhs2);
        rhs2.push(RhsItem { sym: Sym::Nonterminal(tail.clone()), label: None });
        assert(rhs_view(rhs2) =~= r2.push(nt_item(tail@)));
        self.add_prod(tail, rhs2, None);
    }

    /// How the pattern word `raw` is read.
    pub fn classify_atom(&self, raw: &[char]) -> (r: RhsItem)
        ensures
            r@ == classify(self@, raw@),
    {
        let t = trim_of(raw);
        let tok = dequote_of(t.as_slice());
        let tok_s = string_from_chars(tok.as_slice());
        if tok.len() == 0 {
            return RhsItem { sym: Sym::Terminal(String::new()), label: None };
        }
        match map_get(&self.root_alias, &tok_s) {
            Some(c) => {
                return RhsItem { sym: Sym::Nonterminal(c), label: Some(tok_s) };
            },
            None => {},
        }
        match map_get(&self.metavar_alias, &tok_s) {
            Some(c) => {
                return RhsItem { sym: Sym::Metavar(c), label: Some(tok_s) };
            },
            None => {},
        }
        match index_suffix_base(tok.as_slice()) {
            Some(base) => {
                let base_s = string_from_chars(base.as_slice());
                match map_get(&self.root_alias, &base_s) {
                    Some(c) => {
                        return RhsItem { sym: Sym::Nonterminal(c), label: Some(tok_s) };
                    },
                    None => {},
                }
                match map_get(&self.metavar_alias, &base_s) {
                    Some(c) => {
                        return RhsItem { sym: Sym::Metavar(c), label: Some(tok_s) };
                    },
                    None => {},
                }
            },
            None => {},
        }
        RhsItem { sym: Sym::Terminal(tok_s), label: None }
    }
}

pub open spec fn words_view(raw: Vec<Vec<char>>) -> Seq<Seq<char>> {
    raw@.map_values(|w: Vec<char>| w@)
}

pub open spec fn prepend_pat(p: Seq<PatTokV>, r: Result<(BuilderV, Seq<PatTokV>), OttErrV>) -> Result<(BuilderV, Seq<PatTokV>), OttErrV> {
    match r {
        Ok((b, rest)) => Ok((b, p + rest)),
        Err(e) => Err(e),
    }
}

proof fn lemma_best_align(la: Seq<RhsItemV>, ra: Seq<RhsItemV>, m: int)
    ensures
        best_align(la, ra, m) matches Some(k) ==> 1 <= k <= m && aligned(la, ra, k),
    decreases m,
{
    if m >= 1 && !aligned(la, ra, m) {
        lemma_best_align(la, ra, m - 1);
    }
}

proof fn lemma_expand_shrinks(b: BuilderV, toks: Seq<PatTokV>, idx: int)
    requires
        0 <= idx < toks.len(),
    ensures
        expand_once(b, toks, idx) matches Ok((_, t2)) ==> t2.len() < toks.len(),
{
    let sep = dots_sep(toks, idx);
    let left = if sep is Some { toks.subrange(0, idx - 1) } else { toks.subrange(0, idx) };
    let right = if sep is Some {
        toks.subrange(idx + 2, toks.len() as int)
    } else {
        toks.subrange(idx + 1, toks.len() as int)
    };
    lemma_atoms_len(left);
    lemma_atoms_len(right);
    let la = atoms(left);
    let ra = atoms(right);
    let m = if la.len() <= ra.len() { la.len() as int } else { ra.len() as int };
    lemma_best_align(la, ra, m);
}

impl GrammarBuilder {
    /// Reads the comprehension form that starts at word `start` (`</`).
    pub fn compile_comp_form(&mut self, raw: &Vec<Vec<char>>, start: usize) -> (r: Result<(RhsItem, usize), OttError>)
        requires
            start < raw@.len(),
        ensures
            match comp_form(old(self)@, words_view(*raw), start as int) {
                Ok((b2, item, nx)) => r matches Ok((x, n)) && x@ == item && n == nx && final(self)@ == b2,
                Err(e) => r matches Err(x) && x@ == e,
            },
            r matches Ok((_, n)) ==> start < n <= raw@.len(),
    {
        let ghost rv = words_view(*raw);
        let _n = raw.len();
        let dslash = ['/', '/'];
        let close = ['/', '>'];
        proof {
            reveal_strlit("//");
            reveal_strlit("/>");
            assert(dslash@ =~= "//"@);
            assert(close@ =~= "/>"@);
        }
        let mut i = start + 1;
        while i < raw.len() && !eq_chars(raw[i].as_slice(), &dslash)
            invariant
                start + 1 <= i <= raw@.len(),
                rv == words_view(*raw),
                dslash@ == "//"@,
                find_word(rv, "//"@, i as int) == find_word(rv, "//"@, start + 1),
            decreases raw@.len() - i,
        {
            assert(rv[i as int] == raw@[i as int]@);
            i = i + 1;
        }
        proof {
            if i < raw@.len() {
                assert(rv[i as int] == raw@[i as int]@);
            }
        }
        if i >= raw.len() {
            return Err(error_plain("unterminated comprehension form: expected `//`"));
        }
        if i + 1 >= raw.len() {
            return Err(error_plain("unterminated comprehension form: expected bound or separator"));
        }
        let has_sep = i + 2 < raw.len() && eq_chars(raw[i + 2].as_slice(), &dslash);
        proof {
            if i + 2 < raw@.len() {
                assert(rv[i + 2] == raw@[i + 2]@);
            }
            assert(rv[i + 1] == raw@[i + 1]@);
        }
        let sep = if has_sep {
            Some(string_from_chars(dequote_of(raw[i + 1].as_slice()).as_slice()))
        } else {
            None
        };
        let k = if has_sep { i + 3 } else { i + 1 };
        let mut c = k;
        while c < raw.len() && !eq_chars(raw[c].as_slice(), &close)
            invariant
                k <= c <= raw@.len(),
                rv == words_view(*raw),
                close@ == "/>"@,
                find_word(rv, "/>"@, c as int) == find_word(rv, "/>"@, k as int),
            decreases raw@.len() - c,
        {
            assert(rv[c as int] == raw@[c as int]@);
            c = c + 1;
        }
        proof {
            if c < raw@.len() {
                assert(rv[c as int] == raw@[c as int]@);
            }
        }
        if c >= raw.len() {
            return Err(error_plain("unterminated comprehension form: expected `/>`"));
        }
        let mut item: Vec<RhsItem> = Vec::new();
        let mut j = start + 1;
        let ghost b0 = self@;
        while j < i
            invariant
                start + 1 <= j <= i < raw@.len(),
                rv == words_view(*raw),
                self@ == b0,
                rhs_view(item) == classify_all(b0, rv.subrange(start + 1, j as int)),
            decreases i - j,
        {
            let a = self.classify_atom(raw[j].as_slice());
            let ghost before = rhs_view(item);
            item.push(a);
            assert(rv[j as int] == raw@[j as int]@);
            assert(rhs_view(item) =~= before.push(classify(b0, rv[j as int])));
            assert(classify_all(b0, rv.subrange(start + 1, j + 1)) =~= classify_all(b0, rv.subrange(start + 1, j as int)).push(
                classify(b0, rv[j as int]),
            ));
            j = j + 1;
        }
        if item.len() == 0 {
            return Err(error_plain("empty comprehension item pattern"));
        }
        let nt = self.fresh_list_nonterminal();
        self.define_list_nonterminal(&nt, &item, sep);
        Ok((RhsItem { sym: Sym::Nonterminal(nt), label: None }, c + 1))
    }

    /// The tokens of the pattern words `raw`.
    pub fn compile_pattern_tokens(&mut self, raw: &Vec<Vec<char>>) -> (r: Result<Vec<PatToken>, OttError>)
        ensures
            match pattern_tokens(old(self)@, words_view(*raw), 0) {
                Ok((b2, toks)) => r matches Ok(v) && toks_view(v) == toks && final(self)@ == b2,
                Err(e) => r matches Err(x) && x@ == e,
            },
    {
        let ghost rv = words_view(*raw);
        let ghost b0 = self@;
        let d2 = ['.', '.'];
        let d3 = ['.', '.', '.'];
        let d4 = ['.', '.', '.', '.'];
        let open = ['<', '/'];
        proof {
            reveal_strlit("..");
            reveal_strlit("...");
            reveal_strlit("....");
            reveal_strlit("</");
            assert(d2@ =~= ".."@);
            assert(d3@ =~= "..."@);
            assert(d4@ =~= "...."@);
            assert(open@ =~= "</"@);
        }
        let mut out: Vec<PatToken> = Vec::new();
        let mut i: usize = 0;
        assert(toks_view(out) =~= Seq::<PatTokV>::empty());
        proof {
            match pattern_tokens(b0, rv, 0) {
                Ok((b, rest)) => {
                    assert(Seq::<PatTokV>::empty() + rest =~= rest);
                },
                Err(_) => {},
            }
        }
        while i < raw.len()
            invariant
                i <= raw@.len(),
                rv == words_view(*raw),
                b0 == old(self)@,
                d2@ == ".."@,
                d3@ == "..."@,
                d4@ == "...."@,
                open@ == "</"@,
                pattern_tokens(b0, rv, 0) == prepend_pat(toks_view(out), pattern_tokens(self@, rv, i as int)),
            decreases raw@.len() - i,
        {
            let ghost ov = toks_view(out);
            let ghost bi = self@;
            let w = raw[i].as_slice();
            assert(rv[i as int] == w@);
            if eq_chars(w, &d2) || eq_chars(w, &d3) || eq_chars(w, &d4) {
                let d: u8 = if eq_chars(w, &d2) { 2 } else if eq_chars(w, &d3) { 3 } else { 4 };
                out.push(PatToken::Dots(d));
                assert(toks_view(out) =~= ov.push(PatTokV::Dots(d)));
                proof {
                    match pattern_tokens(bi, rv, i + 1) {
                        Ok((b, rest)) => {
                            assert(ov + (seq![PatTokV::Dots(d)] + rest) =~= ov.push(PatTokV::Dots(d)) + rest);
                        },
                        Err(_) => {},
                    }
                }
                i = i + 1;
            } else if eq_chars(w, &open) {
                match self.compile_comp_form(raw, i) {
                    Err(e) => {
                        return Err(e);
                    },
                    Ok((item, nx)) => {
                        let ghost iv = item@;
                        out.push(PatToken::Atom(item));
                        assert(toks_view(out) =~= ov.push(PatTokV::Atom(iv)));
                        proof {
                            match pattern_tokens(self@, rv, nx as int) {
                                Ok((b, rest)) => {
                                    assert(ov + (seq![PatTokV::Atom(iv)] + rest) =~= ov.push(PatTokV::Atom(iv)) + rest);
                                },
                                Err(_) => {},
                            }
                        }
                        i = nx;
                    },
                }
            } else {
                let a = self.classify_atom(w);
                let ghost av = a@;
                out.push(PatToken::Atom(a));
                assert(toks_view(out) =~= ov.push(PatTokV::Atom(av)));
                proof {
                    match pattern_tokens(bi, rv, i + 1) {
                        Ok((b, rest)) => {
                            assert(ov + (seq![PatTokV::Atom(av)] + rest) =~= ov.push(PatTokV::Atom(av)) + rest);
                        },
                        Err(_) => {},
                    }
                }
                i = i + 1;
            }
        }
        assert(toks_view(out) + Seq::<PatTokV>::empty() =~= toks_view(out));
        Ok(out)
    }
}

/// The atoms among `toks[a..b]`.
fn atoms_of(toks: &Vec<PatToken>, a: usize, b: usize) -> (r: Vec<RhsItem>)
    requires
        a <= b <= toks@.len(),
    ensures
        rhs_view(r) == atoms(toks_view(*toks).subrange(a as int, b as int)),
{
    let ghost tv = toks_view(*toks);
    let mut out: Vec<RhsItem> = Vec::new();
    let mut j = a;
    assert(tv.subrange(a as int, a as int) =~= Seq::<PatTokV>::empty());
    assert(rhs_view(out) =~= Seq::<RhsItemV>::empty());
    while j < b
        invariant
            a <= j <= b <= toks@.len(),
            tv == toks_view(*toks),
            rhs_view(out) == atoms(tv.subrange(a as int, j as int)),
        decreases b - j,
    {
        assert(tv.subrange(a as int, j + 1) =~= tv.subrange(a as int, j as int).push(tv[j as int]));
        proof {
            lemma_atoms_push(tv.subrange(a as int, j as int), tv[j as int]);
        }
        assert(tv[j as int] == toks@[j as int]@);
        match &toks[j] {
            PatToken::Atom(x) => {
                let ghost before = rhs_view(out);
                out.push(clone_item(x));
                assert(rhs_view(out) =~= before.push(x@));
            },
            PatToken::Dots(_) => {},
        }
        j = j + 1;
    }
    out
}

fn items_to_toks(items: &Vec<RhsItem>, a: usize, b: usize, out: &mut Vec<PatToken>)
    requires
        a <= b <= items@.len(),
    ensures
        toks_view(*final(out)) == toks_view(*old(out)) + as_toks(rhs_view(*items).subrange(a as int, b as int)),
{
    let ghost iv = rhs_view(*items);
    let ghost o0 = toks_view(*out);
    let mut j = a;
    assert(o0 + as_toks(iv.subrange(a as int, a as int)) =~= o0);
    while j < b
        invariant
            a <= j <= b <= items@.len(),
            iv == rhs_view(*items),
            o0 == toks_view(*old(out)),
            toks_view(*out) == o0 + as_toks(iv.subrange(a as int, j as int)),
        decreases b - j,
    {
        let ghost before = toks_view(*out);
        assert(iv[j as int] == items@[j as int]@);
        out.push(PatToken::Atom(clone_item(&items[j])));
        assert(toks_view(*out) =~= before.push(PatTokV::Atom(iv[j as int])));
        assert(as_toks(iv.subrange(a as int, j + 1)) =~= as_toks(iv.subrange(a as int, j as int)).push(
            PatTokV::Atom(iv[j as int]),
        ));
        j = j + 1;
    }
}

/// Whether the last `c` atoms of `la` have the symbols of the first `c` of `ra`.
fn aligned_of(la: &Vec<RhsItem>, ra: &Vec<RhsItem>, c: usize) -> (r: bool)
    requires
        c <= la@.len(),
        c <= ra@.len(),
    ensures
        r == aligned(rhs_view(*la), rhs_view(*ra), c as int),
{
    let ghost lv = rhs_view(*la);
    let ghost rv = rhs_view(*ra);
    let lstart = la.len() - c;
    let mut j: usize = 0;
    while j < c
        invariant
            j <= c <= la@.len(),
            c <= ra@.len(),
            lstart == la@.len() - c,
            la@.len() <= usize::MAX,
            lv == rhs_view(*la),
            rv == rhs_view(*ra),
            forall|q: int| 0 <= q < j ==> (#[trigger] lv[lv.len() - c + q]).sym == rv[q].sym,
        decreases c - j,
    {
        assert(lv[lstart + j] == la@[lstart + j]@);
        assert(rv[j as int] == ra@[j as int]@);
        if !sym_eq(&la[lstart + j].sym, &ra[j].sym) {
            assert(lv[lv.len() - c + j] == lv[lstart + j]);
            return false;
        }
        j = j + 1;
    }
    true
}

impl GrammarBuilder {
    /// Replaces the dot form at `idx` by a list nonterminal.
    pub fn expand_dots_once(&mut self, toks: &Vec<PatToken>, idx: usize) -> (r: Result<Vec<PatToken>, OttError>)
        requires
            idx < toks@.len(),
        ensures
            match expand_once(old(self)@, toks_view(*toks), idx as int) {
                Ok((b2, t2)) => r matches Ok(v) && toks_view(v) == t2 && final(self)@ == b2,
                Err(e) => r matches Err(x) && x@ == e,
            },
    {
        let ghost tv = toks_view(*toks);
        let n = toks.len();
        let mut sep: Option<String> = None;
        if idx >= 1 && idx + 1 < n {
            match &toks[idx - 1] {
                PatToken::Atom(a) => {
                    match &a.sym {
                        Sym::Terminal(t) => {
                            let other = match &toks[idx + 1] {
                                PatToken::Atom(b) => clone_sym(&b.sym),
                                PatToken::Dots(_) => Sym::Terminal(String::new()),
                            };
                            if sym_eq(&a.sym, &other) {
                                sep = Some(t.clone());
                            }
                        },
                        _ => {},
                    }
                },
                PatToken::Dots(_) => {},
            }
        }
        proof {
            if idx >= 1 && idx + 1 < n {
                assert(tv[idx - 1] == toks@[idx - 1]@);
                assert(tv[idx + 1] == toks@[idx + 1]@);
            }
        }
        assert(match sep {
            Some(x) => dots_sep(tv, idx as int) == Some(x@),
            None => dots_sep(tv, idx as int) is None,
        });
        let has_sep = sep.is_some();
        let left_end = if has_sep { idx - 1 } else { idx };
        let right_start = if has_sep { idx + 2 } else { idx + 1 };
        let la = atoms_of(toks, 0, left_end);
        let ra = atoms_of(toks, right_start, n);
        let ghost lav = rhs_view(la);
        let ghost rav = rhs_view(ra);
        let m = if la.len() <= ra.len() { la.len() } else { ra.len() };
        let mut cand = m;
        while cand >= 1 && !aligned_of(&la, &ra, cand)
            invariant
                cand <= m,
                m <= la@.len(),
                m <= ra@.len(),
                lav == rhs_view(la),
                rav == rhs_view(ra),
                best_align(lav, rav, cand as int) == best_align(lav, rav, m as int),
            decreases cand,
        {
            cand = cand - 1;
        }
        if cand < 1 {
            return Err(error_plain("cannot interpret dot-form list: failed to align left/right patterns"));
        }
        let k = cand;
        let nt = self.fresh_list_nonterminal();
        let item = atoms_of_items(&la, la.len() - k, la.len());
        self.define_list_nonterminal(&nt, &item, sep);
        let mut out: Vec<PatToken> = Vec::new();
        assert(toks_view(out) =~= Seq::<PatTokV>::empty());
        items_to_toks(&la, 0, la.len() - k, &mut out);
        let ghost o1 = toks_view(out);
        out.push(PatToken::Atom(RhsItem { sym: Sym::Nonterminal(nt), label: None }));
        let ghost o2 = toks_view(out);
        assert(o2 =~= o1.push(PatTokV::Atom(nt_item(list_name(self@.counter)))));
        items_to_toks(&ra, k, ra.len(), &mut out);
        assert(Seq::<PatTokV>::empty() + as_toks(lav.subrange(0, lav.len() - k)) =~= as_toks(lav.subrange(0, lav.len() - k)));
        Ok(out)
    }

    /// Compiles the production `lhs ::= pattern`.
    pub fn compile_production(&mut self, lhs: &String, pattern: &String, typst: Option<Template>) -> (r: Result<(), OttError>)
        ensures
            match compile_prod(old(self)@, lhs@, pattern@, template_view(typst)) {
                Ok(b2) => r is Ok && final(self)@ == b2,
                Err(e) => r matches Err(x) && x@ == e,
            },
    {
        let chars = chars_of(pattern.as_str());
        let raw = words_of(chars.as_slice());
        assert(words_view(raw) == words(pattern@));
        let mut toks = match self.compile_pattern_tokens(&raw) {
            Ok(t) => t,
            Err(e) => {
                return Err(e);
            },
        };
        let ghost b1 = self@;
        let ghost t1 = toks_view(toks);
        loop
            invariant
                expand_all(b1, t1) == expand_all(self@, toks_view(toks)),
                pattern_tokens(old(self)@, words(pattern@), 0) == Ok::<(BuilderV, Seq<PatTokV>), OttErrV>((b1, t1)),
            ensures
                first_dots(toks_view(toks), toks@.len() as int) is None,
            decreases toks@.len(),
        {
            let ghost tv = toks_view(toks);
            let mut idx: usize = 0;
            while idx < toks.len() && !is_dots(&toks[idx])
                invariant
                    idx <= toks@.len(),
                    tv == toks_view(toks),
                    first_dots(tv, idx as int) is None,
                decreases toks@.len() - idx,
            {
                assert(tv[idx as int] == toks@[idx as int]@);
                assert(first_dots(tv, idx + 1) is None);
                idx = idx + 1;
            }
            if idx >= toks.len() {
                break;
            }
            assert(tv[idx as int] == toks@[idx as int]@);
            assert(first_dots(tv, idx + 1) == Some(idx as int));
            proof {
                lemma_first_dots_prefix(tv, idx + 1, tv.len() as int);
                lemma_expand_shrinks(self@, tv, idx as int);
            }
            toks = match self.expand_dots_once(&toks, idx) {
                Ok(t) => t,
                Err(e) => {
                    return Err(e);
                },
            };
        }
        let n = toks.len();
        let rhs = atoms_of(&toks, 0, n);
        assert(toks_view(toks).subrange(0, n as int) =~= toks_view(toks));
        self.add_prod(lhs.clone(), rhs, typst);
        Ok(())
    }
}

fn is_dots(t: &PatToken) -> (r: bool)
    ensures
        r == (t@ is Dots),
{
    match t {
        PatToken::Dots(_) => true,
        PatToken::Atom(_) => false,
    }
}

/// A copy of `items[a..b]`.
fn atoms_of_items(items: &Vec<RhsItem>, a: usize, b: usize) -> (r: Vec<RhsItem>)
    requires
        a <= b <= items@.len(),
    ensures
        rhs_view(r) == rhs_view(*items).subrange(a as int, b as int),
{
    let ghost iv = rhs_view(*items);
    let mut out: Vec<RhsItem> = Vec::new();
    let mut j = a;
    assert(rhs_view(out) =~= iv.subrange(a as int, a as int));
    while j < b
        invariant
            a <= j <= b <= items@.len(),
            iv == rhs_view(*items),
            rhs_view(out) == iv.subrange(a as int, j as int),
        decreases b - j,
    {
        let ghost before = rhs_view(out);
        assert(iv[j as int] == items@[j as int]@);
        out.push(clone_item(&items[j]));
        assert(rhs_view(out) =~= before.push(iv[j as int]));
        assert(iv.subrange(a as int, j + 1) =~= iv.subrange(a as int, j as int).push(iv[j as int]));
        j = j + 1;
    }
    out
}

// ---------------------------------------------------------------------------
// Metavariables

/// Whether `regex::Regex::new` accepts `pattern` (it is well formed and its
/// compiled form stays within the default size limit).
pub uninterp spec fn regex_accepts(pattern: Seq<char>) -> bool;

/// Whether the regex that `pattern` compiles to matches somewhere in `text`.
pub uninterp spec fn regex_finds(pattern: Seq<char>, text: Seq<char>) -> bool;

/// Calls `regex::Regex::new`; the result says whether it succeeded.
#[verifier::external_body]
pub(crate) fn regex_compiles(pattern: &str) -> (r: bool)
    ensures
        r == regex_accepts(pattern@),
{
    regex::Regex::new(pattern).is_ok()
}

/// Calls `regex::Regex::is_match` on the regex that `regex::Regex::new`
/// builds from `pattern`.
#[verifier::external_body]
fn regex_is_match(pattern: &str, text: &str) -> (r: bool)
    requires
        regex_accepts(pattern@),
    ensures
        r == regex_finds(pattern@, text@),
{
    match regex::Regex::new(pattern) {
        Ok(re) => re.is_match(text),
        Err(_) => false,
    }
}

/// How the words of a metavariable are recognised: a built-in class, or a
/// regex (held as its anchored pattern `^(?:...)$`).
#[derive(Debug, Clone)]
pub enum LexPattern {
    Builtin(BuiltinLex),
    Regex(String),
}

pub enum LexPatternV {
    Builtin(BuiltinLex),
    Regex(Seq<char>),
}

impl View for LexPattern {
    type V = LexPatternV;

    open spec fn view(&self) -> LexPatternV {
        match *self {
            LexPattern::Builtin(b) => LexPatternV::Builtin(b),
            LexPattern::Regex(r) => LexPatternV::Regex(r@),
        }
    }
}

/// A regex pattern is held only once `regex::Regex::new` has accepted it.
pub open spec fn lex_wf(p: LexPatternV) -> bool {
    p matches LexPatternV::Regex(r) ==> regex_accepts(r)
}

pub open spec fn lex_ok(p: LexPatternV, w: Seq<char>) -> bool {
    match p {
        LexPatternV::Builtin(b) => builtin_matches(b, w),
        LexPatternV::Regex(r) => regex_finds(r, w),
    }
}

impl LexPattern {
    pub fn matches(&self, w: &String) -> (r: bool)
        requires
            lex_wf(self@),
        ensures
            r == lex_ok(self@, w@),
    {
        match self {
            LexPattern::Builtin(b) => {
                let cs = chars_of(w.as_str());
                b.matches(cs.as_slice())
            },
            LexPattern::Regex(re) => {
                assert(self@ == LexPatternV::Regex(re@));
                let pat = re.as_str();
                assert(pat@ == re@);
                regex_is_match(pat, w.as_str())
            },
        }
    }
}

#[derive(Debug, Clone)]
pub struct MetavarDef {
    pub lex: LexPattern,
    pub typst: Option<Template>,
    /// Canonical name and synonyms, all dequoted.
    pub names: Vec<String>,
}

pub struct MetavarDefV {
    pub lex: LexPatternV,
    pub typst: Option<Seq<PartV>>,
    pub names: Seq<Seq<char>>,
}

impl View for MetavarDef {
    type V = MetavarDefV;

    open spec fn view(&self) -> MetavarDefV {
        MetavarDefV { lex: self.lex@, typst: template_view(self.typst), names: self.names@.map_values(|n: String| n@) }
    }
}

pub open spec fn defs_view(d: Vec<(String, MetavarDef)>) -> Seq<(Seq<char>, MetavarDefV)> {
    d@.map_values(|e: (String, MetavarDef)| (e.0@, e.1@))
}

/// The definition of sort `s`: its first entry.
pub open spec fn mv_lookup(defs: Seq<(Seq<char>, MetavarDefV)>, s: Seq<char>) -> Option<MetavarDefV>
    decreases defs.len(),
{
    if defs.len() == 0 {
        None
    } else if defs[0].0 == s {
        Some(defs[0].1)
    } else {
        mv_lookup(defs.drop_first(), s)
    }
}

/// Every held regex was accepted.
/// `sym` is a metavariable whose sort has no lexical class.
pub open spec fn sort_missing(mvs: Seq<(Seq<char>, MetavarDefV)>, sym: SymV) -> bool {
    match sym {
        SymV::Metavar(s) => mv_lookup(mvs, s) is None,
        _ => false,
    }
}

/// Some production holds a metavariable whose sort has no lexical class.
pub open spec fn lex_missing(g: Seq<ProdV>, mvs: Seq<(Seq<char>, MetavarDefV)>) -> bool {
    exists|pid: int, d: int| 0 <= pid < g.len() && 0 <= d < g[pid].rhs.len() && sort_missing(mvs, #[trigger] g[pid].rhs[d].sym)
}

// ---------------------------------------------------------------------------
// Every metavariable of a compiled grammar has a lexical class

/// Every value of the name map `m` is a sort that `defs` defines.
pub open spec fn values_defined(m: Seq<(Seq<char>, Seq<char>)>, defs: Seq<(Seq<char>, MetavarDefV)>) -> bool {
    forall|i: int| 0 <= i < m.len() ==> mv_lookup(defs, (#[trigger] m[i]).1) is Some
}

/// No item of `items` is a metavariable of a sort that `defs` leaves out.
pub open spec fn items_defined(items: Seq<RhsItemV>, defs: Seq<(Seq<char>, MetavarDefV)>) -> bool {
    forall|i: int| 0 <= i < items.len() ==> !sort_missing(defs, (#[trigger] items[i]).sym)
}

/// No atom of `toks` is a metavariable of a sort that `defs` leaves out.
pub open spec fn toks_defined(toks: Seq<PatTokV>, defs: Seq<(Seq<char>, MetavarDefV)>) -> bool {
    forall|i: int| 0 <= i < toks.len() ==> match #[trigger] toks[i] {
        PatTokV::Atom(a) => !sort_missing(defs, a.sym),
        PatTokV::Dots(_) => true,
    }
}

/// The builder resolves metavariable names to sorts that `defs` defines, and
/// its productions hold no other metavariables.
pub open spec fn builder_defined(b: BuilderV, defs: Seq<(Seq<char>, MetavarDefV)>) -> bool {
    values_defined(b.metavar_alias, defs) && !lex_missing(b.prods, defs)
}

proof fn lemma_lookup_defined(m: Seq<(Seq<char>, Seq<char>)>, k: Seq<char>, defs: Seq<(Seq<char>, MetavarDefV)>)
    requires
        values_defined(m, defs),
    ensures
        env_lookup(m, k) matches Some(v) ==> mv_lookup(defs, v) is Some,
    decreases m.len(),
{
    if m.len() > 0 {
        assert(mv_lookup(defs, m[0].1) is Some);
        if m[0].0 != k {
            assert forall|i: int| 0 <= i < m.drop_first().len() implies mv_lookup(defs, (#[trigger] m.drop_first()[i]).1) is Some by {
                assert(m.drop_first()[i] == m[i + 1]);
            }
            lemma_lookup_defined(m.drop_first(), k, defs);
        }
    }
}

proof fn lemma_classify_defined(b: BuilderV, raw: Seq<char>, defs: Seq<(Seq<char>, MetavarDefV)>)
    requires
        values_defined(b.metavar_alias, defs),
    ensures
        !sort_missing(defs, classify(b, raw).sym),
{
    let tok = dequote(trim(raw));
    lemma_lookup_defined(b.metavar_alias, tok, defs);
    match index_suffix(tok) {
        Some((base, _)) => {
            lemma_lookup_defined(b.metavar_alias, base, defs);
        },
        None => {},
    }
}

proof fn lemma_add_prod_defined(
    b: BuilderV,
    lhs: Seq<char>,
    rhs: Seq<RhsItemV>,
    typst: Option<Seq<PartV>>,
    defs: Seq<(Seq<char>, MetavarDefV)>,
)
    requires
        builder_defined(b, defs),
        items_defined(rhs, defs),
    ensures
        builder_defined(add_prod(b, lhs, rhs, typst), defs),
{
    let b2 = add_prod(b, lhs, rhs, typst);
    assert forall|p: int, d: int| 0 <= p < b2.prods.len() && 0 <= d < b2.prods[p].rhs.len() implies !sort_missing(
        defs,
        #[trigger] b2.prods[p].rhs[d].sym,
    ) by {
        if p < b.prods.len() {
            assert(b2.prods[p] == b.prods[p]);
        } else {
            assert(b2.prods[p].rhs == rhs);
            assert(!sort_missing(defs, rhs[d].sym));
        }
    }
}

proof fn lemma_define_list_defined(
    b: BuilderV,
    nt: Seq<char>,
    item: Seq<RhsItemV>,
    sep: Option<Seq<char>>,
    defs: Seq<(Seq<char>, MetavarDefV)>,
)
    requires
        builder_defined(b, defs),
        items_defined(item, defs),
    ensures
        builder_defined(define_list(b, nt, item, sep), defs),
{
    let tail = nt + "__tail"@;
    let syms = unlabelled(item);
    assert(items_defined(syms, defs)) by {
        assert forall|i: int| 0 <= i < syms.len() implies !sort_missing(defs, (#[trigger] syms[i]).sym) by {
            assert(!sort_missing(defs, item[i].sym));
        }
    }
    let r1 = syms.push(nt_item(tail));
    assert(items_defined(r1, defs)) by {
        assert forall|i: int| 0 <= i < r1.len() implies !sort_missing(defs, (#[trigger] r1[i]).sym) by {
            if i < syms.len() {
                assert(r1[i] == syms[i]);
            }
        }
    }
    lemma_add_prod_defined(b, nt, r1, None, defs);
    let b1 = add_prod(b, nt, r1, None);
    assert(items_defined(Seq::<RhsItemV>::empty(), defs));
    lemma_add_prod_defined(b1, tail, Seq::empty(), None, defs);
    let b2 = add_prod(b1, tail, Seq::empty(), None);
    let lead = match sep {
        Some(s) => seq![RhsItemV { sym: SymV::Terminal(s), label: None }],
        None => Seq::empty(),
    };
    let r3 = (lead + syms).push(nt_item(tail));
    assert(items_defined(r3, defs)) by {
        assert forall|i: int| 0 <= i < r3.len() implies !sort_missing(defs, (#[trigger] r3[i]).sym) by {
            if i < lead.len() {
                assert(r3[i] == lead[i]);
            } else if i < lead.len() + syms.len() {
                assert(r3[i] == syms[i - lead.len()]);
            }
        }
    }
    lemma_add_prod_defined(b2, tail, r3, None, defs);
}

proof fn lemma_comp_form_defined(b: BuilderV, raw: Seq<Seq<char>>, start: int, defs: Seq<(Seq<char>, MetavarDefV)>)
    requires
        builder_defined(b, defs),
    ensures
        comp_form(b, raw, start) matches Ok((b2, item, _)) ==> builder_defined(b2, defs) && !sort_missing(defs, item.sym),
{
    let i = find_word(raw, "//"@, start + 1);
    if i < raw.len() && i + 1 < raw.len() {
        let has_sep = i + 2 < raw.len() && raw[i + 2] == "//"@;
        let sep = if has_sep {
            Some(dequote(raw[i + 1]))
        } else {
            None
        };
        let item = classify_all(b, raw.subrange(start + 1, i));
        assert(items_defined(item, defs)) by {
            assert forall|j: int| 0 <= j < item.len() implies !sort_missing(defs, (#[trigger] item[j]).sym) by {
                lemma_classify_defined(b, raw.subrange(start + 1, i)[j], defs);
            }
        }
        let c = next_counter(b.counter);
        let nt = list_name(c);
        lemma_define_list_defined(BuilderV { counter: c, ..b }, nt, item, sep, defs);
    }
}

proof fn lemma_pattern_tokens_defined(b: BuilderV, raw: Seq<Seq<char>>, i: int, defs: Seq<(Seq<char>, MetavarDefV)>)
    requires
        builder_defined(b, defs),
    ensures
        pattern_tokens(b, raw, i) matches Ok((b2, toks)) ==> builder_defined(b2, defs) && toks_defined(toks, defs),
    decreases raw.len() - i,
{
    if 0 <= i < raw.len() {
        let w = raw[i];
        if w == ".."@ || w == "..."@ || w == "...."@ {
            lemma_pattern_tokens_defined(b, raw, i + 1, defs);
            let d: u8 = if w == ".."@ {
                2
            } else if w == "..."@ {
                3
            } else {
                4
            };
            match pattern_tokens(b, raw, i + 1) {
                Ok((b2, rest)) => {
                    let t = seq![PatTokV::Dots(d)] + rest;
                    assert forall|j: int| 0 <= j < t.len() implies match #[trigger] t[j] {
                        PatTokV::Atom(a) => !sort_missing(defs, a.sym),
                        PatTokV::Dots(_) => true,
                    } by {
                        if j > 0 {
                            assert(t[j] == rest[j - 1]);
                        }
                    }
                },
                Err(_) => {},
            }
        } else if w == "</"@ {
            lemma_comp_form_defined(b, raw, i, defs);
            match comp_form(b, raw, i) {
                Ok((b2, item, nx)) => {
                    if nx > i {
                        lemma_pattern_tokens_defined(b2, raw, nx, defs);
                        match pattern_tokens(b2, raw, nx) {
                            Ok((b3, rest)) => {
                                let t = seq![PatTokV::Atom(item)] + rest;
                                assert forall|j: int| 0 <= j < t.len() implies match #[trigger] t[j] {
                                    PatTokV::Atom(a) => !sort_missing(defs, a.sym),
                                    PatTokV::Dots(_) => true,
                                } by {
                                    if j > 0 {
                                        assert(t[j] == rest[j - 1]);
                                    }
                                }
                            },
                            Err(_) => {},
                        }
                    }
                },
                Err(_) => {},
            }
        } else {
            lemma_pattern_tokens_defined(b, raw, i + 1, defs);
            lemma_classify_defined(b, w, defs);
            match pattern_tokens(b, raw, i + 1) {
                Ok((b2, rest)) => {
                    let t = seq![PatTokV::Atom(classify(b, w))] + rest;
                    assert forall|j: int| 0 <= j < t.len() implies match #[trigger] t[j] {
                        PatTokV::Atom(a) => !sort_missing(defs, a.sym),
                        PatTokV::Dots(_) => true,
                    } by {
                        if j > 0 {
                            assert(t[j] == rest[j - 1]);
                        }
                    }
                },
                Err(_) => {},
            }
        }
    }
}

proof fn lemma_atoms_defined(toks: Seq<PatTokV>, defs: Seq<(Seq<char>, MetavarDefV)>)
    requires
        toks_defined(toks, defs),
    ensures
        items_defined(atoms(toks), defs),
    decreases toks.len(),
{
    if toks.len() > 0 {
        let front = toks.drop_last();
        assert forall|j: int| 0 <= j < front.len() implies match #[trigger] front[j] {
            PatTokV::Atom(a) => !sort_missing(defs, a.sym),
            PatTokV::Dots(_) => true,
        } by {
            assert(front[j] == toks[j]);
        }
        lemma_atoms_defined(front, defs);
        let rest = atoms(front);
        match toks.last() {
            PatTokV::Atom(a) => {
                assert(toks.last() == toks[toks.len() - 1]);
                let r = rest.push(a);
                assert forall|j: int| 0 <= j < r.len() implies !sort_missing(defs, (#[trigger] r[j]).sym) by {
                    if j < rest.len() {
                        assert(r[j] == rest[j]);
                    }
                }
            },
            PatTokV::Dots(_) => {},
        }
    }
}

proof fn lemma_toks_sub_defined(toks: Seq<PatTokV>, lo: int, hi: int, defs: Seq<(Seq<char>, MetavarDefV)>)
    requires
        toks_defined(toks, defs),
        0 <= lo <= hi <= toks.len(),
    ensures
        toks_defined(toks.subrange(lo, hi), defs),
{
    let t = toks.subrange(lo, hi);
    assert forall|j: int| 0 <= j < t.len() implies match #[trigger] t[j] {
        PatTokV::Atom(a) => !sort_missing(defs, a.sym),
        PatTokV::Dots(_) => true,
    } by {
        assert(t[j] == toks[lo + j]);
    }
}

proof fn lemma_expand_once_defined(b: BuilderV, toks: Seq<PatTokV>, idx: int, defs: Seq<(Seq<char>, MetavarDefV)>)
    requires
        builder_defined(b, defs),
        toks_defined(toks, defs),
        0 <= idx < toks.len(),
    ensures
        expand_once(b, toks, idx) matches Ok((b2, t2)) ==> builder_defined(b2, defs) && toks_defined(t2, defs),
{
    let sep = dots_sep(toks, idx);
    let left = if sep is Some {
        toks.subrange(0, idx - 1)
    } else {
        toks.subrange(0, idx)
    };
    let right = if sep is Some {
        toks.subrange(idx + 2, toks.len() as int)
    } else {
        toks.subrange(idx + 1, toks.len() as int)
    };
    if sep is Some {
        lemma_toks_sub_defined(toks, 0, idx - 1, defs);
        lemma_toks_sub_defined(toks, idx + 2, toks.len() as int, defs);
    } else {
        lemma_toks_sub_defined(toks, 0, idx, defs);
        lemma_toks_sub_defined(toks, idx + 1, toks.len() as int, defs);
    }
    let la = atoms(left);
    let ra = atoms(right);
    lemma_atoms_defined(left, defs);
    lemma_atoms_defined(right, defs);
    let m = if la.len() <= ra.len() {
        la.len() as int
    } else {
        ra.len() as int
    };
    match best_align(la, ra, m) {
        None => {},
        Some(k) => {
            lemma_best_align(la, ra, m);
            let c = next_counter(b.counter);
            let nt = list_name(c);
            let item = la.subrange(la.len() - k, la.len() as int);
            assert forall|j: int| 0 <= j < item.len() implies !sort_missing(defs, (#[trigger] item[j]).sym) by {
                assert(item[j] == la[la.len() - k + j]);
            }
            lemma_define_list_defined(BuilderV { counter: c, ..b }, nt, item, sep, defs);
            let pre = as_toks(la.subrange(0, la.len() - k)).push(PatTokV::Atom(nt_item(nt)));
            let post = as_toks(ra.subrange(k, ra.len() as int));
            let t2 = pre + post;
            assert forall|j: int| 0 <= j < t2.len() implies match #[trigger] t2[j] {
                PatTokV::Atom(a) => !sort_missing(defs, a.sym),
                PatTokV::Dots(_) => true,
            } by {
                if j < pre.len() - 1 {
                    assert(t2[j] == PatTokV::Atom(la[j]));
                } else if j == pre.len() - 1 {
                    assert(t2[j] == PatTokV::Atom(nt_item(nt)));
                } else {
                    assert(t2[j] == PatTokV::Atom(ra[k + j - pre.len()]));
                }
            }
        },
    }
}

proof fn lemma_expand_all_defined(b: BuilderV, toks: Seq<PatTokV>, defs: Seq<(Seq<char>, MetavarDefV)>)
    requires
        builder_defined(b, defs),
        toks_defined(toks, defs),
    ensures
        expand_all(b, toks) matches Ok((b2, t2)) ==> builder_defined(b2, defs) && toks_defined(t2, defs),
    decreases toks.len(),
{
    lemma_first_dots(toks, toks.len() as int);
    match first_dots(toks, toks.len() as int) {
        None => {},
        Some(idx) => {
            lemma_expand_once_defined(b, toks, idx, defs);
            match expand_once(b, toks, idx) {
                Err(_) => {},
                Ok((b2, t2)) => {
                    if t2.len() < toks.len() {
                        lemma_expand_all_defined(b2, t2, defs);
                    }
                },
            }
        },
    }
}

/// Compiling a production keeps metavariables to defined sorts.
pub proof fn lemma_compile_prod_defined(
    b: BuilderV,
    lhs: Seq<char>,
    pattern: Seq<char>,
    typst: Option<Seq<PartV>>,
    defs: Seq<(Seq<char>, MetavarDefV)>,
)
    requires
        builder_defined(b, defs),
    ensures
        compile_prod(b, lhs, pattern, typst) matches Ok(b3) ==> builder_defined(b3, defs),
{
    lemma_pattern_tokens_defined(b, words(pattern), 0, defs);
    match pattern_tokens(b, words(pattern), 0) {
        Err(_) => {},
        Ok((b2, toks)) => {
            lemma_expand_all_defined(b2, toks, defs);
            match expand_all(b2, toks) {
                Err(_) => {},
                Ok((b3, t3)) => {
                    lemma_atoms_defined(t3, defs);
                    lemma_add_prod_defined(b3, lhs, atoms(t3), typst, defs);
                },
            }
        },
    }
}

pub open spec fn defs_wf(defs: Seq<(Seq<char>, MetavarDefV)>) -> bool {
    forall|k: int| 0 <= k < defs.len() ==> lex_wf(#[trigger] defs[k].1.lex)
}

proof fn lemma_mv_lookup_wf(defs: Seq<(Seq<char>, MetavarDefV)>, s: Seq<char>)
    requires
        defs_wf(defs),
    ensures
        mv_lookup(defs, s) matches Some(d) ==> lex_wf(d.lex),
    decreases defs.len(),
{
    if defs.len() > 0 {
        assert(lex_wf(defs[0].1.lex));
        if defs[0].0 != s {
            let t = defs.drop_first();
            assert forall|k: int| 0 <= k < t.len() implies lex_wf(#[trigger] t[k].1.lex) by {
                assert(t[k] == defs[k + 1]);
            }
            lemma_mv_lookup_wf(t, s);
        }
    }
}

/// The definition of sort `s`.
pub fn find_metavar<'a>(defs: &'a Vec<(String, MetavarDef)>, s: &String) -> (r: Option<&'a MetavarDef>)
    ensures
        match mv_lookup(defs_view(*defs), s@) {
            Some(d) => r matches Some(x) && x@ == d,
            None => r is None,
        },
        defs_wf(defs_view(*defs)) ==> (r matches Some(x) ==> lex_wf(x@.lex)),
{
    let ghost dv = defs_view(*defs);
    proof {
        assert(dv.subrange(0, dv.len() as int) =~= dv);
        if defs_wf(dv) {
            lemma_mv_lookup_wf(dv, s@);
        }
    }
    let mut j: usize = 0;
    while j < defs.len()
        invariant
            j <= defs@.len(),
            dv == defs_view(*defs),
            mv_lookup(dv, s@) == mv_lookup(dv.subrange(j as int, dv.len() as int), s@),
        decreases defs@.len() - j,
    {
        let ghost rest = dv.subrange(j as int, dv.len() as int);
        assert(rest[0] == dv[j as int]);
        assert(rest.drop_first() =~= dv.subrange(j + 1, dv.len() as int));
        assert(dv[j as int] == (defs@[j as int].0@, defs@[j as int].1@));
        if defs[j].0 == *s {
            return Some(&defs[j].1);
        }
        j = j + 1;
    }
    assert(dv.subrange(j as int, dv.len() as int) =~= Seq::<(Seq<char>, MetavarDefV)>::empty());
    None
}

} // verus!
