//! The syntax tree of an Ott specification, and its mathematical model.

use vstd::prelude::*;

verus! {

#[derive(Debug, Clone)]
pub struct Spec {
    pub items: Vec<Item>,
}

#[derive(Debug, Clone)]
pub enum Item {
    Embed(EmbedSection),
    Metavar(MetavarDecl),
    Grammar(GrammarSection),
    Subrules(SubrulesSection),
    Substitutions(SubstitutionsSection),
    Defns(DefnsSection),
    Defn(DefnBlock),
    /// A top-level section that is kept as its raw lines.
    UnknownSection(UnknownSection),
}

#[derive(Debug, Clone)]
pub struct UnknownSection {
    pub keyword: String,
    pub lines: Vec<String>,
}

#[derive(Debug, Clone)]
pub struct HomBlock {
    pub name: String,
    pub body: String,
}

#[derive(Debug, Clone)]
pub struct EmbedSection {
    pub blocks: Vec<HomBlock>,
}

#[derive(Debug, Clone)]
pub struct MetavarDecl {
    pub is_index: bool,
    /// First name is the canonical sort name; remaining are synonyms.
    pub names: Vec<String>,
    pub reps: Vec<HomBlock>,
}

#[derive(Debug, Clone)]
pub struct GrammarSection {
    pub rules: Vec<GrammarRule>,
}

#[derive(Debug, Clone)]
pub struct GrammarRule {
    /// First name is the canonical nonterminal root; remaining are synonyms.
    pub roots: Vec<String>,
    pub sort: String,
    pub comment: Option<String>,
    pub annotations: Vec<HomBlock>,
    pub productions: Vec<Production>,
}

#[derive(Debug, Clone)]
pub struct Production {
    /// The concrete pattern part before the `:: ... :: ...` metadata.
    pub pattern: String,
    /// Optional production meta marker (e.g. `M`).
    pub meta: Option<String>,
    /// Optional constructor/production name.
    pub name: Option<String>,
    /// The binding specification bodies (inside `(+ ... +)`), stored raw.
    pub bind_specs: Vec<String>,
    /// Any additional `{{ ... }}` blocks attached to this production.
    pub annotations: Vec<HomBlock>,
    /// The raw text as written (may span multiple lines).
    pub raw: String,
}

#[derive(Debug, Clone)]
pub struct SubrulesSection {
    pub relations: Vec<Subrule>,
}

#[derive(Debug, Clone)]
pub struct Subrule {
    pub sub: String,
    pub sup: String,
}

#[derive(Debug, Clone)]
pub struct SubstitutionsSection {
    pub entries: Vec<SubstEntry>,
}

#[derive(Debug, Clone, Copy, PartialEq, Eq, Structural)]
pub enum SubstKind {
    Single,
    Multiple,
}

#[derive(Debug, Clone)]
pub struct SubstEntry {
    pub kind: SubstKind,
    pub nonterminal: String,
    pub metavar: String,
    pub name: String,
}

#[derive(Debug, Clone)]
pub struct DefnsSection {
    pub lines: Vec<String>,
}

#[derive(Debug, Clone)]
pub struct DefnBlock {
    pub header: String,
    pub comment: Option<String>,
    pub rules: Vec<InferenceRule>,
}

#[derive(Debug, Clone)]
pub struct InferenceRule {
    pub name: String,
    pub premises: Vec<String>,
    pub conclusion: Vec<String>,
}

impl Spec {
    pub fn new(items: Vec<Item>) -> (s: Self)
        ensures
            s.items == items,
    {
        Self { items }
    }
}

// ---------------------------------------------------------------------------
// Model

pub struct HomBlockV {
    pub name: Seq<char>,
    pub body: Seq<char>,
}

pub struct MetavarDeclV {
    pub is_index: bool,
    pub names: Seq<Seq<char>>,
    pub reps: Seq<HomBlockV>,
}

pub struct ProductionV {
    pub pattern: Seq<char>,
    pub meta: Option<Seq<char>>,
    pub name: Option<Seq<char>>,
    pub bind_specs: Seq<Seq<char>>,
    pub annotations: Seq<HomBlockV>,
    pub raw: Seq<char>,
}

pub struct GrammarRuleV {
    pub roots: Seq<Seq<char>>,
    pub sort: Seq<char>,
    pub comment: Option<Seq<char>>,
    pub annotations: Seq<HomBlockV>,
    pub productions: Seq<ProductionV>,
}

pub struct SubruleV {
    pub sub: Seq<char>,
    pub sup: Seq<char>,
}

pub struct SubstEntryV {
    pub kind: SubstKind,
    pub nonterminal: Seq<char>,
    pub metavar: Seq<char>,
    pub name: Seq<char>,
}

pub struct InferenceRuleV {
    pub name: Seq<char>,
    pub premises: Seq<Seq<char>>,
    pub conclusion: Seq<Seq<char>>,
}

pub struct DefnBlockV {
    pub header: Seq<char>,
    pub comment: Option<Seq<char>>,
    pub rules: Seq<InferenceRuleV>,
}

pub enum ItemV {
    Embed(Seq<HomBlockV>),
    Metavar(MetavarDeclV),
    Grammar(Seq<GrammarRuleV>),
    Subrules(Seq<SubruleV>),
    Substitutions(Seq<SubstEntryV>),
    Defns(Seq<Seq<char>>),
    Defn(DefnBlockV),
    UnknownSection { keyword: Seq<char>, lines: Seq<Seq<char>> },
}

pub open spec fn strs_view(v: Vec<String>) -> Seq<Seq<char>> {
    v@.map_values(|s: String| s@)
}

pub open spec fn opt_view(o: Option<String>) -> Option<Seq<char>> {
    match o {
        Some(s) => Some(s@),
        None => None,
    }
}

pub open spec fn homs_view(v: Vec<HomBlock>) -> Seq<HomBlockV> {
    v@.map_values(|h: HomBlock| h@)
}

impl View for HomBlock {
    type V = HomBlockV;

    open spec fn view(&self) -> HomBlockV {
        HomBlockV { name: self.name@, body: self.body@ }
    }
}

impl View for MetavarDecl {
    type V = MetavarDeclV;

    open spec fn view(&self) -> MetavarDeclV {
        MetavarDeclV { is_index: self.is_index, names: strs_view(self.names), reps: homs_view(self.reps) }
    }
}

impl View for Production {
    type V = ProductionV;

    open spec fn view(&self) -> ProductionV {
        ProductionV {
            pattern: self.pattern@,
            meta: opt_view(self.meta),
            name: opt_view(self.name),
            bind_specs: strs_view(self.bind_specs),
            annotations: homs_view(self.annotations),
            raw: self.raw@,
        }
    }
}

impl View for GrammarRule {
    type V = GrammarRuleV;

    open spec fn view(&self) -> GrammarRuleV {
        GrammarRuleV {
            roots: strs_view(self.roots),
            sort: self.sort@,
            comment: opt_view(self.comment),
            annotations: homs_view(self.annotations),
            productions: self.productions@.map_values(|p: Production| p@),
        }
    }
}

impl View for Subrule {
    type V = SubruleV;

    open spec fn view(&self) -> SubruleV {
        SubruleV { sub: self.sub@, sup: self.sup@ }
    }
}

impl View for SubstEntry {
    type V = SubstEntryV;

    open spec fn view(&self) -> SubstEntryV {
        SubstEntryV {
            kind: self.kind,
            nonterminal: self.nonterminal@,
            metavar: self.metavar@,
            name: self.name@,
        }
    }
}

impl View for InferenceRule {
    type V = InferenceRuleV;

    open spec fn view(&self) -> InferenceRuleV {
        InferenceRuleV {
            name: self.name@,
            premises: strs_view(self.premises),
            conclusion: strs_view(self.conclusion),
        }
    }
}

impl View for DefnBlock {
    type V = DefnBlockV;

    open spec fn view(&self) -> DefnBlockV {
        DefnBlockV {
            header: self.header@,
            comment: opt_view(self.comment),
            rules: self.rules@.map_values(|r: InferenceRule| r@),
        }
    }
}

impl View for Item {
    type V = ItemV;

    open spec fn view(&self) -> ItemV {
        match *self {
            Item::Embed(e) => ItemV::Embed(homs_view(e.blocks)),
            Item::Metavar(m) => ItemV::Metavar(m@),
            Item::Grammar(g) => ItemV::Grammar(g.rules@.map_values(|r: GrammarRule| r@)),
            Item::Subrules(s) => ItemV::Subrules(s.relations@.map_values(|r: Subrule| r@)),
            Item::Substitutions(s) => ItemV::Substitutions(s.entries@.map_values(|e: SubstEntry| e@)),
            Item::Defns(d) => ItemV::Defns(strs_view(d.lines)),
            Item::Defn(d) => ItemV::Defn(d@),
            Item::UnknownSection(u) => ItemV::UnknownSection { keyword: u.keyword@, lines: strs_view(u.lines) },
        }
    }
}

impl View for Spec {
    type V = Seq<ItemV>;

    open spec fn view(&self) -> Seq<ItemV> {
        self.items@.map_values(|i: Item| i@)
    }
}

} // verus!
