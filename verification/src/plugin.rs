//! What the Typst plugin computes: the rendered rules of a specification, and
//! snippets typeset with a specification's grammars, through a small cache of
//! compiled specifications.

use vstd::prelude::*;
use vstd::string::StringExecFns;
use vstd::string::StrSliceExecFns;
use vstd::string::StringSliceAdditionalSpecFns;
use crate::chars::trim;
use crate::check::{OttOptions, check_spec, spec_check_spec, lemma_parsed_rules_have_roots, lemma_rooted_not_rootless};
use crate::error::{OttError, OttErrV, spec_error_text};
use crate::parser::{parse_spec, spec_parse_spec};
use crate::render::{RenderItemV, TypstRenderDoc, render_for_typst, render_items};
use crate::syntax::{OttSyntax, SyntaxV, compile_syntax, spec_compile_syntax, snippet_outcome, res_view, trimmed};

verus! {

/// How many compiled specifications the cache keeps.
pub const MAX_CACHED_SPECS: usize = 8;

/// The text of an error, as `OttError::to_string` writes it.
pub open spec fn err_text(e: OttErrV) -> Seq<char> {
    spec_error_text(e.message, e.position)
}

fn error_text(e: OttError) -> (s: String)
    ensures
        s@ == err_text(e@),
{
    e.to_string()
}

/// What rendering the rules of the specification text `src` gives: the items
/// of the document, or the text of the first error of parsing or checking.
pub open spec fn rules_outcome(src: Seq<char>) -> Result<Seq<RenderItemV>, Seq<char>> {
    match spec_parse_spec(src) {
        Err(e) => Err(err_text(e)),
        Ok(items) => match spec_check_spec(items, true) {
            Err(e) => Err(err_text(e)),
            Ok(_) => Ok(render_items(items, items.len() as int)),
        },
    }
}

/// Parses and checks a specification (with the default options) and renders
/// its grammars and rules for Typst.
pub fn rules_document(src: &str) -> (r: Result<TypstRenderDoc, String>)
    requires
        src@.len() < usize::MAX,
    ensures
        match rules_outcome(src@) {
            Ok(items) => r matches Ok(d) && d@ == items,
            Err(e) => r matches Err(m) && m@ == e,
        },
{
    let spec = match parse_spec(src) {
        Ok(s) => s,
        Err(e) => {
            return Err(error_text(e));
        },
    };
    proof {
        lemma_parsed_rules_have_roots(src@);
        lemma_rooted_not_rootless(spec@, true);
    }
    let opts = OttOptions::default();
    let checked = match check_spec(spec, &opts) {
        Ok(c) => c,
        Err(e) => {
            return Err(error_text(e));
        },
    };
    Ok(render_for_typst(&checked))
}

/// What compiling the specification text `src` for snippets gives: the syntax
/// environment, or the text of the first error of parsing, checking or
/// compiling.
pub open spec fn syntax_outcome(src: Seq<char>) -> Result<SyntaxV, Seq<char>> {
    match spec_parse_spec(src) {
        Err(e) => Err(err_text(e)),
        Ok(items) => match spec_check_spec(items, true) {
            Err(e) => Err(err_text(e)),
            Ok(_) => match spec_compile_syntax(items) {
                Err(e) => Err(err_text(e)),
                Ok(sv) => Ok(sv),
            },
        },
    }
}

/// Parses, checks (with the default options) and compiles a specification for
/// parsing snippets.
pub fn compile_spec_syntax(src: &str) -> (r: Result<OttSyntax, String>)
    requires
        src@.len() < usize::MAX,
    ensures
        match syntax_outcome(src@) {
            Ok(sv) => r matches Ok(x) && x@ == sv && x.wf(),
            Err(e) => r matches Err(m) && m@ == e,
        },
{
    let spec = match parse_spec(src) {
        Ok(s) => s,
        Err(e) => {
            return Err(error_text(e));
        },
    };
    proof {
        lemma_parsed_rules_have_roots(src@);
        lemma_rooted_not_rootless(spec@, true);
    }
    let opts = OttOptions::default();
    let checked = match check_spec(spec, &opts) {
        Ok(c) => c,
        Err(e) => {
            return Err(error_text(e));
        },
    };
    match compile_syntax(&checked) {
        Ok(s) => Ok(s),
        Err(e) => Err(error_text(e)),
    }
}

/// The cache after `src` was compiled and added: appended as the newest entry,
/// the oldest entry leaving when the cache would hold too many.
pub open spec fn cache_push(specs: Seq<Seq<char>>, src: Seq<char>) -> Seq<Seq<char>> {
    let p = specs.push(src);
    if p.len() > MAX_CACHED_SPECS {
        p.drop_first()
    } else {
        p
    }
}

/// Compiled syntaxes of recently used specifications, keyed by the
/// specification text, oldest first.
pub struct SyntaxCache {
    entries: Vec<(String, OttSyntax)>,
}

impl SyntaxCache {
    /// The cached specification texts, oldest first.
    pub closed spec fn specs(&self) -> Seq<Seq<char>> {
        self.entries@.map_values(|e: (String, OttSyntax)| e.0@)
    }

    /// The syntax cached at position `i`.
    pub closed spec fn syntax_view(&self, i: int) -> SyntaxV {
        self.entries@[i].1@
    }

    /// At most `MAX_CACHED_SPECS` distinct texts, each with the syntax that
    /// compiling it gives.
    pub closed spec fn wf(&self) -> bool {
        &&& self.entries@.len() <= MAX_CACHED_SPECS
        &&& self.specs().no_duplicates()
        &&& forall|i: int|
            0 <= i < self.entries@.len() ==> (#[trigger] self.entries@[i]).1.wf() && syntax_outcome(self.entries@[i].0@)
                == Ok::<SyntaxV, Seq<char>>(self.entries@[i].1@)
    }

    /// A well-formed cache holds at most `MAX_CACHED_SPECS` texts, no text
    /// twice, and for each the syntax that compiling it gives.
    pub proof fn lemma_cache_sound(&self)
        requires
            self.wf(),
        ensures
            self.specs().len() <= MAX_CACHED_SPECS,
            self.specs().no_duplicates(),
            forall|i: int| 0 <= i < self.specs().len() ==> syntax_outcome(#[trigger] self.specs()[i]) == Ok::<SyntaxV, Seq<char>>(
                self.syntax_view(i),
            ),
    {
        assert forall|i: int| 0 <= i < self.specs().len() implies syntax_outcome(#[trigger] self.specs()[i]) == Ok::<
            SyntaxV,
            Seq<char>,
        >(self.syntax_view(i)) by {
            assert(self.entries@[i].1.wf());
        }
    }

    /// An empty cache.
    pub fn new() -> (c: Self)
        ensures
            c.wf(),
            c.specs().len() == 0,
    {
        let c = SyntaxCache { entries: Vec::new() };
        assert(c.specs() =~= Seq::<Seq<char>>::empty());
        c
    }

    /// The number of cached specifications.
    pub fn len(&self) -> (n: usize)
        ensures
            n == self.specs().len(),
    {
        self.entries.len()
    }

    /// The syntax cached at position `i`.
    pub fn syntax(&self, i: usize) -> (s: &OttSyntax)
        requires
            self.wf(),
            i < self.specs().len(),
        ensures
            s@ == self.syntax_view(i as int),
            s.wf(),
    {
        assert(self.entries@[i as int].1.wf());
        &self.entries[i].1
    }

    /// The position of the syntax compiled from `src`: found in the cache, or
    /// compiled and added as the newest entry. A failure to compile leaves the
    /// cache as it was.
    pub fn get_or_insert(&mut self, src: &str) -> (r: Result<usize, String>)
        requires
            old(self).wf(),
            src@.len() < usize::MAX,
        ensures
            final(self).wf(),
            old(self).specs().contains(src@) ==> final(self).specs() == old(self).specs() && r is Ok,
            match r {
                Ok(i) => i < final(self).specs().len() && final(self).specs()[i as int] == src@ && syntax_outcome(src@) == Ok::<
                    SyntaxV,
                    Seq<char>,
                >(final(self).syntax_view(i as int)) && (!old(self).specs().contains(src@) ==> final(self).specs() == cache_push(
                    old(self).specs(),
                    src@,
                )),
                Err(e) => syntax_outcome(src@) == Err::<SyntaxV, Seq<char>>(e@) && final(self).specs() == old(self).specs(),
            },
    {
        let key = src.to_owned();
        let ghost old_specs = self.specs();
        let mut k: usize = 0;
        while k < self.entries.len()
            invariant
                k <= self.entries@.len(),
                key@ == src@,
                old_specs == self.specs(),
                self.wf(),
                *self == *old(self),
                forall|j: int| 0 <= j < k ==> old_specs[j] != src@,
            decreases self.entries@.len() - k,
        {
            assert(old_specs[k as int] == self.entries@[k as int].0@);
            if self.entries[k].0 == key {
                assert(self.entries@[k as int].1.wf());
                return Ok(k);
            }
            k = k + 1;
        }
        assert(!old_specs.contains(src@)) by {
            if old_specs.contains(src@) {
                let w = choose|w: int| 0 <= w < old_specs.len() && old_specs[w] == src@;
                assert(old_specs[w] != src@);
            }
        }
        let syntax = match compile_spec_syntax(src) {
            Ok(s) => s,
            Err(e) => {
                return Err(e);
            },
        };
        let ghost before = self.entries@;
        self.entries.push((key, syntax));
        assert(self.specs() =~= old_specs.push(src@));
        assert(self.specs().no_duplicates()) by {
            assert forall|a: int, b: int| 0 <= a < b < self.specs().len() implies self.specs()[a] != self.specs()[b] by {
                if b == old_specs.len() {
                    assert(old_specs[a] != src@);
                }
            }
        }
        assert forall|i: int| 0 <= i < self.entries@.len() implies (#[trigger] self.entries@[i]).1.wf() && syntax_outcome(
            self.entries@[i].0@,
        ) == Ok::<SyntaxV, Seq<char>>(self.entries@[i].1@) by {
            if i < before.len() {
                assert(self.entries@[i] == before[i]);
            }
        }
        if self.entries.len() > MAX_CACHED_SPECS {
            let ghost full = self.entries@;
            let ghost full_specs = self.specs();
            self.entries.remove(0);
            assert(self.entries@ =~= full.drop_first());
            assert(self.specs() =~= full_specs.drop_first());
            assert forall|i: int| 0 <= i < self.entries@.len() implies (#[trigger] self.entries@[i]).1.wf() && syntax_outcome(
                self.entries@[i].0@,
            ) == Ok::<SyntaxV, Seq<char>>(self.entries@[i].1@) by {
                assert(self.entries@[i] == full[i + 1]);
            }
            assert(self.specs().no_duplicates()) by {
                assert forall|a: int, b: int| 0 <= a < b < self.specs().len() implies self.specs()[a] != self.specs()[b] by {
                    assert(self.specs()[a] == full_specs[a + 1]);
                    assert(self.specs()[b] == full_specs[b + 1]);
                }
            }
            let last = self.entries.len() - 1;
            assert(self.specs()[last as int] == src@);
            Ok(last)
        } else {
            let last = self.entries.len() - 1;
            assert(self.specs()[last as int] == src@);
            Ok(last)
        }
    }
}

/// The message given for an empty root name when the specification has no
/// grammar roots.
pub open spec fn no_roots_msg() -> Seq<char> {
    "spec does not define any grammar roots"@
}

/// The root that a root name selects: the trimmed name, or the first grammar
/// root when the name is empty.
pub open spec fn chosen_root(sv: SyntaxV, root: Seq<char>) -> Seq<char> {
    if trim(root).len() == 0 {
        sv.roots[0]
    } else {
        trim(root)
    }
}

/// What typesetting `term` as the root named `root` gives: the name is
/// trimmed, and an empty name stands for the first grammar root; the result is
/// what `render_typst_math` gives for that root, with an error as its text.
pub open spec fn term_outcome(sv: SyntaxV, root: Seq<char>, term: Seq<char>, r: Result<Seq<char>, Seq<char>>) -> bool {
    if trim(root).len() == 0 && sv.roots.len() == 0 {
        r == Err::<Seq<char>, Seq<char>>(no_roots_msg())
    } else {
        match r {
            Ok(s) => snippet_outcome(sv, chosen_root(sv, root), term, Ok::<Seq<char>, OttErrV>(s), true),
            Err(m) => exists|e: OttErrV|
                #[trigger] snippet_outcome(sv, chosen_root(sv, root), term, Err::<Seq<char>, OttErrV>(e), true) && m == err_text(e),
        }
    }
}

/// For a snippet whose rendering as the chosen root has one outcome,
/// typesetting it as a term gives exactly that outcome, with an error by its
/// text.
pub proof fn lemma_term_is_render(
    sv: SyntaxV,
    root: Seq<char>,
    term: Seq<char>,
    r: Result<Seq<char>, Seq<char>>,
    rendered: Result<Seq<char>, OttErrV>,
)
    requires
        !(trim(root).len() == 0 && sv.roots.len() == 0),
        term_outcome(sv, root, term, r),
        forall|r2: Result<Seq<char>, OttErrV>| #[trigger] snippet_outcome(sv, chosen_root(sv, root), term, r2, true) <==> r2 == rendered,
    ensures
        r == match rendered {
            Ok(s) => Ok::<Seq<char>, Seq<char>>(s),
            Err(e) => Err::<Seq<char>, Seq<char>>(err_text(e)),
        },
{
    match r {
        Ok(s) => {
            assert(snippet_outcome(sv, chosen_root(sv, root), term, Ok::<Seq<char>, OttErrV>(s), true));
        },
        Err(m) => {
            let e = choose|e: OttErrV|
                #[trigger] snippet_outcome(sv, chosen_root(sv, root), term, Err::<Seq<char>, OttErrV>(e), true) && m == err_text(e);
            assert(snippet_outcome(sv, chosen_root(sv, root), term, Err::<Seq<char>, OttErrV>(e), true));
        },
    }
}

/// A result of strings, by the strings' views.
pub open spec fn text_result(r: Result<String, String>) -> Result<Seq<char>, Seq<char>> {
    match r {
        Ok(s) => Ok(s@),
        Err(m) => Err(m@),
    }
}

/// Typesets `term` as Typst math code, read as the grammar root named `root`
/// (trimmed; the first grammar root when it is empty).
pub fn term_math(syntax: &OttSyntax, root: &str, term: &str) -> (r: Result<String, String>)
    requires
        syntax.wf(),
        term.spec_bytes().len() < usize::MAX,
    ensures
        term_outcome(syntax@, root@, term@, text_result(r)),
{
    let name = trimmed(root);
    let chosen: String = if name.unicode_len() == 0 {
        match syntax.default_root() {
            Some(d) => d.to_owned(),
            None => {
                return Err("spec does not define any grammar roots".to_owned());
            },
        }
    } else {
        name
    };
    assert(chosen@ == chosen_root(syntax@, root@));
    let out = syntax.render_typst_math(chosen.as_str(), term);
    match out {
        Ok(s) => Ok(s),
        Err(e) => {
            assert(snippet_outcome(syntax@, chosen@, term@, Err::<Seq<char>, OttErrV>(e@), true));
            Err(error_text(e))
        },
    }
}

} // verus!
