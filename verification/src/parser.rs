//! The line-oriented parser of Ott specifications.
//!
//! The source is split into lines; sections start at lines whose first word is
//! a top-level keyword (`grammar`, `metavar`, `defn`, ...). Blank lines, `%`
//! comments and `>> ... <<` comment blocks (which nest) are skipped between
//! section parts. Inline `{{ name body }}` blocks are homomorphisms and
//! `(+ ... +)` holds a binding specification.

use vstd::prelude::*;
use crate::ast::{Spec, Item, UnknownSection, HomBlock, EmbedSection, MetavarDecl, GrammarSection, GrammarRule, Production, SubrulesSection, Subrule, SubstitutionsSection, SubstKind, SubstEntry, DefnsSection, DefnBlock, InferenceRule, HomBlockV, MetavarDeclV, ProductionV, GrammarRuleV, SubruleV, SubstEntryV, InferenceRuleV, DefnBlockV, ItemV, strs_view, opt_view, homs_view};
use crate::chars::{
    after_last, after_last_of, concat, contains, contains_of, eq_chars, find_from, find_from_of,
    first_word, first_word_of, is_whitespace, join, join_of, lemma_find_from, lemma_skip_ws,
    lemma_word_end, lines, lines_of, matches_at, names, names_of, skip_ws, slice_chars, split_once,
    split_once_of, starts_with, starts_with_of, strip_prefix, strip_prefix_of, strip_suffix,
    strip_suffix_of, trim, trim_end, trim_end_of, trim_of, trim_start, trim_start_of, word_end,
    word_end_at, words, words_of, is_ws,
};
use crate::error::{OttError, OttErrV, err_at_line, err_plain, error_at_line, error_plain};
use crate::text::{chars_of, string_from_chars};

verus! {

/// The lines of a source text, as character vectors.
pub open spec fn lv(lines: &Vec<Vec<char>>) -> Seq<Seq<char>> {
    lines@.map_values(|l: Vec<char>| l@)
}

fn lit(s: &str) -> (v: Vec<char>)
    ensures
        v@ == s@,
{
    chars_of(s)
}

fn is_lit(w: &[char], s: &str) -> (r: bool)
    ensures
        r == (w@ == s@),
{
    let l = chars_of(s);
    eq_chars(w, l.as_slice())
}

// ---------------------------------------------------------------------------
// Line classification

pub open spec fn blank_or_comment(l: Seq<char>) -> bool {
    let t = trim_start(l);
    t.len() == 0 || t[0] == '%'
}

pub open spec fn block_open(l: Seq<char>) -> bool {
    starts_with(trim_start(l), ">>"@)
}

pub open spec fn block_close(l: Seq<char>) -> bool {
    starts_with(trim_start(l), "<<"@)
}

pub open spec fn is_keyword(w: Seq<char>) -> bool {
    ||| w == "embed"@
    ||| w == "metavar"@
    ||| w == "indexvar"@
    ||| w == "grammar"@
    ||| w == "subrules"@
    ||| w == "contextrules"@
    ||| w == "substitutions"@
    ||| w == "freevars"@
    ||| w == "defns"@
    ||| w == "defn"@
    ||| w == "funs"@
    ||| w == "fun"@
    ||| w == "homs"@
    ||| w == "parsing"@
    ||| w == "begincoqsection"@
    ||| w == "endcoqsection"@
    ||| w == "coqvariable"@
}

/// A line that starts a new top-level section.
pub open spec fn toplevel(l: Seq<char>) -> bool {
    let t = trim_start(l);
    t.len() > 0 && is_keyword(first_word(t))
}

fn is_blank_or_comment(line: &[char]) -> (r: bool)
    ensures
        r == blank_or_comment(line@),
{
    let t = trim_start_of(line);
    t.len() == 0 || t[0] == '%'
}

fn is_comment_block_start(line: &[char]) -> (r: bool)
    ensures
        r == block_open(line@),
{
    let t = trim_start_of(line);
    let p = lit(">>");
    starts_with_of(t.as_slice(), p.as_slice())
}

fn is_comment_block_end(line: &[char]) -> (r: bool)
    ensures
        r == block_close(line@),
{
    let t = trim_start_of(line);
    let p = lit("<<");
    starts_with_of(t.as_slice(), p.as_slice())
}

fn is_keyword_word(w: &[char]) -> (r: bool)
    ensures
        r == is_keyword(w@),
{
    is_lit(w, "embed") || is_lit(w, "metavar") || is_lit(w, "indexvar") || is_lit(w, "grammar")
        || is_lit(w, "subrules") || is_lit(w, "contextrules") || is_lit(w, "substitutions")
        || is_lit(w, "freevars") || is_lit(w, "defns") || is_lit(w, "defn") || is_lit(w, "funs")
        || is_lit(w, "fun") || is_lit(w, "homs") || is_lit(w, "parsing")
        || is_lit(w, "begincoqsection") || is_lit(w, "endcoqsection") || is_lit(w, "coqvariable")
}

fn is_toplevel_keyword_line(line: &[char]) -> (r: bool)
    ensures
        r == toplevel(line@),
{
    let t = trim_start_of(line);
    if t.len() == 0 {
        return false;
    }
    let w = first_word_of(t.as_slice());
    is_keyword_word(w.as_slice())
}

// ---------------------------------------------------------------------------
// Skipping trivia

/// Where a `>> ... <<` comment block that is open `depth` deep ends, from line `i`.
pub open spec fn comment_block_end(l: Seq<Seq<char>>, i: int, depth: nat) -> int
    decreases l.len() - i,
{
    if i < 0 || i >= l.len() {
        i
    } else if block_open(l[i]) {
        comment_block_end(l, i + 1, depth + 1)
    } else if block_close(l[i]) {
        let d: nat = if depth > 0 { (depth - 1) as nat } else { 0 };
        if d == 0 {
            i + 1
        } else {
            comment_block_end(l, i + 1, d)
        }
    } else {
        comment_block_end(l, i + 1, depth)
    }
}

/// The first line at or after `i` that is not blank, a `%` comment, or inside a
/// comment block.
pub open spec fn skip_trivia_from(l: Seq<Seq<char>>, i: int) -> int
    decreases l.len() - i,
{
    if i < 0 || i >= l.len() {
        i
    } else if blank_or_comment(l[i]) {
        skip_trivia_from(l, i + 1)
    } else if block_open(l[i]) {
        let j = comment_block_end(l, i, 0);
        if j <= i || j > l.len() {
            i
        } else {
            skip_trivia_from(l, j)
        }
    } else {
        i
    }
}

pub proof fn lemma_comment_block_end(l: Seq<Seq<char>>, i: int, depth: nat)
    requires
        0 <= i <= l.len(),
    ensures
        i <= comment_block_end(l, i, depth) <= l.len(),
        i < l.len() ==> i < comment_block_end(l, i, depth),
    decreases l.len() - i,
{
    if i < l.len() {
        if block_open(l[i]) {
            lemma_comment_block_end(l, i + 1, depth + 1);
        } else if block_close(l[i]) {
            let d: nat = if depth > 0 { (depth - 1) as nat } else { 0 };
            if d != 0 {
                lemma_comment_block_end(l, i + 1, d);
            }
        } else {
            lemma_comment_block_end(l, i + 1, depth);
        }
    }
}

pub proof fn lemma_skip_trivia(l: Seq<Seq<char>>, i: int)
    requires
        0 <= i <= l.len(),
    ensures
        i <= skip_trivia_from(l, i) <= l.len(),
    decreases l.len() - i,
{
    if i < l.len() {
        if blank_or_comment(l[i]) {
            lemma_skip_trivia(l, i + 1);
        } else if block_open(l[i]) {
            lemma_comment_block_end(l, i, 0);
            lemma_skip_trivia(l, comment_block_end(l, i, 0));
        }
    }
}

fn skip_comment_block(lines: &Vec<Vec<char>>, i: &mut usize)
    requires
        *old(i) <= lines@.len(),
    ensures
        *final(i) as int == comment_block_end(lv(lines), *old(i) as int, 0),
{
    let ghost l = lv(lines);
    let ghost i0 = *i as int;
    let mut depth: usize = 0;
    while *i < lines.len()
        invariant
            *i <= lines@.len(),
            l == lv(lines),
            depth <= *i,
            i0 == *old(i),
            comment_block_end(l, i0, 0) == comment_block_end(l, *i as int, depth as nat),
        decreases lines@.len() - *i,
    {
        let t = trim_start_of(lines[*i].as_slice());
        assert(lines[*i as int]@ == l[*i as int]);
        if is_comment_block_start(t.as_slice()) {
            proof {
                lemma_trim_start_idem(l[*i as int]);
            }
            depth = depth + 1;
            *i = *i + 1;
            continue;
        }
        proof {
            lemma_trim_start_idem(l[*i as int]);
        }
        if is_comment_block_end(t.as_slice()) {
            if depth > 0 {
                depth = depth - 1;
            }
            *i = *i + 1;
            if depth == 0 {
                return;
            }
            continue;
        }
        *i = *i + 1;
    }
}

fn skip_trivia(lines: &Vec<Vec<char>>, i: &mut usize)
    requires
        *old(i) <= lines@.len(),
    ensures
        *final(i) as int == skip_trivia_from(lv(lines), *old(i) as int),
{
    let ghost l = lv(lines);
    let ghost i0 = *i as int;
    while *i < lines.len()
        invariant
            *i <= lines@.len(),
            l == lv(lines),
            i0 == *old(i),
            skip_trivia_from(l, i0) == skip_trivia_from(l, *i as int),
        decreases lines@.len() - *i,
    {
        let line = &lines[*i];
        assert(line@ == l[*i as int]);
        if is_blank_or_comment(line.as_slice()) {
            *i = *i + 1;
            continue;
        }
        if is_comment_block_start(line.as_slice()) {
            let ghost before = *i as int;
            proof {
                lemma_comment_block_end(l, before, 0);
            }
            skip_comment_block(lines, i);
            continue;
        }
        return;
    }
}

pub proof fn lemma_trim_start_idem(s: Seq<char>)
    ensures
        trim_start(trim_start(s)) == trim_start(s),
{
    lemma_skip_ws(s, 0);
    let t = trim_start(s);
    lemma_skip_ws(t, 0);
    if t.len() > 0 {
        assert(t[0] == s[skip_ws(s, 0)]);
        assert(skip_ws(t, 0) == 0);
    } else {
        assert(skip_ws(t, 0) == 0);
    }
    assert(trim_start(t) =~= t);
}

// ---------------------------------------------------------------------------
// Inline `{{ ... }}` blocks and `(+ ... +)` binding specifications

/// Name and body of a trimmed block text: the name runs up to the first
/// whitespace character, the body is the rest after it; both trimmed.
pub open spec fn name_body(x: Seq<char>) -> (Seq<char>, Seq<char>) {
    let e = word_end(x, 0);
    (trim(x.subrange(0, e)), if e < x.len() { trim(x.subrange(e + 1, x.len() as int)) } else { Seq::empty() })
}

/// The blocks `{{ name body }}` found in `s` from `idx` on (those with an empty
/// name are dropped) and the text with the blocks removed, appended to `blocks`
/// and `out`. An unclosed `{{` is kept as text.
pub open spec fn ext_homs_from(s: Seq<char>, idx: int, blocks: Seq<HomBlockV>, out: Seq<char>) -> (Seq<HomBlockV>, Seq<char>)
    decreases s.len() - idx,
{
    if idx < 0 || idx > s.len() {
        (blocks, out)
    } else {
        match find_from(s, "{{"@, idx) {
            None => (blocks, if idx < s.len() { out + s.subrange(idx, s.len() as int) } else { out }),
            Some(start) => if start < idx || start + 2 > s.len() {
                (blocks, out)
            } else {
                let out1 = out + s.subrange(idx, start);
                match find_from(s, "}}"@, start + 2) {
                    Some(end) => if end < start + 2 || end + 2 > s.len() {
                        (blocks, out1)
                    } else {
                        let nb = name_body(trim(s.subrange(start + 2, end)));
                        let blocks1 = if nb.0.len() > 0 {
                            blocks.push(HomBlockV { name: nb.0, body: nb.1 })
                        } else {
                            blocks
                        };
                        ext_homs_from(s, end + 2, blocks1, out1)
                    },
                    None => (blocks, out1 + s.subrange(start, s.len() as int)),
                }
            },
        }
    }
}

pub open spec fn ext_homs(s: Seq<char>) -> (Seq<HomBlockV>, Seq<char>) {
    ext_homs_from(s, 0, Seq::empty(), Seq::empty())
}

fn split_name_body(x: &[char]) -> (r: (Vec<char>, Vec<char>))
    ensures
        (r.0@, r.1@) == name_body(x@),
{
    let e = word_end_at(x, 0);
    proof {
        lemma_word_end(x@, 0);
    }
    let first = slice_chars(x, 0, e);
    let name = trim_of(first.as_slice());
    let body = if e < x.len() {
        let rest = slice_chars(x, e + 1, x.len());
        trim_of(rest.as_slice())
    } else {
        Vec::new()
    };
    (name, body)
}

fn make_hom(name: &Vec<char>, body: &Vec<char>) -> (h: HomBlock)
    ensures
        h@ == (HomBlockV { name: name@, body: body@ }),
{
    HomBlock { name: string_from_chars(name.as_slice()), body: string_from_chars(body.as_slice()) }
}

/// Extracts all inline `{{ ... }}` blocks from `s`, returning them and `s`
/// with the blocks removed.
fn extract_inline_hom_blocks(s: &[char]) -> (r: (Vec<HomBlock>, Vec<char>))
    ensures
        (homs_view(r.0), r.1@) == ext_homs(s@),
{
    let open = lit("{{");
    let close = lit("}}");
    proof {
        reveal_strlit("{{");
        reveal_strlit("}}");
    }
    let n = s.len();
    let mut blocks: Vec<HomBlock> = Vec::new();
    let mut out: Vec<char> = Vec::new();
    let mut idx: usize = 0;
    assert(homs_view(blocks) =~= Seq::<HomBlockV>::empty());
    loop
        invariant
            idx <= s@.len(),
            n == s@.len(),
            open@ == "{{"@,
            close@ == "}}"@,
            "{{"@.len() == 2,
            "}}"@.len() == 2,
            ext_homs(s@) == ext_homs_from(s@, idx as int, homs_view(blocks), out@),
        decreases s@.len() - idx,
    {
        let found = find_from_of(s, open.as_slice(), idx);
        proof {
            lemma_find_from(s@, "{{"@, idx as int);
        }
        match found {
            None => {
                if idx < s.len() {
                    let rest = slice_chars(s, idx, s.len());
                    out = concat(out.as_slice(), rest.as_slice());
                }
                return (blocks, out);
            },
            Some(start) => {
                let piece = slice_chars(s, idx, start);
                out = concat(out.as_slice(), piece.as_slice());
                let found_end = find_from_of(s, close.as_slice(), start + 2);
                proof {
                    lemma_find_from(s@, "}}"@, start + 2);
                }
                match found_end {
                    Some(end) => {
                        let raw = slice_chars(s, start + 2, end);
                        let inner = trim_of(raw.as_slice());
                        let (name, body) = split_name_body(inner.as_slice());
                        if name.len() > 0 {
                            let ghost old_b = homs_view(blocks);
                            let h = make_hom(&name, &body);
                            let ghost hv = h@;
                            blocks.push(h);
                            assert(homs_view(blocks) =~= old_b.push(hv));
                        }
                        idx = end + 2;
                    },
                    None => {
                        let rest = slice_chars(s, start, s.len());
                        out = concat(out.as_slice(), rest.as_slice());
                        return (blocks, out);
                    },
                }
            },
        }
    }
}

pub open spec fn before_ok(c: char) -> bool {
    c == ' ' || c == '\t' || c == '\n' || c == '\u{c}' || c == '\r' || c == ')' || c == ']' || c == '}'
}

pub open spec fn after_ok(c: char) -> bool {
    c == ' ' || c == '\t' || c == '\n' || c == '\u{c}' || c == '\r' || c == '{' || c == '%' || c == ')'
        || c == ']' || c == '}' || c == ',' || c == ';'
}

/// The first `+)` at or after `k` that is followed by the end or by a boundary character.
pub open spec fn bind_close_from(s: Seq<char>, k: int) -> Option<int>
    decreases s.len() - k,
{
    if k < 0 || k > s.len() {
        None
    } else {
        match find_from(s, "+)"@, k) {
            None => None,
            Some(c) => if c + 2 < s.len() && !after_ok(s[c + 2]) {
                if c < k {
                    None
                } else {
                    bind_close_from(s, c + 2)
                }
            } else {
                Some(c)
            },
        }
    }
}

/// The bodies of the `(+ ... +)` binding specifications in `s` from `sf` on
/// (a `(+` must follow the start, whitespace or a closing bracket; empty bodies
/// are dropped), and the text with them removed.
pub open spec fn ext_binds_from(s: Seq<char>, sf: int, cf: int, specs: Seq<Seq<char>>, stripped: Seq<char>) -> (Seq<Seq<char>>, Seq<char>)
    decreases s.len() - sf,
{
    if sf < 0 || sf > s.len() || cf < 0 || cf > sf {
        (specs, stripped)
    } else {
        match find_from(s, "(+"@, sf) {
            None => (specs, stripped + s.subrange(cf, s.len() as int)),
            Some(start) => if start < sf || start + 2 > s.len() {
                (specs, stripped)
            } else if start > 0 && !before_ok(s[start - 1]) {
                ext_binds_from(s, start + 2, cf, specs, stripped)
            } else {
                match bind_close_from(s, start + 2) {
                    None => (specs, stripped + s.subrange(cf, s.len() as int)),
                    Some(end) => if end < start + 2 || end + 2 > s.len() {
                        (specs, stripped)
                    } else {
                        let body = trim(s.subrange(start + 2, end));
                        ext_binds_from(
                            s,
                            end + 2,
                            end + 2,
                            if body.len() > 0 { specs.push(body) } else { specs },
                            stripped + s.subrange(cf, start),
                        )
                    },
                }
            },
        }
    }
}

pub open spec fn ext_binds(s: Seq<char>) -> (Seq<Seq<char>>, Seq<char>) {
    ext_binds_from(s, 0, 0, Seq::empty(), Seq::empty())
}

proof fn lemma_bind_close(s: Seq<char>, k: int)
    requires
        0 <= k <= s.len(),
        "+)"@.len() == 2,
    ensures
        bind_close_from(s, k) matches Some(c) ==> k <= c && c + 2 <= s.len(),
    decreases s.len() - k,
{
    lemma_find_from(s, "+)"@, k);
    match find_from(s, "+)"@, k) {
        None => {},
        Some(c) => {
            if c + 2 < s.len() && !after_ok(s[c + 2]) {
                lemma_bind_close(s, c + 2);
            }
        },
    }
}

fn is_before_ok(c: char) -> (r: bool)
    ensures
        r == before_ok(c),
{
    c == ' ' || c == '\t' || c == '\n' || c == '\u{c}' || c == '\r' || c == ')' || c == ']' || c == '}'
}

fn is_after_ok(c: char) -> (r: bool)
    ensures
        r == after_ok(c),
{
    c == ' ' || c == '\t' || c == '\n' || c == '\u{c}' || c == '\r' || c == '{' || c == '%' || c == ')'
        || c == ']' || c == '}' || c == ',' || c == ';'
}

/// Extracts all binding specifications `(+ ... +)`, returning their bodies and
/// the input with them removed.
fn extract_bind_specs(s: &[char]) -> (r: (Vec<Vec<char>>, Vec<char>))
    ensures
        (r.0@.map_values(|b: Vec<char>| b@), r.1@) == ext_binds(s@),
{
    let open = lit("(+");
    let close = lit("+)");
    proof {
        reveal_strlit("(+");
        reveal_strlit("+)");
    }
    let n = s.len();
    let mut specs: Vec<Vec<char>> = Vec::new();
    let mut stripped: Vec<char> = Vec::new();
    let mut copy_from: usize = 0;
    let mut search_from: usize = 0;
    assert(specs@.map_values(|b: Vec<char>| b@) =~= Seq::<Seq<char>>::empty());
    loop
        invariant
            copy_from <= search_from <= s@.len(),
            n == s@.len(),
            open@ == "(+"@,
            close@ == "+)"@,
            "(+"@.len() == 2,
            "+)"@.len() == 2,
            ext_binds(s@) == ext_binds_from(s@, search_from as int, copy_from as int,
                specs@.map_values(|b: Vec<char>| b@), stripped@),
        decreases s@.len() - search_from,
    {
        let found = find_from_of(s, open.as_slice(), search_from);
        proof {
            lemma_find_from(s@, "(+"@, search_from as int);
        }
        let start = match found {
            None => {
                let rest = slice_chars(s, copy_from, s.len());
                stripped = concat(stripped.as_slice(), rest.as_slice());
                return (specs, stripped);
            },
            Some(start) => start,
        };
        if start > 0 && !is_before_ok(s[start - 1]) {
            search_from = start + 2;
            continue;
        }
        let mut close_from = start + 2;
        let mut end: Option<usize> = None;
        let mut done = false;
        while !done
            invariant
                start + 2 <= close_from <= s@.len(),
                n == s@.len(),
                close@ == "+)"@,
                "+)"@.len() == 2,
                !done ==> end is None,
                !done ==> bind_close_from(s@, start + 2) == bind_close_from(s@, close_from as int),
                done ==> bind_close_from(s@, start + 2) == (match end {
                    Some(e) => Some(e as int),
                    None => None::<int>,
                }),
            decreases s@.len() - close_from + (if done { 0int } else { 1int }),
        {
            let cand = find_from_of(s, close.as_slice(), close_from);
            proof {
                lemma_find_from(s@, "+)"@, close_from as int);
            }
            match cand {
                None => {
                    assert(bind_close_from(s@, close_from as int) is None);
                    done = true;
                },
                Some(c) => {
                    let after = c + 2;
                    if after < s.len() && !is_after_ok(s[after]) {
                        close_from = c + 2;
                    } else {
                        assert(bind_close_from(s@, close_from as int) == Some(c as int));
                        end = Some(c);
                        done = true;
                    }
                },
            }
        }
        proof {
            lemma_bind_close(s@, start + 2);
        }
        let end = match end {
            None => {
                let rest = slice_chars(s, copy_from, s.len());
                stripped = concat(stripped.as_slice(), rest.as_slice());
                return (specs, stripped);
            },
            Some(e) => e,
        };
        let piece = slice_chars(s, copy_from, start);
        stripped = concat(stripped.as_slice(), piece.as_slice());
        let raw = slice_chars(s, start + 2, end);
        let body = trim_of(raw.as_slice());
        if body.len() > 0 {
            let ghost old_s = specs@.map_values(|b: Vec<char>| b@);
            let ghost bv = body@;
            specs.push(body);
            assert(specs@.map_values(|b: Vec<char>| b@) =~= old_s.push(bv));
        }
        copy_from = end + 2;
        search_from = copy_from;
    }
}

// ---------------------------------------------------------------------------
// Hom blocks spanning lines

/// A block `{{ name body }}` from its inner text.
pub open spec fn hom_inner(inner: Seq<char>, start_line: int) -> Result<HomBlockV, OttErrV> {
    let nb = name_body(trim(inner));
    if nb.0.len() == 0 {
        Err(err_at_line("hom block must have a name"@, start_line))
    } else {
        Ok(HomBlockV { name: nb.0, body: nb.1 })
    }
}

pub open spec fn close_line(l: Seq<Seq<char>>, k: int) -> int
    decreases l.len() - k,
{
    if 0 <= k < l.len() && !starts_with(trim_start(l[k]), "}}"@) {
        close_line(l, k + 1)
    } else {
        k
    }
}

/// A block that starts on `first_line` (with `{{`) and, when not closed there,
/// runs over the following lines from `i` up to a line starting with `}}`.
pub open spec fn hom_from_first_line(first_line: Seq<char>, l: Seq<Seq<char>>, i: int, start_line: int) -> Result<(HomBlockV, int), OttErrV> {
    match strip_prefix(trim_start(first_line), "{{"@) {
        None => Err(err_at_line("expected `{{` to start hom block"@, start_line)),
        Some(after) => match split_once(after, "}}"@) {
            Some((inner, _)) => match hom_inner(inner, start_line) {
                Ok(b) => Ok((b, i)),
                Err(e) => Err(e),
            },
            None => {
                let c = close_line(l, i);
                let ni = if c < l.len() { c + 1 } else { c };
                match hom_inner(join(seq![after] + l.subrange(i, c), "\n"@), start_line) {
                    Ok(b) => Ok((b, ni)),
                    Err(e) => Err(e),
                }
            },
        },
    }
}

pub open spec fn multiline_hom(l: Seq<Seq<char>>, i: int) -> Result<(HomBlockV, int), OttErrV> {
    if !(0 <= i < l.len()) {
        Err(err_plain("unexpected EOF while parsing hom block"@))
    } else {
        hom_from_first_line(l[i], l, i + 1, i + 1)
    }
}

proof fn lemma_close_line(l: Seq<Seq<char>>, k: int)
    requires
        0 <= k <= l.len(),
    ensures
        k <= close_line(l, k) <= l.len(),
    decreases l.len() - k,
{
    if k < l.len() && !starts_with(trim_start(l[k]), "}}"@) {
        lemma_close_line(l, k + 1);
    }
}

fn parse_hom_inner(inner: &[char], start_line: usize) -> (r: Result<HomBlock, OttError>)
    ensures
        match hom_inner(inner@, start_line as int) {
            Ok(b) => r is Ok && r->Ok_0@ == b,
            Err(e) => r is Err && r->Err_0@ == e,
        },
{
    let t = trim_of(inner);
    let (name, body) = split_name_body(t.as_slice());
    if name.len() == 0 {
        return Err(error_at_line("hom block must have a name", start_line));
    }
    Ok(make_hom(&name, &body))
}

fn is_close_line(line: &[char]) -> (r: bool)
    ensures
        r == starts_with(trim_start(line@), "}}"@),
{
    let t = trim_start_of(line);
    let close = lit("}}");
    starts_with_of(t.as_slice(), close.as_slice())
}

fn parse_hom_block_from_first_line(
    first_line: &[char],
    lines: &Vec<Vec<char>>,
    i: &mut usize,
    start_line: usize,
) -> (r: Result<HomBlock, OttError>)
    requires
        *old(i) <= lines@.len(),
    ensures
        match hom_from_first_line(first_line@, lv(lines), *old(i) as int, start_line as int) {
            Ok((b, k)) => r is Ok && r->Ok_0@ == b && *final(i) == k,
            Err(e) => r is Err && r->Err_0@ == e,
        },
{
    let ghost l = lv(lines);
    let ghost i0 = *i as int;
    let first = trim_start_of(first_line);
    let open = lit("{{");
    let close = lit("}}");
    let after = match strip_prefix_of(first.as_slice(), open.as_slice()) {
        None => {
            return Err(error_at_line("expected `{{` to start hom block", start_line));
        },
        Some(a) => a,
    };
    match split_once_of(after.as_slice(), close.as_slice()) {
        Some((inner, _rest)) => {
            return parse_hom_inner(inner.as_slice(), start_line);
        },
        None => {},
    }
    let mut collected: Vec<Vec<char>> = Vec::new();
    collected.push(vstd::slice::slice_to_vec(after.as_slice()));
    proof {
        lemma_close_line(l, i0);
    }
    assert(collected@.map_values(|v: Vec<char>| v@) =~= seq![after@] + l.subrange(i0, i0));
    while *i < lines.len() && !is_close_line(lines[*i].as_slice())
        invariant
            0 <= i0 <= *i <= lines@.len(),
            l == lv(lines),
            close_line(l, i0) == close_line(l, *i as int),
            collected@.map_values(|v: Vec<char>| v@) == seq![after@] + l.subrange(i0, *i as int),
        decreases lines@.len() - *i,
    {
        assert(lines[*i as int]@ == l[*i as int]);
        assert(l.len() == lines@.len());
        let ghost old_c = collected@.map_values(|v: Vec<char>| v@);
        collected.push(vstd::slice::slice_to_vec(lines[*i].as_slice()));
        assert(collected@.map_values(|v: Vec<char>| v@) =~= old_c.push(l[*i as int]));
        let ghost k = *i as int;
        assert(0 <= i0 <= k < l.len());
        assert(l.subrange(i0, k + 1) =~= l.subrange(i0, k).push(l[k]));
        *i = *i + 1;
    }
    proof {
        if *i < lines@.len() {
            assert(lines[*i as int]@ == l[*i as int]);
        }
    }
    if *i < lines.len() {
        *i = *i + 1;
    }
    let nl = lit("\n");
    let joined = join_of(&collected, nl.as_slice());
    parse_hom_inner(joined.as_slice(), start_line)
}

fn parse_multiline_hom_block(lines: &Vec<Vec<char>>, i: &mut usize) -> (r: Result<HomBlock, OttError>)
    requires
        *old(i) < lines@.len(),
    ensures
        match multiline_hom(lv(lines), *old(i) as int) {
            Ok((b, k)) => r is Ok && r->Ok_0@ == b && *final(i) == k,
            Err(e) => r is Err && r->Err_0@ == e,
        },
{
    let _n = lines.len();
    let start_line = *i + 1;
    let first_line = &lines[*i];
    assert(first_line@ == lv(lines)[*i as int]);
    *i = *i + 1;
    parse_hom_block_from_first_line(first_line.as_slice(), lines, i, start_line)
}

proof fn lemma_hom_from_first_line(first_line: Seq<char>, l: Seq<Seq<char>>, i: int, start_line: int)
    requires
        0 <= i <= l.len(),
    ensures
        hom_from_first_line(first_line, l, i, start_line) matches Ok((_, k)) ==> i <= k <= l.len(),
{
    lemma_close_line(l, i);
}

/// An error that the parser never produces; it stands where a position that
/// should advance would not.
pub open spec fn no_err() -> OttErrV {
    err_plain(Seq::empty())
}

fn strings_of(v: &Vec<Vec<char>>, from: usize, to: usize) -> (r: Vec<String>)
    requires
        from <= to <= v@.len(),
    ensures
        strs_view(r) == v@.map_values(|l: Vec<char>| l@).subrange(from as int, to as int),
{
    let ghost vv = v@.map_values(|l: Vec<char>| l@);
    let mut out: Vec<String> = Vec::new();
    let mut k = from;
    assert(strs_view(out) =~= vv.subrange(from as int, from as int));
    while k < to
        invariant
            from <= k <= to <= v@.len(),
            vv == v@.map_values(|l: Vec<char>| l@),
            strs_view(out) == vv.subrange(from as int, k as int),
        decreases to - k,
    {
        let ghost old_o = strs_view(out);
        let st = string_from_chars(v[k].as_slice());
        let ghost sv = st@;
        out.push(st);
        assert(strs_view(out) =~= old_o.push(sv));
        assert(vv.subrange(from as int, k + 1) =~= vv.subrange(from as int, k as int).push(vv[k as int]));
        k = k + 1;
    }
    out
}

// ---------------------------------------------------------------------------
// Sections kept as raw lines

/// The first line at or after `k` that starts a new top-level section.
pub open spec fn next_toplevel(l: Seq<Seq<char>>, k: int) -> int
    decreases l.len() - k,
{
    if 0 <= k < l.len() && !toplevel(l[k]) {
        next_toplevel(l, k + 1)
    } else {
        k
    }
}

proof fn lemma_next_toplevel(l: Seq<Seq<char>>, k: int)
    requires
        0 <= k <= l.len(),
    ensures
        k <= next_toplevel(l, k) <= l.len(),
    decreases l.len() - k,
{
    if k < l.len() && !toplevel(l[k]) {
        lemma_next_toplevel(l, k + 1);
    }
}

fn scan_to_toplevel(lines: &Vec<Vec<char>>, i: &mut usize)
    requires
        *old(i) <= lines@.len(),
    ensures
        *final(i) as int == next_toplevel(lv(lines), *old(i) as int),
{
    let ghost l = lv(lines);
    let ghost i0 = *i as int;
    while *i < lines.len() && !is_toplevel_keyword_line(lines[*i].as_slice())
        invariant
            *i <= lines@.len(),
            l == lv(lines),
            next_toplevel(l, i0) == next_toplevel(l, *i as int),
            i0 == *old(i),
        decreases lines@.len() - *i,
    {
        assert(lines[*i as int]@ == l[*i as int]);
        *i = *i + 1;
    }
    proof {
        if *i < lines@.len() {
            assert(lines[*i as int]@ == l[*i as int]);
        }
    }
}

fn parse_unknown_section(keyword: &[char], lines: &Vec<Vec<char>>, i: &mut usize) -> (r: UnknownSection)
    requires
        *old(i) < lines@.len(),
    ensures
        r.keyword@ == keyword@,
        *final(i) as int == next_toplevel(lv(lines), *old(i) + 1),
        strs_view(r.lines) == lv(lines).subrange(*old(i) as int, *final(i) as int),
{
    let _n = lines.len();
    let start = *i;
    *i = *i + 1;
    proof {
        lemma_next_toplevel(lv(lines), start + 1);
    }
    scan_to_toplevel(lines, i);
    UnknownSection { keyword: string_from_chars(keyword), lines: strings_of(lines, start, *i) }
}

fn parse_defns(lines: &Vec<Vec<char>>, i: &mut usize) -> (r: DefnsSection)
    requires
        *old(i) < lines@.len(),
    ensures
        *final(i) as int == next_toplevel(lv(lines), *old(i) + 1),
        strs_view(r.lines) == lv(lines).subrange(*old(i) as int, *final(i) as int),
{
    let _n = lines.len();
    let start = *i;
    *i = *i + 1;
    proof {
        lemma_next_toplevel(lv(lines), start + 1);
    }
    scan_to_toplevel(lines, i);
    DefnsSection { lines: strings_of(lines, start, *i) }
}

// ---------------------------------------------------------------------------
// subrules

pub open spec fn subrules_from(l: Seq<Seq<char>>, i: int, acc: Seq<SubruleV>) -> Result<(Seq<SubruleV>, int), OttErrV>
    decreases l.len() - i,
{
    if i < 0 || i >= l.len() {
        Ok((acc, i))
    } else if blank_or_comment(l[i]) {
        subrules_from(l, i + 1, acc)
    } else if toplevel(l[i]) {
        Ok((acc, i))
    } else {
        match split_once(trim(l[i]), "<::"@) {
            None => Err(err_at_line("expected `<::` in subrules line"@, i + 1)),
            Some((a, b)) => subrules_from(l, i + 1, acc.push(SubruleV { sub: trim(a), sup: trim(b) })),
        }
    }
}

fn parse_subrules(lines: &Vec<Vec<char>>, i: &mut usize) -> (r: Result<SubrulesSection, OttError>)
    requires
        *old(i) < lines@.len(),
    ensures
        match subrules_from(lv(lines), *old(i) + 1, Seq::empty()) {
            Ok((rs, k)) => r is Ok && r->Ok_0.relations@.map_values(|x: Subrule| x@) == rs && *final(i) == k,
            Err(e) => r is Err && r->Err_0@ == e,
        },
{
    let ghost l = lv(lines);
    let ghost i0 = *i + 1;
    let _n = lines.len();
    *i = *i + 1;
    let mut relations: Vec<Subrule> = Vec::new();
    let sep = lit("<::");
    assert(relations@.map_values(|x: Subrule| x@) =~= Seq::<SubruleV>::empty());
    while *i < lines.len()
        invariant
            *i <= lines@.len(),
            l == lv(lines),
            sep@ == "<::"@,
            i0 == *old(i) + 1,
            subrules_from(l, i0, Seq::empty()) == subrules_from(l, *i as int, relations@.map_values(|x: Subrule| x@)),
        decreases lines@.len() - *i,
    {
        let line = &lines[*i];
        assert(line@ == l[*i as int]);
        if is_blank_or_comment(line.as_slice()) {
            *i = *i + 1;
            continue;
        }
        if is_toplevel_keyword_line(line.as_slice()) {
            return Ok(SubrulesSection { relations });
        }
        let t = trim_of(line.as_slice());
        match split_once_of(t.as_slice(), sep.as_slice()) {
            None => {
                return Err(error_at_line("expected `<::` in subrules line", *i + 1));
            },
            Some((a, b)) => {
                let ta = trim_of(a.as_slice());
                let tb = trim_of(b.as_slice());
                let ghost old_r = relations@.map_values(|x: Subrule| x@);
                let rel = Subrule { sub: string_from_chars(ta.as_slice()), sup: string_from_chars(tb.as_slice()) };
                let ghost rv = rel@;
                relations.push(rel);
                assert(relations@.map_values(|x: Subrule| x@) =~= old_r.push(rv));
            },
        }
        *i = *i + 1;
    }
    Ok(SubrulesSection { relations })
}

// ---------------------------------------------------------------------------
// substitutions

pub open spec fn subst_kind(w: Seq<char>) -> Option<SubstKind> {
    if w == "single"@ {
        Some(SubstKind::Single)
    } else if w == "multiple"@ {
        Some(SubstKind::Multiple)
    } else {
        None
    }
}

pub open spec fn subst_line(t: Seq<char>, line: int) -> Result<SubstEntryV, OttErrV> {
    let w = words(t);
    if w.len() < 1 || subst_kind(w[0]) is None {
        Err(err_at_line("expected `single` or `multiple` in substitutions"@, line))
    } else if w.len() < 2 {
        Err(err_at_line("expected nonterminal in substitutions"@, line))
    } else if w.len() < 3 {
        Err(err_at_line("expected metavar in substitutions"@, line))
    } else {
        match split_once(join(w.subrange(3, w.len() as int), " "@), "::"@) {
            None => Err(err_at_line("expected `::` before substitution name"@, line)),
            Some((_, after)) => Ok(SubstEntryV {
                kind: subst_kind(w[0])->0,
                nonterminal: w[1],
                metavar: w[2],
                name: trim(after),
            }),
        }
    }
}

pub open spec fn substitutions_from(l: Seq<Seq<char>>, i: int, acc: Seq<SubstEntryV>) -> Result<(Seq<SubstEntryV>, int), OttErrV>
    decreases l.len() - i,
{
    if i < 0 || i >= l.len() {
        Ok((acc, i))
    } else if blank_or_comment(l[i]) {
        substitutions_from(l, i + 1, acc)
    } else if toplevel(l[i]) {
        Ok((acc, i))
    } else {
        match subst_line(trim(l[i]), i + 1) {
            Err(e) => Err(e),
            Ok(en) => substitutions_from(l, i + 1, acc.push(en)),
        }
    }
}

fn parse_subst_line(t: &[char], line: usize) -> (r: Result<SubstEntry, OttError>)
    ensures
        match subst_line(t@, line as int) {
            Ok(en) => r is Ok && r->Ok_0@ == en,
            Err(e) => r is Err && r->Err_0@ == e,
        },
{
    let w = words_of(t);
    let ghost wv = w@.map_values(|x: Vec<char>| x@);
    if w.len() < 1 {
        return Err(error_at_line("expected `single` or `multiple` in substitutions", line));
    }
    assert(w[0]@ == wv[0]);
    let kind = if is_lit(w[0].as_slice(), "single") {
        SubstKind::Single
    } else if is_lit(w[0].as_slice(), "multiple") {
        SubstKind::Multiple
    } else {
        return Err(error_at_line("expected `single` or `multiple` in substitutions", line));
    };
    if w.len() < 2 {
        return Err(error_at_line("expected nonterminal in substitutions", line));
    }
    if w.len() < 3 {
        return Err(error_at_line("expected metavar in substitutions", line));
    }
    let mut rest_words: Vec<Vec<char>> = Vec::new();
    let mut k: usize = 3;
    assert(rest_words@.map_values(|x: Vec<char>| x@) =~= wv.subrange(3, 3));
    while k < w.len()
        invariant
            3 <= k <= w@.len(),
            wv == w@.map_values(|x: Vec<char>| x@),
            rest_words@.map_values(|x: Vec<char>| x@) == wv.subrange(3, k as int),
        decreases w@.len() - k,
    {
        let ghost old_r = rest_words@.map_values(|x: Vec<char>| x@);
        rest_words.push(vstd::slice::slice_to_vec(w[k].as_slice()));
        assert(rest_words@.map_values(|x: Vec<char>| x@) =~= old_r.push(wv[k as int]));
        assert(wv.subrange(3, k + 1) =~= wv.subrange(3, k as int).push(wv[k as int]));
        k = k + 1;
    }
    let space = lit(" ");
    let rest = join_of(&rest_words, space.as_slice());
    let dc = lit("::");
    match split_once_of(rest.as_slice(), dc.as_slice()) {
        None => Err(error_at_line("expected `::` before substitution name", line)),
        Some((_before, after)) => {
            let name = trim_of(after.as_slice());
            assert(w[1]@ == wv[1]);
            assert(w[2]@ == wv[2]);
            Ok(SubstEntry {
                kind,
                nonterminal: string_from_chars(w[1].as_slice()),
                metavar: string_from_chars(w[2].as_slice()),
                name: string_from_chars(name.as_slice()),
            })
        },
    }
}

fn parse_substitutions(lines: &Vec<Vec<char>>, i: &mut usize) -> (r: Result<SubstitutionsSection, OttError>)
    requires
        *old(i) < lines@.len(),
    ensures
        match substitutions_from(lv(lines), *old(i) + 1, Seq::empty()) {
            Ok((es, k)) => r is Ok && r->Ok_0.entries@.map_values(|x: SubstEntry| x@) == es && *final(i) == k,
            Err(e) => r is Err && r->Err_0@ == e,
        },
{
    let ghost l = lv(lines);
    let ghost i0 = *i + 1;
    let _n = lines.len();
    *i = *i + 1;
    let mut entries: Vec<SubstEntry> = Vec::new();
    assert(entries@.map_values(|x: SubstEntry| x@) =~= Seq::<SubstEntryV>::empty());
    while *i < lines.len()
        invariant
            *i <= lines@.len(),
            l == lv(lines),
            i0 == *old(i) + 1,
            substitutions_from(l, i0, Seq::empty()) == substitutions_from(l, *i as int, entries@.map_values(|x: SubstEntry| x@)),
        decreases lines@.len() - *i,
    {
        let line = &lines[*i];
        assert(line@ == l[*i as int]);
        if is_blank_or_comment(line.as_slice()) {
            *i = *i + 1;
            continue;
        }
        if is_toplevel_keyword_line(line.as_slice()) {
            return Ok(SubstitutionsSection { entries });
        }
        let t = trim_of(line.as_slice());
        let en = match parse_subst_line(t.as_slice(), *i + 1) {
            Ok(en) => en,
            Err(e) => {
                return Err(e);
            },
        };
        let ghost old_e = entries@.map_values(|x: SubstEntry| x@);
        let ghost ev = en@;
        entries.push(en);
        assert(entries@.map_values(|x: SubstEntry| x@) =~= old_e.push(ev));
        *i = *i + 1;
    }
    Ok(SubstitutionsSection { entries })
}

// ---------------------------------------------------------------------------
// embed

pub open spec fn embed_from(l: Seq<Seq<char>>, k: int, acc: Seq<HomBlockV>) -> Result<(Seq<HomBlockV>, int), OttErrV>
    decreases l.len() - k,
{
    if k < 0 || k >= l.len() {
        Ok((acc, k))
    } else {
        let j = skip_trivia_from(l, k);
        if j < k || j >= l.len() {
            Ok((acc, j))
        } else if toplevel(l[j]) {
            Ok((acc, j))
        } else if !starts_with(trim_start(l[j]), "{{"@) {
            Err(err_at_line("expected `{{ ... }}` block in embed section"@, j + 1))
        } else {
            match multiline_hom(l, j) {
                Err(e) => Err(e),
                Ok((b, m)) => if m <= k || m > l.len() {
                    Err(no_err())
                } else {
                    embed_from(l, m, acc.push(b))
                },
            }
        }
    }
}

/// An `embed` section at line `i`: `{{ ... }}` blocks, the first possibly on the
/// keyword line.
pub open spec fn embed_at(l: Seq<Seq<char>>, i: int) -> Result<(Seq<HomBlockV>, int), OttErrV> {
    match strip_prefix(trim_start(l[i]), "embed"@) {
        None => Err(err_plain("internal error: embed keyword mismatch"@)),
        Some(r) => {
            let rest = trim_start(r);
            let first = if starts_with(rest, "{{"@) {
                match hom_from_first_line(rest, l, i + 1, i + 1) {
                    Ok((b, k)) => Ok((seq![b], k)),
                    Err(e) => Err(e),
                }
            } else {
                Ok((Seq::<HomBlockV>::empty(), i + 1))
            };
            match first {
                Err(e) => Err(e),
                Ok((bs, k)) => embed_from(l, k, bs),
            }
        },
    }
}

fn parse_embed(lines: &Vec<Vec<char>>, i: &mut usize) -> (r: Result<EmbedSection, OttError>)
    requires
        *old(i) < lines@.len(),
    ensures
        match embed_at(lv(lines), *old(i) as int) {
            Ok((bs, k)) => r is Ok && homs_view(r->Ok_0.blocks) == bs && *final(i) == k,
            Err(e) => r is Err && r->Err_0@ == e,
        },
{
    let ghost l = lv(lines);
    let ghost i0 = *i as int;
    let _n = lines.len();
    let start_line = *i + 1;
    let line = &lines[*i];
    assert(line@ == l[*i as int]);
    let t = trim_start_of(line.as_slice());
    let kw = lit("embed");
    let r0 = match strip_prefix_of(t.as_slice(), kw.as_slice()) {
        None => {
            return Err(error_plain("internal error: embed keyword mismatch"));
        },
        Some(r0) => r0,
    };
    let rest = trim_start_of(r0.as_slice());
    *i = *i + 1;
    let mut blocks: Vec<HomBlock> = Vec::new();
    let open = lit("{{");
    if starts_with_of(rest.as_slice(), open.as_slice()) {
        proof {
            lemma_hom_from_first_line(rest@, l, i0 + 1, i0 + 1);
        }
        let b = match parse_hom_block_from_first_line(rest.as_slice(), lines, i, start_line) {
            Ok(b) => b,
            Err(e) => {
                return Err(e);
            },
        };
        let ghost bv = b@;
        blocks.push(b);
        assert(homs_view(blocks) =~= seq![bv]);
    } else {
        assert(homs_view(blocks) =~= Seq::<HomBlockV>::empty());
    }
    while *i < lines.len()
        invariant
            *i <= lines@.len(),
            l == lv(lines),
            open@ == "{{"@,
            i0 == *old(i),
            embed_at(l, i0) == embed_from(l, *i as int, homs_view(blocks)),
        decreases lines@.len() - *i,
    {
        let ghost k = *i as int;
        proof {
            lemma_skip_trivia(l, k);
        }
        skip_trivia(lines, i);
        if *i >= lines.len() {
            return Ok(EmbedSection { blocks });
        }
        let ln = &lines[*i];
        assert(ln@ == l[*i as int]);
        if is_toplevel_keyword_line(ln.as_slice()) {
            return Ok(EmbedSection { blocks });
        }
        let t = trim_start_of(ln.as_slice());
        if !starts_with_of(t.as_slice(), open.as_slice()) {
            return Err(error_at_line("expected `{{ ... }}` block in embed section", *i + 1));
        }
        proof {
            lemma_hom_from_first_line(l[*i as int], l, *i + 1, *i + 1);
        }
        let b = match parse_multiline_hom_block(lines, i) {
            Ok(b) => b,
            Err(e) => {
                return Err(e);
            },
        };
        let ghost old_b = homs_view(blocks);
        let ghost bv = b@;
        blocks.push(b);
        assert(homs_view(blocks) =~= old_b.push(bv));
    }
    Ok(EmbedSection { blocks })
}

fn append_homs(v: &mut Vec<HomBlock>, other: Vec<HomBlock>)
    ensures
        homs_view(*final(v)) == homs_view(*old(v)) + homs_view(other),
{
    let mut o = other;
    let ghost a = homs_view(*v);
    let ghost b = homs_view(o);
    v.append(&mut o);
    assert(homs_view(*v) =~= a + b);
}

fn all_strings(v: &Vec<Vec<char>>) -> (r: Vec<String>)
    ensures
        strs_view(r) == v@.map_values(|l: Vec<char>| l@),
{
    let r = strings_of(v, 0, v.len());
    assert(v@.map_values(|l: Vec<char>| l@).subrange(0, v@.len() as int) =~= v@.map_values(|l: Vec<char>| l@));
    r
}

// ---------------------------------------------------------------------------
// metavar / indexvar

/// The text of a metavariable declaration up to `::=` (possibly over several
/// lines, the keyword stripped from the first) and what follows `::=`.
pub open spec fn metavar_names_from(l: Seq<Seq<char>>, i: int, kw: Seq<char>, buf: Seq<char>) -> Result<(Seq<char>, Option<Seq<char>>, int), OttErrV>
    decreases l.len() - i,
{
    if i < 0 || i >= l.len() {
        Ok((buf, None, i))
    } else if blank_or_comment(l[i]) {
        metavar_names_from(l, i + 1, kw, buf)
    } else if block_open(l[i]) {
        let j = comment_block_end(l, i, 0);
        if j <= i || j > l.len() {
            Err(no_err())
        } else {
            metavar_names_from(l, j, kw, buf)
        }
    } else {
        let t = trim_start(l[i]);
        let chunk = if buf.len() == 0 {
            match strip_prefix(t, kw) {
                Some(c) => Some(trim_start(c)),
                None => None,
            }
        } else {
            Some(t)
        };
        match chunk {
            None => Err(err_plain("internal error: metavar keyword mismatch"@)),
            Some(c) => match split_once(c, "::="@) {
                Some((b, a)) => Ok((buf + b, Some(a), i + 1)),
                None => metavar_names_from(l, i + 1, kw, buf + c + seq![' ']),
            },
        }
    }
}

/// Further representation blocks on the lines after a declaration.
pub open spec fn metavar_reps_from(l: Seq<Seq<char>>, i: int, reps: Seq<HomBlockV>) -> (Seq<HomBlockV>, int)
    decreases l.len() - i,
{
    if i < 0 || i >= l.len() {
        (reps, i)
    } else {
        let j = skip_trivia_from(l, i);
        if j < i || j >= l.len() {
            (reps, j)
        } else if toplevel(l[j]) {
            (reps, j)
        } else if !starts_with(trim_start(l[j]), "{{"@) {
            (reps, j)
        } else {
            metavar_reps_from(l, j + 1, reps + ext_homs(trim_start(l[j])).0)
        }
    }
}

pub open spec fn metavar_at(is_index: bool, l: Seq<Seq<char>>, i: int) -> Result<(MetavarDeclV, int), OttErrV> {
    let kw = if is_index { "indexvar"@ } else { "metavar"@ };
    match metavar_names_from(l, i, kw, Seq::empty()) {
        Err(e) => Err(e),
        Ok((buf, after, k)) => match after {
            None => Err(err_at_line("expected `::=` in metavar declaration"@, i + 1)),
            Some(a) => {
                let hb = ext_homs(buf);
                let ns = names(hb.1);
                if ns.len() == 0 {
                    Err(err_at_line("metavar declaration must name at least one identifier"@, i + 1))
                } else {
                    let rk = metavar_reps_from(l, k, hb.0 + ext_homs(a).0);
                    Ok((MetavarDeclV { is_index, names: ns, reps: rk.0 }, rk.1))
                }
            },
        },
    }
}

fn parse_metavar(is_index: bool, lines: &Vec<Vec<char>>, i: &mut usize) -> (r: Result<MetavarDecl, OttError>)
    requires
        *old(i) < lines@.len(),
    ensures
        match metavar_at(is_index, lv(lines), *old(i) as int) {
            Ok((m, k)) => r is Ok && r->Ok_0@ == m && *final(i) == k,
            Err(e) => r is Err && r->Err_0@ == e,
        },
{
    let ghost l = lv(lines);
    let ghost i0 = *i as int;
    let _n = lines.len();
    let keyword = if is_index { lit("indexvar") } else { lit("metavar") };
    let ghost kw = if is_index { "indexvar"@ } else { "metavar"@ };
    let start_line = *i + 1;
    let cce = lit("::=");
    let mut names_buf: Vec<char> = Vec::new();
    let mut after_cce: Option<Vec<char>> = None;
    while *i < lines.len() && after_cce.is_none()
        invariant
            *i <= lines@.len(),
            l == lv(lines),
            keyword@ == kw,
            kw == (if is_index { "indexvar"@ } else { "metavar"@ }),
            cce@ == "::="@,
            i0 == *old(i),
            after_cce is None ==> metavar_names_from(l, i0, kw, Seq::empty())
                == metavar_names_from(l, *i as int, kw, names_buf@),
            after_cce matches Some(a) ==> metavar_names_from(l, i0, kw, Seq::empty())
                == Ok::<(Seq<char>, Option<Seq<char>>, int), OttErrV>((names_buf@, Some(a@), *i as int)),
        decreases lines@.len() - *i,
    {
        let line = &lines[*i];
        assert(line@ == l[*i as int]);
        if is_blank_or_comment(line.as_slice()) {
            *i = *i + 1;
            continue;
        }
        if is_comment_block_start(line.as_slice()) {
            proof {
                lemma_comment_block_end(l, *i as int, 0);
            }
            skip_comment_block(lines, i);
            continue;
        }
        let t = trim_start_of(line.as_slice());
        let chunk = if names_buf.len() == 0 {
            match strip_prefix_of(t.as_slice(), keyword.as_slice()) {
                None => {
                    let e = error_plain("internal error: metavar keyword mismatch");
                    assert(metavar_names_from(l, *i as int, kw, names_buf@) == Err::<(Seq<char>, Option<Seq<char>>, int), OttErrV>(e@));
                    assert(metavar_names_from(l, i0, kw, Seq::empty()) == Err::<(Seq<char>, Option<Seq<char>>, int), OttErrV>(e@));
                    return Err(e);
                },
                Some(c) => trim_start_of(c.as_slice()),
            }
        } else {
            t
        };
        match split_once_of(chunk.as_slice(), cce.as_slice()) {
            Some((before, after)) => {
                names_buf = concat(names_buf.as_slice(), before.as_slice());
                after_cce = Some(after);
                *i = *i + 1;
            },
            None => {
                let ghost old_buf = names_buf@;
                names_buf = concat(names_buf.as_slice(), chunk.as_slice());
                names_buf.push(' ');
                assert(names_buf@ =~= old_buf + chunk@ + seq![' ']);
                *i = *i + 1;
            },
        }
    }
    let after = match after_cce {
        None => {
            return Err(error_at_line("expected `::=` in metavar declaration", start_line));
        },
        Some(a) => a,
    };
    let (mut reps, stripped) = extract_inline_hom_blocks(names_buf.as_slice());
    let name_chars = names_of(stripped.as_slice());
    if name_chars.len() == 0 {
        return Err(error_at_line("metavar declaration must name at least one identifier", start_line));
    }
    let names = all_strings(&name_chars);
    let (more, _rest) = extract_inline_hom_blocks(after.as_slice());
    append_homs(&mut reps, more);
    let open = lit("{{");
    let ghost rk = metavar_reps_from(l, *i as int, homs_view(reps));
    assert(metavar_at(is_index, l, i0) == Ok::<(MetavarDeclV, int), OttErrV>(
        (MetavarDeclV { is_index, names: strs_view(names), reps: rk.0 }, rk.1)));
    while *i < lines.len()
        invariant
            *i <= lines@.len(),
            l == lv(lines),
            open@ == "{{"@,
            i0 == *old(i),
            metavar_reps_from(l, *i as int, homs_view(reps)) == rk,
            metavar_at(is_index, l, i0) == Ok::<(MetavarDeclV, int), OttErrV>(
                (MetavarDeclV { is_index, names: strs_view(names), reps: rk.0 }, rk.1)),
        decreases lines@.len() - *i,
    {
        let ghost k = *i as int;
        proof {
            lemma_skip_trivia(l, k);
        }
        skip_trivia(lines, i);
        if *i >= lines.len() {
            return Ok(MetavarDecl { is_index, names, reps });
        }
        let ln = &lines[*i];
        assert(ln@ == l[*i as int]);
        if is_toplevel_keyword_line(ln.as_slice()) {
            return Ok(MetavarDecl { is_index, names, reps });
        }
        let t = trim_start_of(ln.as_slice());
        if !starts_with_of(t.as_slice(), open.as_slice()) {
            return Ok(MetavarDecl { is_index, names, reps });
        }
        let (more, _rest) = extract_inline_hom_blocks(t.as_slice());
        append_homs(&mut reps, more);
        *i = *i + 1;
    }
    Ok(MetavarDecl { is_index, names, reps })
}

// ---------------------------------------------------------------------------
// Productions

/// The lines of a production after its first one: continuation lines up to a
/// blank line, a section start, a rule header or the next `|` (comment lines
/// are skipped).
pub open spec fn prod_lines_from(l: Seq<Seq<char>>, k: int, acc: Seq<Seq<char>>) -> (Seq<Seq<char>>, int)
    decreases l.len() - k,
{
    if k < 0 || k >= l.len() {
        (acc, k)
    } else {
        let ln = l[k];
        if trim(ln).len() == 0 {
            (acc, k)
        } else if blank_or_comment(ln) {
            prod_lines_from(l, k + 1, acc)
        } else if toplevel(ln) {
            (acc, k)
        } else if contains(ln, "::="@) && !starts_with(trim_start(ln), "|"@) {
            (acc, k)
        } else if starts_with(trim_start(ln), "|"@) {
            (acc, k)
        } else {
            prod_lines_from(l, k + 1, acc.push(ln))
        }
    }
}

/// The structural text of each production line: the first without its `|`.
pub open spec fn structural_parts(rl: Seq<Seq<char>>) -> Option<Seq<Seq<char>>> {
    match strip_prefix(trim(rl[0]), "|"@) {
        None => None,
        Some(f) => Some(seq![trim_start(f)] + rl.subrange(1, rl.len() as int).map_values(|x: Seq<char>| trim(x))),
    }
}

/// A production starting at line `i`: `| pattern :: meta :: name ...` with
/// `{{ ... }}` blocks and `(+ ... +)` binding specifications.
pub open spec fn production_at(l: Seq<Seq<char>>, i: int) -> Result<(ProductionV, int), OttErrV> {
    let pl = prod_lines_from(l, i + 1, seq![l[i]]);
    let rl = pl.0;
    let raw = join(rl, "\n"@);
    let ah = ext_homs(raw);
    let bs = ext_binds(ah.1).0;
    match structural_parts(rl) {
        None => Err(err_at_line("internal error: production does not start with `|`"@, i + 1)),
        Some(parts) => {
            let swo = ext_homs(join(parts, " "@)).1;
            match split_once(swo, "::"@) {
                None => Err(err_at_line("expected `::` metadata in production"@, i + 1)),
                Some((pat, af)) => match split_once(af, "::"@) {
                    None => Err(err_at_line("expected second `::` metadata in production"@, i + 1)),
                    Some((meta, after)) => {
                        let m = trim(meta);
                        let w = words(trim(after));
                        Ok((ProductionV {
                            pattern: trim_end(pat),
                            meta: if m.len() == 0 { None } else { Some(m) },
                            name: if w.len() > 0 { Some(w[0]) } else { None },
                            bind_specs: bs,
                            annotations: ah.0,
                            raw,
                        }, pl.1))
                    },
                },
            }
        },
    }
}

proof fn lemma_prod_lines(l: Seq<Seq<char>>, k: int, acc: Seq<Seq<char>>)
    requires
        0 <= k <= l.len(),
    ensures
        k <= prod_lines_from(l, k, acc).1 <= l.len(),
        prod_lines_from(l, k, acc).0.len() >= acc.len(),
        forall|j: int| 0 <= j < acc.len() ==> prod_lines_from(l, k, acc).0[j] == acc[j],
    decreases l.len() - k,
{
    if k < l.len() {
        let ln = l[k];
        if trim(ln).len() == 0 {
        } else if blank_or_comment(ln) {
            lemma_prod_lines(l, k + 1, acc);
        } else if toplevel(ln) {
        } else if contains(ln, "::="@) && !starts_with(trim_start(ln), "|"@) {
        } else if starts_with(trim_start(ln), "|"@) {
        } else {
            let acc2 = acc.push(ln);
            lemma_prod_lines(l, k + 1, acc2);
            assert forall|j: int| 0 <= j < acc.len() implies prod_lines_from(l, k, acc).0[j] == acc[j] by {
                assert(acc2[j] == acc[j]);
            }
        }
    }
}

fn opt_string(v: &Vec<char>) -> (r: Option<String>)
    ensures
        opt_view(r) == (if v@.len() == 0 { None } else { Some(v@) }),
{
    if v.len() == 0 {
        None
    } else {
        Some(string_from_chars(v.as_slice()))
    }
}

fn parse_production(lines: &Vec<Vec<char>>, i: &mut usize) -> (r: Result<Production, OttError>)
    requires
        *old(i) < lines@.len(),
    ensures
        match production_at(lv(lines), *old(i) as int) {
            Ok((p, k)) => r is Ok && r->Ok_0@ == p && *final(i) == k,
            Err(e) => r is Err && r->Err_0@ == e,
        },
{
    let ghost l = lv(lines);
    let ghost i0 = *i as int;
    let _n = lines.len();
    let start_line = *i + 1;
    let mut raw_lines: Vec<Vec<char>> = Vec::new();
    assert(lines[*i as int]@ == l[i0]);
    raw_lines.push(vstd::slice::slice_to_vec(lines[*i].as_slice()));
    assert(raw_lines@.map_values(|x: Vec<char>| x@) =~= seq![l[i0]]);
    *i = *i + 1;
    let cce = lit("::=");
    let bar = lit("|");
    let mut stop = false;
    while !stop && *i < lines.len()
        invariant
            i0 < *i <= lines@.len(),
            l == lv(lines),
            cce@ == "::="@,
            bar@ == "|"@,
            !stop ==> prod_lines_from(l, i0 + 1, seq![l[i0]])
                == prod_lines_from(l, *i as int, raw_lines@.map_values(|x: Vec<char>| x@)),
            stop ==> prod_lines_from(l, i0 + 1, seq![l[i0]])
                == (raw_lines@.map_values(|x: Vec<char>| x@), *i as int),
        decreases lines@.len() - *i + (if stop { 0int } else { 1int }),
    {
        let ln = &lines[*i];
        assert(ln@ == l[*i as int]);
        let tr = trim_of(ln.as_slice());
        if tr.len() == 0 {
            stop = true;
        } else if is_blank_or_comment(ln.as_slice()) {
            *i = *i + 1;
        } else if is_toplevel_keyword_line(ln.as_slice()) {
            stop = true;
        } else if contains_of(ln.as_slice(), cce.as_slice())
            && !starts_with_of(trim_start_of(ln.as_slice()).as_slice(), bar.as_slice()) {
            stop = true;
        } else if starts_with_of(trim_start_of(ln.as_slice()).as_slice(), bar.as_slice()) {
            stop = true;
        } else {
            let ghost old_r = raw_lines@.map_values(|x: Vec<char>| x@);
            raw_lines.push(vstd::slice::slice_to_vec(ln.as_slice()));
            assert(raw_lines@.map_values(|x: Vec<char>| x@) =~= old_r.push(l[*i as int]));
            *i = *i + 1;
        }
    }
    let ghost rl = raw_lines@.map_values(|x: Vec<char>| x@);
    assert(prod_lines_from(l, i0 + 1, seq![l[i0]]) == (rl, *i as int));
    proof {
        lemma_prod_lines(l, i0 + 1, seq![l[i0]]);
    }
    let nl = lit("\n");
    let raw = join_of(&raw_lines, nl.as_slice());
    let (annos, raw_wo_homs) = extract_inline_hom_blocks(raw.as_slice());
    let (bind_chars, _raw_wo_bind) = extract_bind_specs(raw_wo_homs.as_slice());
    // structural parts
    let mut parts: Vec<Vec<char>> = Vec::new();
    let first_trim = trim_of(raw_lines[0].as_slice());
    assert(raw_lines[0]@ == rl[0]);
    let first = match strip_prefix_of(first_trim.as_slice(), bar.as_slice()) {
        None => {
            return Err(error_at_line("internal error: production does not start with `|`", start_line));
        },
        Some(f) => f,
    };
    parts.push(trim_start_of(first.as_slice()));
    let ghost f = strip_prefix(trim(rl[0]), "|"@)->0;
    let mut k: usize = 1;
    assert(parts@.map_values(|x: Vec<char>| x@) =~= seq![trim_start(f)] + rl.subrange(1, 1).map_values(|x: Seq<char>| trim(x)));
    while k < raw_lines.len()
        invariant
            1 <= k <= raw_lines@.len(),
            rl == raw_lines@.map_values(|x: Vec<char>| x@),
            parts@.map_values(|x: Vec<char>| x@) == seq![trim_start(f)] + rl.subrange(1, k as int).map_values(|x: Seq<char>| trim(x)),
        decreases raw_lines@.len() - k,
    {
        let ghost old_p = parts@.map_values(|x: Vec<char>| x@);
        let t = trim_of(raw_lines[k].as_slice());
        assert(raw_lines[k as int]@ == rl[k as int]);
        parts.push(t);
        assert(parts@.map_values(|x: Vec<char>| x@) =~= old_p.push(trim(rl[k as int])));
        assert(rl.subrange(1, k + 1).map_values(|x: Seq<char>| trim(x)) =~= rl.subrange(1, k as int).map_values(|x: Seq<char>| trim(x)).push(trim(rl[k as int])));
        k = k + 1;
    }
    assert(rl.subrange(1, rl.len() as int) =~= rl.subrange(1, k as int));
    let space = lit(" ");
    let structural = join_of(&parts, space.as_slice());
    let (_struct_annos, swo) = extract_inline_hom_blocks(structural.as_slice());
    let dc = lit("::");
    let (pattern_part, after_first) = match split_once_of(swo.as_slice(), dc.as_slice()) {
        None => {
            return Err(error_at_line("expected `::` metadata in production", start_line));
        },
        Some(x) => x,
    };
    let (meta_part, after_second) = match split_once_of(after_first.as_slice(), dc.as_slice()) {
        None => {
            return Err(error_at_line("expected second `::` metadata in production", start_line));
        },
        Some(x) => x,
    };
    let pattern = trim_end_of(pattern_part.as_slice());
    let m = trim_of(meta_part.as_slice());
    let rest = trim_of(after_second.as_slice());
    let w = words_of(rest.as_slice());
    let name = if w.len() > 0 {
        assert(w[0]@ == w@.map_values(|x: Vec<char>| x@)[0]);
        Some(string_from_chars(w[0].as_slice()))
    } else {
        None
    };
    Ok(Production {
        pattern: string_from_chars(pattern.as_slice()),
        meta: opt_string(&m),
        name,
        bind_specs: all_strings(&bind_chars),
        annotations: annos,
        raw: string_from_chars(raw.as_slice()),
    })
}

// ---------------------------------------------------------------------------
// Grammar

/// The trimmed body of the first `com` block.
pub open spec fn find_com(annos: Seq<HomBlockV>) -> Option<Seq<char>>
    decreases annos.len(),
{
    if annos.len() == 0 {
        None
    } else if annos[0].name == "com"@ {
        Some(trim(annos[0].body))
    } else {
        find_com(annos.drop_first())
    }
}

/// A rule header `roots :: sort ::= ...`: the roots, the sort and the blocks
/// (those after `::=` first, then those of the roots, then those of the sort).
pub open spec fn rule_header(ln: Seq<char>, line: int) -> Result<(Seq<Seq<char>>, Seq<char>, Seq<HomBlockV>), OttErrV> {
    if !contains(ln, "::="@) {
        Err(err_at_line("expected grammar rule header containing `::=`"@, line))
    } else {
        match split_once(ln, "::="@) {
            None => Err(err_plain("expected `::=` in grammar header"@)),
            Some((lhs, rhs)) => match split_once(lhs, "::"@) {
                None => Err(err_at_line("expected `::` in grammar header before `::=`"@, line)),
                Some((rp, sp)) => {
                    let ra = ext_homs(rp);
                    let roots = names(ra.1);
                    if roots.len() == 0 {
                        Err(err_at_line("grammar rule must have at least one root"@, line))
                    } else {
                        let sa = ext_homs(sp);
                        Ok((roots, trim(sa.1), ext_homs(rhs).0 + ra.0 + sa.0))
                    }
                },
            },
        }
    }
}

/// A line that starts a new grammar rule (not a production).
pub open spec fn rule_start(ln: Seq<char>) -> bool {
    contains(ln, "::="@) && !starts_with(trim_start(ln), "|"@)
}

/// Block lines between a rule header and its first production.
pub open spec fn rule_annos_from(l: Seq<Seq<char>>, k: int, annos: Seq<HomBlockV>) -> Result<(Seq<HomBlockV>, int), OttErrV>
    decreases l.len() - k,
{
    if k < 0 || k >= l.len() {
        Ok((annos, k))
    } else {
        let j = skip_trivia_from(l, k);
        if j < k || j >= l.len() {
            Ok((annos, j))
        } else if toplevel(l[j]) || rule_start(l[j]) || !starts_with(trim_start(l[j]), "{{"@) {
            Ok((annos, j))
        } else if contains(trim_start(l[j]), "}}"@) {
            rule_annos_from(l, j + 1, annos + ext_homs(trim_start(l[j])).0)
        } else {
            match multiline_hom(l, j) {
                Err(e) => Err(e),
                Ok((b, m)) => if m <= k || m > l.len() {
                    Err(no_err())
                } else {
                    rule_annos_from(l, m, annos.push(b))
                },
            }
        }
    }
}

/// The productions of a rule, from line `k` on.
pub open spec fn rule_prods_from(l: Seq<Seq<char>>, k: int, prods: Seq<ProductionV>) -> Result<(Seq<ProductionV>, int), OttErrV>
    decreases l.len() - k,
{
    if k < 0 || k >= l.len() {
        Ok((prods, k))
    } else {
        let j = skip_trivia_from(l, k);
        if j < k || j >= l.len() {
            Ok((prods, j))
        } else if toplevel(l[j]) || rule_start(l[j]) {
            Ok((prods, j))
        } else if !starts_with(trim_start(l[j]), "|"@) {
            Err(err_at_line("expected production line starting with `|`"@, j + 1))
        } else {
            match production_at(l, j) {
                Err(e) => Err(e),
                Ok((p, m)) => if m <= k || m > l.len() {
                    Err(no_err())
                } else {
                    rule_prods_from(l, m, prods.push(p))
                },
            }
        }
    }
}

/// The rules of a grammar section, from line `i` on.
pub open spec fn rules_from(l: Seq<Seq<char>>, i: int, rules: Seq<GrammarRuleV>) -> Result<(Seq<GrammarRuleV>, int), OttErrV>
    decreases l.len() - i,
{
    if i < 0 || i >= l.len() {
        Ok((rules, i))
    } else {
        let j = skip_trivia_from(l, i);
        if j < i || j >= l.len() {
            Ok((rules, j))
        } else if toplevel(l[j]) {
            Ok((rules, j))
        } else {
            match rule_header(l[j], j + 1) {
                Err(e) => Err(e),
                Ok((roots, sort, annos)) => match rule_annos_from(l, j + 1, annos) {
                    Err(e) => Err(e),
                    Ok((annos2, k2)) => match rule_prods_from(l, k2, Seq::empty()) {
                        Err(e) => Err(e),
                        Ok((prods, k3)) => if k3 <= i || k3 > l.len() {
                            Err(no_err())
                        } else {
                            rules_from(l, k3, rules.push(GrammarRuleV {
                                roots,
                                sort,
                                comment: find_com(annos2),
                                annotations: annos2,
                                productions: prods,
                            }))
                        },
                    },
                },
            }
        }
    }
}

pub open spec fn grammar_at(l: Seq<Seq<char>>, i: int) -> Result<(Seq<GrammarRuleV>, int), OttErrV> {
    rules_from(l, i + 1, Seq::empty())
}

proof fn lemma_rule_annos(l: Seq<Seq<char>>, k: int, annos: Seq<HomBlockV>)
    requires
        0 <= k <= l.len(),
    ensures
        rule_annos_from(l, k, annos) matches Ok((_, m)) ==> k <= m <= l.len(),
    decreases l.len() - k,
{
    if k < l.len() {
        lemma_skip_trivia(l, k);
        let j = skip_trivia_from(l, k);
        if j < l.len() && !(toplevel(l[j]) || rule_start(l[j]) || !starts_with(trim_start(l[j]), "{{"@)) {
            if contains(trim_start(l[j]), "}}"@) {
                lemma_rule_annos(l, j + 1, annos + ext_homs(trim_start(l[j])).0);
            } else {
                lemma_hom_from_first_line(l[j], l, j + 1, j + 1);
                match multiline_hom(l, j) {
                    Ok((b, m)) => {
                        lemma_rule_annos(l, m, annos.push(b));
                    },
                    Err(_) => {},
                }
            }
        }
    }
}

proof fn lemma_rule_prods(l: Seq<Seq<char>>, k: int, prods: Seq<ProductionV>)
    requires
        0 <= k <= l.len(),
    ensures
        rule_prods_from(l, k, prods) matches Ok((_, m)) ==> k <= m <= l.len(),
    decreases l.len() - k,
{
    if k < l.len() {
        lemma_skip_trivia(l, k);
        let j = skip_trivia_from(l, k);
        if j < l.len() && !(toplevel(l[j]) || rule_start(l[j])) && starts_with(trim_start(l[j]), "|"@) {
            lemma_prod_lines(l, j + 1, seq![l[j]]);
            match production_at(l, j) {
                Ok((p, m)) => {
                    lemma_rule_prods(l, m, prods.push(p));
                },
                Err(_) => {},
            }
        }
    }
}

fn find_comment(annos: &Vec<HomBlock>) -> (r: Option<String>)
    ensures
        opt_view(r) == find_com(homs_view(*annos)),
{
    let ghost hv = homs_view(*annos);
    let mut k: usize = 0;
    assert(hv.skip(0) =~= hv);
    while k < annos.len()
        invariant
            k <= annos@.len(),
            hv == homs_view(*annos),
            find_com(hv) == find_com(hv.skip(k as int)),
        decreases annos@.len() - k,
    {
        let h = &annos[k];
        assert(hv.skip(k as int)[0] == h@);
        assert(hv.skip(k as int).drop_first() =~= hv.skip(k + 1));
        let name = chars_of(h.name.as_str());
        if is_lit(name.as_slice(), "com") {
            let body = chars_of(h.body.as_str());
            let t = trim_of(body.as_slice());
            return Some(string_from_chars(t.as_slice()));
        }
        k = k + 1;
    }
    assert(hv.skip(k as int) =~= Seq::<HomBlockV>::empty());
    None
}

fn parse_rule_header(ln: &[char], line: usize) -> (r: Result<(Vec<String>, String, Vec<HomBlock>), OttError>)
    ensures
        match rule_header(ln@, line as int) {
            Ok((roots, sort, annos)) => r matches Ok(x) && strs_view(x.0) == roots && x.1@ == sort
                && homs_view(x.2) == annos,
            Err(e) => r is Err && r->Err_0@ == e,
        },
{
    let cce = lit("::=");
    let dc = lit("::");
    if !contains_of(ln, cce.as_slice()) {
        return Err(error_at_line("expected grammar rule header containing `::=`", line));
    }
    let (lhs, rhs) = match split_once_of(ln, cce.as_slice()) {
        None => {
            return Err(error_plain("expected `::=` in grammar header"));
        },
        Some(x) => x,
    };
    let (root_part, sort_part) = match split_once_of(lhs.as_slice(), dc.as_slice()) {
        None => {
            return Err(error_at_line("expected `::` in grammar header before `::=`", line));
        },
        Some(x) => x,
    };
    let (root_annos, root_stripped) = extract_inline_hom_blocks(root_part.as_slice());
    let root_chars = names_of(root_stripped.as_slice());
    if root_chars.len() == 0 {
        return Err(error_at_line("grammar rule must have at least one root", line));
    }
    let roots = all_strings(&root_chars);
    let (sort_annos, sort_stripped) = extract_inline_hom_blocks(sort_part.as_slice());
    let sort = trim_of(sort_stripped.as_slice());
    let (mut annotations, _stripped_rhs) = extract_inline_hom_blocks(rhs.as_slice());
    append_homs(&mut annotations, root_annos);
    append_homs(&mut annotations, sort_annos);
    Ok((roots, string_from_chars(sort.as_slice()), annotations))
}

fn is_rule_start(ln: &[char]) -> (r: bool)
    ensures
        r == rule_start(ln@),
{
    let cce = lit("::=");
    let bar = lit("|");
    contains_of(ln, cce.as_slice()) && !starts_with_of(trim_start_of(ln).as_slice(), bar.as_slice())
}

fn parse_rule_annotations(lines: &Vec<Vec<char>>, i: &mut usize, annos: Vec<HomBlock>) -> (r: Result<Vec<HomBlock>, OttError>)
    requires
        *old(i) <= lines@.len(),
    ensures
        match rule_annos_from(lv(lines), *old(i) as int, homs_view(annos)) {
            Ok((a, k)) => r is Ok && homs_view(r->Ok_0) == a && *final(i) == k,
            Err(e) => r is Err && r->Err_0@ == e,
        },
{
    let ghost l = lv(lines);
    let ghost i0 = *i as int;
    let ghost a0 = homs_view(annos);
    let mut annotations = annos;
    let open = lit("{{");
    let close = lit("}}");
    while *i < lines.len()
        invariant
            *i <= lines@.len(),
            l == lv(lines),
            open@ == "{{"@,
            close@ == "}}"@,
            i0 == *old(i),
            a0 == homs_view(annos),
            rule_annos_from(l, i0, a0) == rule_annos_from(l, *i as int, homs_view(annotations)),
        decreases lines@.len() - *i,
    {
        let ghost k = *i as int;
        proof {
            lemma_skip_trivia(l, k);
        }
        skip_trivia(lines, i);
        if *i >= lines.len() {
            return Ok(annotations);
        }
        let ln = &lines[*i];
        assert(ln@ == l[*i as int]);
        let t = trim_start_of(ln.as_slice());
        if is_toplevel_keyword_line(ln.as_slice()) || is_rule_start(ln.as_slice())
            || !starts_with_of(t.as_slice(), open.as_slice()) {
            return Ok(annotations);
        }
        if contains_of(t.as_slice(), close.as_slice()) {
            let (more, _rest) = extract_inline_hom_blocks(t.as_slice());
            append_homs(&mut annotations, more);
            *i = *i + 1;
        } else {
            proof {
                lemma_hom_from_first_line(l[*i as int], l, *i + 1, *i + 1);
            }
            let b = match parse_multiline_hom_block(lines, i) {
                Ok(b) => b,
                Err(e) => {
                    return Err(e);
                },
            };
            let ghost old_a = homs_view(annotations);
            let ghost bv = b@;
            annotations.push(b);
            assert(homs_view(annotations) =~= old_a.push(bv));
        }
    }
    Ok(annotations)
}

fn parse_rule_productions(lines: &Vec<Vec<char>>, i: &mut usize) -> (r: Result<Vec<Production>, OttError>)
    requires
        *old(i) <= lines@.len(),
    ensures
        match rule_prods_from(lv(lines), *old(i) as int, Seq::empty()) {
            Ok((ps, k)) => r is Ok && r->Ok_0@.map_values(|p: Production| p@) == ps && *final(i) == k,
            Err(e) => r is Err && r->Err_0@ == e,
        },
{
    let ghost l = lv(lines);
    let ghost i0 = *i as int;
    let mut productions: Vec<Production> = Vec::new();
    let bar = lit("|");
    assert(productions@.map_values(|p: Production| p@) =~= Seq::<ProductionV>::empty());
    while *i < lines.len()
        invariant
            *i <= lines@.len(),
            l == lv(lines),
            bar@ == "|"@,
            i0 == *old(i),
            rule_prods_from(l, i0, Seq::empty()) == rule_prods_from(l, *i as int, productions@.map_values(|p: Production| p@)),
        decreases lines@.len() - *i,
    {
        let ghost k = *i as int;
        proof {
            lemma_skip_trivia(l, k);
        }
        skip_trivia(lines, i);
        if *i >= lines.len() {
            return Ok(productions);
        }
        let ln = &lines[*i];
        assert(ln@ == l[*i as int]);
        if is_toplevel_keyword_line(ln.as_slice()) || is_rule_start(ln.as_slice()) {
            return Ok(productions);
        }
        let t = trim_start_of(ln.as_slice());
        if !starts_with_of(t.as_slice(), bar.as_slice()) {
            return Err(error_at_line("expected production line starting with `|`", *i + 1));
        }
        proof {
            lemma_prod_lines(l, *i + 1, seq![l[*i as int]]);
        }
        let p = match parse_production(lines, i) {
            Ok(p) => p,
            Err(e) => {
                return Err(e);
            },
        };
        let ghost old_p = productions@.map_values(|p: Production| p@);
        let ghost pv = p@;
        productions.push(p);
        assert(productions@.map_values(|p: Production| p@) =~= old_p.push(pv));
    }
    Ok(productions)
}

fn parse_grammar(lines: &Vec<Vec<char>>, i: &mut usize) -> (r: Result<GrammarSection, OttError>)
    requires
        *old(i) < lines@.len(),
    ensures
        match grammar_at(lv(lines), *old(i) as int) {
            Ok((rs, k)) => r is Ok && r->Ok_0.rules@.map_values(|g: GrammarRule| g@) == rs && *final(i) == k,
            Err(e) => r is Err && r->Err_0@ == e,
        },
{
    let ghost l = lv(lines);
    let ghost i0 = *i as int + 1;
    let _n = lines.len();
    *i = *i + 1;
    let mut rules: Vec<GrammarRule> = Vec::new();
    assert(rules@.map_values(|g: GrammarRule| g@) =~= Seq::<GrammarRuleV>::empty());
    while *i < lines.len()
        invariant
            *i <= lines@.len(),
            l == lv(lines),
            i0 == *old(i) + 1,
            rules_from(l, i0, Seq::empty()) == rules_from(l, *i as int, rules@.map_values(|g: GrammarRule| g@)),
        decreases lines@.len() - *i,
    {
        let ghost k = *i as int;
        proof {
            lemma_skip_trivia(l, k);
        }
        skip_trivia(lines, i);
        if *i >= lines.len() {
            return Ok(GrammarSection { rules });
        }
        let ln = &lines[*i];
        assert(ln@ == l[*i as int]);
        if is_toplevel_keyword_line(ln.as_slice()) {
            return Ok(GrammarSection { rules });
        }
        let (roots, sort, annotations) = match parse_rule_header(ln.as_slice(), *i + 1) {
            Ok(x) => x,
            Err(e) => {
                return Err(e);
            },
        };
        *i = *i + 1;
        proof {
            lemma_rule_annos(l, *i as int, homs_view(annotations));
        }
        let annotations = match parse_rule_annotations(lines, i, annotations) {
            Ok(a) => a,
            Err(e) => {
                return Err(e);
            },
        };
        let comment = find_comment(&annotations);
        proof {
            lemma_rule_prods(l, *i as int, Seq::empty());
        }
        let productions = match parse_rule_productions(lines, i) {
            Ok(p) => p,
            Err(e) => {
                return Err(e);
            },
        };
        let ghost old_r = rules@.map_values(|g: GrammarRule| g@);
        let rule = GrammarRule { roots, sort, comment, annotations, productions };
        let ghost rv = rule@;
        rules.push(rule);
        assert(rules@.map_values(|g: GrammarRule| g@) =~= old_r.push(rv));
    }
    Ok(GrammarSection { rules })
}

// ---------------------------------------------------------------------------
// defn

pub open spec fn skip_blank_from(l: Seq<Seq<char>>, k: int) -> int
    decreases l.len() - k,
{
    if 0 <= k < l.len() && blank_or_comment(l[k]) {
        skip_blank_from(l, k + 1)
    } else {
        k
    }
}

pub open spec fn rule_bar(t: Seq<char>) -> bool {
    starts_with(trim_start(t), "----"@)
}

/// The name after the `::` of a rule bar line (after the last `::` when there are several).
pub open spec fn rule_name(line: Seq<char>) -> Option<Seq<char>> {
    match split_once(line, "::"@) {
        None => None,
        Some((_, rest)) => Some(trim(after_last(rest, "::"@))),
    }
}

/// The conclusion lines of a rule, from line `k` on.
pub open spec fn conclusion_from(l: Seq<Seq<char>>, k: int, acc: Seq<Seq<char>>) -> (Seq<Seq<char>>, int)
    decreases l.len() - k,
{
    if k < 0 || k >= l.len() {
        (acc, k)
    } else {
        let ln = l[k];
        if trim(ln).len() == 0 || toplevel(ln) && !blank_or_comment(ln) || rule_bar(trim_start(ln)) && !blank_or_comment(ln) {
            (acc, k)
        } else if blank_or_comment(ln) {
            conclusion_from(l, k + 1, acc)
        } else {
            conclusion_from(l, k + 1, acc.push(trim(ln)))
        }
    }
}

/// The inference rules of a `defn` block from line `i` on; `premises` are the
/// premise lines read since the last rule.
pub open spec fn defn_rules_from(l: Seq<Seq<char>>, i: int, rules: Seq<InferenceRuleV>, premises: Seq<Seq<char>>) -> Result<(Seq<InferenceRuleV>, int), OttErrV>
    decreases l.len() - i,
{
    if i < 0 || i >= l.len() {
        Ok((rules, i))
    } else if toplevel(l[i]) {
        Ok((rules, i))
    } else if blank_or_comment(l[i]) {
        defn_rules_from(l, i + 1, rules, premises)
    } else if rule_bar(trim_start(l[i])) {
        match rule_name(trim_start(l[i])) {
            None => Err(err_at_line("expected `:: RuleName` after rule bar"@, i + 1)),
            Some(name) => {
                let j = skip_blank_from(l, i + 1);
                if j >= l.len() {
                    Err(err_at_line("unexpected EOF: missing rule conclusion"@, j + 1))
                } else {
                    let c = conclusion_from(l, j, Seq::empty());
                    if c.1 <= i || c.1 > l.len() {
                        Err(no_err())
                    } else {
                        defn_rules_from(l, c.1, rules.push(InferenceRuleV { name, premises, conclusion: c.0 }), Seq::empty())
                    }
                }
            },
        }
    } else {
        defn_rules_from(l, i + 1, rules, premises.push(trim(l[i])))
    }
}

/// A `defn` block at line `i`: a header (on the keyword line or the next
/// non-blank one, a trailing `by` dropped), then premises, rule bars and conclusions.
pub open spec fn defn_at(l: Seq<Seq<char>>, i: int) -> Result<(DefnBlockV, int), OttErrV> {
    let h0 = trim(match strip_prefix(trim_start(l[i]), "defn"@) {
        Some(x) => x,
        None => Seq::empty(),
    });
    let hk: Result<(Seq<char>, int), OttErrV> = if h0.len() == 0 {
        let j = skip_blank_from(l, i + 1);
        if j >= l.len() {
            Err(err_at_line("unexpected EOF after `defn`"@, j + 1))
        } else {
            Ok((trim(l[j]), j + 1))
        }
    } else {
        Ok((h0, i + 1))
    };
    match hk {
        Err(e) => Err(e),
        Ok((header, k)) => {
            let hwb = match strip_suffix(header, "by"@) {
                Some(x) => trim(x),
                None => header,
            };
            let ah = ext_homs(hwb);
            match defn_rules_from(l, k, Seq::empty(), Seq::empty()) {
                Err(e) => Err(e),
                Ok((rules, m)) => Ok((DefnBlockV { header: trim(ah.1), comment: find_com(ah.0), rules }, m)),
            }
        },
    }
}

proof fn lemma_skip_blank(l: Seq<Seq<char>>, k: int)
    requires
        0 <= k <= l.len(),
    ensures
        k <= skip_blank_from(l, k) <= l.len(),
    decreases l.len() - k,
{
    if k < l.len() && blank_or_comment(l[k]) {
        lemma_skip_blank(l, k + 1);
    }
}

proof fn lemma_conclusion(l: Seq<Seq<char>>, k: int, acc: Seq<Seq<char>>)
    requires
        0 <= k <= l.len(),
    ensures
        k <= conclusion_from(l, k, acc).1 <= l.len(),
    decreases l.len() - k,
{
    if k < l.len() {
        let ln = l[k];
        if trim(ln).len() == 0 || toplevel(ln) && !blank_or_comment(ln) || rule_bar(trim_start(ln)) && !blank_or_comment(ln) {
        } else if blank_or_comment(ln) {
            lemma_conclusion(l, k + 1, acc);
        } else {
            lemma_conclusion(l, k + 1, acc.push(trim(ln)));
        }
    }
}

proof fn lemma_defn_rules(l: Seq<Seq<char>>, i: int, rules: Seq<InferenceRuleV>, premises: Seq<Seq<char>>)
    requires
        0 <= i <= l.len(),
    ensures
        defn_rules_from(l, i, rules, premises) matches Ok((_, m)) ==> i <= m <= l.len(),
    decreases l.len() - i,
{
    if i < l.len() && !toplevel(l[i]) {
        if blank_or_comment(l[i]) {
            lemma_defn_rules(l, i + 1, rules, premises);
        } else if rule_bar(trim_start(l[i])) {
            match rule_name(trim_start(l[i])) {
                None => {},
                Some(name) => {
                    lemma_skip_blank(l, i + 1);
                    let j = skip_blank_from(l, i + 1);
                    if j < l.len() {
                        lemma_conclusion(l, j, Seq::empty());
                        let c = conclusion_from(l, j, Seq::empty());
                        lemma_defn_rules(l, c.1, rules.push(InferenceRuleV { name, premises, conclusion: c.0 }), Seq::empty());
                    }
                },
            }
        } else {
            lemma_defn_rules(l, i + 1, rules, premises.push(trim(l[i])));
        }
    }
}

fn is_rule_bar_line(line: &[char]) -> (r: bool)
    ensures
        r == rule_bar(line@),
{
    let t = trim_start_of(line);
    let bar = lit("----");
    starts_with_of(t.as_slice(), bar.as_slice())
}

fn parse_rule_name_from_bar_line(line: &[char]) -> (r: Option<Vec<char>>)
    ensures
        match rule_name(line@) {
            Some(n) => r matches Some(x) && x@ == n,
            None => r is None,
        },
{
    let dc = lit("::");
    match split_once_of(line, dc.as_slice()) {
        None => None,
        Some((_before, rest)) => {
            let last = after_last_of(rest.as_slice(), dc.as_slice());
            Some(trim_of(last.as_slice()))
        },
    }
}

fn parse_defn(lines: &Vec<Vec<char>>, i: &mut usize) -> (r: Result<DefnBlock, OttError>)
    requires
        *old(i) < lines@.len(),
        lines@.len() < usize::MAX,
    ensures
        match defn_at(lv(lines), *old(i) as int) {
            Ok((d, k)) => r is Ok && r->Ok_0@ == d && *final(i) == k,
            Err(e) => r is Err && r->Err_0@ == e,
        },
{
    let ghost l = lv(lines);
    let ghost i0 = *i as int;
    let defn_line = &lines[*i];
    assert(defn_line@ == l[i0]);
    let t0 = trim_start_of(defn_line.as_slice());
    let kw = lit("defn");
    let h0 = match strip_prefix_of(t0.as_slice(), kw.as_slice()) {
        Some(x) => trim_of(x.as_slice()),
        None => {
            let e: Vec<char> = Vec::new();
            trim_of(e.as_slice())
        },
    };
    *i = *i + 1;
    let mut header = h0;
    if header.len() == 0 {
        while *i < lines.len() && is_blank_or_comment(lines[*i].as_slice())
            invariant
                i0 < *i <= lines@.len(),
                l == lv(lines),
                skip_blank_from(l, i0 + 1) == skip_blank_from(l, *i as int),
            decreases lines@.len() - *i,
        {
            assert(lines[*i as int]@ == l[*i as int]);
            *i = *i + 1;
        }
        proof {
            if *i < lines@.len() {
                assert(lines[*i as int]@ == l[*i as int]);
            }
        }
        if *i >= lines.len() {
            return Err(error_at_line("unexpected EOF after `defn`", *i + 1));
        }
        assert(lines[*i as int]@ == l[*i as int]);
        header = trim_of(lines[*i].as_slice());
        *i = *i + 1;
    }
    let by = lit("by");
    let hwb = match strip_suffix_of(header.as_slice(), by.as_slice()) {
        Some(x) => trim_of(x.as_slice()),
        None => header,
    };
    let (annos, hs) = extract_inline_hom_blocks(hwb.as_slice());
    let comment = find_comment(&annos);
    let header_stripped = trim_of(hs.as_slice());
    let ghost k0 = *i as int;
    proof {
        lemma_defn_rules(l, k0, Seq::empty(), Seq::empty());
    }
    let ghost hv = header_stripped@;
    let ghost cv = opt_view(comment);
    assert(defn_at(l, i0) == match defn_rules_from(l, k0, Seq::empty(), Seq::empty()) {
        Err(e) => Err(e),
        Ok((rules, m)) => Ok((DefnBlockV { header: hv, comment: cv, rules }, m)),
    });
    let mut rules: Vec<InferenceRule> = Vec::new();
    let mut premises: Vec<String> = Vec::new();
    assert(rules@.map_values(|x: InferenceRule| x@) =~= Seq::<InferenceRuleV>::empty());
    assert(strs_view(premises) =~= Seq::<Seq<char>>::empty());
    while *i < lines.len()
        invariant
            k0 <= *i <= lines@.len(),
            lines@.len() < usize::MAX,
            l == lv(lines),
            i0 == *old(i),
            hv == header_stripped@,
            cv == opt_view(comment),
            defn_at(l, i0) == match defn_rules_from(l, k0, Seq::empty(), Seq::empty()) {
                Err(e) => Err(e),
                Ok((rules, m)) => Ok((DefnBlockV { header: hv, comment: cv, rules }, m)),
            },
            defn_rules_from(l, k0, Seq::empty(), Seq::empty())
                == defn_rules_from(l, *i as int, rules@.map_values(|x: InferenceRule| x@), strs_view(premises)),
        decreases lines@.len() - *i,
    {
        let line = &lines[*i];
        assert(line@ == l[*i as int]);
        if is_toplevel_keyword_line(line.as_slice()) {
            return Ok(DefnBlock {
                header: string_from_chars(header_stripped.as_slice()),
                comment,
                rules,
            });
        }
        if is_blank_or_comment(line.as_slice()) {
            *i = *i + 1;
            continue;
        }
        let t = trim_start_of(line.as_slice());
        proof {
            lemma_trim_start_idem(line@);
        }
        if is_rule_bar_line(t.as_slice()) {
            let name = match parse_rule_name_from_bar_line(t.as_slice()) {
                None => {
                    return Err(error_at_line("expected `:: RuleName` after rule bar", *i + 1));
                },
                Some(n) => n,
            };
            let ghost ib = *i as int;
            *i = *i + 1;
            while *i < lines.len() && is_blank_or_comment(lines[*i].as_slice())
                invariant
                    ib < *i <= lines@.len(),
                    l == lv(lines),
                    skip_blank_from(l, ib + 1) == skip_blank_from(l, *i as int),
                decreases lines@.len() - *i,
            {
                assert(lines[*i as int]@ == l[*i as int]);
                *i = *i + 1;
            }
            proof {
                if *i < lines@.len() {
                    assert(lines[*i as int]@ == l[*i as int]);
                }
            }
            if *i >= lines.len() {
                return Err(error_at_line("unexpected EOF: missing rule conclusion", *i + 1));
            }
            let ghost jc = *i as int;
            let mut conclusion: Vec<String> = Vec::new();
            assert(strs_view(conclusion) =~= Seq::<Seq<char>>::empty());
            let mut stop = false;
            while !stop && *i < lines.len()
                invariant
                    jc <= *i <= lines@.len(),
                    l == lv(lines),
                    !stop ==> conclusion_from(l, jc, Seq::empty()) == conclusion_from(l, *i as int, strs_view(conclusion)),
                    stop ==> conclusion_from(l, jc, Seq::empty()) == (strs_view(conclusion), *i as int),
                decreases lines@.len() - *i + (if stop { 0int } else { 1int }),
            {
                let ln = &lines[*i];
                assert(ln@ == l[*i as int]);
                let tr = trim_of(ln.as_slice());
                let blank = is_blank_or_comment(ln.as_slice());
                if tr.len() == 0 || is_toplevel_keyword_line(ln.as_slice()) && !blank
                    || is_rule_bar_line(trim_start_of(ln.as_slice()).as_slice()) && !blank {
                    stop = true;
                } else if blank {
                    *i = *i + 1;
                } else {
                    let ghost old_c = strs_view(conclusion);
                    let st = string_from_chars(tr.as_slice());
                    let ghost sv = st@;
                    conclusion.push(st);
                    assert(strs_view(conclusion) =~= old_c.push(sv));
                    *i = *i + 1;
                }
            }
            proof {
                lemma_conclusion(l, jc, Seq::empty());
            }
            let ghost old_r = rules@.map_values(|x: InferenceRule| x@);
            let prem = premises;
            premises = Vec::new();
            let rule = InferenceRule { name: string_from_chars(name.as_slice()), premises: prem, conclusion };
            let ghost rv = rule@;
            rules.push(rule);
            assert(rules@.map_values(|x: InferenceRule| x@) =~= old_r.push(rv));
            assert(strs_view(premises) =~= Seq::<Seq<char>>::empty());
            continue;
        }
        let ghost old_p = strs_view(premises);
        let tl = trim_of(line.as_slice());
        let st = string_from_chars(tl.as_slice());
        let ghost sv = st@;
        premises.push(st);
        assert(strs_view(premises) =~= old_p.push(sv));
        *i = *i + 1;
    }
    Ok(DefnBlock {
        header: string_from_chars(header_stripped.as_slice()),
        comment,
        rules,
    })
}

// ---------------------------------------------------------------------------
// Whole specifications

/// The section that starts at line `j`, chosen by the first word of the line,
/// and the line after it.
pub open spec fn item_at(l: Seq<Seq<char>>, j: int) -> Result<(ItemV, int), OttErrV> {
    let kw = first_word(trim_start(l[j]));
    if kw == "embed"@ {
        match embed_at(l, j) {
            Ok((bs, k)) => Ok((ItemV::Embed(bs), k)),
            Err(e) => Err(e),
        }
    } else if kw == "metavar"@ || kw == "indexvar"@ {
        match metavar_at(kw == "indexvar"@, l, j) {
            Ok((m, k)) => Ok((ItemV::Metavar(m), k)),
            Err(e) => Err(e),
        }
    } else if kw == "grammar"@ {
        match grammar_at(l, j) {
            Ok((rs, k)) => Ok((ItemV::Grammar(rs), k)),
            Err(e) => Err(e),
        }
    } else if kw == "subrules"@ {
        match subrules_from(l, j + 1, Seq::empty()) {
            Ok((rs, k)) => Ok((ItemV::Subrules(rs), k)),
            Err(e) => Err(e),
        }
    } else if kw == "substitutions"@ {
        match substitutions_from(l, j + 1, Seq::empty()) {
            Ok((es, k)) => Ok((ItemV::Substitutions(es), k)),
            Err(e) => Err(e),
        }
    } else if kw == "defns"@ {
        let e = next_toplevel(l, j + 1);
        Ok((ItemV::Defns(l.subrange(j, e)), e))
    } else if kw == "defn"@ {
        match defn_at(l, j) {
            Ok((d, k)) => Ok((ItemV::Defn(d), k)),
            Err(e) => Err(e),
        }
    } else {
        let e = next_toplevel(l, j + 1);
        Ok((ItemV::UnknownSection { keyword: kw, lines: l.subrange(j, e) }, e))
    }
}

/// The sections from line `i` on, appended to `acc`.
pub open spec fn items_from(l: Seq<Seq<char>>, i: int, acc: Seq<ItemV>) -> Result<Seq<ItemV>, OttErrV>
    decreases l.len() - i,
{
    if i < 0 || i >= l.len() {
        Ok(acc)
    } else {
        let j = skip_trivia_from(l, i);
        if j < i || j >= l.len() {
            Ok(acc)
        } else {
            match item_at(l, j) {
                Err(e) => Err(e),
                Ok((it, k)) => if k <= i || k > l.len() {
                    Err(no_err())
                } else {
                    items_from(l, k, acc.push(it))
                },
            }
        }
    }
}

/// The specification that `src` denotes, or the first error.
pub open spec fn spec_parse_spec(src: Seq<char>) -> Result<Seq<ItemV>, OttErrV> {
    items_from(lines(src), 0, Seq::empty())
}

proof fn lemma_skip_trivia_stop(l: Seq<Seq<char>>, i: int)
    requires
        0 <= i <= l.len(),
    ensures
        skip_trivia_from(l, i) < l.len() ==> !blank_or_comment(l[skip_trivia_from(l, i)])
            && !block_open(l[skip_trivia_from(l, i)]),
    decreases l.len() - i,
{
    if i < l.len() {
        if blank_or_comment(l[i]) {
            lemma_skip_trivia_stop(l, i + 1);
        } else if block_open(l[i]) {
            lemma_comment_block_end(l, i, 0);
            lemma_skip_trivia_stop(l, comment_block_end(l, i, 0));
        }
    }
}

proof fn lemma_embed_from(l: Seq<Seq<char>>, k: int, acc: Seq<HomBlockV>)
    requires
        0 <= k <= l.len(),
    ensures
        embed_from(l, k, acc) matches Ok((_, m)) ==> k <= m <= l.len(),
    decreases l.len() - k,
{
    if k < l.len() {
        lemma_skip_trivia(l, k);
        let j = skip_trivia_from(l, k);
        if j < l.len() && !toplevel(l[j]) && starts_with(trim_start(l[j]), "{{"@) {
            lemma_hom_from_first_line(l[j], l, j + 1, j + 1);
            match multiline_hom(l, j) {
                Ok((b, m)) => {
                    lemma_embed_from(l, m, acc.push(b));
                },
                Err(_) => {},
            }
        }
    }
}

proof fn lemma_metavar_names(l: Seq<Seq<char>>, i: int, kw: Seq<char>, buf: Seq<char>)
    requires
        0 <= i <= l.len(),
    ensures
        metavar_names_from(l, i, kw, buf) matches Ok((_, a, k)) ==> (a is Some ==> i < k <= l.len()),
    decreases l.len() - i,
{
    if i < l.len() {
        if blank_or_comment(l[i]) {
            lemma_metavar_names(l, i + 1, kw, buf);
        } else if block_open(l[i]) {
            lemma_comment_block_end(l, i, 0);
            lemma_metavar_names(l, comment_block_end(l, i, 0), kw, buf);
        } else {
            let t = trim_start(l[i]);
            let chunk = if buf.len() == 0 {
                match strip_prefix(t, kw) {
                    Some(c) => Some(trim_start(c)),
                    None => None,
                }
            } else {
                Some(t)
            };
            match chunk {
                None => {},
                Some(c) => match split_once(c, "::="@) {
                    Some(_) => {},
                    None => {
                        lemma_metavar_names(l, i + 1, kw, buf + c + seq![' ']);
                    },
                },
            }
        }
    }
}

proof fn lemma_metavar_reps(l: Seq<Seq<char>>, i: int, reps: Seq<HomBlockV>)
    requires
        0 <= i <= l.len(),
    ensures
        i <= metavar_reps_from(l, i, reps).1 <= l.len(),
    decreases l.len() - i,
{
    if i < l.len() {
        lemma_skip_trivia(l, i);
        let j = skip_trivia_from(l, i);
        if j < l.len() && !toplevel(l[j]) && starts_with(trim_start(l[j]), "{{"@) {
            lemma_metavar_reps(l, j + 1, reps + ext_homs(trim_start(l[j])).0);
        }
    }
}

proof fn lemma_rules_from(l: Seq<Seq<char>>, i: int, rules: Seq<GrammarRuleV>)
    requires
        0 <= i <= l.len(),
    ensures
        rules_from(l, i, rules) matches Ok((_, m)) ==> i <= m <= l.len(),
    decreases l.len() - i,
{
    if i < l.len() {
        lemma_skip_trivia(l, i);
        let j = skip_trivia_from(l, i);
        if j < l.len() && !toplevel(l[j]) {
            match rule_header(l[j], j + 1) {
                Err(_) => {},
                Ok((roots, sort, annos)) => {
                    lemma_rule_annos(l, j + 1, annos);
                    match rule_annos_from(l, j + 1, annos) {
                        Err(_) => {},
                        Ok((annos2, k2)) => {
                            lemma_rule_prods(l, k2, Seq::empty());
                            match rule_prods_from(l, k2, Seq::empty()) {
                                Err(_) => {},
                                Ok((prods, k3)) => {
                                    lemma_rules_from(l, k3, rules.push(GrammarRuleV {
                                        roots,
                                        sort,
                                        comment: find_com(annos2),
                                        annotations: annos2,
                                        productions: prods,
                                    }));
                                },
                            }
                        },
                    }
                },
            }
        }
    }
}

proof fn lemma_subrules_from(l: Seq<Seq<char>>, i: int, acc: Seq<SubruleV>)
    requires
        0 <= i <= l.len(),
    ensures
        subrules_from(l, i, acc) matches Ok((_, m)) ==> i <= m <= l.len(),
    decreases l.len() - i,
{
    if i < l.len() {
        if blank_or_comment(l[i]) {
            lemma_subrules_from(l, i + 1, acc);
        } else if toplevel(l[i]) {
        } else {
            match split_once(trim(l[i]), "<::"@) {
                None => {},
                Some((a, b)) => {
                    lemma_subrules_from(l, i + 1, acc.push(SubruleV { sub: trim(a), sup: trim(b) }));
                },
            }
        }
    }
}

proof fn lemma_substitutions_from(l: Seq<Seq<char>>, i: int, acc: Seq<SubstEntryV>)
    requires
        0 <= i <= l.len(),
    ensures
        substitutions_from(l, i, acc) matches Ok((_, m)) ==> i <= m <= l.len(),
    decreases l.len() - i,
{
    if i < l.len() {
        if blank_or_comment(l[i]) {
            lemma_substitutions_from(l, i + 1, acc);
        } else if toplevel(l[i]) {
        } else {
            match subst_line(trim(l[i]), i + 1) {
                Err(_) => {},
                Ok(en) => {
                    lemma_substitutions_from(l, i + 1, acc.push(en));
                },
            }
        }
    }
}

proof fn lemma_item_at(l: Seq<Seq<char>>, j: int)
    requires
        0 <= j < l.len(),
        !blank_or_comment(l[j]),
        !block_open(l[j]),
    ensures
        item_at(l, j) matches Ok((_, k)) ==> j < k <= l.len(),
{
    let kw = first_word(trim_start(l[j]));
    lemma_next_toplevel(l, j + 1);
    if kw == "embed"@ {
        match strip_prefix(trim_start(l[j]), "embed"@) {
            None => {},
            Some(r) => {
                let rest = trim_start(r);
                if starts_with(rest, "{{"@) {
                    lemma_hom_from_first_line(rest, l, j + 1, j + 1);
                    match hom_from_first_line(rest, l, j + 1, j + 1) {
                        Ok((b, k)) => {
                            lemma_embed_from(l, k, seq![b]);
                        },
                        Err(_) => {},
                    }
                } else {
                    lemma_embed_from(l, j + 1, Seq::empty());
                }
            },
        }
    } else if kw == "metavar"@ || kw == "indexvar"@ {
        let mkw = if kw == "indexvar"@ { "indexvar"@ } else { "metavar"@ };
        lemma_metavar_names(l, j, mkw, Seq::empty());
        match metavar_names_from(l, j, mkw, Seq::empty()) {
            Ok((buf, Some(a), k)) => {
                let hb = ext_homs(buf);
                lemma_metavar_reps(l, k, hb.0 + ext_homs(a).0);
            },
            _ => {},
        }
    } else if kw == "grammar"@ {
        lemma_rules_from(l, j + 1, Seq::empty());
    } else if kw == "subrules"@ {
        lemma_subrules_from(l, j + 1, Seq::empty());
    } else if kw == "substitutions"@ {
        lemma_substitutions_from(l, j + 1, Seq::empty());
    } else if kw == "defn"@ {
        lemma_skip_blank(l, j + 1);
        let h0 = trim(match strip_prefix(trim_start(l[j]), "defn"@) {
            Some(x) => x,
            None => Seq::empty(),
        });
        if h0.len() == 0 {
            let jj = skip_blank_from(l, j + 1);
            if jj < l.len() {
                lemma_defn_rules(l, jj + 1, Seq::empty(), Seq::empty());
            }
        } else {
            lemma_defn_rules(l, j + 1, Seq::empty(), Seq::empty());
        }
    }
}

/// Parses the section that starts at line `*i`.
fn parse_item(lines: &Vec<Vec<char>>, i: &mut usize) -> (r: Result<Item, OttError>)
    requires
        *old(i) < lines@.len(),
        lines@.len() < usize::MAX,
    ensures
        match item_at(lv(lines), *old(i) as int) {
            Ok((it, k)) => r is Ok && r->Ok_0@ == it && *final(i) == k,
            Err(e) => r is Err && r->Err_0@ == e,
        },
{
    let line = &lines[*i];
    assert(line@ == lv(lines)[*old(i) as int]);
    let t = trim_start_of(line.as_slice());
    let kw = first_word_of(t.as_slice());
    let item = if is_lit(kw.as_slice(), "embed") {
        match parse_embed(lines, i) {
            Ok(e) => Item::Embed(e),
            Err(e) => {
                return Err(e);
            },
        }
    } else if is_lit(kw.as_slice(), "metavar") {
        proof {
            reveal_strlit("metavar");
            reveal_strlit("indexvar");
            assert("metavar"@[0] != "indexvar"@[0]);
        }
        match parse_metavar(false, lines, i) {
            Ok(m) => Item::Metavar(m),
            Err(e) => {
                return Err(e);
            },
        }
    } else if is_lit(kw.as_slice(), "indexvar") {
        match parse_metavar(true, lines, i) {
            Ok(m) => Item::Metavar(m),
            Err(e) => {
                return Err(e);
            },
        }
    } else if is_lit(kw.as_slice(), "grammar") {
        match parse_grammar(lines, i) {
            Ok(g) => Item::Grammar(g),
            Err(e) => {
                return Err(e);
            },
        }
    } else if is_lit(kw.as_slice(), "subrules") {
        match parse_subrules(lines, i) {
            Ok(x) => Item::Subrules(x),
            Err(e) => {
                return Err(e);
            },
        }
    } else if is_lit(kw.as_slice(), "substitutions") {
        match parse_substitutions(lines, i) {
            Ok(x) => Item::Substitutions(x),
            Err(e) => {
                return Err(e);
            },
        }
    } else if is_lit(kw.as_slice(), "defns") {
        Item::Defns(parse_defns(lines, i))
    } else if is_lit(kw.as_slice(), "defn") {
        match parse_defn(lines, i) {
            Ok(d) => Item::Defn(d),
            Err(e) => {
                return Err(e);
            },
        }
    } else {
        Item::UnknownSection(parse_unknown_section(kw.as_slice(), lines, i))
    };
    Ok(item)
}

/// Parses the text of an Ott specification into its sections.
pub fn parse_spec(src: &str) -> (r: Result<Spec, OttError>)
    requires
        src@.len() < usize::MAX,
    ensures
        match spec_parse_spec(src@) {
            Ok(items) => r is Ok && r->Ok_0@ == items,
            Err(e) => r is Err && r->Err_0@ == e,
        },
{
    let chars = chars_of(src);
    let src_lines = lines_of(chars.as_slice());
    let ghost l = lv(&src_lines);
    let mut i: usize = 0;
    let mut items: Vec<Item> = Vec::new();
    assert(items@.map_values(|x: Item| x@) =~= Seq::<ItemV>::empty());
    while i < src_lines.len()
        invariant
            i <= src_lines@.len(),
            src_lines@.len() < usize::MAX,
            l == lv(&src_lines),
            l == crate::chars::lines(src@),
            items_from(l, 0, Seq::empty()) == items_from(l, i as int, items@.map_values(|x: Item| x@)),
        decreases src_lines@.len() - i,
    {
        let ghost before = i as int;
        proof {
            lemma_skip_trivia(l, before);
            lemma_skip_trivia_stop(l, before);
        }
        skip_trivia(&src_lines, &mut i);
        if i >= src_lines.len() {
            return Ok(Spec::new(items));
        }
        let ghost j = i as int;
        proof {
            lemma_item_at(l, j);
        }
        let item = match parse_item(&src_lines, &mut i) {
            Ok(it) => it,
            Err(e) => {
                return Err(e);
            },
        };
        let ghost old_items = items@.map_values(|x: Item| x@);
        let ghost iv = item@;
        assert(item_at(l, j) == Ok::<(ItemV, int), OttErrV>((iv, i as int)));
        items.push(item);
        assert(items@.map_values(|x: Item| x@) =~= old_items.push(iv));
    }
    Ok(Spec::new(items))
}

// ---------------------------------------------------------------------------
// The shape of a parsed specification

/// A root or metavariable name as parsed: nonempty, trimmed, free of commas.
pub open spec fn name_shape(x: Seq<char>) -> bool {
    &&& x.len() > 0
    &&& trim(x) == x
    &&& !x.contains(',')
}

/// A grammar rule as parsed: at least one root, each a name; no production
/// pattern holds `::`.
pub open spec fn rule_shape(r: GrammarRuleV) -> bool {
    &&& r.roots.len() > 0
    &&& forall|k: int| 0 <= k < r.roots.len() ==> name_shape(#[trigger] r.roots[k])
    &&& forall|p: int| 0 <= p < r.productions.len() ==> !contains(#[trigger] r.productions[p].pattern, "::"@)
}

/// A section as parsed: grammar rules and metavariable declarations have the
/// shapes above.
pub open spec fn item_shape(it: ItemV) -> bool {
    match it {
        ItemV::Grammar(rs) => forall|j: int| 0 <= j < rs.len() ==> rule_shape(#[trigger] rs[j]),
        ItemV::Metavar(m) => m.names.len() > 0 && forall|k: int| 0 <= k < m.names.len() ==> name_shape(#[trigger] m.names[k]),
        _ => true,
    }
}

proof fn lemma_names_shaped(s: Seq<char>)
    ensures
        forall|k: int| 0 <= k < names(s).len() ==> name_shape(#[trigger] names(s)[k]),
{
    crate::chars::lemma_names_shape(s, 0);
    assert forall|k: int| 0 <= k < names(s).len() implies name_shape(#[trigger] names(s)[k]) by {
        assert(names(s)[k] == crate::chars::names_from(s, 0)[k]);
    }
}

proof fn lemma_production_pattern(l: Seq<Seq<char>>, i: int)
    ensures
        production_at(l, i) matches Ok((p, _)) ==> !contains(p.pattern, "::"@),
{
    let pl = prod_lines_from(l, i + 1, seq![l[i]]);
    let rl = pl.0;
    match structural_parts(rl) {
        None => {},
        Some(parts) => {
            let swo = ext_homs(join(parts, " "@)).1;
            match split_once(swo, "::"@) {
                None => {},
                Some((pat, af)) => {
                    reveal_strlit("::");
                    let k = find_from(swo, "::"@, 0)->Some_0;
                    crate::chars::lemma_find_from(swo, "::"@, 0);
                    crate::chars::lemma_trailing(pat, pat.len() as int);
                    let q = crate::chars::trailing_ws_start(pat, pat.len() as int);
                    assert(trim_end(pat) =~= swo.subrange(0, q));
                    crate::chars::lemma_prefix_lacks(swo, "::"@, k, q);
                },
            }
        },
    }
}

proof fn lemma_prods_shape(l: Seq<Seq<char>>, k: int, prods: Seq<ProductionV>)
    requires
        forall|p: int| 0 <= p < prods.len() ==> !contains(#[trigger] prods[p].pattern, "::"@),
    ensures
        rule_prods_from(l, k, prods) matches Ok((ps, _)) ==> forall|p: int| 0 <= p < ps.len() ==> !contains(#[trigger] ps[p].pattern, "::"@),
    decreases l.len() - k,
{
    if 0 <= k < l.len() {
        let j = skip_trivia_from(l, k);
        if k <= j < l.len() && !(toplevel(l[j]) || rule_start(l[j])) && starts_with(trim_start(l[j]), "|"@) {
            lemma_production_pattern(l, j);
            match production_at(l, j) {
                Err(_) => {},
                Ok((p, m)) => if k < m <= l.len() {
                    let prods2 = prods.push(p);
                    assert forall|q: int| 0 <= q < prods2.len() implies !contains(#[trigger] prods2[q].pattern, "::"@) by {
                        if q < prods.len() {
                            assert(prods2[q] == prods[q]);
                        }
                    }
                    lemma_prods_shape(l, m, prods2);
                },
            }
        }
    }
}

proof fn lemma_rules_shape(l: Seq<Seq<char>>, i: int, rules: Seq<GrammarRuleV>)
    requires
        forall|j: int| 0 <= j < rules.len() ==> rule_shape(#[trigger] rules[j]),
    ensures
        rules_from(l, i, rules) matches Ok((rs, _)) ==> forall|j: int| 0 <= j < rs.len() ==> rule_shape(#[trigger] rs[j]),
    decreases l.len() - i,
{
    if 0 <= i < l.len() {
        let j = skip_trivia_from(l, i);
        if i <= j < l.len() && !toplevel(l[j]) {
            match rule_header(l[j], j + 1) {
                Err(_) => {},
                Ok((roots, sort, annos)) => match rule_annos_from(l, j + 1, annos) {
                    Err(_) => {},
                    Ok((annos2, k2)) => {
                        lemma_prods_shape(l, k2, Seq::empty());
                        match rule_prods_from(l, k2, Seq::empty()) {
                            Err(_) => {},
                            Ok((prods, k3)) => if i < k3 <= l.len() {
                                let ln = l[j];
                                let lhs = split_once(ln, "::="@)->Some_0.0;
                                let rp = split_once(lhs, "::"@)->Some_0.0;
                                lemma_names_shaped(ext_homs(rp).1);
                                let r = GrammarRuleV {
                                    roots,
                                    sort,
                                    comment: find_com(annos2),
                                    annotations: annos2,
                                    productions: prods,
                                };
                                assert(rule_shape(r));
                                let rules2 = rules.push(r);
                                assert forall|q: int| 0 <= q < rules2.len() implies rule_shape(#[trigger] rules2[q]) by {
                                    if q < rules.len() {
                                        assert(rules2[q] == rules[q]);
                                    }
                                }
                                lemma_rules_shape(l, k3, rules2);
                            },
                        }
                    },
                },
            }
        }
    }
}

proof fn lemma_items_shape(l: Seq<Seq<char>>, i: int, acc: Seq<ItemV>)
    requires
        forall|q: int| 0 <= q < acc.len() ==> item_shape(#[trigger] acc[q]),
    ensures
        items_from(l, i, acc) matches Ok(items) ==> forall|q: int| 0 <= q < items.len() ==> item_shape(#[trigger] items[q]),
    decreases l.len() - i,
{
    if 0 <= i < l.len() {
        let j = skip_trivia_from(l, i);
        if i <= j < l.len() {
            match item_at(l, j) {
                Err(_) => {},
                Ok((it, k)) => if i < k <= l.len() {
                    let kw = first_word(trim_start(l[j]));
                    if kw == "embed"@ {
                    } else if kw == "metavar"@ || kw == "indexvar"@ {
                        let kw2 = if kw == "indexvar"@ { "indexvar"@ } else { "metavar"@ };
                        match metavar_names_from(l, j, kw2, Seq::empty()) {
                            Ok((buf, _, _)) => {
                                lemma_names_shaped(ext_homs(buf).1);
                            },
                            Err(_) => {},
                        }
                        assert(item_shape(it));
                    } else if kw == "grammar"@ {
                        lemma_rules_shape(l, j + 1, Seq::empty());
                        assert(item_shape(it));
                    }
                    assert(item_shape(it));
                    let acc2 = acc.push(it);
                    assert forall|q: int| 0 <= q < acc2.len() implies item_shape(#[trigger] acc2[q]) by {
                        if q < acc.len() {
                            assert(acc2[q] == acc[q]);
                        }
                    }
                    lemma_items_shape(l, k, acc2);
                },
            }
        }
    }
}

/// What a specification parses to has the shape the parser gives it: every
/// grammar rule has at least one root, every metavariable declaration at
/// least one name, each nonempty, trimmed and free of commas; no production
/// pattern holds `::`.
pub proof fn lemma_parsed_shape(src: Seq<char>)
    ensures
        spec_parse_spec(src) matches Ok(items) ==> forall|q: int| 0 <= q < items.len() ==> item_shape(#[trigger] items[q]),
{
    lemma_items_shape(lines(src), 0, Seq::empty());
}

// ---------------------------------------------------------------------------
// Where the premises of inference rules come from

/// A rule bar line of a defn block: `----`, not blank, a comment or a
/// top-level keyword line.
pub open spec fn bar_line(ln: Seq<char>) -> bool {
    &&& !toplevel(ln)
    &&& !blank_or_comment(ln)
    &&& rule_bar(trim_start(ln))
}

/// The premise lines among `l[a..b]`: each trimmed, blank lines and comments
/// left out, in the order of the source.
pub open spec fn premise_lines(l: Seq<Seq<char>>, a: int, b: int) -> Seq<Seq<char>>
    decreases b - a,
{
    if b <= a {
        Seq::empty()
    } else if blank_or_comment(l[b - 1]) {
        premise_lines(l, a, b - 1)
    } else {
        premise_lines(l, a, b - 1).push(trim(l[b - 1]))
    }
}

/// The line after the conclusion of the rule whose bar is at line `b`.
pub open spec fn rule_end(l: Seq<Seq<char>>, b: int) -> int {
    conclusion_from(l, skip_blank_from(l, b + 1), Seq::empty()).1
}

/// The first line of the body of the defn block at line `i`: after the
/// header, which is on the `defn` line or, when that holds nothing more, on
/// the next non-blank line.
pub open spec fn defn_body(l: Seq<Seq<char>>, i: int) -> int {
    let h0 = trim(match strip_prefix(trim_start(l[i]), "defn"@) {
        Some(x) => x,
        None => Seq::empty(),
    });
    if h0.len() == 0 {
        skip_blank_from(l, i + 1) + 1
    } else {
        i + 1
    }
}

/// Rule `r` has its bar at line `b`, the first bar from line `st` on, with
/// no top-level line between; its premises are the premise lines from `st`
/// to `b`.
pub open spec fn rule_premises_at(l: Seq<Seq<char>>, st: int, b: int, r: InferenceRuleV) -> bool {
    &&& 0 <= st <= b < l.len()
    &&& bar_line(l[b])
    &&& forall|t: int| st <= t < b ==> !bar_line(#[trigger] l[t]) && !toplevel(l[t])
    &&& r.premises == premise_lines(l, st, b)
}

/// Where the premises of rule `q` start: at `a` for the first rule, after the
/// conclusion of the rule before otherwise.
pub open spec fn premises_start(l: Seq<Seq<char>>, a: int, bars: Seq<int>, q: int) -> int {
    if q == 0 {
        a
    } else {
        rule_end(l, bars[q - 1])
    }
}

/// The rules `rs`, read from line `a` on, each take as premises the premise
/// lines between the end of the rule before (or `a`) and the rule's own bar.
pub open spec fn premises_from(l: Seq<Seq<char>>, a: int, rs: Seq<InferenceRuleV>) -> bool {
    exists|bars: Seq<int>|
        bars.len() == rs.len() && forall|q: int| 0 <= q < rs.len() ==> #[trigger] rule_premises_at(l, premises_start(l, a, bars, q), bars[q], rs[q])
}

proof fn lemma_premise_lines_empty(l: Seq<Seq<char>>, a: int)
    ensures
        premise_lines(l, a, a) == Seq::<Seq<char>>::empty(),
{
}

proof fn lemma_defn_premises(l: Seq<Seq<char>>, i: int, rules: Seq<InferenceRuleV>, premises: Seq<Seq<char>>, a: int)
    requires
        0 <= a <= i <= l.len(),
        premises == premise_lines(l, a, i),
        forall|t: int| a <= t < i ==> !bar_line(#[trigger] l[t]) && !toplevel(l[t]),
    ensures
        defn_rules_from(l, i, rules, premises) matches Ok((rs, _)) ==> rules.len() <= rs.len() && rs.subrange(0, rules.len() as int)
            == rules && premises_from(l, a, rs.subrange(rules.len() as int, rs.len() as int)),
    decreases l.len() - i,
{
    if i >= l.len() || toplevel(l[i]) {
        let e = Seq::<int>::empty();
        assert(rules.subrange(0, rules.len() as int) =~= rules);
        assert(forall|q: int| 0 <= q < 0 ==> #[trigger] rule_premises_at(l, premises_start(l, a, e, q), e[q], rules.subrange(rules.len() as int, rules.len() as int)[q]));
        assert(rules.subrange(rules.len() as int, rules.len() as int).len() == e.len());
    } else if blank_or_comment(l[i]) {
        assert(premise_lines(l, a, i + 1) == premise_lines(l, a, i));
        lemma_defn_premises(l, i + 1, rules, premises, a);
    } else if rule_bar(trim_start(l[i])) {
        assert(bar_line(l[i]));
        match rule_name(trim_start(l[i])) {
            None => {},
            Some(name) => {
                lemma_skip_blank(l, i + 1);
                let j = skip_blank_from(l, i + 1);
                if j < l.len() {
                    lemma_conclusion(l, j, Seq::empty());
                    let c = conclusion_from(l, j, Seq::empty());
                    if i < c.1 <= l.len() {
                        let r = InferenceRuleV { name, premises, conclusion: c.0 };
                        let rules2 = rules.push(r);
                        assert(c.1 == rule_end(l, i));
                        lemma_defn_premises(l, c.1, rules2, Seq::empty(), c.1);
                        match defn_rules_from(l, c.1, rules2, Seq::empty()) {
                            Ok((rs, _)) => {
                                let tail2 = rs.subrange(rules2.len() as int, rs.len() as int);
                                let bars2 = choose|bars: Seq<int>|
                                    bars.len() == tail2.len() && forall|q: int|
                                        0 <= q < tail2.len() ==> #[trigger] rule_premises_at(l, premises_start(l, c.1, bars, q), bars[q], tail2[q]);
                                let tail = rs.subrange(rules.len() as int, rs.len() as int);
                                let bars = seq![i] + bars2;
                                assert(rs[rules.len() as int] == rules2[rules.len() as int]);
                                assert(rs.subrange(0, rules.len() as int) =~= rules) by {
                                    assert forall|q: int| 0 <= q < rules.len() implies rs[q] == rules[q] by {
                                        assert(rs.subrange(0, rules2.len() as int)[q] == rules2[q]);
                                    }
                                }
                                assert forall|q: int| 0 <= q < tail.len() implies #[trigger] rule_premises_at(
                                    l,
                                    premises_start(l, a, bars, q),
                                    bars[q],
                                    tail[q],
                                ) by {
                                    if q == 0 {
                                        assert(tail[0] == rs[rules.len() as int]);
                                        assert(rs.subrange(0, rules2.len() as int)[rules.len() as int] == r);
                                        assert(bars[0] == i);
                                    } else {
                                        assert(tail[q] == tail2[q - 1]);
                                        assert(bars[q] == bars2[q - 1]);
                                        assert(rule_premises_at(l, premises_start(l, c.1, bars2, q - 1), bars2[q - 1], tail2[q - 1]));
                                        if q == 1 {
                                            assert(premises_start(l, a, bars, 1) == rule_end(l, i));
                                        } else {
                                            assert(bars[q - 1] == bars2[q - 2]);
                                        }
                                    }
                                }
                                assert(bars.len() == tail.len());
                                assert(bars.len() == tail.len() && forall|q: int|
                                    0 <= q < tail.len() ==> #[trigger] rule_premises_at(l, premises_start(l, a, bars, q), bars[q], tail[q]));
                                assert(premises_from(l, a, tail));
                            },
                            Err(_) => {},
                        }
                    }
                }
            },
        }
    } else {
        assert(!bar_line(l[i]));
        assert(premise_lines(l, a, i + 1) == premises.push(trim(l[i])));
        lemma_defn_premises(l, i + 1, rules, premises.push(trim(l[i])), a);
    }
}

/// The premises of the inference rules of the defn block at line `i` are,
/// for each rule, the trimmed non-blank, non-comment lines between the end of
/// the rule before (or the block's header) and the rule's bar, in the order
/// of the source.
pub proof fn lemma_defn_block_premises(l: Seq<Seq<char>>, i: int)
    requires
        0 <= i < l.len(),
    ensures
        defn_at(l, i) matches Ok((d, _)) ==> premises_from(l, defn_body(l, i), d.rules),
{
    let h0 = trim(match strip_prefix(trim_start(l[i]), "defn"@) {
        Some(x) => x,
        None => Seq::empty(),
    });
    let k = defn_body(l, i);
    if h0.len() == 0 {
        lemma_skip_blank(l, i + 1);
    }
    if k <= l.len() {
        lemma_defn_premises(l, k, Seq::empty(), Seq::empty(), k);
        match defn_rules_from(l, k, Seq::empty(), Seq::empty()) {
            Ok((rs, _)) => {
                assert(rs.subrange(0, rs.len() as int) =~= rs);
            },
            Err(_) => {},
        }
    }
}

/// A defn block `it` was read at a `defn` line `j` of `l`, and each of its
/// rules has as premises the premise lines between the end of the rule
/// before (or the header) and its own bar.
pub open spec fn defn_premises_in(l: Seq<Seq<char>>, it: ItemV) -> bool {
    it matches ItemV::Defn(d) ==> exists|j: int|
        0 <= j < l.len() && first_word(trim_start(l[j])) == "defn"@ && #[trigger] premises_from(l, defn_body(l, j), d.rules)
}

proof fn lemma_items_premises(l: Seq<Seq<char>>, i: int, acc: Seq<ItemV>)
    requires
        forall|q: int| 0 <= q < acc.len() ==> defn_premises_in(l, #[trigger] acc[q]),
    ensures
        items_from(l, i, acc) matches Ok(items) ==> forall|q: int| 0 <= q < items.len() ==> defn_premises_in(l, #[trigger] items[q]),
    decreases l.len() - i,
{
    if 0 <= i < l.len() {
        let j = skip_trivia_from(l, i);
        if i <= j < l.len() {
            match item_at(l, j) {
                Err(_) => {},
                Ok((it, k)) => if i < k <= l.len() {
                    let kw = first_word(trim_start(l[j]));
                    if kw == "defn"@ {
                        lemma_defn_block_premises(l, j);
                    }
                    assert(defn_premises_in(l, it));
                    let acc2 = acc.push(it);
                    assert forall|q: int| 0 <= q < acc2.len() implies defn_premises_in(l, #[trigger] acc2[q]) by {
                        if q < acc.len() {
                            assert(acc2[q] == acc[q]);
                        }
                    }
                    lemma_items_premises(l, k, acc2);
                },
            }
        }
    }
}

/// In a parsed specification, every rule of a defn block has as premises
/// the trimmed non-blank, non-comment lines of the source between the end of
/// the rule before it (or the block's header) and its own rule bar, in the
/// order of the source.
pub proof fn lemma_parsed_premises(src: Seq<char>)
    ensures
        spec_parse_spec(src) matches Ok(items) ==> forall|q: int| 0 <= q < items.len() ==> defn_premises_in(lines(src), #[trigger] items[q]),
{
    lemma_items_premises(lines(src), 0, Seq::empty());
}

} // verus!
