//! Object-language snippets: the character classes of identifiers and numbers,
//! the built-in `{{ lex ... }}` classes, breaking a snippet into tokens, and
//! writing identifiers and text as Typst math.

use vstd::prelude::*;
use vstd::string::StringExecFns;
use crate::chars::{matches_at, split_once, matches_at_of, split_once_of, slice_chars};
use crate::error::{OttError, Span, spec_position_from_offset, lemma_position_fits};
use crate::text::{byte_offset, chars_of, push_char, string_from_chars, string_from_range, utf8_width,
    lemma_byte_offset_step};

verus! {

// ---------------------------------------------------------------------------
// Character classes (ASCII, as bytes are tested)

pub open spec fn is_digit(c: char) -> bool {
    '0' <= c <= '9'
}

pub open spec fn is_alpha(c: char) -> bool {
    ('a' <= c <= 'z') || ('A' <= c <= 'Z')
}

pub open spec fn is_ident_start(c: char) -> bool {
    is_alpha(c) || c == '_'
}

pub open spec fn is_ident_continue(c: char) -> bool {
    is_ident_start(c) || is_digit(c) || c == '\''
}

/// `u8::is_ascii_whitespace`.
pub open spec fn is_ascii_ws(c: char) -> bool {
    c == ' ' || c == '\t' || c == '\n' || c == '\x0C' || c == '\r'
}

pub fn is_ascii_space(c: char) -> (r: bool)
    ensures
        r == is_ascii_ws(c),
{
    c == ' ' || c == '\t' || c == '\n' || c == '\x0C' || c == '\r'
}

pub fn digit(c: char) -> (r: bool)
    ensures
        r == is_digit(c),
{
    '0' <= c && c <= '9'
}

pub fn alpha(c: char) -> (r: bool)
    ensures
        r == is_alpha(c),
{
    ('a' <= c && c <= 'z') || ('A' <= c && c <= 'Z')
}

pub fn ident_start(c: char) -> (r: bool)
    ensures
        r == is_ident_start(c),
{
    alpha(c) || c == '_'
}

pub fn ident_continue(c: char) -> (r: bool)
    ensures
        r == is_ident_continue(c),
{
    ident_start(c) || digit(c) || c == '\''
}

/// All characters of `s` are decimal digits.
pub open spec fn all_digits(s: Seq<char>) -> bool {
    forall|j: int| 0 <= j < s.len() ==> is_digit(#[trigger] s[j])
}

/// All characters of `s` are apostrophes.
pub open spec fn all_primes(s: Seq<char>) -> bool {
    forall|j: int| 0 <= j < s.len() ==> #[trigger] s[j] == '\''
}

fn all_digits_of(s: &[char]) -> (r: bool)
    ensures
        r == all_digits(s@),
{
    let mut j: usize = 0;
    while j < s.len()
        invariant
            j <= s@.len(),
            forall|k: int| 0 <= k < j ==> is_digit(#[trigger] s@[k]),
        decreases s@.len() - j,
    {
        if !digit(s[j]) {
            return false;
        }
        j = j + 1;
    }
    true
}

fn all_primes_of(s: &[char]) -> (r: bool)
    ensures
        r == all_primes(s@),
{
    let mut j: usize = 0;
    while j < s.len()
        invariant
            j <= s@.len(),
            forall|k: int| 0 <= k < j ==> #[trigger] s@[k] == '\'',
        decreases s@.len() - j,
    {
        if s[j] != '\'' {
            return false;
        }
        j = j + 1;
    }
    true
}

// ---------------------------------------------------------------------------
// Built-in lexical classes

#[derive(Debug, Clone, Copy, PartialEq, Eq, Structural)]
pub enum BuiltinLex {
    Alphanum,
    AlphanumUpper,
    Numeral,
    Numeric,
}

pub open spec fn alnum_tail(s: Seq<char>) -> bool {
    forall|j: int| 1 <= j < s.len() ==> {
        let c = #[trigger] s[j];
        is_alpha(c) || is_digit(c) || c == '_' || c == '\''
    }
}

/// Whether the word `s` belongs to the built-in class `b`: `alphanum` words
/// start with a lower-case letter or `_`, `Alphanum` words with an upper-case
/// letter or `_`; numerals are digits with an optional leading `-`.
pub open spec fn builtin_matches(b: BuiltinLex, s: Seq<char>) -> bool {
    match b {
        BuiltinLex::Alphanum => s.len() > 0 && (('a' <= s[0] <= 'z') || s[0] == '_') && alnum_tail(s),
        BuiltinLex::AlphanumUpper => s.len() > 0 && (('A' <= s[0] <= 'Z') || s[0] == '_') && alnum_tail(s),
        _ => {
            let i: int = if s.len() > 0 && s[0] == '-' { 1 } else { 0 };
            s.len() > 0 && i < s.len() && all_digits(s.subrange(i, s.len() as int))
        },
    }
}

fn alnum_tail_of(s: &[char]) -> (r: bool)
    ensures
        r == alnum_tail(s@),
{
    let mut j: usize = 1;
    while j < s.len()
        invariant
            1 <= j,
            j <= s@.len() || s@.len() == 0,
            forall|k: int| 1 <= k < j && k < s@.len() ==> {
                let c = #[trigger] s@[k];
                is_alpha(c) || is_digit(c) || c == '_' || c == '\''
            },
        decreases s@.len() - j,
    {
        let c = s[j];
        if !(alpha(c) || digit(c) || c == '_' || c == '\'') {
            return false;
        }
        j = j + 1;
    }
    true
}

impl BuiltinLex {
    pub fn matches(self, s: &[char]) -> (r: bool)
        ensures
            r == builtin_matches(self, s@),
    {
        match self {
            BuiltinLex::Alphanum => s.len() > 0 && (('a' <= s[0] && s[0] <= 'z') || s[0] == '_') && alnum_tail_of(s),
            BuiltinLex::AlphanumUpper => s.len() > 0 && (('A' <= s[0] && s[0] <= 'Z') || s[0] == '_') && alnum_tail_of(
                s,
            ),
            _ => {
                if s.len() == 0 {
                    return false;
                }
                let i: usize = if s[0] == '-' { 1 } else { 0 };
                if i >= s.len() {
                    return false;
                }
                let rest = slice_chars(s, i, s.len());
                all_digits_of(rest.as_slice())
            },
        }
    }
}

// ---------------------------------------------------------------------------
// Typst output of snippet text

/// How one character is written inside a Typst string literal.
pub open spec fn escape_char(c: char) -> Seq<char> {
    if c == '\\' {
        seq!['\\', '\\']
    } else if c == '"' {
        seq!['\\', '"']
    } else if c == '\n' {
        seq!['\\', 'n']
    } else if c == '\r' {
        seq!['\\', 'r']
    } else if c == '\t' {
        seq!['\\', 't']
    } else {
        seq![c]
    }
}

pub open spec fn escape_prefix(s: Seq<char>, n: int) -> Seq<char>
    decreases n,
{
    if n <= 0 {
        Seq::empty()
    } else {
        escape_prefix(s, n - 1) + escape_char(s[n - 1])
    }
}

/// `s` as a Typst string literal: quoted, with `\`, `"`, and newline, return
/// and tab characters escaped.
pub open spec fn quote_text(s: Seq<char>) -> Seq<char> {
    seq!['"'] + escape_prefix(s, s.len() as int) + seq!['"']
}

/// The character that an escape `\c` stands for in a Typst string literal.
pub open spec fn typst_escaped(c: char) -> Option<char> {
    if c == 'n' {
        Some('\n')
    } else if c == 'r' {
        Some('\r')
    } else if c == 't' {
        Some('\t')
    } else if c == '\\' {
        Some('\\')
    } else if c == '"' {
        Some('"')
    } else {
        None
    }
}

/// Reads the body of a Typst string literal: a backslash and the next
/// character are one escape, a bare `"` cannot occur, and every other
/// character stands for itself. `None` when the body is malformed.
pub open spec fn typst_unescape(t: Seq<char>) -> Option<Seq<char>>
    decreases t.len(),
{
    if t.len() == 0 {
        Some(Seq::empty())
    } else if t[0] == '"' {
        None
    } else if t[0] == '\\' {
        if t.len() < 2 {
            None
        } else {
            match typst_escaped(t[1]) {
                None => None,
                Some(c) => match typst_unescape(t.subrange(2, t.len() as int)) {
                    Some(r) => Some(seq![c] + r),
                    None => None,
                },
            }
        }
    } else {
        match typst_unescape(t.drop_first()) {
            Some(r) => Some(seq![t[0]] + r),
            None => None,
        }
    }
}

/// The text that a Typst string literal `t` (quotes included) denotes.
pub open spec fn typst_read_literal(t: Seq<char>) -> Option<Seq<char>> {
    if t.len() >= 2 && t[0] == '"' && t[t.len() - 1] == '"' {
        typst_unescape(t.subrange(1, t.len() - 1))
    } else {
        None
    }
}

proof fn lemma_unescape_char(c: char, t: Seq<char>)
    ensures
        typst_unescape(escape_char(c) + t) == match typst_unescape(t) {
            Some(r) => Some(seq![c] + r),
            None => None::<Seq<char>>,
        },
{
    let e = escape_char(c);
    let u = e + t;
    if e.len() == 2 {
        assert(u.subrange(2, u.len() as int) =~= t);
        assert(u[0] == '\\');
    } else {
        assert(u.drop_first() =~= t);
        assert(u[0] == c);
    }
}

proof fn lemma_escape_front(s: Seq<char>, n: int)
    requires
        1 <= n <= s.len(),
    ensures
        escape_prefix(s, n) == escape_char(s[0]) + escape_prefix(s.drop_first(), n - 1),
    decreases n,
{
    if n == 1 {
        assert(escape_prefix(s.drop_first(), 0) =~= Seq::<char>::empty());
        assert(escape_prefix(s, 0) =~= Seq::<char>::empty());
        assert(escape_prefix(s, 1) =~= escape_char(s[0]));
    } else {
        lemma_escape_front(s, n - 1);
        assert(s.drop_first()[n - 2] == s[n - 1]);
        assert(escape_prefix(s, n) =~= escape_char(s[0]) + escape_prefix(s.drop_first(), n - 1));
    }
}

proof fn lemma_unescape_escaped(s: Seq<char>)
    ensures
        typst_unescape(escape_prefix(s, s.len() as int)) == Some(s),
    decreases s.len(),
{
    if s.len() == 0 {
        assert(escape_prefix(s, 0) =~= Seq::<char>::empty());
        assert(s =~= Seq::<char>::empty());
    } else {
        lemma_escape_front(s, s.len() as int);
        lemma_unescape_escaped(s.drop_first());
        lemma_unescape_char(s[0], escape_prefix(s.drop_first(), s.len() - 1));
        assert(seq![s[0]] + s.drop_first() =~= s);
    }
}

/// Quoting is undone by reading the literal back: the Typst string literal
/// that `quote_text` writes for any text denotes exactly that text (so each
/// backslash, quote, newline, return and tab of it is escaped).
pub proof fn lemma_quote_read_back(s: Seq<char>)
    ensures
        typst_read_literal(quote_text(s)) == Some(s),
{
    let q = quote_text(s);
    let e = escape_prefix(s, s.len() as int);
    assert(q.subrange(1, q.len() - 1) =~= e);
    lemma_unescape_escaped(s);
}

pub fn typst_quote_text(s: &[char]) -> (r: String)
    ensures
        r@ == quote_text(s@),
{
    let mut out = String::new();
    push_char(&mut out, '"');
    let mut i: usize = 0;
    while i < s.len()
        invariant
            i <= s@.len(),
            out@ == seq!['"'] + escape_prefix(s@, i as int),
        decreases s@.len() - i,
    {
        let c = s[i];
        if c == '\\' {
            push_char(&mut out, '\\');
            push_char(&mut out, '\\');
        } else if c == '"' {
            push_char(&mut out, '\\');
            push_char(&mut out, '"');
        } else if c == '\n' {
            push_char(&mut out, '\\');
            push_char(&mut out, 'n');
        } else if c == '\r' {
            push_char(&mut out, '\\');
            push_char(&mut out, 'r');
        } else if c == '\t' {
            push_char(&mut out, '\\');
            push_char(&mut out, 't');
        } else {
            push_char(&mut out, c);
        }
        assert(out@ =~= seq!['"'] + escape_prefix(s@, i + 1));
        i = i + 1;
    }
    push_char(&mut out, '"');
    out
}

/// Going down from `j`, the first index whose predecessor is not an apostrophe.
pub open spec fn primes_start(s: Seq<char>, j: int) -> int
    decreases j,
{
    if 0 < j <= s.len() && s[j - 1] == '\'' {
        primes_start(s, j - 1)
    } else {
        j
    }
}

/// First index at or after `i` that does not hold a digit (or the end).
pub open spec fn digits_end(s: Seq<char>, i: int) -> int
    decreases s.len() - i,
{
    if 0 <= i < s.len() && is_digit(s[i]) {
        digits_end(s, i + 1)
    } else {
        i
    }
}

/// `x_12` or `x_12''`: one letter, `_`, digits, then apostrophes.
pub open spec fn underscore_index_form(s: Seq<char>) -> bool {
    match split_once(s, seq!['_']) {
        Some((base, rest)) => {
            let p = primes_start(rest, rest.len() as int);
            base.len() == 1 && is_alpha(base[0]) && p > 0 && all_digits(rest.subrange(0, p))
        },
        None => false,
    }
}

/// `x12''`: one letter, digits, then apostrophes; written as `x_12''`.
pub open spec fn digit_index_form(s: Seq<char>) -> Option<Seq<char>> {
    let split = digits_end(s, 1);
    if s.len() >= 2 && is_alpha(s[0]) && split > 1 && all_primes(s.subrange(split, s.len() as int)) {
        Some(seq![s[0], '_'] + s.subrange(1, s.len() as int))
    } else {
        None
    }
}

/// How a metavariable's text is written in Typst math: numbers, single
/// letters (with primes) and subscripted letters as they are; `x12` as
/// `x_12`; anything else as a quoted string.
pub open spec fn render_ident(s: Seq<char>) -> Seq<char> {
    if s.len() == 0 {
        quote_text(s)
    } else if all_digits(s) || (s[0] == '-' && s.len() > 1 && all_digits(s.drop_first())) {
        s
    } else if s.len() == 1 && is_alpha(s[0]) {
        s
    } else if s.len() >= 2 && is_alpha(s[0]) && all_primes(s.drop_first()) {
        s
    } else if underscore_index_form(s) {
        s
    } else {
        match digit_index_form(s) {
            Some(t) => t,
            None => quote_text(s),
        }
    }
}

fn primes_start_of(s: &[char]) -> (r: usize)
    ensures
        r == primes_start(s@, s@.len() as int),
        r <= s@.len(),
{
    let mut j = s.len();
    while j > 0 && s[j - 1] == '\''
        invariant
            j <= s@.len(),
            primes_start(s@, j as int) == primes_start(s@, s@.len() as int),
        decreases j,
    {
        j = j - 1;
    }
    j
}

fn digits_end_of(s: &[char], i: usize) -> (r: usize)
    requires
        i <= s@.len(),
    ensures
        r == digits_end(s@, i as int),
        i <= r <= s@.len(),
{
    let mut j = i;
    while j < s.len() && digit(s[j])
        invariant
            i <= j <= s@.len(),
            digits_end(s@, j as int) == digits_end(s@, i as int),
        decreases s@.len() - j,
    {
        j = j + 1;
    }
    j
}

pub fn typst_render_ident(s: &[char]) -> (r: String)
    ensures
        r@ == render_ident(s@),
{
    if s.len() == 0 {
        return typst_quote_text(s);
    }
    let rest = slice_chars(s, 1, s.len());
    assert(rest@ =~= s@.drop_first());
    if all_digits_of(s) || (s[0] == '-' && s.len() > 1 && all_digits_of(rest.as_slice())) {
        return string_from_chars(s);
    }
    if s.len() == 1 && alpha(s[0]) {
        return string_from_chars(s);
    }
    if s.len() >= 2 && alpha(s[0]) && all_primes_of(rest.as_slice()) {
        return string_from_chars(s);
    }
    let us = ['_'];
    assert(us@ =~= seq!['_']);
    match split_once_of(s, &us) {
        Some((base, after)) => {
            let p = primes_start_of(after.as_slice());
            if base.len() == 1 && alpha(base[0]) && p > 0 {
                let digits = slice_chars(after.as_slice(), 0, p);
                if all_digits_of(digits.as_slice()) {
                    return string_from_chars(s);
                }
            }
        },
        None => {},
    }
    if s.len() >= 2 && alpha(s[0]) {
        let split = digits_end_of(s, 1);
        if split > 1 {
            let primes = slice_chars(s, split, s.len());
            if all_primes_of(primes.as_slice()) {
                let mut out = String::new();
                push_char(&mut out, s[0]);
                push_char(&mut out, '_');
                let tail = string_from_chars(rest.as_slice());
                out.append(tail.as_str());
                assert(out@ =~= seq![s@[0], '_'] + s@.subrange(1, s@.len() as int));
                return out;
            }
        }
    }
    typst_quote_text(s)
}

// ---------------------------------------------------------------------------
// Names in patterns

/// `'x'` without its quotes; anything else unchanged.
pub open spec fn dequote(s: Seq<char>) -> Seq<char> {
    if s.len() >= 2 && s[0] == '\'' && s[s.len() - 1] == '\'' {
        s.subrange(1, s.len() - 1)
    } else {
        s
    }
}

pub fn dequote_of(s: &[char]) -> (r: Vec<char>)
    ensures
        r@ == dequote(s@),
{
    if s.len() >= 2 && s[0] == '\'' && s[s.len() - 1] == '\'' {
        slice_chars(s, 1, s.len() - 1)
    } else {
        slice_chars(s, 0, s.len())
    }
}

/// Going down from `j`, the last index below it whose character is not a digit.
pub open spec fn last_non_digit(s: Seq<char>, j: int) -> Option<int>
    decreases j,
{
    if j <= 0 || j > s.len() {
        None
    } else if !is_digit(s[j - 1]) {
        Some(j - 1)
    } else {
        last_non_digit(s, j - 1)
    }
}

/// Going down from `j`, the last index below it whose character is not an apostrophe.
pub open spec fn last_non_prime(s: Seq<char>, j: int) -> Option<int>
    decreases j,
{
    if j <= 0 || j > s.len() {
        None
    } else if s[j - 1] != '\'' {
        Some(j - 1)
    } else {
        last_non_prime(s, j - 1)
    }
}

/// A name with an index suffix, split into base and suffix: `x_i`, `x12`,
/// `x''`, or a trailing single letter (`xi`).
pub open spec fn index_suffix(s: Seq<char>) -> Option<(Seq<char>, Seq<char>)> {
    match split_once(s, seq!['_']) {
        Some((b, x)) if b.len() > 0 && x.len() > 0 => Some((b, x)),
        _ => match last_non_digit(s, s.len() as int) {
            Some(p) if p + 1 < s.len() => Some((s.subrange(0, p + 1), s.subrange(p + 1, s.len() as int))),
            _ => match last_non_prime(s, s.len() as int) {
                Some(p) if p + 1 < s.len() => Some((s.subrange(0, p + 1), s.subrange(p + 1, s.len() as int))),
                _ => if s.len() >= 2 && is_alpha(s[s.len() - 1]) {
                    Some((s.subrange(0, s.len() - 1), s.subrange(s.len() - 1, s.len() as int)))
                } else {
                    None
                },
            },
        },
    }
}

fn last_non_digit_of(s: &[char]) -> (r: Option<usize>)
    ensures
        match last_non_digit(s@, s@.len() as int) {
            Some(p) => r == Some(p as usize) && 0 <= p < s@.len(),
            None => r is None,
        },
{
    let mut j = s.len();
    while j > 0
        invariant
            j <= s@.len(),
            last_non_digit(s@, j as int) == last_non_digit(s@, s@.len() as int),
        decreases j,
    {
        if !digit(s[j - 1]) {
            return Some(j - 1);
        }
        j = j - 1;
    }
    None
}

fn last_non_prime_of(s: &[char]) -> (r: Option<usize>)
    ensures
        match last_non_prime(s@, s@.len() as int) {
            Some(p) => r == Some(p as usize) && 0 <= p < s@.len(),
            None => r is None,
        },
{
    let mut j = s.len();
    while j > 0
        invariant
            j <= s@.len(),
            last_non_prime(s@, j as int) == last_non_prime(s@, s@.len() as int),
        decreases j,
    {
        if s[j - 1] != '\'' {
            return Some(j - 1);
        }
        j = j - 1;
    }
    None
}

/// The base of a name with an index suffix.
pub fn index_suffix_base(s: &[char]) -> (r: Option<Vec<char>>)
    ensures
        match index_suffix(s@) {
            Some((b, _)) => r matches Some(x) && x@ == b,
            None => r is None,
        },
{
    let _n = s.len();
    let us = ['_'];
    assert(us@ =~= seq!['_']);
    match split_once_of(s, &us) {
        Some((b, x)) => {
            if b.len() > 0 && x.len() > 0 {
                return Some(b);
            }
        },
        None => {},
    }
    match last_non_digit_of(s) {
        Some(p) => {
            if p + 1 < s.len() {
                return Some(slice_chars(s, 0, p + 1));
            }
        },
        None => {},
    }
    match last_non_prime_of(s) {
        Some(p) => {
            if p + 1 < s.len() {
                return Some(slice_chars(s, 0, p + 1));
            }
        },
        None => {},
    }
    if s.len() >= 2 && alpha(s[s.len() - 1]) {
        return Some(slice_chars(s, 0, s.len() - 1));
    }
    None
}

// ---------------------------------------------------------------------------
// Breaking a snippet into tokens

#[derive(Debug, Clone)]
pub enum TokenKind {
    Terminal(String),
    Word(String),
}

#[derive(Debug, Clone)]
pub struct Token {
    pub kind: TokenKind,
    pub span: Span,
}

pub enum TokenKindV {
    Terminal(Seq<char>),
    Word(Seq<char>),
}

pub struct TokenV {
    pub kind: TokenKindV,
    pub span: Span,
}

impl View for Token {
    type V = TokenV;

    open spec fn view(&self) -> TokenV {
        TokenV {
            kind: match self.kind {
                TokenKind::Terminal(t) => TokenKindV::Terminal(t@),
                TokenKind::Word(w) => TokenKindV::Word(w@),
            },
            span: self.span,
        }
    }
}

/// First index at or after `i` that does not hold ASCII whitespace.
pub open spec fn skip_ascii_ws(s: Seq<char>, i: int) -> int
    decreases s.len() - i,
{
    if 0 <= i < s.len() && is_ascii_ws(s[i]) {
        skip_ascii_ws(s, i + 1)
    } else {
        i
    }
}

/// First index at or after `i` that does not continue an identifier.
pub open spec fn ident_end(s: Seq<char>, i: int) -> int
    decreases s.len() - i,
{
    if 0 <= i < s.len() && is_ident_continue(s[i]) {
        ident_end(s, i + 1)
    } else {
        i
    }
}

/// A terminal starting with an identifier character is a keyword.
pub open spec fn word_like(t: Seq<char>) -> bool {
    t.len() > 0 && is_ident_start(t[0])
}

/// Terminal `t` can be read at index `j` of `s`: it occurs there, and a keyword
/// is not directly followed by an identifier character.
pub open spec fn terminal_fits(t: Seq<char>, s: Seq<char>, j: int) -> bool {
    &&& t.len() > 0
    &&& matches_at(s, j, t)
    &&& !(word_like(t) && j + t.len() < s.len() && is_ident_continue(s[j + t.len()]))
}

/// The longest of the terminals `ts[..n]` that can be read at index `j` (two
/// such terminals of one length are the same text).
pub open spec fn longest_terminal(ts: Seq<Seq<char>>, n: int, s: Seq<char>, j: int) -> Option<Seq<char>>
    decreases n,
{
    if n <= 0 {
        None
    } else {
        let t = ts[n - 1];
        match longest_terminal(ts, n - 1, s, j) {
            Some(b) => if terminal_fits(t, s, j) && b.len() < t.len() {
                Some(t)
            } else {
                Some(b)
            },
            None => if terminal_fits(t, s, j) {
                Some(t)
            } else {
                None
            },
        }
    }
}

proof fn lemma_longest_fits(ts: Seq<Seq<char>>, n: int, s: Seq<char>, j: int)
    ensures
        longest_terminal(ts, n, s, j) matches Some(t) ==> terminal_fits(t, s, j),
    decreases n,
{
    if n > 0 {
        lemma_longest_fits(ts, n - 1, s, j);
    }
}

pub open spec fn tok_at(kind: TokenKindV, s: Seq<char>, from: int, to: int) -> TokenV {
    TokenV { kind, span: Span { start: byte_offset(s, from) as usize, end: byte_offset(s, to) as usize } }
}

/// One step of breaking a snippet into tokens.
pub enum LexStep {
    /// Only whitespace is left.
    End,
    /// A token, and the index after it.
    Tok(TokenV, int),
    /// The character at this index starts no token.
    Fail(int),
}

/// The token at index `i` of `s` (after whitespace): the longest terminal,
/// else a number (digits with an optional `-`), else an identifier.
pub open spec fn lex_step(ts: Seq<Seq<char>>, s: Seq<char>, i: int) -> LexStep {
    let j = skip_ascii_ws(s, i);
    if i < 0 || j < i || j >= s.len() {
        LexStep::End
    } else {
        match longest_terminal(ts, ts.len() as int, s, j) {
            Some(t) => LexStep::Tok(tok_at(TokenKindV::Terminal(t), s, j, j + t.len()), j + t.len()),
            None => {
                let k = if s[j] == '-' && j + 1 < s.len() && is_digit(s[j + 1]) { j + 1 } else { j };
                if is_digit(s[k]) {
                    let e = digits_end(s, k + 1);
                    LexStep::Tok(tok_at(TokenKindV::Word(s.subrange(j, e)), s, j, e), e)
                } else if is_ident_start(s[j]) {
                    let e = ident_end(s, j + 1);
                    LexStep::Tok(tok_at(TokenKindV::Word(s.subrange(j, e)), s, j, e), e)
                } else {
                    LexStep::Fail(j)
                }
            },
        }
    }
}

/// The tokens of the snippet `s` from index `i` on, or the index of the first
/// character that starts no token.
pub open spec fn lex_snippet_from(ts: Seq<Seq<char>>, s: Seq<char>, i: int) -> Result<Seq<TokenV>, int>
    decreases s.len() - i,
{
    match lex_step(ts, s, i) {
        LexStep::End => Ok(Seq::empty()),
        LexStep::Fail(k) => Err(k),
        LexStep::Tok(t, nx) => if nx <= i || nx > s.len() {
            Ok(Seq::empty())
        } else {
            match lex_snippet_from(ts, s, nx) {
                Ok(rest) => Ok(seq![t] + rest),
                Err(k) => Err(k),
            }
        },
    }
}

/// The error for the character at index `j` of `src` that starts no token.
pub open spec fn unexpected_char_error(e: crate::error::OttErrV, src: Seq<char>, j: int) -> bool {
    let b = byte_offset(src, j);
    &&& e.message == "unexpected character `"@ + seq![src[j]] + "`"@
    &&& e.span == Some(Span { start: b as usize, end: (b + 1) as usize })
    &&& e.position matches Some(p) && (p.line as nat, p.column as nat) == spec_position_from_offset(
        vstd::utf8::encode_utf8(src),
        b,
    )
}

pub open spec fn prepend_toks(p: Seq<TokenV>, r: Result<Seq<TokenV>, int>) -> Result<Seq<TokenV>, int> {
    match r {
        Ok(x) => Ok(p + x),
        Err(k) => Err(k),
    }
}

pub open spec fn chars_view(ts: Vec<Vec<char>>) -> Seq<Seq<char>> {
    ts@.map_values(|t: Vec<char>| t@)
}

/// The index in `ts` of the longest terminal that can be read at `j`.
fn match_terminal(ts: &Vec<Vec<char>>, s: &[char], j: usize) -> (r: Option<usize>)
    ensures
        match longest_terminal(chars_view(*ts), ts@.len() as int, s@, j as int) {
            Some(t) => r matches Some(k) && k < ts@.len() && ts@[k as int]@ == t,
            None => r is None,
        },
{
    let ghost tv = chars_view(*ts);
    let _n = s.len();
    let mut best: Option<usize> = None;
    let mut k: usize = 0;
    while k < ts.len()
        invariant
            k <= ts@.len(),
            tv == chars_view(*ts),
            s@.len() <= usize::MAX,
            match longest_terminal(tv, k as int, s@, j as int) {
                Some(t) => best matches Some(x) && x < k && ts@[x as int]@ == t,
                None => best is None,
            },
        decreases ts@.len() - k,
    {
        let t = &ts[k];
        assert(tv[k as int] == t@);
        let mut fits = false;
        let tl = t.len();
        let at = matches_at_of(s, j, t.as_slice());
        if tl > 0 && at {
            let end = j + tl;
            fits = !(ident_start(t[0]) && end < s.len() && ident_continue(s[end]));
        }
        match best {
            Some(x) => {
                if fits && ts[x].len() < t.len() {
                    best = Some(k);
                }
            },
            None => {
                if fits {
                    best = Some(k);
                }
            },
        }
        k = k + 1;
    }
    best
}

/// Characters of a snippet with a position and its byte offset kept in step.
struct Cursor {
    s: Vec<char>,
    i: usize,
    b: usize,
}

impl Cursor {
    spec fn wf(&self) -> bool {
        &&& self.i <= self.s@.len()
        &&& self.b == byte_offset(self.s@, self.i as int)
        &&& vstd::utf8::encode_utf8(self.s@).len() <= usize::MAX
    }

    fn advance_to(&mut self, to: usize)
        requires
            old(self).wf(),
            old(self).i <= to <= old(self).s@.len(),
        ensures
            final(self).wf(),
            final(self).s@ == old(self).s@,
            final(self).i == to,
    {
        while self.i < to
            invariant
                self.wf(),
                self.s@ == old(self).s@,
                self.i <= to <= self.s@.len(),
            decreases to - self.i,
        {
            proof {
                lemma_byte_offset_step(self.s@, self.i as int);
            }
            let w = utf8_width(self.s[self.i]);
            self.b = self.b + w;
            self.i = self.i + 1;
        }
    }
}

/// Reads the token at the cursor (after whitespace).
fn next_token(ts: &Vec<Vec<char>>, cur: &mut Cursor, src: &str) -> (r: Result<Option<Token>, OttError>)
    requires
        old(cur).wf(),
        old(cur).s@ == src@,
    ensures
        final(cur).wf(),
        final(cur).s@ == src@,
        match lex_step(chars_view(*ts), src@, old(cur).i as int) {
            LexStep::End => r matches Ok(None),
            LexStep::Tok(t, nx) => r matches Ok(Some(x)) && x@ == t && final(cur).i == nx && nx > old(cur).i,
            LexStep::Fail(k) => r matches Err(e) && 0 <= k < src@.len() && unexpected_char_error(e@, src@, k),
        },
{
    let ghost tv = chars_view(*ts);
    let ghost s = cur.s@;
    let _n = cur.s.len();
    let mut j = cur.i;
    while j < cur.s.len() && is_ascii_space(cur.s[j])
        invariant
            cur.i <= j <= cur.s@.len(),
            skip_ascii_ws(cur.s@, j as int) == skip_ascii_ws(cur.s@, cur.i as int),
        decreases cur.s@.len() - j,
    {
        j = j + 1;
    }
    if j >= cur.s.len() {
        return Ok(None);
    }
    cur.advance_to(j);
    let start_b = cur.b;
    let m = match_terminal(ts, cur.s.as_slice(), j);
    match m {
        Some(k) => {
            proof {
                lemma_longest_fits(tv, tv.len() as int, s, j as int);
            }
            let t = &ts[k];
            let text = string_from_chars(t.as_slice());
            cur.advance_to(j + t.len());
            Ok(Some(Token { kind: TokenKind::Terminal(text), span: Span::new(start_b, cur.b) }))
        },
        None => {
            let c = cur.s[j];
            let k = if c == '-' && j + 1 < cur.s.len() && digit(cur.s[j + 1]) { j + 1 } else { j };
            if digit(cur.s[k]) {
                let mut e = k + 1;
                while e < cur.s.len() && digit(cur.s[e])
                    invariant
                        k + 1 <= e <= cur.s@.len(),
                        digits_end(cur.s@, e as int) == digits_end(cur.s@, k + 1),
                    decreases cur.s@.len() - e,
                {
                    e = e + 1;
                }
                let text = string_from_range(cur.s.as_slice(), j, e);
                cur.advance_to(e);
                Ok(Some(Token { kind: TokenKind::Word(text), span: Span::new(start_b, cur.b) }))
            } else if ident_start(c) {
                let mut e = j + 1;
                while e < cur.s.len() && ident_continue(cur.s[e])
                    invariant
                        j + 1 <= e <= cur.s@.len(),
                        ident_end(cur.s@, e as int) == ident_end(cur.s@, j + 1),
                    decreases cur.s@.len() - e,
                {
                    e = e + 1;
                }
                let text = string_from_range(cur.s.as_slice(), j, e);
                cur.advance_to(e);
                Ok(Some(Token { kind: TokenKind::Word(text), span: Span::new(start_b, cur.b) }))
            } else {
                proof {
                    lemma_byte_offset_step(s, j as int);
                }
                let mut m = "unexpected character `".to_owned();
                push_char(&mut m, c);
                m.append("`");
                assert(m@ =~= "unexpected character `"@ + seq![src@[j as int]] + "`"@);
                proof {
                    lemma_position_fits(vstd::utf8::encode_utf8(src@), start_b as nat);
                }
                Err(OttError::new(m).with_span(Span::new(start_b, start_b + 1), src))
            }
        },
    }
}

/// Breaks the snippet `src` into tokens, reading at each position the longest
/// of the terminals `ts`, else a number, else an identifier.
pub fn lex_snippet(ts: &Vec<Vec<char>>, src: &str) -> (r: Result<Vec<Token>, OttError>)
    ensures
        match lex_snippet_from(chars_view(*ts), src@, 0) {
            Ok(toks) => r matches Ok(v) && v@.map_values(|t: Token| t@) == toks,
            Err(j) => r matches Err(e) && 0 <= j < src@.len() && unexpected_char_error(e@, src@, j),
        },
{
    let ghost tv = chars_view(*ts);
    let bytes = src.as_bytes();
    let _nb = bytes.len();
    let chars = chars_of(src);
    let _n = chars.len();
    assert(chars@.take(0) =~= Seq::<char>::empty());
    assert(vstd::utf8::encode_utf8(Seq::<char>::empty()) =~= Seq::<u8>::empty());
    let mut cur = Cursor { s: chars, i: 0, b: 0 };
    let mut out: Vec<Token> = Vec::new();
    assert(out@.map_values(|t: Token| t@) =~= Seq::<TokenV>::empty());
    proof {
        match lex_snippet_from(tv, src@, 0) {
            Ok(x) => {
                assert(Seq::<TokenV>::empty() + x =~= x);
            },
            Err(_) => {},
        }
    }
    loop
        invariant
            cur.wf(),
            cur.s@ == src@,
            tv == chars_view(*ts),
            lex_snippet_from(tv, src@, 0) == prepend_toks(out@.map_values(|t: Token| t@), lex_snippet_from(
                tv,
                src@,
                cur.i as int,
            )),
        decreases cur.s@.len() - cur.i,
    {
        let ghost outv = out@.map_values(|t: Token| t@);
        let ghost i0 = cur.i as int;
        match next_token(ts, &mut cur, src) {
            Err(e) => {
                return Err(e);
            },
            Ok(None) => {
                assert(outv + Seq::<TokenV>::empty() =~= outv);
                return Ok(out);
            },
            Ok(Some(tok)) => {
                let ghost tk = tok@;
                out.push(tok);
                assert(out@.map_values(|t: Token| t@) =~= outv.push(tk));
                proof {
                    match lex_snippet_from(tv, src@, cur.i as int) {
                        Ok(rest) => {
                            assert(outv + (seq![tk] + rest) =~= outv.push(tk) + rest);
                        },
                        Err(_) => {},
                    }
                }
            },
        }
    }
}

/// Every token of a snippet starts at a byte offset inside it.
pub proof fn lemma_lex_spans(ts: Seq<Seq<char>>, s: Seq<char>, i: int)
    requires
        0 <= i,
        vstd::utf8::encode_utf8(s).len() <= usize::MAX,
    ensures
        lex_snippet_from(ts, s, i) matches Ok(toks) ==> forall|k: int| 0 <= k < toks.len() ==> (#[trigger] toks[k]).span.start
            < usize::MAX,
    decreases s.len() - i,
{
    match lex_step(ts, s, i) {
        LexStep::Tok(t, nx) => {
            if i < nx <= s.len() {
                lemma_lex_spans(ts, s, nx);
                let j = skip_ascii_ws(s, i);
                lemma_skip_ascii_ws(s, i);
                lemma_byte_offset_step(s, j);
                match lex_snippet_from(ts, s, nx) {
                    Ok(rest) => {
                        let all = seq![t] + rest;
                        assert forall|k: int| 0 <= k < all.len() implies (#[trigger] all[k]).span.start < usize::MAX by {
                            if k > 0 {
                                assert(all[k] == rest[k - 1]);
                            }
                        }
                    },
                    Err(_) => {},
                }
            }
        },
        _ => {},
    }
}

proof fn lemma_skip_ascii_ws(s: Seq<char>, i: int)
    requires
        0 <= i,
    ensures
        i <= skip_ascii_ws(s, i),
        skip_ascii_ws(s, i) < s.len() ==> !is_ascii_ws(s[skip_ascii_ws(s, i)]),
    decreases s.len() - i,
{
    if 0 <= i < s.len() && is_ascii_ws(s[i]) {
        lemma_skip_ascii_ws(s, i + 1);
    }
}

} // verus!
