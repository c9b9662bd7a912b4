//! Binding specifications: the bodies of `(+ ... +)` annotations on productions.
//!
//! A binding specification is a sequence of clauses, each either
//! `bind <expr> in <ident>` or `<ident> = <expr>`. Expressions are built from
//! `{}`, identifiers, function calls `f(e, ...)`, dot ranges `e .. e`,
//! `union`, `#`, parentheses and raw comprehension atoms `</ ... />`.

use vstd::prelude::*;
use vstd::string::StringSliceAdditionalSpecFns;
use vstd::string::StringExecFns;
use crate::text::{byte_offset, dec_digits, push_char, push_decimal, string_from_range, chars_of, utf8_width, lemma_byte_offset_step, lemma_byte_offset_bound};

verus! {

#[derive(Debug)]
pub struct BindSpec {
    pub clauses: Vec<Clause>,
}

#[derive(Debug)]
pub enum Clause {
    Bind { binder: Expr, in_term: String },
    Assign { name: String, value: Expr },
}

#[derive(Debug)]
pub enum Expr {
    EmptySet,
    /// A simple identifier-like atom.
    Var(String),
    /// An uninterpreted atom kept as written (a list-form comprehension such as
    /// `</ p // i />`).
    Raw(String),
    Call { func: String, args: Vec<Expr> },
    Dots {
        /// The number of dots: 2 (`..`), 3 (`...`), or 4 (`....`).
        dots: u8,
        start: Box<Expr>,
        end: Box<Expr>,
    },
    Union { left: Box<Expr>, right: Box<Expr> },
    Hash { left: Box<Expr>, right: Box<Expr> },
}

#[derive(Debug, Clone)]
pub struct BindParseError {
    pub message: String,
    /// Byte offset of the offending token in the source.
    pub offset: usize,
}

/// Mathematical model of an expression.
pub enum ExprV {
    EmptySet,
    Var(Seq<char>),
    Raw(Seq<char>),
    Call { func: Seq<char>, args: Seq<ExprV> },
    Dots { dots: u8, start: Box<ExprV>, end: Box<ExprV> },
    Union { left: Box<ExprV>, right: Box<ExprV> },
    Hash { left: Box<ExprV>, right: Box<ExprV> },
}

/// Mathematical model of a clause.
pub enum ClauseV {
    Bind { binder: ExprV, in_term: Seq<char> },
    Assign { name: Seq<char>, value: ExprV },
}

/// Mathematical model of an error: message and byte offset.
pub struct BindErrV {
    pub message: Seq<char>,
    pub offset: nat,
}

pub open spec fn expr_view(e: Expr) -> ExprV
    decreases e,
{
    match e {
        Expr::EmptySet => ExprV::EmptySet,
        Expr::Var(s) => ExprV::Var(s@),
        Expr::Raw(s) => ExprV::Raw(s@),
        Expr::Call { func, args } => ExprV::Call {
            func: func@,
            args: Seq::new(args@.len(), |i: int| {
                if 0 <= i < args@.len() {
                    expr_view(args@[i])
                } else {
                    ExprV::EmptySet
                }
            }),
        },
        Expr::Dots { dots, start, end } => ExprV::Dots {
            dots,
            start: Box::new(expr_view(*start)),
            end: Box::new(expr_view(*end)),
        },
        Expr::Union { left, right } => ExprV::Union {
            left: Box::new(expr_view(*left)),
            right: Box::new(expr_view(*right)),
        },
        Expr::Hash { left, right } => ExprV::Hash {
            left: Box::new(expr_view(*left)),
            right: Box::new(expr_view(*right)),
        },
    }
}

impl View for Expr {
    type V = ExprV;

    open spec fn view(&self) -> ExprV {
        expr_view(*self)
    }
}

impl View for Clause {
    type V = ClauseV;

    open spec fn view(&self) -> ClauseV {
        match *self {
            Clause::Bind { binder, in_term } => ClauseV::Bind { binder: binder@, in_term: in_term@ },
            Clause::Assign { name, value } => ClauseV::Assign { name: name@, value: value@ },
        }
    }
}

impl View for BindSpec {
    type V = Seq<ClauseV>;

    open spec fn view(&self) -> Seq<ClauseV> {
        self.clauses@.map_values(|c: Clause| c@)
    }
}

impl View for BindParseError {
    type V = BindErrV;

    open spec fn view(&self) -> BindErrV {
        BindErrV { message: self.message@, offset: self.offset as nat }
    }
}

/// The text of `BindParseError::to_string`: the message and the byte offset.
pub open spec fn bind_error_text(e: BindErrV) -> Seq<char> {
    e.message + " (byte offset "@ + dec_digits(e.offset) + ")"@
}

impl BindParseError {
    /// The message, followed by ` (byte offset N)`.
    pub fn to_string(&self) -> (s: String)
        ensures
            s@ == bind_error_text(self@),
    {
        let mut s = self.message.clone();
        s.append(" (byte offset ");
        push_decimal(&mut s, self.offset);
        s.append(")");
        s
    }
}


// ---------------------------------------------------------------------------
// Tokens

#[derive(Debug)]
enum TokKind {
    Ident(String),
    Raw(String),
    Bind,
    In,
    Union,
    Eq,
    Hash,
    Dots(u8),
    LParen,
    RParen,
    Comma,
    EmptySet,
    Eof,
}

#[derive(Debug)]
struct Tok {
    kind: TokKind,
    start: usize,
}

/// Mathematical model of a token kind.
pub enum TokKindV {
    Ident(Seq<char>),
    Raw(Seq<char>),
    Bind,
    In,
    Union,
    Eq,
    Hash,
    Dots(u8),
    LParen,
    RParen,
    Comma,
    EmptySet,
    Eof,
}

/// Mathematical model of a token: its kind and the byte offset where it starts.
pub struct TokV {
    pub kind: TokKindV,
    pub start: nat,
}

impl View for TokKind {
    type V = TokKindV;

    closed spec fn view(&self) -> TokKindV {
        match *self {
            TokKind::Ident(s) => TokKindV::Ident(s@),
            TokKind::Raw(s) => TokKindV::Raw(s@),
            TokKind::Bind => TokKindV::Bind,
            TokKind::In => TokKindV::In,
            TokKind::Union => TokKindV::Union,
            TokKind::Eq => TokKindV::Eq,
            TokKind::Hash => TokKindV::Hash,
            TokKind::Dots(n) => TokKindV::Dots(n),
            TokKind::LParen => TokKindV::LParen,
            TokKind::RParen => TokKindV::RParen,
            TokKind::Comma => TokKindV::Comma,
            TokKind::EmptySet => TokKindV::EmptySet,
            TokKind::Eof => TokKindV::Eof,
        }
    }
}

impl View for Tok {
    type V = TokV;

    closed spec fn view(&self) -> TokV {
        TokV { kind: self.kind@, start: self.start as nat }
    }
}

/// What `format!("{:?}", s)` gives for a string slice `s`.
pub uninterp spec fn str_debug(s: Seq<char>) -> Seq<char>;

/// The `Debug` text of a string slice (`<str as Debug>::fmt`): the text in double
/// quotes with escapes. Its exact escaping rules are left to the name `str_debug`.
#[verifier::external_body]
fn debug_str(s: &str) -> (r: String)
    ensures
        r@ == str_debug(s@),
{
    format!("{:?}", s)
}

/// The `Debug` text of a token kind, as `derive(Debug)` writes it.
pub open spec fn kind_debug(k: TokKindV) -> Seq<char> {
    match k {
        TokKindV::Ident(s) => "Ident("@ + str_debug(s) + ")"@,
        TokKindV::Raw(s) => "Raw("@ + str_debug(s) + ")"@,
        TokKindV::Bind => "Bind"@,
        TokKindV::In => "In"@,
        TokKindV::Union => "Union"@,
        TokKindV::Eq => "Eq"@,
        TokKindV::Hash => "Hash"@,
        TokKindV::Dots(n) => "Dots("@ + dec_digits(n as nat) + ")"@,
        TokKindV::LParen => "LParen"@,
        TokKindV::RParen => "RParen"@,
        TokKindV::Comma => "Comma"@,
        TokKindV::EmptySet => "EmptySet"@,
        TokKindV::Eof => "Eof"@,
    }
}

fn kind_to_debug(k: &TokKind) -> (s: String)
    ensures
        s@ == kind_debug(k@),
{
    match k {
        TokKind::Ident(x) => {
            let mut s = "Ident(".to_owned();
            let d = debug_str(x.as_str());
            s.append(d.as_str());
            s.append(")");
            s
        },
        TokKind::Raw(x) => {
            let mut s = "Raw(".to_owned();
            let d = debug_str(x.as_str());
            s.append(d.as_str());
            s.append(")");
            s
        },
        TokKind::Bind => "Bind".to_owned(),
        TokKind::In => "In".to_owned(),
        TokKind::Union => "Union".to_owned(),
        TokKind::Eq => "Eq".to_owned(),
        TokKind::Hash => "Hash".to_owned(),
        TokKind::Dots(n) => {
            let mut s = "Dots(".to_owned();
            push_decimal(&mut s, *n as usize);
            s.append(")");
            s
        },
        TokKind::LParen => "LParen".to_owned(),
        TokKind::RParen => "RParen".to_owned(),
        TokKind::Comma => "Comma".to_owned(),
        TokKind::EmptySet => "EmptySet".to_owned(),
        TokKind::Eof => "Eof".to_owned(),
    }
}

fn copy_kind(k: &TokKind) -> (r: TokKind)
    ensures
        r@ == k@,
{
    match k {
        TokKind::Ident(x) => TokKind::Ident(x.clone()),
        TokKind::Raw(x) => TokKind::Raw(x.clone()),
        TokKind::Bind => TokKind::Bind,
        TokKind::In => TokKind::In,
        TokKind::Union => TokKind::Union,
        TokKind::Eq => TokKind::Eq,
        TokKind::Hash => TokKind::Hash,
        TokKind::Dots(n) => TokKind::Dots(*n),
        TokKind::LParen => TokKind::LParen,
        TokKind::RParen => TokKind::RParen,
        TokKind::Comma => TokKind::Comma,
        TokKind::EmptySet => TokKind::EmptySet,
        TokKind::Eof => TokKind::Eof,
    }
}

fn kind_eq(a: &TokKind, b: &TokKind) -> (r: bool)
    ensures
        r == (a@ == b@),
{
    match (a, b) {
        (TokKind::Ident(x), TokKind::Ident(y)) => x.eq(y),
        (TokKind::Raw(x), TokKind::Raw(y)) => x.eq(y),
        (TokKind::Bind, TokKind::Bind) => true,
        (TokKind::In, TokKind::In) => true,
        (TokKind::Union, TokKind::Union) => true,
        (TokKind::Eq, TokKind::Eq) => true,
        (TokKind::Hash, TokKind::Hash) => true,
        (TokKind::Dots(m), TokKind::Dots(n)) => *m == *n,
        (TokKind::LParen, TokKind::LParen) => true,
        (TokKind::RParen, TokKind::RParen) => true,
        (TokKind::Comma, TokKind::Comma) => true,
        (TokKind::EmptySet, TokKind::EmptySet) => true,
        (TokKind::Eof, TokKind::Eof) => true,
        _ => false,
    }
}

// ---------------------------------------------------------------------------
// Lexer: specification

pub open spec fn is_space(c: char) -> bool {
    c == ' ' || c == '\t' || c == '\n' || c == '\r'
}

pub open spec fn ident_start(c: char) -> bool {
    ('a' <= c && c <= 'z') || ('A' <= c && c <= 'Z') || c == '_'
}

pub open spec fn ident_continue(c: char) -> bool {
    ident_start(c) || ('0' <= c && c <= '9') || c == '\''
}

/// First index at or after `i` that is not a space.
pub open spec fn skip_spaces(s: Seq<char>, i: int) -> int
    decreases s.len() - i,
{
    if 0 <= i < s.len() && is_space(s[i]) {
        skip_spaces(s, i + 1)
    } else {
        i
    }
}

/// First index at or after `i` that cannot continue an identifier.
pub open spec fn ident_end(s: Seq<char>, i: int) -> int
    decreases s.len() - i,
{
    if 0 <= i < s.len() && ident_continue(s[i]) {
        ident_end(s, i + 1)
    } else {
        i
    }
}

/// First index at or after `i` where `/>` starts.
pub open spec fn find_comp_close(s: Seq<char>, i: int) -> Option<int>
    decreases s.len() - i,
{
    if 0 <= i && i + 1 < s.len() {
        if s[i] == '/' && s[i + 1] == '>' {
            Some(i)
        } else {
            find_comp_close(s, i + 1)
        }
    } else {
        None
    }
}

pub open spec fn keyword_or_ident(w: Seq<char>) -> TokKindV {
    if w == seq!['b', 'i', 'n', 'd'] {
        TokKindV::Bind
    } else if w == seq!['i', 'n'] {
        TokKindV::In
    } else if w == seq!['u', 'n', 'i', 'o', 'n'] {
        TokKindV::Union
    } else {
        TokKindV::Ident(w)
    }
}

/// The token that starts at `st` (which is not a space and not past the end):
/// its kind and the index after it, or the error message.
pub open spec fn lex_one(s: Seq<char>, st: int) -> Result<(TokKindV, int), Seq<char>> {
    let c = s[st];
    if c == '=' {
        Ok((TokKindV::Eq, st + 1))
    } else if c == '#' {
        Ok((TokKindV::Hash, st + 1))
    } else if c == '(' {
        Ok((TokKindV::LParen, st + 1))
    } else if c == ')' {
        Ok((TokKindV::RParen, st + 1))
    } else if c == ',' {
        Ok((TokKindV::Comma, st + 1))
    } else if c == '.' {
        if st + 4 <= s.len() && s[st + 1] == '.' && s[st + 2] == '.' && s[st + 3] == '.' {
            Ok((TokKindV::Dots(4), st + 4))
        } else if st + 3 <= s.len() && s[st + 1] == '.' && s[st + 2] == '.' {
            Ok((TokKindV::Dots(3), st + 3))
        } else if st + 2 <= s.len() && s[st + 1] == '.' {
            Ok((TokKindV::Dots(2), st + 2))
        } else {
            Err("unexpected '.' (did you mean '..'?)"@)
        }
    } else if c == '{' {
        let j = skip_spaces(s, st + 1);
        if j < s.len() && s[j] == '}' {
            Ok((TokKindV::EmptySet, j + 1))
        } else {
            Err("expected '}' to close empty set"@)
        }
    } else if c == '<' {
        if st + 1 >= s.len() || s[st + 1] != '/' {
            Err("unexpected '<' (did you mean `</ ... />`?)"@)
        } else {
            match find_comp_close(s, st + 2) {
                None => Err("unterminated comprehension atom (expected '/>')"@),
                Some(k) => Ok((TokKindV::Raw(s.subrange(st, k + 2)), k + 2)),
            }
        }
    } else if ident_start(c) {
        let e = ident_end(s, st + 1);
        Ok((keyword_or_ident(s.subrange(st, e)), e))
    } else {
        Err("unexpected character '"@ + seq![c] + "'"@)
    }
}

/// The next token at or after `i`, and the index after it.
pub open spec fn next_token(s: Seq<char>, i: int) -> Result<(TokV, int), BindErrV> {
    let st = skip_spaces(s, i);
    if st >= s.len() {
        Ok((TokV { kind: TokKindV::Eof, start: byte_offset(s, st) }, st))
    } else {
        match lex_one(s, st) {
            Ok((k, nx)) => Ok((TokV { kind: k, start: byte_offset(s, st) }, nx)),
            Err(m) => Err(BindErrV { message: m, offset: byte_offset(s, st) }),
        }
    }
}

pub open spec fn no_error() -> BindErrV {
    BindErrV { message: Seq::empty(), offset: 0 }
}

/// All tokens from index `i` on, ending with `Eof`, or the first lexical error.
pub open spec fn lex_from(s: Seq<char>, i: int) -> Result<Seq<TokV>, BindErrV>
    decreases s.len() - i,
{
    match next_token(s, i) {
        Err(e) => Err(e),
        Ok((t, nx)) => {
            if t.kind is Eof {
                Ok(seq![t])
            } else if nx <= i || nx > s.len() {
                Err(no_error())
            } else {
                match lex_from(s, nx) {
                    Ok(rest) => Ok(seq![t] + rest),
                    Err(e) => Err(e),
                }
            }
        },
    }
}

// ---------------------------------------------------------------------------
// Lexer: implementation

fn is_ident_start(c: char) -> (r: bool)
    ensures
        r == ident_start(c),
{
    ('a' <= c && c <= 'z') || ('A' <= c && c <= 'Z') || c == '_'
}

fn is_ident_continue(c: char) -> (r: bool)
    ensures
        r == ident_continue(c),
{
    is_ident_start(c) || ('0' <= c && c <= '9') || c == '\''
}

fn err_at(message: String, offset: usize) -> (e: BindParseError)
    ensures
        e@ == (BindErrV { message: message@, offset: offset as nat }),
{
    BindParseError { message, offset }
}

struct Lexer {
    src: Vec<char>,
    i: usize,
    byte_i: usize,
}

impl Lexer {
    spec fn wf(&self) -> bool {
        &&& self.i <= self.src@.len()
        &&& self.byte_i == byte_offset(self.src@, self.i as int)
        &&& vstd::utf8::encode_utf8(self.src@).len() <= usize::MAX
        &&& self.src@.len() <= usize::MAX
    }

    fn new(src: &str) -> (l: Self)
        ensures
            l.wf(),
            l.src@ == src@,
            l.i == 0,
    {
        let bytes = src.as_bytes();
        let _n = bytes.len();
        let v = chars_of(src);
        let _len = v.len();
        assert(v@.take(0) =~= Seq::<char>::empty());
        assert(vstd::utf8::encode_utf8(Seq::<char>::empty()) =~= Seq::<u8>::empty());
        Self { src: v, i: 0, byte_i: 0 }
    }

    fn advance(&mut self)
        requires
            old(self).wf(),
            old(self).i < old(self).src@.len(),
        ensures
            final(self).wf(),
            final(self).src@ == old(self).src@,
            final(self).i == old(self).i + 1,
    {
        proof {
            lemma_byte_offset_step(self.src@, self.i as int);
        }
        let w = utf8_width(self.src[self.i]);
        self.byte_i = self.byte_i + w;
        self.i = self.i + 1;
    }

    /// Moves to index `to`, keeping the byte offset in step.
    fn advance_to(&mut self, to: usize)
        requires
            old(self).wf(),
            old(self).i <= to <= old(self).src@.len(),
        ensures
            final(self).wf(),
            final(self).src@ == old(self).src@,
            final(self).i == to,
    {
        while self.i < to
            invariant
                self.wf(),
                self.src@ == old(self).src@,
                self.i <= to <= self.src@.len(),
            decreases to - self.i,
        {
            self.advance();
        }
    }

    fn lex_all(&mut self) -> (r: Result<Vec<Tok>, BindParseError>)
        requires
            old(self).wf(),
        ensures
            match lex_from(old(self).src@, old(self).i as int) {
                Ok(ts) => r is Ok && r->Ok_0@.map_values(|t: Tok| t@) == ts,
                Err(e) => r is Err && r->Err_0@ == e,
            },
    {
        let ghost s = self.src@;
        let ghost i0 = self.i as int;
        let mut out: Vec<Tok> = Vec::new();
        assert(out@.map_values(|t: Tok| t@) =~= Seq::<TokV>::empty());
        loop
            invariant
                self.wf(),
                self.src@ == s,
                s == old(self).src@,
                i0 == old(self).i,
                lex_from(s, i0) == (match lex_from(s, self.i as int) {
                    Ok(rest) => Ok(out@.map_values(|t: Tok| t@) + rest),
                    Err(e) => Err(e),
                }),
            decreases s.len() - self.i,
        {
            let ghost before = self.i as int;
            let ghost old_outv = out@.map_values(|t: Tok| t@);
            let tok = match self.next_tok() {
                Ok(t) => t,
                Err(e) => {
                    assert(next_token(s, before) is Err);
                    assert(lex_from(s, before) == Err::<Seq<TokV>, BindErrV>(e@));
                    return Err(e);
                },
            };
            let is_eof = matches!(tok.kind, TokKind::Eof);
            let ghost tv = tok@;
            out.push(tok);
            assert(out@.map_values(|t: Tok| t@) =~= old_outv.push(tv));
            if is_eof {
                assert(old_outv + seq![tv] =~= old_outv.push(tv));
                return Ok(out);
            }
            proof {
                match lex_from(s, self.i as int) {
                    Ok(rest) => {
                        assert(old_outv + (seq![tv] + rest) =~= old_outv.push(tv) + rest);
                    },
                    Err(_) => {},
                }
            }
        }
    }

    fn skip_ws(&mut self)
        requires
            old(self).wf(),
        ensures
            final(self).wf(),
            final(self).src@ == old(self).src@,
            final(self).i as int == skip_spaces(old(self).src@, old(self).i as int),
    {
        while self.i < self.src.len()
            && (self.src[self.i] == ' ' || self.src[self.i] == '\t' || self.src[self.i] == '\n'
                || self.src[self.i] == '\r')
            invariant
                self.wf(),
                self.src@ == old(self).src@,
                skip_spaces(self.src@, self.i as int) == skip_spaces(old(self).src@, old(self).i as int),
            decreases self.src@.len() - self.i,
        {
            self.advance();
        }
    }

    fn next_tok(&mut self) -> (r: Result<Tok, BindParseError>)
        requires
            old(self).wf(),
        ensures
            final(self).wf(),
            final(self).src@ == old(self).src@,
            match next_token(old(self).src@, old(self).i as int) {
                Ok((t, nx)) => r is Ok && r->Ok_0@ == t && final(self).i == nx
                    && (!(t.kind is Eof) ==> final(self).i > old(self).i),
                Err(e) => r is Err && r->Err_0@ == e,
            },
    {
        self.skip_ws();
        proof {
            lemma_skip_spaces(old(self).src@, old(self).i as int);
        }
        let start = self.i;
        let bstart = self.byte_i;
        if self.i >= self.src.len() {
            return Ok(Tok { kind: TokKind::Eof, start: bstart });
        }
        let c = self.src[self.i];
        if c == '=' {
            self.advance();
            Ok(Tok { kind: TokKind::Eq, start: bstart })
        } else if c == '#' {
            self.advance();
            Ok(Tok { kind: TokKind::Hash, start: bstart })
        } else if c == '(' {
            self.advance();
            Ok(Tok { kind: TokKind::LParen, start: bstart })
        } else if c == ')' {
            self.advance();
            Ok(Tok { kind: TokKind::RParen, start: bstart })
        } else if c == ',' {
            self.advance();
            Ok(Tok { kind: TokKind::Comma, start: bstart })
        } else if c == '.' {
            let n = self.src.len();
            if n - start >= 4 && self.src[start + 1] == '.' && self.src[start + 2] == '.'
                && self.src[start + 3] == '.' {
                self.advance_to(start + 4);
                Ok(Tok { kind: TokKind::Dots(4), start: bstart })
            } else if n - start >= 3 && self.src[start + 1] == '.' && self.src[start + 2] == '.' {
                self.advance_to(start + 3);
                Ok(Tok { kind: TokKind::Dots(3), start: bstart })
            } else if n - start >= 2 && self.src[start + 1] == '.' {
                self.advance_to(start + 2);
                Ok(Tok { kind: TokKind::Dots(2), start: bstart })
            } else {
                Err(err_at("unexpected '.' (did you mean '..'?)".to_owned(), bstart))
            }
        } else if c == '{' {
            self.lex_empty_set(bstart)
        } else if c == '<' {
            self.lex_raw_comp(bstart)
        } else if is_ident_start(c) {
            self.lex_ident_or_keyword(bstart)
        } else {
            let mut m = "unexpected character '".to_owned();
            push_char(&mut m, c);
            m.append("'");
            assert(m@ =~= "unexpected character '"@ + seq![c] + "'"@);
            Err(err_at(m, bstart))
        }
    }

    fn lex_empty_set(&mut self, bstart: usize) -> (r: Result<Tok, BindParseError>)
        requires
            old(self).wf(),
            old(self).i < old(self).src@.len(),
            old(self).src@[old(self).i as int] == '{',
            bstart == old(self).byte_i,
        ensures
            final(self).wf(),
            final(self).src@ == old(self).src@,
            final(self).i > old(self).i,
            match lex_one(old(self).src@, old(self).i as int) {
                Ok((k, nx)) => r is Ok && r->Ok_0@ == (TokV { kind: k, start: bstart as nat })
                    && final(self).i == nx,
                Err(m) => r is Err && r->Err_0@ == (BindErrV { message: m, offset: bstart as nat }),
            },
    {
        self.advance();
        self.skip_ws();
        proof {
            lemma_skip_spaces(old(self).src@, old(self).i + 1);
        }
        if self.i < self.src.len() && self.src[self.i] == '}' {
            self.advance();
            Ok(Tok { kind: TokKind::EmptySet, start: bstart })
        } else {
            Err(err_at("expected '}' to close empty set".to_owned(), bstart))
        }
    }

    fn lex_raw_comp(&mut self, bstart: usize) -> (r: Result<Tok, BindParseError>)
        requires
            old(self).wf(),
            old(self).i < old(self).src@.len(),
            old(self).src@[old(self).i as int] == '<',
            bstart == old(self).byte_i,
        ensures
            final(self).wf(),
            final(self).src@ == old(self).src@,
            final(self).i > old(self).i,
            match lex_one(old(self).src@, old(self).i as int) {
                Ok((k, nx)) => r is Ok && r->Ok_0@ == (TokV { kind: k, start: bstart as nat })
                    && final(self).i == nx,
                Err(m) => r is Err && r->Err_0@ == (BindErrV { message: m, offset: bstart as nat }),
            },
    {
        let start = self.i;
        let n = self.src.len();
        if n - start <= 1 || self.src[start + 1] != '/' {
            self.advance();
            return Err(err_at("unexpected '<' (did you mean `</ ... />`?)".to_owned(), bstart));
        }
        let mut k = start + 2;
        while n - k > 1 && !(self.src[k] == '/' && self.src[k + 1] == '>')
            invariant
                start + 2 <= k <= n,
                n == self.src@.len(),
                find_comp_close(self.src@, k as int) == find_comp_close(self.src@, start + 2),
            decreases n - k,
        {
            k = k + 1;
        }
        proof {
            lemma_find_comp_close(self.src@, start + 2);
        }
        if n - k <= 1 {
            self.advance();
            return Err(err_at("unterminated comprehension atom (expected '/>')".to_owned(), bstart));
        }
        let raw = string_from_range(self.src.as_slice(), start, k + 2);
        self.advance_to(k + 2);
        Ok(Tok { kind: TokKind::Raw(raw), start: bstart })
    }

    fn lex_ident_or_keyword(&mut self, bstart: usize) -> (r: Result<Tok, BindParseError>)
        requires
            old(self).wf(),
            old(self).i < old(self).src@.len(),
            ident_start(old(self).src@[old(self).i as int]),
            bstart == old(self).byte_i,
        ensures
            final(self).wf(),
            final(self).src@ == old(self).src@,
            final(self).i > old(self).i,
            match lex_one(old(self).src@, old(self).i as int) {
                Ok((k, nx)) => r is Ok && r->Ok_0@ == (TokV { kind: k, start: bstart as nat })
                    && final(self).i == nx,
                Err(m) => r is Err && r->Err_0@ == (BindErrV { message: m, offset: bstart as nat }),
            },
    {
        let begin = self.i;
        self.advance();
        while self.i < self.src.len() && is_ident_continue(self.src[self.i])
            invariant
                self.wf(),
                self.src@ == old(self).src@,
                begin < self.i,
                ident_end(self.src@, self.i as int) == ident_end(self.src@, begin + 1),
            decreases self.src@.len() - self.i,
        {
            self.advance();
        }
        let end = self.i;
        proof {
            lemma_ident_end(self.src@, begin + 1);
            assert(ident_end(self.src@, end as int) == end as int);
            assert(ident_end(old(self).src@, old(self).i + 1) == end as int);
        }
        let ghost w = self.src@.subrange(begin as int, end as int);
        let kind = if end - begin == 4 && self.src[begin] == 'b' && self.src[begin + 1] == 'i'
            && self.src[begin + 2] == 'n' && self.src[begin + 3] == 'd' {
            assert(w =~= seq!['b', 'i', 'n', 'd']);
            TokKind::Bind
        } else if end - begin == 2 && self.src[begin] == 'i' && self.src[begin + 1] == 'n' {
            assert(w =~= seq!['i', 'n']);
            TokKind::In
        } else if end - begin == 5 && self.src[begin] == 'u' && self.src[begin + 1] == 'n'
            && self.src[begin + 2] == 'i' && self.src[begin + 3] == 'o' && self.src[begin + 4] == 'n' {
            assert(w =~= seq!['u', 'n', 'i', 'o', 'n']);
            TokKind::Union
        } else {
            proof {
                assert(w.len() == end - begin);
                assert(forall|j: int| 0 <= j < w.len() ==> w[j] == self.src@[begin + j]);
                if w == seq!['b', 'i', 'n', 'd'] {
                    assert(seq!['b', 'i', 'n', 'd'][0] == 'b');
                    assert(w[0] == 'b' && w[1] == 'i' && w[2] == 'n' && w[3] == 'd');
                    assert(false);
                }
                if w == seq!['i', 'n'] {
                    assert(w[0] == 'i' && w[1] == 'n');
                    assert(false);
                }
                if w == seq!['u', 'n', 'i', 'o', 'n'] {
                    assert(w[0] == 'u' && w[1] == 'n' && w[2] == 'i' && w[3] == 'o' && w[4] == 'n');
                    assert(false);
                }
            }
            TokKind::Ident(string_from_range(self.src.as_slice(), begin, end))
        };
        Ok(Tok { kind, start: bstart })
    }
}

proof fn lemma_skip_spaces(s: Seq<char>, i: int)
    requires
        0 <= i <= s.len(),
    ensures
        i <= skip_spaces(s, i) <= s.len(),
        skip_spaces(s, i) < s.len() ==> !is_space(s[skip_spaces(s, i)]),
    decreases s.len() - i,
{
    if i < s.len() && is_space(s[i]) {
        lemma_skip_spaces(s, i + 1);
    }
}

proof fn lemma_ident_end(s: Seq<char>, i: int)
    requires
        0 <= i <= s.len(),
    ensures
        i <= ident_end(s, i) <= s.len(),
    decreases s.len() - i,
{
    if i < s.len() && ident_continue(s[i]) {
        lemma_ident_end(s, i + 1);
    }
}

proof fn lemma_find_comp_close(s: Seq<char>, i: int)
    requires
        0 <= i <= s.len(),
    ensures
        find_comp_close(s, i) matches Some(k) ==> i <= k && k + 1 < s.len(),
    decreases s.len() - i,
{
    if i + 1 < s.len() && !(s[i] == '/' && s[i + 1] == '>') {
        lemma_find_comp_close(s, i + 1);
    }
}

// ---------------------------------------------------------------------------
// Parser: specification

/// A token list as the lexer produces it: non-empty, `Eof` last and only there.
pub open spec fn tokens_wf(t: Seq<TokV>) -> bool {
    &&& t.len() >= 1
    &&& t.last().kind is Eof
    &&& forall|j: int| 0 <= j < t.len() - 1 ==> !(#[trigger] t[j].kind is Eof)
}

/// The position after consuming the token at `p` (`Eof` is never consumed).
pub open spec fn step(t: Seq<TokV>, p: int) -> int {
    if t[p].kind is Eof { p } else { p + 1 }
}

pub open spec fn expect_at(t: Seq<TokV>, p: int, k: TokKindV) -> Result<int, BindErrV> {
    if t[p].kind == k {
        Ok(step(t, p))
    } else {
        Err(BindErrV {
            message: "expected "@ + kind_debug(k) + ", found "@ + kind_debug(t[p].kind),
            offset: t[p].start,
        })
    }
}

pub open spec fn ident_at(t: Seq<TokV>, p: int) -> Result<(Seq<char>, int), BindErrV> {
    match t[p].kind {
        TokKindV::Ident(name) => Ok((name, step(t, p))),
        other => Err(BindErrV {
            message: "expected identifier, found "@ + kind_debug(other),
            offset: t[p].start,
        }),
    }
}

pub open spec fn in_range(t: Seq<TokV>, p: int) -> bool {
    0 <= p < t.len()
}

/// `expr := union`
pub open spec fn parse_expr_at(t: Seq<TokV>, p: int) -> Result<(ExprV, int), BindErrV>
    decreases t.len() - p, 4nat,
{
    if !in_range(t, p) {
        Err(no_error())
    } else {
        parse_union_at(t, p)
    }
}

/// `union := range (("union" | "#") range)*`, folded to the left.
pub open spec fn parse_union_at(t: Seq<TokV>, p: int) -> Result<(ExprV, int), BindErrV>
    decreases t.len() - p, 3nat,
{
    if !in_range(t, p) {
        Err(no_error())
    } else {
        match parse_range_at(t, p) {
            Err(e) => Err(e),
            Ok((l, p1)) => if p1 < p || !in_range(t, p1) {
                Err(no_error())
            } else {
                union_rest_at(t, l, p1)
            },
        }
    }
}

pub open spec fn union_rest_at(t: Seq<TokV>, l: ExprV, p: int) -> Result<(ExprV, int), BindErrV>
    decreases t.len() - p, 1nat,
{
    if !in_range(t, p) {
        Err(no_error())
    } else if t[p].kind is Union || t[p].kind is Hash {
        match parse_range_at(t, p + 1) {
            Err(e) => Err(e),
            Ok((r, p2)) => if p2 <= p || !in_range(t, p2) {
                Err(no_error())
            } else if t[p].kind is Union {
                union_rest_at(t, ExprV::Union { left: Box::new(l), right: Box::new(r) }, p2)
            } else {
                union_rest_at(t, ExprV::Hash { left: Box::new(l), right: Box::new(r) }, p2)
            },
        }
    } else {
        Ok((l, p))
    }
}

/// `range := primary (dots primary)?`
pub open spec fn parse_range_at(t: Seq<TokV>, p: int) -> Result<(ExprV, int), BindErrV>
    decreases t.len() - p, 2nat,
{
    if !in_range(t, p) {
        Err(no_error())
    } else {
        match parse_primary_at(t, p) {
            Err(e) => Err(e),
            Ok((l, p1)) => if p1 < p || !in_range(t, p1) {
                Err(no_error())
            } else {
                match t[p1].kind {
                    TokKindV::Dots(d) => match parse_primary_at(t, p1 + 1) {
                        Err(e) => Err(e),
                        Ok((r, p2)) => Ok((ExprV::Dots { dots: d, start: Box::new(l), end: Box::new(r) }, p2)),
                    },
                    _ => Ok((l, p1)),
                }
            },
        }
    }
}

/// The arguments of a call from `p` on: `expr ("," expr)*`, appended to `acc`.
pub open spec fn parse_args_at(t: Seq<TokV>, p: int, acc: Seq<ExprV>) -> Result<(Seq<ExprV>, int), BindErrV>
    decreases t.len() - p, 5nat,
{
    if !in_range(t, p) {
        Err(no_error())
    } else {
        match parse_expr_at(t, p) {
            Err(e) => Err(e),
            Ok((e, p1)) => if p1 < p || !in_range(t, p1) {
                Err(no_error())
            } else if t[p1].kind is Comma {
                parse_args_at(t, p1 + 1, acc.push(e))
            } else {
                Ok((acc.push(e), p1))
            },
        }
    }
}

/// A call `name(args)` once its arguments are parsed: the closing parenthesis must follow.
pub open spec fn finish_call(t: Seq<TokV>, name: Seq<char>, args: Result<(Seq<ExprV>, int), BindErrV>) -> Result<(ExprV, int), BindErrV> {
    match args {
        Err(e) => Err(e),
        Ok((a, q2)) => if !in_range(t, q2) {
            Err(no_error())
        } else {
            match expect_at(t, q2, TokKindV::RParen) {
                Err(e) => Err(e),
                Ok(q3) => Ok((ExprV::Call { func: name, args: a }, q3)),
            }
        },
    }
}

/// `primary := "{}" | raw | ident | ident "(" args? ")" | "(" expr ")"`
pub open spec fn parse_primary_at(t: Seq<TokV>, p: int) -> Result<(ExprV, int), BindErrV>
    decreases t.len() - p, 0nat,
{
    if !in_range(t, p) {
        Err(no_error())
    } else {
        let np = step(t, p);
        match t[p].kind {
            TokKindV::EmptySet => Ok((ExprV::EmptySet, np)),
            TokKindV::Raw(r) => Ok((ExprV::Raw(r), np)),
            TokKindV::Ident(name) => if in_range(t, p + 1) && t[p + 1].kind is LParen {
                let q = p + 2;
                if !in_range(t, q) {
                    Err(no_error())
                } else {
                    finish_call(t, name, if t[q].kind is RParen {
                        Ok((Seq::<ExprV>::empty(), q))
                    } else {
                        parse_args_at(t, q, Seq::empty())
                    })
                }
            } else {
                Ok((ExprV::Var(name), np))
            },
            TokKindV::LParen => match parse_expr_at(t, p + 1) {
                Err(e) => Err(e),
                Ok((e, p1)) => if !in_range(t, p1) {
                    Err(no_error())
                } else {
                    match expect_at(t, p1, TokKindV::RParen) {
                        Err(er) => Err(er),
                        Ok(p2) => Ok((e, p2)),
                    }
                },
            },
            other => Err(BindErrV {
                message: "unexpected token in expression: "@ + kind_debug(other),
                offset: t[p].start,
            }),
        }
    }
}

/// `clause := "bind" expr "in" ident | ident "=" expr`
pub open spec fn parse_clause_at(t: Seq<TokV>, p: int) -> Result<(ClauseV, int), BindErrV> {
    if !in_range(t, p) {
        Err(no_error())
    } else {
        match t[p].kind {
            TokKindV::Bind => match parse_expr_at(t, p + 1) {
                Err(e) => Err(e),
                Ok((b, p1)) => if !in_range(t, p1) {
                    Err(no_error())
                } else {
                    match expect_at(t, p1, TokKindV::In) {
                        Err(e) => Err(e),
                        Ok(p2) => if !in_range(t, p2) {
                            Err(no_error())
                        } else {
                            match ident_at(t, p2) {
                                Err(e) => Err(e),
                                Ok((x, p3)) => Ok((ClauseV::Bind { binder: b, in_term: x }, p3)),
                            }
                        },
                    }
                },
            },
            TokKindV::Ident(_) => match ident_at(t, p) {
                Err(e) => Err(e),
                Ok((x, p1)) => if !in_range(t, p1) {
                    Err(no_error())
                } else {
                    match expect_at(t, p1, TokKindV::Eq) {
                        Err(e) => Err(e),
                        Ok(p2) => match parse_expr_at(t, p2) {
                            Err(e) => Err(e),
                            Ok((v, p3)) => Ok((ClauseV::Assign { name: x, value: v }, p3)),
                        },
                    }
                },
            },
            other => Err(BindErrV {
                message: "unexpected token at start of clause: "@ + kind_debug(other),
                offset: t[p].start,
            }),
        }
    }
}

/// The clauses from `p` up to `Eof`, appended to `acc`.
pub open spec fn parse_clauses_at(t: Seq<TokV>, p: int, acc: Seq<ClauseV>) -> Result<Seq<ClauseV>, BindErrV>
    decreases t.len() - p,
{
    if !in_range(t, p) {
        Err(no_error())
    } else if t[p].kind is Eof {
        Ok(acc)
    } else {
        match parse_clause_at(t, p) {
            Err(e) => Err(e),
            Ok((c, p1)) => if p1 <= p || !in_range(t, p1) {
                Err(no_error())
            } else {
                parse_clauses_at(t, p1, acc.push(c))
            },
        }
    }
}

/// The binding specification that `s` denotes, or the first error: lexing the
/// whole text, then parsing clauses until the end.
pub open spec fn spec_parse_bind_spec(s: Seq<char>) -> Result<Seq<ClauseV>, BindErrV> {
    match lex_from(s, 0) {
        Err(e) => Err(e),
        Ok(t) => parse_clauses_at(t, 0, Seq::empty()),
    }
}

proof fn lemma_lex_wf(s: Seq<char>, i: int)
    requires
        0 <= i <= s.len(),
    ensures
        lex_from(s, i) matches Ok(t) ==> tokens_wf(t),
    decreases s.len() - i,
{
    match next_token(s, i) {
        Err(_) => {},
        Ok((t, nx)) => {
            if !(t.kind is Eof) && nx > i && nx <= s.len() {
                lemma_lex_wf(s, nx);
                match lex_from(s, nx) {
                    Ok(rest) => {
                        let all = seq![t] + rest;
                        assert(all.last() == rest.last());
                        assert forall|j: int| 0 <= j < all.len() - 1 implies !(#[trigger] all[j].kind is Eof) by {
                            if j > 0 {
                                assert(all[j] == rest[j - 1]);
                            }
                        }
                    },
                    Err(_) => {},
                }
            }
        },
    }
}

// ---------------------------------------------------------------------------
// Parser: implementation

/// The outcome of a parse function agrees with its specification.
spec fn agrees_expr(r: Result<Expr, BindParseError>, s: Result<(ExprV, int), BindErrV>, pos: int) -> bool {
    match s {
        Ok((v, p)) => r is Ok && r->Ok_0@ == v && pos == p,
        Err(e) => r is Err && r->Err_0@ == e,
    }
}

struct Parser {
    toks: Vec<Tok>,
    pos: usize,
}

impl Parser {
    spec fn tv(&self) -> Seq<TokV> {
        self.toks@.map_values(|t: Tok| t@)
    }

    spec fn wf(&self) -> bool {
        &&& tokens_wf(self.tv())
        &&& self.pos < self.toks@.len()
    }

    fn new(toks: Vec<Tok>) -> (p: Self)
        requires
            tokens_wf(toks@.map_values(|t: Tok| t@)),
        ensures
            p.wf(),
            p.pos == 0,
            p.tv() == toks@.map_values(|t: Tok| t@),
    {
        Self { toks, pos: 0 }
    }

    fn peek(&self) -> (t: &Tok)
        requires
            self.wf(),
        ensures
            t@ == self.tv()[self.pos as int],
    {
        &self.toks[self.pos]
    }

    fn bump(&mut self) -> (t: Tok)
        requires
            old(self).wf(),
        ensures
            final(self).wf(),
            final(self).tv() == old(self).tv(),
            t@ == old(self).tv()[old(self).pos as int],
            final(self).pos == step(old(self).tv(), old(self).pos as int),
    {
        let n = self.toks.len();
        let cur = &self.toks[self.pos];
        let t = Tok { kind: copy_kind(&cur.kind), start: cur.start };
        assert(self.tv()[self.pos as int] == cur@);
        if !matches!(cur.kind, TokKind::Eof) {
            assert(self.pos + 1 < n);
            self.pos = self.pos + 1;
        }
        t
    }

    fn expect(&mut self, kind: TokKind) -> (r: Result<(), BindParseError>)
        requires
            old(self).wf(),
        ensures
            final(self).wf(),
            final(self).tv() == old(self).tv(),
            match expect_at(old(self).tv(), old(self).pos as int, kind@) {
                Ok(p) => r is Ok && final(self).pos == p,
                Err(e) => r is Err && r->Err_0@ == e,
            },
    {
        let tok = self.bump();
        if kind_eq(&tok.kind, &kind) {
            Ok(())
        } else {
            let mut m = "expected ".to_owned();
            let a = kind_to_debug(&kind);
            m.append(a.as_str());
            m.append(", found ");
            let b = kind_to_debug(&tok.kind);
            m.append(b.as_str());
            Err(err_at(m, tok.start))
        }
    }

    fn parse_bind_spec(&mut self) -> (r: Result<BindSpec, BindParseError>)
        requires
            old(self).wf(),
        ensures
            match parse_clauses_at(old(self).tv(), old(self).pos as int, Seq::empty()) {
                Ok(cs) => r is Ok && r->Ok_0@ == cs,
                Err(e) => r is Err && r->Err_0@ == e,
            },
    {
        let ghost t = self.tv();
        let ghost p0 = self.pos as int;
        let mut clauses: Vec<Clause> = Vec::new();
        assert(clauses@.map_values(|c: Clause| c@) =~= Seq::<ClauseV>::empty());
        while !matches!(self.peek().kind, TokKind::Eof)
            invariant
                self.wf(),
                self.tv() == t,
                t == old(self).tv(),
                p0 == old(self).pos,
                parse_clauses_at(t, p0, Seq::empty())
                    == parse_clauses_at(t, self.pos as int, clauses@.map_values(|c: Clause| c@)),
            decreases t.len() - self.pos,
        {
            let ghost before = self.pos as int;
            let ghost acc = clauses@.map_values(|c: Clause| c@);
            let c = match self.parse_clause() {
                Ok(c) => c,
                Err(e) => {
                    return Err(e);
                },
            };
            let ghost cv = c@;
            clauses.push(c);
            assert(clauses@.map_values(|c: Clause| c@) =~= acc.push(cv));
        }
        Ok(BindSpec { clauses })
    }

    fn parse_clause(&mut self) -> (r: Result<Clause, BindParseError>)
        requires
            old(self).wf(),
            !(old(self).tv()[old(self).pos as int].kind is Eof),
        ensures
            final(self).wf(),
            final(self).tv() == old(self).tv(),
            match parse_clause_at(old(self).tv(), old(self).pos as int) {
                Ok((c, p)) => r is Ok && r->Ok_0@ == c && final(self).pos == p,
                Err(e) => r is Err && r->Err_0@ == e,
            },
            r is Ok ==> final(self).pos > old(self).pos,
    {
        let is_bind = matches!(self.peek().kind, TokKind::Bind);
        let is_ident = matches!(self.peek().kind, TokKind::Ident(_));
        if is_bind {
            self.bump();
            let binder = match self.parse_expr() {
                Ok(e) => e,
                Err(e) => {
                    return Err(e);
                },
            };
            match self.expect(TokKind::In) {
                Ok(()) => {},
                Err(e) => {
                    return Err(e);
                },
            }
            let in_term = match self.parse_ident_string() {
                Ok(x) => x,
                Err(e) => {
                    return Err(e);
                },
            };
            Ok(Clause::Bind { binder, in_term })
        } else if is_ident {
            let name = match self.parse_ident_string() {
                Ok(x) => x,
                Err(e) => {
                    return Err(e);
                },
            };
            match self.expect(TokKind::Eq) {
                Ok(()) => {},
                Err(e) => {
                    return Err(e);
                },
            }
            let value = match self.parse_expr() {
                Ok(e) => e,
                Err(e) => {
                    return Err(e);
                },
            };
            Ok(Clause::Assign { name, value })
        } else {
            let tok = self.peek();
            let mut m = "unexpected token at start of clause: ".to_owned();
            let d = kind_to_debug(&tok.kind);
            m.append(d.as_str());
            Err(err_at(m, tok.start))
        }
    }

    fn parse_ident_string(&mut self) -> (r: Result<String, BindParseError>)
        requires
            old(self).wf(),
        ensures
            final(self).wf(),
            final(self).tv() == old(self).tv(),
            match ident_at(old(self).tv(), old(self).pos as int) {
                Ok((x, p)) => r is Ok && r->Ok_0@ == x && final(self).pos == p,
                Err(e) => r is Err && r->Err_0@ == e,
            },
    {
        let tok = self.bump();
        match tok.kind {
            TokKind::Ident(s) => Ok(s),
            other => {
                let mut m = "expected identifier, found ".to_owned();
                let d = kind_to_debug(&other);
                m.append(d.as_str());
                Err(err_at(m, tok.start))
            },
        }
    }

    fn parse_expr(&mut self) -> (r: Result<Expr, BindParseError>)
        requires
            old(self).wf(),
        ensures
            final(self).wf(),
            final(self).tv() == old(self).tv(),
            agrees_expr(r, parse_expr_at(old(self).tv(), old(self).pos as int), final(self).pos as int),
            r is Ok ==> final(self).pos > old(self).pos,
        decreases old(self).tv().len() - old(self).pos, 4nat,
    {
        self.parse_union()
    }

    fn parse_union(&mut self) -> (r: Result<Expr, BindParseError>)
        requires
            old(self).wf(),
        ensures
            final(self).wf(),
            final(self).tv() == old(self).tv(),
            agrees_expr(r, parse_union_at(old(self).tv(), old(self).pos as int), final(self).pos as int),
            r is Ok ==> final(self).pos > old(self).pos,
        decreases old(self).tv().len() - old(self).pos, 3nat,
    {
        let ghost t = self.tv();
        let ghost p0 = self.pos as int;
        let mut left = match self.parse_range() {
            Ok(e) => e,
            Err(e) => {
                return Err(e);
            },
        };
        loop
            invariant
                self.wf(),
                self.tv() == t,
                t == old(self).tv(),
                p0 == old(self).pos,
                self.pos > p0,
                parse_union_at(t, p0) == union_rest_at(t, left@, self.pos as int),
            decreases t.len() - self.pos,
        {
            let is_union = matches!(self.peek().kind, TokKind::Union);
            let is_hash = matches!(self.peek().kind, TokKind::Hash);
            if is_union || is_hash {
                self.bump();
                let right = match self.parse_range() {
                    Ok(e) => e,
                    Err(e) => {
                        return Err(e);
                    },
                };
                if is_union {
                    left = Expr::Union { left: Box::new(left), right: Box::new(right) };
                } else {
                    left = Expr::Hash { left: Box::new(left), right: Box::new(right) };
                }
            } else {
                return Ok(left);
            }
        }
    }

    fn parse_range(&mut self) -> (r: Result<Expr, BindParseError>)
        requires
            old(self).wf(),
        ensures
            final(self).wf(),
            final(self).tv() == old(self).tv(),
            agrees_expr(r, parse_range_at(old(self).tv(), old(self).pos as int), final(self).pos as int),
            r is Ok ==> final(self).pos > old(self).pos,
        decreases old(self).tv().len() - old(self).pos, 2nat,
    {
        let left = match self.parse_primary() {
            Ok(e) => e,
            Err(e) => {
                return Err(e);
            },
        };
        let dots = match self.peek().kind {
            TokKind::Dots(d) => Some(d),
            _ => None,
        };
        match dots {
            Some(d) => {
                self.bump();
                let right = match self.parse_primary() {
                    Ok(e) => e,
                    Err(e) => {
                        return Err(e);
                    },
                };
                Ok(Expr::Dots { dots: d, start: Box::new(left), end: Box::new(right) })
            },
            None => Ok(left),
        }
    }

    fn parse_primary(&mut self) -> (r: Result<Expr, BindParseError>)
        requires
            old(self).wf(),
        ensures
            final(self).wf(),
            final(self).tv() == old(self).tv(),
            agrees_expr(r, parse_primary_at(old(self).tv(), old(self).pos as int), final(self).pos as int),
            r is Ok ==> final(self).pos > old(self).pos,
        decreases old(self).tv().len() - old(self).pos, 0nat,
    {
        let ghost t = self.tv();
        let ghost p0 = self.pos as int;
        let tok = self.bump();
        match tok.kind {
            TokKind::EmptySet => Ok(Expr::EmptySet),
            TokKind::Raw(raw) => Ok(Expr::Raw(raw)),
            TokKind::Ident(name) => {
                if matches!(self.peek().kind, TokKind::LParen) {
                    self.bump();
                    let mut args: Vec<Expr> = Vec::new();
                    assert(args@.map_values(|e: Expr| e@) =~= Seq::<ExprV>::empty());
                    if !matches!(self.peek().kind, TokKind::RParen) {
                        let ghost q = self.pos as int;
                        let mut more = true;
                        while more
                            invariant
                                self.wf(),
                                self.tv() == t,
                                t == old(self).tv(),
                                p0 == old(self).pos,
                                self.pos >= q,
                                q == p0 + 2,
                                parse_primary_at(t, p0) == finish_call(t, name@, parse_args_at(t, q, Seq::empty())),
                                more ==> parse_args_at(t, q, Seq::empty()) == parse_args_at(t, self.pos as int,
                                    args@.map_values(|e: Expr| e@)),
                                !more ==> parse_args_at(t, q, Seq::empty()) == Ok::<(Seq<ExprV>, int), BindErrV>(
                                    (args@.map_values(|e: Expr| e@), self.pos as int)),
                            decreases t.len() - self.pos,
                        {
                            let ghost before = self.pos as int;
                            let ghost acc = args@.map_values(|e: Expr| e@);
                            let e = match self.parse_expr() {
                                Ok(e) => e,
                                Err(e) => {
                                    assert(parse_args_at(t, before, acc) == Err::<(Seq<ExprV>, int), BindErrV>(e@));
                                    assert(parse_args_at(t, q, Seq::empty()) == Err::<(Seq<ExprV>, int), BindErrV>(e@));
                                    return Err(e);
                                },
                            };
                            let ghost ev = e@;
                            args.push(e);
                            assert(args@.map_values(|e: Expr| e@) =~= acc.push(ev));
                            if matches!(self.peek().kind, TokKind::Comma) {
                                self.bump();
                            } else {
                                more = false;
                            }
                        }
                    }
                    match self.expect(TokKind::RParen) {
                        Ok(()) => {},
                        Err(e) => {
                            return Err(e);
                        },
                    }
                    let ghost av = args@.map_values(|e: Expr| e@);
                    let ghost nv = name@;
                    let r = Expr::Call { func: name, args };
                    assert(r@->args =~= av);
                    Ok(r)
                } else {
                    Ok(Expr::Var(name))
                }
            },
            TokKind::LParen => {
                let e = match self.parse_expr() {
                    Ok(e) => e,
                    Err(e) => {
                        return Err(e);
                    },
                };
                match self.expect(TokKind::RParen) {
                    Ok(()) => {},
                    Err(e) => {
                        return Err(e);
                    },
                }
                Ok(e)
            },
            other => {
                let mut m = "unexpected token in expression: ".to_owned();
                let d = kind_to_debug(&other);
                m.append(d.as_str());
                Err(err_at(m, tok.start))
            },
        }
    }
}

/// Parses a binding specification.
pub fn parse_bind_spec(src: &str) -> (r: Result<BindSpec, BindParseError>)
    ensures
        match spec_parse_bind_spec(src@) {
            Ok(cs) => r is Ok && r->Ok_0@ == cs,
            Err(e) => r is Err && r->Err_0@ == e,
        },
{
    let mut lx = Lexer::new(src);
    let toks = match lx.lex_all() {
        Ok(t) => t,
        Err(e) => {
            return Err(e);
        },
    };
    proof {
        lemma_lex_wf(src@, 0);
    }
    let mut p = Parser::new(toks);
    p.parse_bind_spec()
}


proof fn lemma_skip_all_spaces(s: Seq<char>, i: int)
    requires
        0 <= i <= s.len(),
        forall|k: int| 0 <= k < s.len() ==> is_space(#[trigger] s[k]),
    ensures
        skip_spaces(s, i) == s.len(),
    decreases s.len() - i,
{
    if i < s.len() {
        lemma_skip_all_spaces(s, i + 1);
    }
}

/// Text made only of spaces, tabs and line breaks (the empty text among it)
/// is a binding specification with no clauses.
pub proof fn lemma_blank_bind_spec(s: Seq<char>)
    requires
        forall|k: int| 0 <= k < s.len() ==> is_space(#[trigger] s[k]),
    ensures
        spec_parse_bind_spec(s) == Ok::<Seq<ClauseV>, BindErrV>(Seq::empty()),
{
    lemma_skip_all_spaces(s, 0);
    let t = lex_from(s, 0);
    assert(t == Ok::<Seq<TokV>, BindErrV>(seq![TokV { kind: TokKindV::Eof, start: byte_offset(s, s.len() as int) }]));
}


// ---------------------------------------------------------------------------
// Where errors are reported

/// The error is reported at the start of one of the tokens `t`.
pub open spec fn err_at_token(t: Seq<TokV>, e: BindErrV) -> bool {
    exists|q: int| 0 <= q < t.len() && e.offset == (#[trigger] t[q]).start
}

/// `off` is the byte offset of a character of `s` that is not a space, or of
/// the end of `s`.
pub open spec fn clean_offset(s: Seq<char>, off: nat) -> bool {
    exists|st: int| 0 <= st <= s.len() && (st == s.len() || !is_space(s[st])) && off == #[trigger] byte_offset(s, st)
}

proof fn lemma_not_eof_next(t: Seq<TokV>, p: int)
    requires
        tokens_wf(t),
        in_range(t, p),
        !(t[p].kind is Eof),
    ensures
        in_range(t, p + 1),
{
    if p == t.len() - 1 {
        assert(t.last() == t[p]);
    }
}

proof fn lemma_expr_at(t: Seq<TokV>, p: int)
    requires
        tokens_wf(t),
        in_range(t, p),
    ensures
        parse_expr_at(t, p) matches Ok((_, p1)) ==> p <= p1 && in_range(t, p1),
        parse_expr_at(t, p) matches Err(e) ==> err_at_token(t, e),
    decreases t.len() - p, 4nat,
{
    lemma_union_at(t, p);
}

proof fn lemma_union_at(t: Seq<TokV>, p: int)
    requires
        tokens_wf(t),
        in_range(t, p),
    ensures
        parse_union_at(t, p) matches Ok((_, p1)) ==> p <= p1 && in_range(t, p1),
        parse_union_at(t, p) matches Err(e) ==> err_at_token(t, e),
    decreases t.len() - p, 3nat,
{
    lemma_range_at(t, p);
    match parse_range_at(t, p) {
        Ok((l, p1)) => {
            lemma_union_rest_at(t, l, p1);
        },
        Err(_) => {},
    }
}

proof fn lemma_union_rest_at(t: Seq<TokV>, l: ExprV, p: int)
    requires
        tokens_wf(t),
        in_range(t, p),
    ensures
        union_rest_at(t, l, p) matches Ok((_, p1)) ==> p <= p1 && in_range(t, p1),
        union_rest_at(t, l, p) matches Err(e) ==> err_at_token(t, e),
    decreases t.len() - p, 1nat,
{
    if t[p].kind is Union || t[p].kind is Hash {
        lemma_not_eof_next(t, p);
        lemma_range_at(t, p + 1);
        match parse_range_at(t, p + 1) {
            Ok((r, p2)) => {
                if t[p].kind is Union {
                    lemma_union_rest_at(t, ExprV::Union { left: Box::new(l), right: Box::new(r) }, p2);
                } else {
                    lemma_union_rest_at(t, ExprV::Hash { left: Box::new(l), right: Box::new(r) }, p2);
                }
            },
            Err(_) => {},
        }
    }
}

proof fn lemma_range_at(t: Seq<TokV>, p: int)
    requires
        tokens_wf(t),
        in_range(t, p),
    ensures
        parse_range_at(t, p) matches Ok((_, p1)) ==> p <= p1 && in_range(t, p1),
        parse_range_at(t, p) matches Err(e) ==> err_at_token(t, e),
    decreases t.len() - p, 2nat,
{
    lemma_primary_at(t, p);
    match parse_primary_at(t, p) {
        Ok((l, p1)) => {
            match t[p1].kind {
                TokKindV::Dots(d) => {
                    lemma_not_eof_next(t, p1);
                    lemma_primary_at(t, p1 + 1);
                },
                _ => {},
            }
        },
        Err(_) => {},
    }
}

proof fn lemma_args_at(t: Seq<TokV>, p: int, acc: Seq<ExprV>)
    requires
        tokens_wf(t),
        in_range(t, p),
    ensures
        parse_args_at(t, p, acc) matches Ok((_, p1)) ==> p <= p1 && in_range(t, p1),
        parse_args_at(t, p, acc) matches Err(e) ==> err_at_token(t, e),
    decreases t.len() - p, 5nat,
{
    lemma_expr_at(t, p);
    match parse_expr_at(t, p) {
        Ok((e, p1)) => {
            if t[p1].kind is Comma {
                lemma_not_eof_next(t, p1);
                lemma_args_at(t, p1 + 1, acc.push(e));
            }
        },
        Err(_) => {},
    }
}

proof fn lemma_primary_at(t: Seq<TokV>, p: int)
    requires
        tokens_wf(t),
        in_range(t, p),
    ensures
        parse_primary_at(t, p) matches Ok((_, p1)) ==> p <= p1 && in_range(t, p1),
        parse_primary_at(t, p) matches Err(e) ==> err_at_token(t, e),
    decreases t.len() - p, 0nat,
{
    if !(t[p].kind is Eof) {
        lemma_not_eof_next(t, p);
    }
    match t[p].kind {
        TokKindV::Ident(name) => {
            if in_range(t, p + 1) && t[p + 1].kind is LParen {
                lemma_not_eof_next(t, p + 1);
                let q = p + 2;
                if !(t[q].kind is RParen) {
                    lemma_args_at(t, q, Seq::empty());
                }
            }
        },
        TokKindV::LParen => {
            lemma_expr_at(t, p + 1);
        },
        _ => {},
    }
}

proof fn lemma_clause_at(t: Seq<TokV>, p: int)
    requires
        tokens_wf(t),
        in_range(t, p),
    ensures
        parse_clause_at(t, p) matches Ok((_, p1)) ==> p < p1 && in_range(t, p1),
        parse_clause_at(t, p) matches Err(e) ==> err_at_token(t, e),
{
    match t[p].kind {
        TokKindV::Bind => {
            lemma_not_eof_next(t, p);
            lemma_expr_at(t, p + 1);
            match parse_expr_at(t, p + 1) {
                Ok((b, p1)) => {
                    match expect_at(t, p1, TokKindV::In) {
                        Ok(p2) => {
                            lemma_not_eof_next(t, p1);
                        },
                        Err(_) => {},
                    }
                },
                Err(_) => {},
            }
        },
        TokKindV::Ident(_) => {
            lemma_not_eof_next(t, p);
            match expect_at(t, p + 1, TokKindV::Eq) {
                Ok(p2) => {
                    lemma_not_eof_next(t, p + 1);
                    lemma_expr_at(t, p2);
                },
                Err(_) => {},
            }
        },
        _ => {},
    }
}

proof fn lemma_clauses_at(t: Seq<TokV>, p: int, acc: Seq<ClauseV>)
    requires
        tokens_wf(t),
        in_range(t, p),
    ensures
        parse_clauses_at(t, p, acc) matches Err(e) ==> err_at_token(t, e),
    decreases t.len() - p,
{
    if !(t[p].kind is Eof) {
        lemma_clause_at(t, p);
        match parse_clause_at(t, p) {
            Ok((c, p1)) => {
                lemma_clauses_at(t, p1, acc.push(c));
            },
            Err(_) => {},
        }
    }
}

proof fn lemma_lex_one_progress(s: Seq<char>, st: int)
    requires
        0 <= st < s.len(),
    ensures
        lex_one(s, st) matches Ok((_, nx)) ==> st < nx <= s.len(),
{
    let c = s[st];
    if c == '{' {
        lemma_skip_spaces(s, st + 1);
    } else if c == '<' {
        if st + 1 < s.len() && s[st + 1] == '/' {
            lemma_find_comp_close(s, st + 2);
        }
    } else if ident_start(c) {
        lemma_ident_end(s, st + 1);
    }
}

proof fn lemma_lex_offsets(s: Seq<char>, i: int)
    requires
        0 <= i <= s.len(),
    ensures
        lex_from(s, i) matches Ok(t) ==> forall|q: int| 0 <= q < t.len() ==> clean_offset(s, (#[trigger] t[q]).start),
        lex_from(s, i) matches Err(e) ==> clean_offset(s, e.offset),
    decreases s.len() - i,
{
    let st = skip_spaces(s, i);
    lemma_skip_spaces(s, i);
    assert(clean_offset(s, byte_offset(s, st)));
    if st < s.len() {
        lemma_lex_one_progress(s, st);
    }
    match next_token(s, i) {
        Err(_) => {},
        Ok((tok, nx)) => {
            if !(tok.kind is Eof) {
                lemma_lex_offsets(s, nx);
                match lex_from(s, nx) {
                    Ok(rest) => {
                        let all = seq![tok] + rest;
                        assert forall|q: int| 0 <= q < all.len() implies clean_offset(s, (#[trigger] all[q]).start) by {
                            if q > 0 {
                                assert(all[q] == rest[q - 1]);
                            }
                        }
                    },
                    Err(_) => {},
                }
            }
        },
    }
}

/// A binding specification that does not parse is reported at the start of a
/// character that is not a space, or at the end of the text.
pub proof fn lemma_bind_error_offset(s: Seq<char>)
    ensures
        spec_parse_bind_spec(s) matches Err(e) ==> clean_offset(s, e.offset),
{
    lemma_lex_offsets(s, 0);
    lemma_lex_wf(s, 0);
    match lex_from(s, 0) {
        Ok(t) => {
            lemma_clauses_at(t, 0, Seq::empty());
            match parse_clauses_at(t, 0, Seq::empty()) {
                Err(e) => {
                    let q = choose|q: int| 0 <= q < t.len() && e.offset == (#[trigger] t[q]).start;
                    assert(clean_offset(s, t[q].start));
                },
                Ok(_) => {},
            }
        },
        Err(_) => {},
    }
}

/// A space, tab, newline or carriage return byte.
pub open spec fn is_space_byte(b: u8) -> bool {
    b == 0x20u8 || b == 0x09u8 || b == 0x0Au8 || b == 0x0Du8
}

/// The first byte of a character's UTF-8 encoding is a space byte exactly
/// when the character is a space.
proof fn lemma_first_byte_space(c: char)
    ensures
        vstd::utf8::encode_scalar(c as u32).len() >= 1,
        is_space_byte(vstd::utf8::encode_scalar(c as u32)[0]) == is_space(c),
{
    let v = c as u32;
    if v <= 0x7F {
        assert(((v & 0x7F) as u8) as u32 == v) by (bit_vector)
            requires
                v <= 0x7F,
        ;
        assert(vstd::utf8::encode_scalar(v)[0] == (v & 0x7F) as u8);
    } else if v <= 0x7FF {
        let b = (0xC0u8 | ((v >> 6) & 0x1F) as u8);
        assert(0xC0u8 <= (0xC0u8 | ((v >> 6) & 0x1F) as u8)) by (bit_vector);
        assert(vstd::utf8::encode_scalar(v)[0] == b);
    } else if 0x800 <= v <= 0xFFFF && !(0xD800 <= v <= 0xDFFF) {
        let b = (0xE0u8 | ((v >> 12) & 0x0F) as u8);
        assert(0xE0u8 <= (0xE0u8 | ((v >> 12) & 0x0F) as u8)) by (bit_vector);
        assert(vstd::utf8::encode_scalar(v)[0] == b);
    } else {
        let b = (0xF0u8 | ((v >> 18) & 0x7) as u8);
        assert(0xF0u8 <= (0xF0u8 | ((v >> 18) & 0x7) as u8)) by (bit_vector);
        assert(vstd::utf8::encode_scalar(v)[0] == b);
    }
}

/// In bytes: a binding specification that does not parse is reported at a
/// byte of its UTF-8 text that is not a space, tab, newline or carriage
/// return (the first byte of the offending token), or at the end.
pub proof fn lemma_bind_error_byte(s: Seq<char>)
    ensures
        spec_parse_bind_spec(s) matches Err(e) ==> e.offset <= vstd::utf8::encode_utf8(s).len() && (e.offset
            == vstd::utf8::encode_utf8(s).len() || !is_space_byte(vstd::utf8::encode_utf8(s)[e.offset as int])),
{
    lemma_bind_error_offset(s);
    if let Err(e) = spec_parse_bind_spec(s) {
        let st = choose|st: int| 0 <= st <= s.len() && (st == s.len() || !is_space(s[st])) && e.offset == #[trigger] byte_offset(s, st);
        assert(s =~= s.take(st) + s.skip(st));
        crate::text::lemma_encode_append(s.take(st), s.skip(st));
        if st < s.len() {
            let rest = s.skip(st);
            assert(rest[0] == s[st]);
            assert(vstd::utf8::encode_utf8(rest) == vstd::utf8::encode_scalar(s[st] as u32) + vstd::utf8::encode_utf8(rest.drop_first()));
            lemma_first_byte_space(s[st]);
            assert(vstd::utf8::encode_utf8(s)[e.offset as int] == vstd::utf8::encode_scalar(s[st] as u32)[0]);
        } else {
            assert(s.take(st) =~= s);
        }
    }
}

// ---------------------------------------------------------------------------
// The shape of what parses

/// An identifier: a letter or `_`, then letters, digits, `_` or `'`; not a
/// keyword.
pub open spec fn is_ident(w: Seq<char>) -> bool {
    &&& w.len() > 0
    &&& ident_start(w[0])
    &&& forall|i: int| 1 <= i < w.len() ==> ident_continue(#[trigger] w[i])
    &&& w != seq!['b', 'i', 'n', 'd']
    &&& w != seq!['i', 'n']
    &&& w != seq!['u', 'n', 'i', 'o', 'n']
}

/// A raw atom of `s`: a piece of it that starts with `</` and ends with `/>`.
pub open spec fn raw_in(s: Seq<char>, r: Seq<char>) -> bool {
    &&& r.len() >= 4
    &&& r[0] == '<' && r[1] == '/'
    &&& r[r.len() - 2] == '/' && r[r.len() - 1] == '>'
    &&& exists|a: int, b: int| 0 <= a <= b <= s.len() && r == #[trigger] s.subrange(a, b)
}

pub open spec fn tok_shaped(s: Seq<char>, k: TokKindV) -> bool {
    match k {
        TokKindV::Ident(w) => is_ident(w),
        TokKindV::Raw(r) => raw_in(s, r),
        TokKindV::Dots(d) => 2 <= d <= 4,
        _ => true,
    }
}

pub open spec fn toks_shaped(s: Seq<char>, t: Seq<TokV>) -> bool {
    forall|q: int| 0 <= q < t.len() ==> tok_shaped(s, (#[trigger] t[q]).kind)
}

/// Every name in `e` is an identifier, every dot form has 2 to 4 dots, and
/// every raw atom is a `</ ... />` piece of `s`.
pub open spec fn expr_shaped(s: Seq<char>, e: ExprV) -> bool
    decreases e,
{
    match e {
        ExprV::EmptySet => true,
        ExprV::Var(n) => is_ident(n),
        ExprV::Raw(r) => raw_in(s, r),
        ExprV::Call { func, args } => is_ident(func) && forall|i: int| 0 <= i < args.len() ==> expr_shaped(s, #[trigger] args[i]),
        ExprV::Dots { dots, start, end } => 2 <= dots <= 4 && expr_shaped(s, *start) && expr_shaped(s, *end),
        ExprV::Union { left, right } => expr_shaped(s, *left) && expr_shaped(s, *right),
        ExprV::Hash { left, right } => expr_shaped(s, *left) && expr_shaped(s, *right),
    }
}

pub open spec fn clause_shaped(s: Seq<char>, c: ClauseV) -> bool {
    match c {
        ClauseV::Bind { binder, in_term } => expr_shaped(s, binder) && is_ident(in_term),
        ClauseV::Assign { name, value } => is_ident(name) && expr_shaped(s, value),
    }
}

proof fn lemma_ident_end_chars(s: Seq<char>, i: int)
    requires
        0 <= i <= s.len(),
    ensures
        forall|k: int| i <= k < ident_end(s, i) ==> ident_continue(#[trigger] s[k]),
    decreases s.len() - i,
{
    if i < s.len() && ident_continue(s[i]) {
        lemma_ident_end_chars(s, i + 1);
    }
}

proof fn lemma_find_comp_close_at(s: Seq<char>, i: int)
    requires
        0 <= i <= s.len(),
    ensures
        find_comp_close(s, i) matches Some(k) ==> s[k] == '/' && s[k + 1] == '>',
    decreases s.len() - i,
{
    if i + 1 < s.len() && !(s[i] == '/' && s[i + 1] == '>') {
        lemma_find_comp_close_at(s, i + 1);
    }
}

proof fn lemma_lex_one_shaped(s: Seq<char>, st: int)
    requires
        0 <= st < s.len(),
    ensures
        lex_one(s, st) matches Ok((k, _)) ==> tok_shaped(s, k),
{
    let c = s[st];
    if c == '<' && st + 1 < s.len() && s[st + 1] == '/' {
        lemma_find_comp_close(s, st + 2);
        lemma_find_comp_close_at(s, st + 2);
        match find_comp_close(s, st + 2) {
            Some(k) => {
                let r = s.subrange(st, k + 2);
                assert(r[0] == '<' && r[1] == '/' && r[r.len() - 2] == '/' && r[r.len() - 1] == '>');
            },
            None => {},
        }
    } else if ident_start(c) {
        lemma_ident_end(s, st + 1);
        lemma_ident_end_chars(s, st + 1);
        let e = ident_end(s, st + 1);
        let w = s.subrange(st, e);
        assert forall|i: int| 1 <= i < w.len() implies ident_continue(#[trigger] w[i]) by {
            assert(w[i] == s[st + i]);
        }
        assert(w[0] == s[st]);
    }
}

proof fn lemma_lex_shaped(s: Seq<char>, i: int)
    requires
        0 <= i <= s.len(),
    ensures
        lex_from(s, i) matches Ok(t) ==> toks_shaped(s, t),
    decreases s.len() - i,
{
    let st = skip_spaces(s, i);
    lemma_skip_spaces(s, i);
    if st < s.len() {
        lemma_lex_one_shaped(s, st);
        lemma_lex_one_progress(s, st);
    }
    match next_token(s, i) {
        Err(_) => {},
        Ok((tok, nx)) => {
            if !(tok.kind is Eof) {
                lemma_lex_shaped(s, nx);
                match lex_from(s, nx) {
                    Ok(rest) => {
                        let all = seq![tok] + rest;
                        assert forall|q: int| 0 <= q < all.len() implies tok_shaped(s, (#[trigger] all[q]).kind) by {
                            if q > 0 {
                                assert(all[q] == rest[q - 1]);
                            }
                        }
                    },
                    Err(_) => {},
                }
            }
        },
    }
}

proof fn lemma_expr_shaped(s: Seq<char>, t: Seq<TokV>, p: int)
    requires
        tokens_wf(t),
        toks_shaped(s, t),
        in_range(t, p),
    ensures
        parse_expr_at(t, p) matches Ok((e, _)) ==> expr_shaped(s, e),
    decreases t.len() - p, 4nat,
{
    lemma_union_shaped(s, t, p);
}

proof fn lemma_union_shaped(s: Seq<char>, t: Seq<TokV>, p: int)
    requires
        tokens_wf(t),
        toks_shaped(s, t),
        in_range(t, p),
    ensures
        parse_union_at(t, p) matches Ok((e, _)) ==> expr_shaped(s, e),
    decreases t.len() - p, 3nat,
{
    lemma_range_shaped(s, t, p);
    lemma_range_at(t, p);
    match parse_range_at(t, p) {
        Ok((l, p1)) => {
            lemma_union_rest_shaped(s, t, l, p1);
        },
        Err(_) => {},
    }
}

proof fn lemma_union_rest_shaped(s: Seq<char>, t: Seq<TokV>, l: ExprV, p: int)
    requires
        tokens_wf(t),
        toks_shaped(s, t),
        in_range(t, p),
        expr_shaped(s, l),
    ensures
        union_rest_at(t, l, p) matches Ok((e, _)) ==> expr_shaped(s, e),
    decreases t.len() - p, 1nat,
{
    if t[p].kind is Union || t[p].kind is Hash {
        lemma_not_eof_next(t, p);
        lemma_range_shaped(s, t, p + 1);
        lemma_range_at(t, p + 1);
        match parse_range_at(t, p + 1) {
            Ok((r, p2)) => {
                if t[p].kind is Union {
                    let u = ExprV::Union { left: Box::new(l), right: Box::new(r) };
                    assert(expr_shaped(s, u));
                    lemma_union_rest_shaped(s, t, u, p2);
                } else {
                    let h = ExprV::Hash { left: Box::new(l), right: Box::new(r) };
                    assert(expr_shaped(s, h));
                    lemma_union_rest_shaped(s, t, h, p2);
                }
            },
            Err(_) => {},
        }
    }
}

proof fn lemma_range_shaped(s: Seq<char>, t: Seq<TokV>, p: int)
    requires
        tokens_wf(t),
        toks_shaped(s, t),
        in_range(t, p),
    ensures
        parse_range_at(t, p) matches Ok((e, _)) ==> expr_shaped(s, e),
    decreases t.len() - p, 2nat,
{
    lemma_primary_shaped(s, t, p);
    lemma_primary_at(t, p);
    match parse_primary_at(t, p) {
        Ok((l, p1)) => {
            match t[p1].kind {
                TokKindV::Dots(d) => {
                    assert(tok_shaped(s, t[p1].kind));
                    lemma_not_eof_next(t, p1);
                    lemma_primary_shaped(s, t, p1 + 1);
                },
                _ => {},
            }
        },
        Err(_) => {},
    }
}

proof fn lemma_args_shaped(s: Seq<char>, t: Seq<TokV>, p: int, acc: Seq<ExprV>)
    requires
        tokens_wf(t),
        toks_shaped(s, t),
        in_range(t, p),
        forall|i: int| 0 <= i < acc.len() ==> expr_shaped(s, #[trigger] acc[i]),
    ensures
        parse_args_at(t, p, acc) matches Ok((a, _)) ==> forall|i: int| 0 <= i < a.len() ==> expr_shaped(s, #[trigger] a[i]),
    decreases t.len() - p, 5nat,
{
    lemma_expr_shaped(s, t, p);
    lemma_expr_at(t, p);
    match parse_expr_at(t, p) {
        Ok((e, p1)) => {
            let a2 = acc.push(e);
            assert forall|i: int| 0 <= i < a2.len() implies expr_shaped(s, #[trigger] a2[i]) by {
                if i < acc.len() {
                    assert(a2[i] == acc[i]);
                }
            }
            if t[p1].kind is Comma {
                lemma_not_eof_next(t, p1);
                lemma_args_shaped(s, t, p1 + 1, a2);
            }
        },
        Err(_) => {},
    }
}

proof fn lemma_primary_shaped(s: Seq<char>, t: Seq<TokV>, p: int)
    requires
        tokens_wf(t),
        toks_shaped(s, t),
        in_range(t, p),
    ensures
        parse_primary_at(t, p) matches Ok((e, _)) ==> expr_shaped(s, e),
    decreases t.len() - p, 0nat,
{
    assert(tok_shaped(s, t[p].kind));
    if !(t[p].kind is Eof) {
        lemma_not_eof_next(t, p);
    }
    match t[p].kind {
        TokKindV::Ident(name) => {
            if in_range(t, p + 1) && t[p + 1].kind is LParen {
                lemma_not_eof_next(t, p + 1);
                let q = p + 2;
                if !(t[q].kind is RParen) {
                    lemma_args_shaped(s, t, q, Seq::empty());
                }
            }
        },
        TokKindV::LParen => {
            lemma_expr_shaped(s, t, p + 1);
        },
        _ => {},
    }
}

proof fn lemma_clause_shaped(s: Seq<char>, t: Seq<TokV>, p: int)
    requires
        tokens_wf(t),
        toks_shaped(s, t),
        in_range(t, p),
    ensures
        parse_clause_at(t, p) matches Ok((c, _)) ==> clause_shaped(s, c),
{
    match t[p].kind {
        TokKindV::Bind => {
            lemma_not_eof_next(t, p);
            lemma_expr_shaped(s, t, p + 1);
            lemma_expr_at(t, p + 1);
            match parse_expr_at(t, p + 1) {
                Ok((b, p1)) => {
                    match expect_at(t, p1, TokKindV::In) {
                        Ok(p2) => {
                            lemma_not_eof_next(t, p1);
                            assert(tok_shaped(s, t[p2].kind));
                        },
                        Err(_) => {},
                    }
                },
                Err(_) => {},
            }
        },
        TokKindV::Ident(_) => {
            assert(tok_shaped(s, t[p].kind));
            lemma_not_eof_next(t, p);
            match expect_at(t, p + 1, TokKindV::Eq) {
                Ok(p2) => {
                    lemma_not_eof_next(t, p + 1);
                    lemma_expr_shaped(s, t, p2);
                },
                Err(_) => {},
            }
        },
        _ => {},
    }
}

proof fn lemma_clauses_shaped(s: Seq<char>, t: Seq<TokV>, p: int, acc: Seq<ClauseV>)
    requires
        tokens_wf(t),
        toks_shaped(s, t),
        in_range(t, p),
        forall|i: int| 0 <= i < acc.len() ==> clause_shaped(s, #[trigger] acc[i]),
    ensures
        parse_clauses_at(t, p, acc) matches Ok(cs) ==> forall|i: int| 0 <= i < cs.len() ==> clause_shaped(s, #[trigger] cs[i]),
    decreases t.len() - p,
{
    if !(t[p].kind is Eof) {
        lemma_clause_at(t, p);
        lemma_clause_shaped(s, t, p);
        match parse_clause_at(t, p) {
            Ok((c, p1)) => {
                let a2 = acc.push(c);
                assert forall|i: int| 0 <= i < a2.len() implies clause_shaped(s, #[trigger] a2[i]) by {
                    if i < acc.len() {
                        assert(a2[i] == acc[i]);
                    }
                }
                lemma_clauses_shaped(s, t, p1, a2);
            },
            Err(_) => {},
        }
    }
}

/// In a binding specification that parses, every name is an identifier (not
/// a keyword), every dot form has 2 to 4 dots, and every raw atom is a
/// `</ ... />` piece of the text.
pub proof fn lemma_bind_spec_shape(s: Seq<char>)
    ensures
        spec_parse_bind_spec(s) matches Ok(cs) ==> forall|i: int| 0 <= i < cs.len() ==> clause_shaped(s, #[trigger] cs[i]),
{
    lemma_lex_shaped(s, 0);
    lemma_lex_wf(s, 0);
    match lex_from(s, 0) {
        Ok(t) => {
            lemma_clauses_shaped(s, t, 0, Seq::empty());
        },
        Err(_) => {},
    }
}

} // verus!
