//! Typst templates of `{{ typst ... }}` homs: literal text with `[[name]]`
//! holes that are filled from an environment of rendered sub-terms.

use vstd::prelude::*;
use vstd::string::StringExecFns;
use crate::chars::{find_from, trim, find_from_of, lemma_find_from, slice_chars, trim_of, join};
use crate::error::{OttError, OttErrV, err_plain, error_plain};
use crate::text::{chars_of, string_from_chars};

verus! {

#[derive(Debug, Clone)]
pub enum TemplatePart {
    Lit(String),
    Hole(String),
}

#[derive(Debug, Clone)]
pub struct Template {
    pub parts: Vec<TemplatePart>,
}

/// Mathematical model of a template part.
pub enum PartV {
    Lit(Seq<char>),
    Hole(Seq<char>),
}

impl View for TemplatePart {
    type V = PartV;

    open spec fn view(&self) -> PartV {
        match *self {
            TemplatePart::Lit(s) => PartV::Lit(s@),
            TemplatePart::Hole(s) => PartV::Hole(s@),
        }
    }
}

impl View for Template {
    type V = Seq<PartV>;

    open spec fn view(&self) -> Seq<PartV> {
        self.parts@.map_values(|p: TemplatePart| p@)
    }
}

/// The parts of the template text `s` from index `i` on: literal runs between
/// `[[` and `]]`, and the trimmed names inside them.
pub open spec fn template_parts_from(s: Seq<char>, i: int) -> Result<Seq<PartV>, OttErrV>
    decreases s.len() - i,
{
    if i < 0 || i > s.len() {
        Ok(Seq::empty())
    } else {
        match find_from(s, "[["@, i) {
            None => if i < s.len() {
                Ok(seq![PartV::Lit(s.subrange(i, s.len() as int))])
            } else {
                Ok(Seq::empty())
            },
            Some(start) => {
                let lit = if start > i {
                    seq![PartV::Lit(s.subrange(i, start))]
                } else {
                    Seq::empty()
                };
                match find_from(s, "]]"@, start + 2) {
                    None => Err(err_plain("unclosed `[[` in typst template"@)),
                    Some(end) => {
                        let key = trim(s.subrange(start + 2, end));
                        if key.len() == 0 {
                            Err(err_plain("empty `[[...]]` hole in typst template"@))
                        } else if end + 2 <= i || end + 2 > s.len() {
                            Err(err_plain(Seq::empty()))
                        } else {
                            match template_parts_from(s, end + 2) {
                                Ok(rest) => Ok(lit + seq![PartV::Hole(key)] + rest),
                                Err(e) => Err(e),
                            }
                        }
                    },
                }
            },
        }
    }
}

/// The template that the text `s` denotes, or why it is malformed.
pub open spec fn spec_parse_template(s: Seq<char>) -> Result<Seq<PartV>, OttErrV> {
    template_parts_from(s, 0)
}

/// A hole name of the template text `s`: nonempty and trimmed, it is the
/// trimmed text between some `[[` and the `]]` after it.
pub open spec fn hole_of(s: Seq<char>, h: Seq<char>) -> bool {
    &&& h.len() > 0
    &&& trim(h) == h
    &&& exists|a: int, b: int|
        2 <= a <= b && b + 2 <= s.len() && s.subrange(a - 2, a) == "[["@ && s.subrange(b, b + 2) == "]]"@ && h == trim(
            #[trigger] s.subrange(a, b),
        )
}

proof fn lemma_template_holes_from(s: Seq<char>, i: int)
    ensures
        template_parts_from(s, i) matches Ok(ps) ==> forall|k: int| 0 <= k < ps.len() ==> (#[trigger] ps[k] matches PartV::Hole(h) ==> hole_of(s, h)),
    decreases s.len() - i,
{
    if 0 <= i <= s.len() {
        lemma_find_from(s, "[["@, i);
        match find_from(s, "[["@, i) {
            None => {},
            Some(start) => {
                lemma_find_from(s, "]]"@, start + 2);
                reveal_strlit("[[");
                reveal_strlit("]]");
                match find_from(s, "]]"@, start + 2) {
                    None => {},
                    Some(end) => {
                        let name = trim(s.subrange(start + 2, end));
                        if name.len() > 0 && !(end + 2 <= i || end + 2 > s.len()) {
                            lemma_template_holes_from(s, end + 2);
                            crate::chars::lemma_trim_idem(s.subrange(start + 2, end));
                            assert(s.subrange(start, start + 2) == "[["@);
                            assert(s.subrange(end, end + 2) == "]]"@);
                            assert(hole_of(s, name));
                            match template_parts_from(s, end + 2) {
                                Ok(rest) => {
                                    let lit = if start > i {
                                        seq![PartV::Lit(s.subrange(i, start))]
                                    } else {
                                        Seq::empty()
                                    };
                                    let ps = lit + seq![PartV::Hole(name)] + rest;
                                    assert forall|k: int| 0 <= k < ps.len() implies (#[trigger] ps[k] matches PartV::Hole(h) ==> hole_of(s, h)) by {
                                        if k < lit.len() {
                                            assert(ps[k] == lit[k]);
                                        } else if k == lit.len() {
                                            assert(ps[k] == PartV::Hole(name));
                                        } else {
                                            assert(ps[k] == rest[k - lit.len() - 1]);
                                        }
                                    }
                                },
                                Err(_) => {},
                            }
                        }
                    },
                }
            },
        }
    }
}

/// Every hole of a parsed template is named by the trimmed, nonempty text
/// between a `[[` of the template text and the `]]` after it: hole names
/// never start or end with whitespace.
pub proof fn lemma_template_holes(s: Seq<char>)
    ensures
        spec_parse_template(s) matches Ok(ps) ==> forall|k: int| 0 <= k < ps.len() ==> (#[trigger] ps[k] matches PartV::Hole(h) ==> hole_of(s, h)),
{
    lemma_template_holes_from(s, 0);
}

/// An environment binds hole names to texts; a name is looked up at its first binding.
pub open spec fn env_lookup(env: Seq<(Seq<char>, Seq<char>)>, k: Seq<char>) -> Option<Seq<char>>
    decreases env.len(),
{
    if env.len() == 0 {
        None
    } else if env[0].0 == k {
        Some(env[0].1)
    } else {
        env_lookup(env.drop_first(), k)
    }
}

pub open spec fn env_keys(env: Seq<(Seq<char>, Seq<char>)>) -> Seq<Seq<char>> {
    env.map_values(|b: (Seq<char>, Seq<char>)| b.0)
}

pub open spec fn unknown_hole_msg(k: Seq<char>, env: Seq<(Seq<char>, Seq<char>)>) -> Seq<char> {
    "unknown typst template hole `[["@ + k + "]]` (available: "@ + join(env_keys(env), ", "@) + ")"@
}

/// The text of the parts `ps[..n]` with each hole replaced by its binding in
/// `env`, or the first hole that `env` does not bind.
pub open spec fn render_parts(ps: Seq<PartV>, n: int, env: Seq<(Seq<char>, Seq<char>)>) -> Result<Seq<char>, OttErrV>
    decreases n,
{
    if n <= 0 {
        Ok(Seq::empty())
    } else {
        match render_parts(ps, n - 1, env) {
            Err(e) => Err(e),
            Ok(out) => match ps[n - 1] {
                PartV::Lit(s) => Ok(out + s),
                PartV::Hole(k) => match env_lookup(env, k) {
                    Some(v) => Ok(out + v),
                    None => Err(err_plain(unknown_hole_msg(k, env))),
                },
            },
        }
    }
}

pub open spec fn spec_render_template(t: Seq<PartV>, env: Seq<(Seq<char>, Seq<char>)>) -> Result<Seq<char>, OttErrV> {
    render_parts(t, t.len() as int, env)
}

pub open spec fn env_view(env: Vec<(String, String)>) -> Seq<(Seq<char>, Seq<char>)> {
    env@.map_values(|b: (String, String)| (b.0@, b.1@))
}

proof fn lemma_render_err_stays(ps: Seq<PartV>, n: int, m: int, env: Seq<(Seq<char>, Seq<char>)>)
    requires
        0 <= n <= m,
        render_parts(ps, n, env) is Err,
    ensures
        render_parts(ps, m, env) == render_parts(ps, n, env),
    decreases m - n,
{
    if m > n {
        lemma_render_err_stays(ps, n, m - 1, env);
    }
}

/// The first binding of `k` in `env`.
pub fn lookup_env(env: &Vec<(String, String)>, k: &String) -> (r: Option<String>)
    ensures
        match env_lookup(env_view(*env), k@) {
            Some(v) => r matches Some(x) && x@ == v,
            None => r is None,
        },
{
    let ghost ev = env_view(*env);
    let mut j: usize = 0;
    assert(ev.subrange(0, ev.len() as int) =~= ev);
    while j < env.len()
        invariant
            j <= env@.len(),
            ev == env_view(*env),
            env_lookup(ev, k@) == env_lookup(ev.subrange(j as int, ev.len() as int), k@),
        decreases env@.len() - j,
    {
        let ghost rest = ev.subrange(j as int, ev.len() as int);
        assert(rest[0] == ev[j as int]);
        assert(rest.drop_first() =~= ev.subrange(j + 1, ev.len() as int));
        if env[j].0 == *k {
            return Some(env[j].1.clone());
        }
        j = j + 1;
    }
    None
}

/// The names bound by `env`, joined by `, `.
fn env_key_list(env: &Vec<(String, String)>) -> (r: String)
    ensures
        r@ == join(env_keys(env_view(*env)), ", "@),
{
    let ghost ks = env_keys(env_view(*env));
    let mut out = String::new();
    let mut i: usize = 0;
    while i < env.len()
        invariant
            i <= env@.len(),
            ks == env_keys(env_view(*env)),
            out@ == join(ks.take(i as int), ", "@),
        decreases env@.len() - i,
    {
        assert(ks.take(i + 1).drop_last() =~= ks.take(i as int));
        assert(ks[i as int] == env@[i as int].0@);
        if i == 0 {
            out.append(env[i].0.as_str());
            assert(ks.take(1) =~= seq![ks[0]]);
        } else {
            out.append(", ");
            out.append(env[i].0.as_str());
        }
        i = i + 1;
    }
    assert(ks.take(env@.len() as int) =~= ks);
    out
}

impl Template {
    /// Splits the template text `src` into literal runs and holes.
    pub fn parse(src: &str) -> (r: Result<Self, OttError>)
        ensures
            match spec_parse_template(src@) {
                Ok(ps) => r matches Ok(t) && t@ == ps,
                Err(e) => r matches Err(x) && x@ == e,
            },
    {
        let s = chars_of(src);
        let open = ['[', '['];
        let close = [']', ']'];
        let mut parts: Vec<TemplatePart> = Vec::new();
        let mut i: usize = 0;
        assert(parts@.map_values(|p: TemplatePart| p@) =~= Seq::<PartV>::empty());
        proof {
            reveal_strlit("[[");
            reveal_strlit("]]");
            assert(open@ =~= "[["@);
            assert(close@ =~= "]]"@);
            assert("[["@ =~= seq!['[', '[']);
            assert("]]"@ =~= seq![']', ']']);
            match template_parts_from(s@, 0) {
                Ok(rest) => {
                    assert(Seq::<PartV>::empty() + rest =~= rest);
                },
                Err(_) => {},
            }
        }
        loop
            invariant
                i <= s@.len(),
                s@ == src@,
                open@ == "[["@,
                close@ == "]]"@,
                "[["@ == seq!['[', '['],
                "]]"@ == seq![']', ']'],
                spec_parse_template(src@) == match template_parts_from(s@, i as int) {
                    Ok(rest) => Ok(parts@.map_values(|p: TemplatePart| p@) + rest),
                    Err(e) => Err::<Seq<PartV>, OttErrV>(e),
                },
            decreases s@.len() - i,
        {
            let ghost pv = parts@.map_values(|p: TemplatePart| p@);
            let found = find_from_of(s.as_slice(), &open, i);
            proof {
                lemma_find_from(s@, "[["@, i as int);
            }
            match found {
                None => {
                    if i < s.len() {
                        let lit = string_from_chars(slice_chars(s.as_slice(), i, s.len()).as_slice());
                        parts.push(TemplatePart::Lit(lit));
                        assert(parts@.map_values(|p: TemplatePart| p@) =~= pv + seq![
                            PartV::Lit(s@.subrange(i as int, s@.len() as int)),
                        ]);
                    } else {
                        assert(pv + Seq::<PartV>::empty() =~= pv);
                    }
                    return Ok(Template { parts });
                },
                Some(start) => {
                    let _n = s.len();
                    let after = start + 2;
                    let found_end = find_from_of(s.as_slice(), &close, after);
                    proof {
                        lemma_find_from(s@, "]]"@, after as int);
                    }
                    match found_end {
                        None => {
                            return Err(error_plain("unclosed `[[` in typst template"));
                        },
                        Some(end) => {
                            let key_raw = slice_chars(s.as_slice(), after, end);
                            let key = trim_of(key_raw.as_slice());
                            if key.len() == 0 {
                                return Err(error_plain("empty `[[...]]` hole in typst template"));
                            }
                            let ghost lit_v = if start > i {
                                seq![PartV::Lit(s@.subrange(i as int, start as int))]
                            } else {
                                Seq::<PartV>::empty()
                            };
                            if start > i {
                                let lit = string_from_chars(slice_chars(s.as_slice(), i, start).as_slice());
                                parts.push(TemplatePart::Lit(lit));
                            }
                            let ghost pv2 = parts@.map_values(|p: TemplatePart| p@);
                            assert(pv2 =~= pv + lit_v);
                            parts.push(TemplatePart::Hole(string_from_chars(key.as_slice())));
                            assert(parts@.map_values(|p: TemplatePart| p@) =~= pv2.push(PartV::Hole(key@)));
                            proof {
                                match template_parts_from(s@, end + 2) {
                                    Ok(rest) => {
                                        assert(pv + (lit_v + seq![PartV::Hole(key@)] + rest) =~= pv2.push(
                                            PartV::Hole(key@),
                                        ) + rest);
                                    },
                                    Err(_) => {},
                                }
                            }
                            i = end + 2;
                        },
                    }
                },
            }
        }
    }

    /// The template with each hole replaced by its binding in `env`.
    pub fn render(&self, env: &Vec<(String, String)>) -> (r: Result<String, OttError>)
        ensures
            match spec_render_template(self@, env_view(*env)) {
                Ok(s) => r matches Ok(x) && x@ == s,
                Err(e) => r matches Err(x) && x@ == e,
            },
    {
        let ghost ps = self@;
        let ghost ev = env_view(*env);
        let mut out = String::new();
        let mut k: usize = 0;
        while k < self.parts.len()
            invariant
                k <= self.parts@.len(),
                ps == self@,
                ev == env_view(*env),
                render_parts(ps, k as int, ev) == Ok::<Seq<char>, OttErrV>(out@),
            decreases self.parts@.len() - k,
        {
            assert(ps[k as int] == self.parts@[k as int]@);
            match &self.parts[k] {
                TemplatePart::Lit(s) => {
                    out.append(s.as_str());
                },
                TemplatePart::Hole(h) => {
                    match lookup_env(env, h) {
                        Some(v) => {
                            out.append(v.as_str());
                        },
                        None => {
                            let mut m = "unknown typst template hole `[[".to_owned();
                            m.append(h.as_str());
                            m.append("]]` (available: ");
                            let keys = env_key_list(env);
                            m.append(keys.as_str());
                            m.append(")");
                            proof {
                                lemma_render_err_stays(ps, k + 1, ps.len() as int, ev);
                            }
                            return Err(OttError::new(m));
                        },
                    }
                },
            }
            k = k + 1;
        }
        Ok(out)
    }
}

} // verus!
