//! Operations on texts held as character sequences: the subset of `str`'s
//! methods that the line-oriented parser needs (trimming Unicode whitespace,
//! searching for a pattern, splitting, joining and breaking into lines), each
//! with a specification over `Seq<char>`.

use vstd::prelude::*;

verus! {

/// Unicode `White_Space`, which `char::is_whitespace` tests.
pub open spec fn is_ws(c: char) -> bool {
    ('\u{9}' <= c && c <= '\u{d}') || c == ' ' || c == '\u{85}' || c == '\u{a0}' || c == '\u{1680}'
        || ('\u{2000}' <= c && c <= '\u{200a}') || c == '\u{2028}' || c == '\u{2029}'
        || c == '\u{202f}' || c == '\u{205f}' || c == '\u{3000}'
}

/// `char::is_whitespace`.
pub fn is_whitespace(c: char) -> (r: bool)
    ensures
        r == is_ws(c),
{
    ('\u{9}' <= c && c <= '\u{d}') || c == ' ' || c == '\u{85}' || c == '\u{a0}' || c == '\u{1680}'
        || ('\u{2000}' <= c && c <= '\u{200a}') || c == '\u{2028}' || c == '\u{2029}'
        || c == '\u{202f}' || c == '\u{205f}' || c == '\u{3000}'
}

/// First index at or after `i` holding a non-whitespace character (or the end).
pub open spec fn skip_ws(s: Seq<char>, i: int) -> int
    decreases s.len() - i,
{
    if 0 <= i < s.len() && is_ws(s[i]) {
        skip_ws(s, i + 1)
    } else {
        i
    }
}

/// First index at or after `i` holding a whitespace character (or the end).
pub open spec fn word_end(s: Seq<char>, i: int) -> int
    decreases s.len() - i,
{
    if 0 <= i < s.len() && !is_ws(s[i]) {
        word_end(s, i + 1)
    } else {
        i
    }
}

/// Going down from `j`, the first index whose predecessor is not whitespace.
pub open spec fn trailing_ws_start(s: Seq<char>, j: int) -> int
    decreases j,
{
    if 0 < j <= s.len() && is_ws(s[j - 1]) {
        trailing_ws_start(s, j - 1)
    } else {
        j
    }
}

pub open spec fn trim_start(s: Seq<char>) -> Seq<char> {
    s.subrange(skip_ws(s, 0), s.len() as int)
}

pub open spec fn trim_end(s: Seq<char>) -> Seq<char> {
    s.subrange(0, trailing_ws_start(s, s.len() as int))
}

pub open spec fn trim(s: Seq<char>) -> Seq<char> {
    trim_end(trim_start(s))
}

pub open spec fn matches_at(s: Seq<char>, k: int, p: Seq<char>) -> bool {
    0 <= k && k + p.len() <= s.len() && s.subrange(k, k + p.len()) == p
}

pub open spec fn starts_with(s: Seq<char>, p: Seq<char>) -> bool {
    matches_at(s, 0, p)
}

/// The first index at or after `k` where `p` occurs in `s`.
pub open spec fn find_from(s: Seq<char>, p: Seq<char>, k: int) -> Option<int>
    decreases s.len() - k,
{
    if k < 0 || k + p.len() > s.len() {
        None
    } else if matches_at(s, k, p) {
        Some(k)
    } else if k >= s.len() {
        None
    } else {
        find_from(s, p, k + 1)
    }
}

/// The last index at or below `k` where `p` occurs in `s`.
pub open spec fn rfind_from(s: Seq<char>, p: Seq<char>, k: int) -> Option<int>
    decreases k + 1,
{
    if k < 0 {
        None
    } else if matches_at(s, k, p) {
        Some(k)
    } else {
        rfind_from(s, p, k - 1)
    }
}

pub open spec fn contains(s: Seq<char>, p: Seq<char>) -> bool {
    find_from(s, p, 0) is Some
}

/// `str::split_once`: the parts before and after the first occurrence of `p`.
pub open spec fn split_once(s: Seq<char>, p: Seq<char>) -> Option<(Seq<char>, Seq<char>)> {
    match find_from(s, p, 0) {
        Some(k) => Some((s.subrange(0, k), s.subrange(k + p.len(), s.len() as int))),
        None => None,
    }
}

/// `s.rsplit(p).next()`: what follows the last occurrence of `p`, or all of `s`.
pub open spec fn after_last(s: Seq<char>, p: Seq<char>) -> Seq<char> {
    match rfind_from(s, p, s.len() - p.len()) {
        Some(k) => s.subrange(k + p.len(), s.len() as int),
        None => s,
    }
}

pub open spec fn strip_prefix(s: Seq<char>, p: Seq<char>) -> Option<Seq<char>> {
    if starts_with(s, p) {
        Some(s.subrange(p.len() as int, s.len() as int))
    } else {
        None
    }
}

pub open spec fn strip_suffix(s: Seq<char>, p: Seq<char>) -> Option<Seq<char>> {
    if p.len() <= s.len() && matches_at(s, s.len() - p.len(), p) {
        Some(s.subrange(0, s.len() - p.len()))
    } else {
        None
    }
}

/// `s.split_whitespace().next().unwrap_or("")`.
pub open spec fn first_word(s: Seq<char>) -> Seq<char> {
    let st = skip_ws(s, 0);
    s.subrange(st, word_end(s, st))
}

/// `split_whitespace` from index `i` on.
pub open spec fn words_from(s: Seq<char>, i: int) -> Seq<Seq<char>>
    decreases s.len() - i,
{
    let st = skip_ws(s, i);
    if i < 0 || st >= s.len() || st < i {
        Seq::empty()
    } else {
        let e = word_end(s, st);
        if e <= st || e > s.len() {
            Seq::empty()
        } else {
            seq![s.subrange(st, e)] + words_from(s, e)
        }
    }
}

pub open spec fn words(s: Seq<char>) -> Seq<Seq<char>> {
    words_from(s, 0)
}

/// `s.split(',').map(str::trim).filter(|x| !x.is_empty())`, from index `i` on.
pub open spec fn names_from(s: Seq<char>, i: int) -> Seq<Seq<char>>
    decreases s.len() - i,
{
    if i < 0 || i > s.len() {
        Seq::empty()
    } else {
        let k = match find_from(s, seq![','], i) {
            Some(k) => k,
            None => s.len() as int,
        };
        let piece = trim(s.subrange(i, k));
        let rest = if i <= k < s.len() {
            names_from(s, k + 1)
        } else {
            Seq::empty()
        };
        if piece.len() > 0 {
            seq![piece] + rest
        } else {
            rest
        }
    }
}

pub open spec fn names(s: Seq<char>) -> Seq<Seq<char>> {
    names_from(s, 0)
}

/// The parts joined with `sep` between them.
pub open spec fn join(parts: Seq<Seq<char>>, sep: Seq<char>) -> Seq<char>
    decreases parts.len(),
{
    if parts.len() == 0 {
        Seq::empty()
    } else if parts.len() == 1 {
        parts[0]
    } else {
        join(parts.drop_last(), sep) + sep + parts.last()
    }
}

pub open spec fn strip_cr(l: Seq<char>) -> Seq<char> {
    if l.len() > 0 && l.last() == '\r' {
        l.drop_last()
    } else {
        l
    }
}

/// `str::lines` from index `i` on: pieces ended by `\n` (dropping a `\r` just
/// before it); a last piece without `\n` is kept when not empty.
pub open spec fn lines_from(s: Seq<char>, i: int) -> Seq<Seq<char>>
    decreases s.len() - i,
{
    if i < 0 || i >= s.len() {
        Seq::empty()
    } else {
        match find_from(s, seq!['\n'], i) {
            Some(k) => if k < i || k >= s.len() {
                Seq::empty()
            } else {
                seq![strip_cr(s.subrange(i, k))] + lines_from(s, k + 1)
            },
            None => seq![s.subrange(i, s.len() as int)],
        }
    }
}

pub open spec fn lines(s: Seq<char>) -> Seq<Seq<char>> {
    lines_from(s, 0)
}

// ---------------------------------------------------------------------------
// Lemmas

pub proof fn lemma_skip_ws(s: Seq<char>, i: int)
    requires
        0 <= i <= s.len(),
    ensures
        i <= skip_ws(s, i) <= s.len(),
        skip_ws(s, i) < s.len() ==> !is_ws(s[skip_ws(s, i)]),
        forall|j: int| i <= j < skip_ws(s, i) ==> is_ws(#[trigger] s[j]),
    decreases s.len() - i,
{
    if i < s.len() && is_ws(s[i]) {
        lemma_skip_ws(s, i + 1);
    }
}

pub proof fn lemma_word_end(s: Seq<char>, i: int)
    requires
        0 <= i <= s.len(),
    ensures
        i <= word_end(s, i) <= s.len(),
        word_end(s, i) < s.len() ==> is_ws(s[word_end(s, i)]),
    decreases s.len() - i,
{
    if i < s.len() && !is_ws(s[i]) {
        lemma_word_end(s, i + 1);
    }
}

pub proof fn lemma_trailing(s: Seq<char>, j: int)
    requires
        0 <= j <= s.len(),
    ensures
        0 <= trailing_ws_start(s, j) <= j,
    decreases j,
{
    if 0 < j && is_ws(s[j - 1]) {
        lemma_trailing(s, j - 1);
    }
}

pub proof fn lemma_find_from(s: Seq<char>, p: Seq<char>, k: int)
    requires
        0 <= k,
    ensures
        find_from(s, p, k) matches Some(j) ==> k <= j && j + p.len() <= s.len() && matches_at(s, j, p),
        find_from(s, p, k) is None ==> forall|j: int| k <= j ==> !#[trigger] matches_at(s, j, p),
    decreases s.len() - k,
{
    if k + p.len() > s.len() {
    } else if matches_at(s, k, p) {
    } else if k >= s.len() {
    } else {
        lemma_find_from(s, p, k + 1);
    }
}

/// Going down from `j` stops at the start or after a non-whitespace character.
pub proof fn lemma_trailing_stop(s: Seq<char>, j: int)
    requires
        0 <= j <= s.len(),
    ensures
        trailing_ws_start(s, j) == 0 || !is_ws(s[trailing_ws_start(s, j) - 1]),
    decreases j,
{
    if 0 < j && is_ws(s[j - 1]) {
        lemma_trailing_stop(s, j - 1);
    }
}

/// A trimmed text is a stretch of the text, from some offset on.
pub proof fn lemma_trim_within(s: Seq<char>) -> (off: int)
    ensures
        0 <= off,
        off + trim(s).len() <= s.len(),
        forall|m: int| 0 <= m < trim(s).len() ==> #[trigger] trim(s)[m] == s[off + m],
{
    lemma_skip_ws(s, 0);
    let a = trim_start(s);
    lemma_trailing(a, a.len() as int);
    skip_ws(s, 0)
}

/// Trimming twice trims once.
pub proof fn lemma_trim_idem(s: Seq<char>)
    ensures
        trim(trim(s)) == trim(s),
{
    lemma_skip_ws(s, 0);
    let a = trim_start(s);
    lemma_trailing(a, a.len() as int);
    lemma_trailing_stop(a, a.len() as int);
    let t = trim(s);
    if t.len() > 0 {
        assert(t[0] == a[0]);
        assert(a[0] == s[skip_ws(s, 0)]);
        assert(t[t.len() - 1] == a[t.len() - 1]);
        assert(skip_ws(t, 0) == 0);
        assert(trim_start(t) =~= t);
        assert(trailing_ws_start(t, t.len() as int) == t.len());
        assert(trim_end(t) =~= t);
    } else {
        assert(skip_ws(t, 0) == 0);
        assert(trim_start(t) =~= t);
        assert(trim_end(t) =~= t);
    }
}

/// `p` occurs nowhere between `k` and where it is first found.
pub proof fn lemma_find_first(s: Seq<char>, p: Seq<char>, k: int)
    requires
        0 <= k,
    ensures
        find_from(s, p, k) matches Some(j) ==> forall|m: int| k <= m < j ==> !#[trigger] matches_at(s, m, p),
    decreases s.len() - k,
{
    if k + p.len() <= s.len() && !matches_at(s, k, p) && k < s.len() {
        lemma_find_first(s, p, k + 1);
    }
}

/// The text before the first occurrence of a nonempty `p`, and each of its
/// prefixes, holds no `p`.
pub proof fn lemma_prefix_lacks(s: Seq<char>, p: Seq<char>, k: int, q: int)
    requires
        p.len() > 0,
        find_from(s, p, 0) == Some(k),
        0 <= q <= k,
    ensures
        !contains(s.subrange(0, q), p),
{
    lemma_find_from(s, p, 0);
    lemma_find_first(s, p, 0);
    let x = s.subrange(0, q);
    assert forall|m: int| 0 <= m implies !#[trigger] matches_at(x, m, p) by {
        if matches_at(x, m, p) {
            assert(x.subrange(m, m + p.len()) =~= s.subrange(m, m + p.len()));
            assert(matches_at(s, m, p));
        }
    }
    lemma_find_none(x, p, 0);
}

/// Where `p` occurs nowhere from `k` on, it is not found.
pub proof fn lemma_find_none(s: Seq<char>, p: Seq<char>, k: int)
    requires
        0 <= k,
        forall|m: int| k <= m ==> !#[trigger] matches_at(s, m, p),
    ensures
        find_from(s, p, k) is None,
    decreases s.len() - k,
{
    if k + p.len() <= s.len() && k < s.len() {
        assert(!matches_at(s, k, p));
        lemma_find_none(s, p, k + 1);
    }
}

/// Each name that `names_from` gives is nonempty, trimmed and free of commas.
pub proof fn lemma_names_shape(s: Seq<char>, i: int)
    ensures
        forall|k: int| 0 <= k < names_from(s, i).len() ==> (#[trigger] names_from(s, i)[k]).len() > 0 && trim(names_from(s, i)[k])
            == names_from(s, i)[k] && !names_from(s, i)[k].contains(','),
    decreases s.len() - i,
{
    if 0 <= i <= s.len() {
        let k = match find_from(s, seq![','], i) {
            Some(k) => k,
            None => s.len() as int,
        };
        lemma_find_from(s, seq![','], i);
        lemma_find_first(s, seq![','], i);
        let sub = s.subrange(i, k);
        assert forall|m: int| 0 <= m < sub.len() implies sub[m] != ',' by {
            if s[i + m] == ',' {
                assert(s.subrange(i + m, i + m + 1) =~= seq![',']);
                assert(matches_at(s, i + m, seq![',']));
            }
        }
        let piece = trim(sub);
        let off = lemma_trim_within(sub);
        lemma_trim_idem(sub);
        assert(!piece.contains(',')) by {
            if piece.contains(',') {
                let m = choose|m: int| 0 <= m < piece.len() && piece[m] == ',';
                assert(piece[m] == sub[off + m]);
            }
        }
        let rest = if i <= k < s.len() {
            names_from(s, k + 1)
        } else {
            Seq::<Seq<char>>::empty()
        };
        if i <= k < s.len() {
            lemma_names_shape(s, k + 1);
        }
        let r = names_from(s, i);
        if piece.len() > 0 {
            assert(r == seq![piece] + rest);
            assert forall|q: int| 0 <= q < r.len() implies (#[trigger] r[q]).len() > 0 && trim(r[q]) == r[q] && !r[q].contains(',') by {
                if q > 0 {
                    assert(r[q] == rest[q - 1]);
                }
            }
        } else {
            assert(r == rest);
        }
    }
}

pub proof fn lemma_rfind_from(s: Seq<char>, p: Seq<char>, k: int)
    ensures
        rfind_from(s, p, k) matches Some(j) ==> 0 <= j <= k && matches_at(s, j, p),
    decreases k + 1,
{
    if k >= 0 && !matches_at(s, k, p) {
        lemma_rfind_from(s, p, k - 1);
    }
}

// ---------------------------------------------------------------------------
// Implementations

/// The characters `s[a..b]`.
pub fn slice_chars(s: &[char], a: usize, b: usize) -> (r: Vec<char>)
    requires
        a <= b <= s@.len(),
    ensures
        r@ == s@.subrange(a as int, b as int),
{
    vstd::slice::slice_to_vec(vstd::slice::slice_subrange(s, a, b))
}

pub fn eq_chars(a: &[char], b: &[char]) -> (r: bool)
    ensures
        r == (a@ == b@),
{
    if a.len() != b.len() {
        return false;
    }
    let mut i: usize = 0;
    while i < a.len()
        invariant
            a@.len() == b@.len(),
            i <= a@.len(),
            forall|j: int| 0 <= j < i ==> a@[j] == b@[j],
        decreases a@.len() - i,
    {
        if a[i] != b[i] {
            return false;
        }
        i = i + 1;
    }
    assert(a@ =~= b@);
    true
}

pub fn concat(a: &[char], b: &[char]) -> (r: Vec<char>)
    ensures
        r@ == a@ + b@,
{
    let mut r = vstd::slice::slice_to_vec(a);
    let mut i: usize = 0;
    while i < b.len()
        invariant
            i <= b@.len(),
            r@ == a@ + b@.subrange(0, i as int),
        decreases b@.len() - i,
    {
        r.push(b[i]);
        assert(a@ + b@.subrange(0, i + 1) =~= (a@ + b@.subrange(0, i as int)).push(b@[i as int]));
        i = i + 1;
    }
    assert(b@.subrange(0, b@.len() as int) =~= b@);
    r
}

pub fn skip_ws_at(s: &[char], i: usize) -> (r: usize)
    requires
        i <= s@.len(),
    ensures
        r as int == skip_ws(s@, i as int),
{
    let mut j = i;
    while j < s.len() && is_whitespace(s[j])
        invariant
            i <= j <= s@.len(),
            skip_ws(s@, j as int) == skip_ws(s@, i as int),
        decreases s@.len() - j,
    {
        j = j + 1;
    }
    j
}

pub fn word_end_at(s: &[char], i: usize) -> (r: usize)
    requires
        i <= s@.len(),
    ensures
        r as int == word_end(s@, i as int),
{
    let mut j = i;
    while j < s.len() && !is_whitespace(s[j])
        invariant
            i <= j <= s@.len(),
            word_end(s@, j as int) == word_end(s@, i as int),
        decreases s@.len() - j,
    {
        j = j + 1;
    }
    j
}

pub fn trim_start_of(s: &[char]) -> (r: Vec<char>)
    ensures
        r@ == trim_start(s@),
{
    let st = skip_ws_at(s, 0);
    proof {
        lemma_skip_ws(s@, 0);
    }
    slice_chars(s, st, s.len())
}

pub fn trim_end_of(s: &[char]) -> (r: Vec<char>)
    ensures
        r@ == trim_end(s@),
{
    let mut j = s.len();
    while j > 0 && is_whitespace(s[j - 1])
        invariant
            j <= s@.len(),
            trailing_ws_start(s@, j as int) == trailing_ws_start(s@, s@.len() as int),
        decreases j,
    {
        j = j - 1;
    }
    slice_chars(s, 0, j)
}

pub fn trim_of(s: &[char]) -> (r: Vec<char>)
    ensures
        r@ == trim(s@),
{
    let t = trim_start_of(s);
    trim_end_of(t.as_slice())
}

pub fn matches_at_of(s: &[char], k: usize, p: &[char]) -> (r: bool)
    ensures
        r == matches_at(s@, k as int, p@),
{
    let n = s.len();
    if k > n || p.len() > n - k {
        return false;
    }
    let mut j: usize = 0;
    while j < p.len()
        invariant
            n == s@.len(),
            k + p@.len() <= s@.len(),
            j <= p@.len(),
            forall|m: int| 0 <= m < j ==> s@[k + m] == p@[m],
        decreases p@.len() - j,
    {
        if s[k + j] != p[j] {
            assert(s@.subrange(k as int, k + p@.len())[j as int] != p@[j as int]);
            return false;
        }
        j = j + 1;
    }
    assert(s@.subrange(k as int, k + p@.len()) =~= p@);
    true
}

pub fn starts_with_of(s: &[char], p: &[char]) -> (r: bool)
    ensures
        r == starts_with(s@, p@),
{
    matches_at_of(s, 0, p)
}

pub fn find_from_of(s: &[char], p: &[char], k: usize) -> (r: Option<usize>)
    ensures
        r matches Some(j) ==> find_from(s@, p@, k as int) == Some(j as int),
        r is None ==> find_from(s@, p@, k as int) is None,
{
    if k > s.len() || p.len() > s.len() - k {
        return None;
    }
    let mut j = k;
    loop
        invariant
            k <= j <= s@.len() - p@.len(),
            p@.len() <= s@.len(),
            find_from(s@, p@, j as int) == find_from(s@, p@, k as int),
        decreases s@.len() - j,
    {
        if matches_at_of(s, j, p) {
            return Some(j);
        }
        if j == s.len() - p.len() {
            assert(find_from(s@, p@, j + 1) is None);
            return None;
        }
        j = j + 1;
    }
}

pub fn rfind_of(s: &[char], p: &[char]) -> (r: Option<usize>)
    ensures
        r matches Some(j) ==> rfind_from(s@, p@, s@.len() - p@.len()) == Some(j as int),
        r is None ==> rfind_from(s@, p@, s@.len() - p@.len()) is None,
{
    if p.len() > s.len() {
        return None;
    }
    let mut j = s.len() - p.len();
    loop
        invariant
            j <= s@.len() - p@.len(),
            p@.len() <= s@.len(),
            rfind_from(s@, p@, j as int) == rfind_from(s@, p@, s@.len() - p@.len()),
        decreases j,
    {
        if matches_at_of(s, j, p) {
            return Some(j);
        }
        if j == 0 {
            assert(rfind_from(s@, p@, -1) is None);
            return None;
        }
        j = j - 1;
    }
}

pub fn contains_of(s: &[char], p: &[char]) -> (r: bool)
    ensures
        r == contains(s@, p@),
{
    find_from_of(s, p, 0).is_some()
}

pub fn split_once_of(s: &[char], p: &[char]) -> (r: Option<(Vec<char>, Vec<char>)>)
    ensures
        match split_once(s@, p@) {
            Some((a, b)) => r matches Some((x, y)) && x@ == a && y@ == b,
            None => r is None,
        },
{
    let _n = s.len();
    match find_from_of(s, p, 0) {
        Some(k) => {
            proof {
                lemma_find_from(s@, p@, 0);
            }
            Some((slice_chars(s, 0, k), slice_chars(s, k + p.len(), s.len())))
        },
        None => None,
    }
}

pub fn after_last_of(s: &[char], p: &[char]) -> (r: Vec<char>)
    ensures
        r@ == after_last(s@, p@),
{
    let _n = s.len();
    match rfind_of(s, p) {
        Some(k) => {
            proof {
                lemma_rfind_from(s@, p@, s@.len() - p@.len());
            }
            slice_chars(s, k + p.len(), s.len())
        },
        None => vstd::slice::slice_to_vec(s),
    }
}

pub fn strip_prefix_of(s: &[char], p: &[char]) -> (r: Option<Vec<char>>)
    ensures
        match strip_prefix(s@, p@) {
            Some(a) => r matches Some(x) && x@ == a,
            None => r is None,
        },
{
    if starts_with_of(s, p) {
        Some(slice_chars(s, p.len(), s.len()))
    } else {
        None
    }
}

pub fn strip_suffix_of(s: &[char], p: &[char]) -> (r: Option<Vec<char>>)
    ensures
        match strip_suffix(s@, p@) {
            Some(a) => r matches Some(x) && x@ == a,
            None => r is None,
        },
{
    if p.len() <= s.len() && matches_at_of(s, s.len() - p.len(), p) {
        Some(slice_chars(s, 0, s.len() - p.len()))
    } else {
        None
    }
}

pub fn first_word_of(s: &[char]) -> (r: Vec<char>)
    ensures
        r@ == first_word(s@),
{
    let st = skip_ws_at(s, 0);
    proof {
        lemma_skip_ws(s@, 0);
    }
    let e = word_end_at(s, st);
    proof {
        lemma_word_end(s@, st as int);
    }
    slice_chars(s, st, e)
}

pub fn words_of(s: &[char]) -> (r: Vec<Vec<char>>)
    ensures
        r@.map_values(|w: Vec<char>| w@) == words(s@),
{
    let mut out: Vec<Vec<char>> = Vec::new();
    let mut i: usize = 0;
    assert(out@.map_values(|w: Vec<char>| w@) =~= Seq::<Seq<char>>::empty());
    loop
        invariant
            i <= s@.len(),
            words_from(s@, 0) == out@.map_values(|w: Vec<char>| w@) + words_from(s@, i as int),
        decreases s@.len() - i,
    {
        let st = skip_ws_at(s, i);
        proof {
            lemma_skip_ws(s@, i as int);
        }
        if st >= s.len() {
            assert(words_from(s@, i as int) =~= Seq::<Seq<char>>::empty());
            assert(out@.map_values(|w: Vec<char>| w@) + Seq::<Seq<char>>::empty() =~= out@.map_values(|w: Vec<char>| w@));
            return out;
        }
        let e = word_end_at(s, st);
        proof {
            lemma_word_end(s@, st as int);
        }
        let ghost old_out = out@.map_values(|w: Vec<char>| w@);
        let w = slice_chars(s, st, e);
        let ghost wv = w@;
        out.push(w);
        assert(out@.map_values(|w: Vec<char>| w@) =~= old_out.push(wv));
        assert(old_out + (seq![wv] + words_from(s@, e as int)) =~= old_out.push(wv) + words_from(s@, e as int));
        i = e;
    }
}

pub fn names_of(s: &[char]) -> (r: Vec<Vec<char>>)
    ensures
        r@.map_values(|w: Vec<char>| w@) == names(s@),
{
    let comma = [','];
    let mut out: Vec<Vec<char>> = Vec::new();
    let mut i: usize = 0;
    assert(out@.map_values(|w: Vec<char>| w@) =~= Seq::<Seq<char>>::empty());
    loop
        invariant
            i <= s@.len(),
            comma@ == seq![','],
            names_from(s@, 0) == out@.map_values(|w: Vec<char>| w@) + names_from(s@, i as int),
        decreases s@.len() - i,
    {
        let found = find_from_of(s, &comma, i);
        proof {
            lemma_find_from(s@, seq![','], i as int);
        }
        let k = match found {
            Some(k) => k,
            None => s.len(),
        };
        let piece_raw = slice_chars(s, i, k);
        let piece = trim_of(piece_raw.as_slice());
        let ghost old_out = out@.map_values(|w: Vec<char>| w@);
        let ghost pv = piece@;
        let nonempty = piece.len() > 0;
        if nonempty {
            out.push(piece);
            assert(out@.map_values(|w: Vec<char>| w@) =~= old_out.push(pv));
        }
        if k < s.len() {
            proof {
                if nonempty {
                    assert(old_out + (seq![pv] + names_from(s@, k + 1)) =~= old_out.push(pv) + names_from(s@, k + 1));
                }
            }
            i = k + 1;
        } else {
            proof {
                if nonempty {
                    assert(old_out + (seq![pv] + Seq::<Seq<char>>::empty()) =~= old_out.push(pv));
                }
                assert(out@.map_values(|w: Vec<char>| w@) + Seq::<Seq<char>>::empty() =~= out@.map_values(|w: Vec<char>| w@));
            }
            return out;
        }
    }
}

pub fn join_of(parts: &Vec<Vec<char>>, sep: &[char]) -> (r: Vec<char>)
    ensures
        r@ == join(parts@.map_values(|w: Vec<char>| w@), sep@),
{
    let ghost pv = parts@.map_values(|w: Vec<char>| w@);
    let mut out: Vec<char> = Vec::new();
    let mut i: usize = 0;
    while i < parts.len()
        invariant
            i <= parts@.len(),
            pv == parts@.map_values(|w: Vec<char>| w@),
            out@ == join(pv.take(i as int), sep@),
        decreases parts@.len() - i,
    {
        assert(pv.take(i + 1).drop_last() =~= pv.take(i as int));
        if i == 0 {
            out = concat(out.as_slice(), parts[i].as_slice());
            assert(pv.take(1) =~= seq![pv[0]]);
        } else {
            out = concat(out.as_slice(), sep);
            out = concat(out.as_slice(), parts[i].as_slice());
        }
        i = i + 1;
    }
    assert(pv.take(parts@.len() as int) =~= pv);
    out
}

pub fn lines_of(s: &[char]) -> (r: Vec<Vec<char>>)
    ensures
        r@.map_values(|w: Vec<char>| w@) == lines(s@),
        r@.len() <= s@.len(),
{
    let nl = ['\n'];
    let mut out: Vec<Vec<char>> = Vec::new();
    let mut i: usize = 0;
    assert(out@.map_values(|w: Vec<char>| w@) =~= Seq::<Seq<char>>::empty());
    while i < s.len()
        invariant
            i <= s@.len(),
            nl@ == seq!['\n'],
            out@.len() <= i,
            lines_from(s@, 0) == out@.map_values(|w: Vec<char>| w@) + lines_from(s@, i as int),
        decreases s@.len() - i,
    {
        let found = find_from_of(s, &nl, i);
        proof {
            lemma_find_from(s@, seq!['\n'], i as int);
        }
        let ghost old_out = out@.map_values(|w: Vec<char>| w@);
        match found {
            Some(k) => {
                let mut line = slice_chars(s, i, k);
                if line.len() > 0 && line[line.len() - 1] == '\r' {
                    line.pop();
                }
                let ghost lv = line@;
                out.push(line);
                assert(out@.map_values(|w: Vec<char>| w@) =~= old_out.push(lv));
                assert(old_out + (seq![lv] + lines_from(s@, k + 1)) =~= old_out.push(lv) + lines_from(s@, k + 1));
                i = k + 1;
            },
            None => {
                let line = slice_chars(s, i, s.len());
                let ghost lv = line@;
                out.push(line);
                assert(out@.map_values(|w: Vec<char>| w@) =~= old_out.push(lv));
                assert(lines_from(s@, s@.len() as int) =~= Seq::<Seq<char>>::empty());
                i = s.len();
                assert(old_out + seq![lv] =~= old_out.push(lv) + Seq::<Seq<char>>::empty());
            },
        }
    }
    assert(lines_from(s@, i as int) =~= Seq::<Seq<char>>::empty());
    assert(out@.map_values(|w: Vec<char>| w@) + Seq::<Seq<char>>::empty() =~= out@.map_values(|w: Vec<char>| w@));
    out
}

} // verus!
