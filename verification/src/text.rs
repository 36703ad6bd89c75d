//! Character-level text helpers: trimming, ASCII case folding, searching and splitting.
//! Text is handled as sequences of `char`; the specifications below say what each helper
//! computes.
use vstd::prelude::*;

verus! {

/// The text of each string.
pub open spec fn strings_view(v: Seq<String>) -> Seq<Seq<char>> {
    v.map_values(|s: String| s@)
}

/// The text of each character vector.
pub open spec fn vstrings(v: Seq<Vec<char>>) -> Seq<Seq<char>> {
    v.map_values(|s: Vec<char>| s@)
}


/// `String::push`: appends one character.
#[verifier::external_body]
pub fn push_char(s: &mut String, c: char)
    ensures
        final(s)@ == old(s)@.push(c),
{
    s.push(c)
}

/// The characters of `s`.
pub fn chars_of(s: &str) -> (v: Vec<char>)
    ensures
        v@ == s@,
{
    let mut v: Vec<char> = Vec::new();
    for c in it: s.chars()
        invariant
            v@ == it.seq().take(it.index() as int),
    {
        v.push(c);
    }
    v
}

/// A string holding the characters of `s`.
pub fn string_of(s: &[char]) -> (r: String)
    ensures
        r@ == s@,
{
    let mut r = String::new();
    let mut i: usize = 0;
    while i < s.len()
        invariant
            i <= s@.len(),
            r@ == s@.take(i as int),
        decreases s@.len() - i,
    {
        push_char(&mut r, s[i]);
        i += 1;
        assert(r@ =~= s@.take(i as int));
    }
    assert(s@.take(i as int) =~= s@);
    r
}

/// A copy of `s[from..to]`.
pub fn subseq(s: &[char], from: usize, to: usize) -> (r: Vec<char>)
    requires
        from <= to <= s@.len(),
    ensures
        r@ == s@.subrange(from as int, to as int),
{
    let mut r: Vec<char> = Vec::new();
    let mut i = from;
    while i < to
        invariant
            from <= i <= to <= s@.len(),
            r@ == s@.subrange(from as int, i as int),
        decreases to - i,
    {
        r.push(s[i]);
        i += 1;
        assert(r@ =~= s@.subrange(from as int, i as int));
    }
    r
}

/// Whitespace as `char::is_whitespace` defines it (the Unicode White_Space property).
pub open spec fn is_ws(c: char) -> bool {
    ('\u{9}' <= c && c <= '\u{d}') || c == ' ' || c == '\u{85}' || c == '\u{a0}' || c
        == '\u{1680}' || ('\u{2000}' <= c && c <= '\u{200a}') || c == '\u{2028}' || c
        == '\u{2029}' || c == '\u{202f}' || c == '\u{205f}' || c == '\u{3000}'
}

pub fn is_whitespace(c: char) -> (r: bool)
    ensures
        r == is_ws(c),
{
    ('\u{9}' <= c && c <= '\u{d}') || c == ' ' || c == '\u{85}' || c == '\u{a0}' || c
        == '\u{1680}' || ('\u{2000}' <= c && c <= '\u{200a}') || c == '\u{2028}' || c
        == '\u{2029}' || c == '\u{202f}' || c == '\u{205f}' || c == '\u{3000}'
}

/// The index of the first non-whitespace character at or after `i`.
pub open spec fn skip_ws(s: Seq<char>, i: int) -> int
    decreases s.len() - i,
{
    if 0 <= i < s.len() && is_ws(s[i]) {
        skip_ws(s, i + 1)
    } else {
        i
    }
}

/// The end of `s[..j]` once trailing whitespace is dropped.
pub open spec fn back_ws(s: Seq<char>, j: int) -> int
    decreases j,
{
    if 0 < j <= s.len() && is_ws(s[j - 1]) {
        back_ws(s, j - 1)
    } else {
        j
    }
}

/// `str::trim_start`.
pub open spec fn trim_start(s: Seq<char>) -> Seq<char> {
    s.skip(skip_ws(s, 0))
}

/// `str::trim_end`.
pub open spec fn trim_end(s: Seq<char>) -> Seq<char> {
    s.take(back_ws(s, s.len() as int))
}

/// `str::trim`.
pub open spec fn trim(s: Seq<char>) -> Seq<char> {
    trim_end(trim_start(s))
}

pub proof fn lemma_skip_ws_bounds(s: Seq<char>, i: int)
    requires
        0 <= i <= s.len(),
    ensures
        i <= skip_ws(s, i) <= s.len(),
    decreases s.len() - i,
{
    if i < s.len() && is_ws(s[i]) {
        lemma_skip_ws_bounds(s, i + 1);
    }
}

pub proof fn lemma_back_ws_bounds(s: Seq<char>, j: int)
    requires
        0 <= j <= s.len(),
    ensures
        0 <= back_ws(s, j) <= j,
    decreases j,
{
    if 0 < j && is_ws(s[j - 1]) {
        lemma_back_ws_bounds(s, j - 1);
    }
}

proof fn lemma_skip_ws_stop(s: Seq<char>, i: int)
    requires
        0 <= i <= s.len(),
    ensures
        skip_ws(s, i) < s.len() ==> !is_ws(s[skip_ws(s, i)]),
    decreases s.len() - i,
{
    if i < s.len() && is_ws(s[i]) {
        lemma_skip_ws_stop(s, i + 1);
    }
}

proof fn lemma_back_ws_stop(s: Seq<char>, j: int)
    requires
        0 <= j <= s.len(),
    ensures
        back_ws(s, j) > 0 ==> !is_ws(s[back_ws(s, j) - 1]),
    decreases j,
{
    if 0 < j && is_ws(s[j - 1]) {
        lemma_back_ws_stop(s, j - 1);
    }
}

/// Trimming trimmed text leaves it as it is.
pub proof fn lemma_trim_idempotent(s: Seq<char>)
    ensures
        trim(trim(s)) == trim(s),
{
    let k = skip_ws(s, 0);
    let u = trim_start(s);
    let b = back_ws(u, u.len() as int);
    let t = trim(s);
    lemma_skip_ws_bounds(s, 0);
    lemma_skip_ws_stop(s, 0);
    lemma_back_ws_bounds(u, u.len() as int);
    lemma_back_ws_stop(u, u.len() as int);
    assert(t == u.take(b));
    if t.len() > 0 {
        assert(u[0] == s[k]);
        assert(t[0] == u[0]);
        assert(t[t.len() - 1] == u[b - 1]);
    }
    assert(skip_ws(t, 0) == 0);
    assert(trim_start(t) =~= t);
    assert(back_ws(t, t.len() as int) == t.len());
    assert(trim_end(t) =~= t);
}

/// `str::trim`.
pub fn trim_chars(s: &[char]) -> (r: Vec<char>)
    ensures
        r@ == trim(s@),
{
    let mut i: usize = 0;
    while i < s.len() && is_whitespace(s[i])
        invariant
            i <= s@.len(),
            skip_ws(s@, i as int) == skip_ws(s@, 0),
        decreases s@.len() - i,
    {
        i += 1;
    }
    let t = subseq(s, i, s.len());
    assert(t@ =~= trim_start(s@));
    let mut j: usize = t.len();
    while j > 0 && is_whitespace(t[j - 1])
        invariant
            j <= t@.len(),
            back_ws(t@, j as int) == back_ws(t@, t@.len() as int),
        decreases j,
    {
        j -= 1;
    }
    subseq(t.as_slice(), 0, j)
}

/// `s` with every trailing `c` removed (`str::trim_end_matches` with a character).
pub open spec fn trim_end_char(s: Seq<char>, c: char) -> Seq<char>
    decreases s.len(),
{
    if s.len() > 0 && s.last() == c {
        trim_end_char(s.drop_last(), c)
    } else {
        s
    }
}

/// `s` with every leading `c` removed.
pub open spec fn trim_start_char(s: Seq<char>, c: char) -> Seq<char>
    decreases s.len(),
{
    if s.len() > 0 && s[0] == c {
        trim_start_char(s.drop_first(), c)
    } else {
        s
    }
}

/// `str::trim_matches` with a character: leading and trailing `c` removed.
pub open spec fn trim_char(s: Seq<char>, c: char) -> Seq<char> {
    trim_end_char(trim_start_char(s, c), c)
}

pub fn trim_end_char_exec(s: &[char], c: char) -> (r: Vec<char>)
    ensures
        r@ == trim_end_char(s@, c),
{
    let mut j: usize = s.len();
    assert(s@.take(s@.len() as int) =~= s@);
    while j > 0 && s[j - 1] == c
        invariant
            j <= s@.len(),
            trim_end_char(s@.take(j as int), c) == trim_end_char(s@, c),
        decreases j,
    {
        assert(s@.take(j as int).drop_last() =~= s@.take(j - 1));
        j -= 1;
    }
    assert(trim_end_char(s@.take(j as int), c) == s@.take(j as int));
    subseq(s, 0, j)
}

pub fn trim_char_exec(s: &[char], c: char) -> (r: Vec<char>)
    ensures
        r@ == trim_char(s@, c),
{
    let mut i: usize = 0;
    assert(s@.skip(0) =~= s@);
    while i < s.len() && s[i] == c
        invariant
            i <= s@.len(),
            trim_start_char(s@.skip(i as int), c) == trim_start_char(s@, c),
        decreases s@.len() - i,
    {
        assert(s@.skip(i as int).drop_first() =~= s@.skip(i + 1));
        i += 1;
    }
    assert(s@.skip(0) =~= s@);
    let t = subseq(s, i, s.len());
    assert(t@ =~= s@.skip(i as int));
    trim_end_char_exec(t.as_slice(), c)
}

/// ASCII upper-casing of one character.
pub open spec fn upper_char(c: char) -> char {
    if 'a' <= c && c <= 'z' {
        ((c as u32) - 32) as char
    } else {
        c
    }
}

/// ASCII upper-casing.
pub open spec fn upper(s: Seq<char>) -> Seq<char> {
    s.map_values(|c: char| upper_char(c))
}

/// ASCII upper-casing of one character: 'a'..='z' become 'A'..='Z'; every other
/// character is returned unchanged.
pub fn to_upper_char(c: char) -> (r: char)
    ensures
        r == upper_char(c),
{
    if 'a' <= c && c <= 'z' {
        let b: u8 = c as u8;
        (b - 32) as char
    } else {
        c
    }
}

pub fn to_upper(s: &[char]) -> (r: Vec<char>)
    ensures
        r@ == upper(s@),
{
    let mut r: Vec<char> = Vec::new();
    let mut i: usize = 0;
    while i < s.len()
        invariant
            i <= s@.len(),
            r@ == upper(s@.take(i as int)),
        decreases s@.len() - i,
    {
        r.push(to_upper_char(s[i]));
        i += 1;
        assert(r@ =~= upper(s@.take(i as int)));
    }
    assert(s@.take(i as int) =~= s@);
    r
}

/// What `str::to_uppercase` gives for text `s`: its full Unicode upper-casing, which may
/// change the number of characters.
pub uninterp spec fn unicode_upper(s: Seq<char>) -> Seq<char>;

/// What `str::to_lowercase` gives for text `s`: its full Unicode lower-casing, which may
/// change the number of characters.
pub uninterp spec fn unicode_lower(s: Seq<char>) -> Seq<char>;

/// `str::to_uppercase` on the text of `s`. The result is a function of the text alone
/// (Unicode case mapping does not depend on the locale); which text it is, is not stated.
#[verifier::external_body]
pub(crate) fn to_unicode_upper(s: &[char]) -> (r: Vec<char>)
    ensures
        r@ == unicode_upper(s@),
{
    let t: String = s.iter().collect();
    t.to_uppercase().chars().collect()
}

/// `str::to_lowercase` on the text of `s`. The result is a function of the text alone
/// (Unicode case mapping does not depend on the locale); which text it is, is not stated.
#[verifier::external_body]
pub(crate) fn to_unicode_lower(s: &[char]) -> (r: Vec<char>)
    ensures
        r@ == unicode_lower(s@),
{
    let t: String = s.iter().collect();
    t.to_lowercase().chars().collect()
}

/// ASCII lower-casing of one character.
pub open spec fn lower_char(c: char) -> char {
    if 'A' <= c && c <= 'Z' {
        ((c as u32) + 32) as char
    } else {
        c
    }
}

/// ASCII lower-casing.
pub open spec fn lower(s: Seq<char>) -> Seq<char> {
    s.map_values(|c: char| lower_char(c))
}

/// ASCII lower-casing of one character: 'A'..='Z' become 'a'..='z'; every other
/// character is returned unchanged.
fn to_lower_char(c: char) -> (r: char)
    ensures
        r == lower_char(c),
{
    if 'A' <= c && c <= 'Z' {
        let b: u8 = c as u8;
        (b + 32) as char
    } else {
        c
    }
}

pub fn to_lower(s: &[char]) -> (r: Vec<char>)
    ensures
        r@ == lower(s@),
{
    let mut r: Vec<char> = Vec::new();
    let mut i: usize = 0;
    while i < s.len()
        invariant
            i <= s@.len(),
            r@ == lower(s@.take(i as int)),
        decreases s@.len() - i,
    {
        r.push(to_lower_char(s[i]));
        i += 1;
        assert(r@ =~= lower(s@.take(i as int)));
    }
    assert(s@.take(i as int) =~= s@);
    r
}

/// Code-point order on strings (a proper prefix comes first).
pub open spec fn chars_lt(a: Seq<char>, b: Seq<char>) -> bool
    decreases a.len(),
{
    if a.len() == 0 {
        b.len() > 0
    } else if b.len() == 0 {
        false
    } else if a[0] != b[0] {
        a[0] < b[0]
    } else {
        chars_lt(a.drop_first(), b.drop_first())
    }
}

pub proof fn lemma_chars_lt_irreflexive(a: Seq<char>)
    ensures
        !chars_lt(a, a),
    decreases a.len(),
{
    if a.len() > 0 {
        lemma_chars_lt_irreflexive(a.drop_first());
    }
}

pub proof fn lemma_chars_lt_transitive(a: Seq<char>, b: Seq<char>, c: Seq<char>)
    requires
        chars_lt(a, b),
        chars_lt(b, c),
    ensures
        chars_lt(a, c),
    decreases a.len(),
{
    if a.len() > 0 && b.len() > 0 && c.len() > 0 && a[0] == b[0] && b[0] == c[0] {
        lemma_chars_lt_transitive(a.drop_first(), b.drop_first(), c.drop_first());
    }
}

pub proof fn lemma_chars_lt_total(a: Seq<char>, b: Seq<char>)
    ensures
        a == b || chars_lt(a, b) || chars_lt(b, a),
    decreases a.len(),
{
    if a.len() > 0 && b.len() > 0 && a[0] == b[0] {
        lemma_chars_lt_total(a.drop_first(), b.drop_first());
        if a.drop_first() == b.drop_first() {
            assert(a =~= seq![a[0]] + a.drop_first());
            assert(b =~= seq![b[0]] + b.drop_first());
        }
    } else if a.len() == 0 && b.len() == 0 {
        assert(a =~= b);
    }
}

/// Whether `a` comes before `b` in code-point order.
pub fn chars_less(a: &[char], b: &[char]) -> (r: bool)
    ensures
        r == chars_lt(a@, b@),
{
    let mut i: usize = 0;
    assert(a@.skip(0) =~= a@);
    assert(b@.skip(0) =~= b@);
    while i < a.len() && i < b.len()
        invariant
            i <= a@.len(),
            i <= b@.len(),
            chars_lt(a@, b@) == chars_lt(a@.skip(i as int), b@.skip(i as int)),
        decreases a@.len() - i,
    {
        if a[i] != b[i] {
            return a[i] < b[i];
        }
        assert(a@.skip(i as int).drop_first() =~= a@.skip(i + 1));
        assert(b@.skip(i as int).drop_first() =~= b@.skip(i + 1));
        i = i + 1;
    }
    i == a.len() && i < b.len()
}

/// Strictly increasing in code-point order.
pub open spec fn strictly_sorted(v: Seq<Seq<char>>) -> bool {
    forall|i: int, j: int| #![trigger v[i], v[j]] 0 <= i < j < v.len() ==> chars_lt(v[i], v[j])
}

/// The strings of a finite set in increasing code-point order.
pub open spec fn sorted_names(names: Set<Seq<char>>) -> Seq<Seq<char>> {
    choose|q: Seq<Seq<char>>| strictly_sorted(q) && q.to_set() == names
}

/// Two strictly increasing sequences of the same strings are the same sequence.
pub proof fn lemma_sorted_unique(a: Seq<Seq<char>>, b: Seq<Seq<char>>)
    requires
        strictly_sorted(a),
        strictly_sorted(b),
        a.to_set() == b.to_set(),
    ensures
        a == b,
    decreases a.len(),
{
    if a.len() == 0 {
        if b.len() > 0 {
            assert(b.to_set().contains(b[0]));
            assert(!a.to_set().contains(b[0]));
        }
        assert(a =~= b);
    } else {
        assert(a.to_set().contains(a[0]));
        assert(b.to_set().contains(a[0]));
        let j = choose|j: int| 0 <= j < b.len() && b[j] == a[0];
        assert(b.to_set().contains(b[0]));
        assert(a.to_set().contains(b[0]));
        let i = choose|i: int| 0 <= i < a.len() && a[i] == b[0];
        if j > 0 {
            assert(chars_lt(b[0], b[j]));
            if i == 0 {
                lemma_chars_lt_irreflexive(a[0]);
            } else {
                assert(chars_lt(a[0], a[i]));
                lemma_chars_lt_transitive(a[0], b[0], a[0]);
                lemma_chars_lt_irreflexive(a[0]);
            }
        }
        assert(a[0] == b[0]);
        let a1 = a.drop_first();
        let b1 = b.drop_first();
        assert(a1.to_set() =~= b1.to_set()) by {
            assert forall|x: Seq<char>| a1.to_set().contains(x) implies b1.to_set().contains(x) by {
                let k = choose|k: int| 0 <= k < a1.len() && a1[k] == x;
                assert(a[k + 1] == x);
                assert(a.to_set().contains(x));
                let m = choose|m: int| 0 <= m < b.len() && b[m] == x;
                if m == 0 {
                    assert(chars_lt(a[0], a[k + 1]));
                    lemma_chars_lt_irreflexive(a[0]);
                }
                assert(b1[m - 1] == x);
            }
            assert forall|x: Seq<char>| b1.to_set().contains(x) implies a1.to_set().contains(x) by {
                let k = choose|k: int| 0 <= k < b1.len() && b1[k] == x;
                assert(b[k + 1] == x);
                assert(b.to_set().contains(x));
                let m = choose|m: int| 0 <= m < a.len() && a[m] == x;
                if m == 0 {
                    assert(chars_lt(b[0], b[k + 1]));
                    lemma_chars_lt_irreflexive(b[0]);
                }
                assert(a1[m - 1] == x);
            }
        }
        assert forall|p: int, q: int| 0 <= p < q < a1.len() implies chars_lt(a1[p], a1[q]) by {
            assert(a1[p] == a[p + 1] && a1[q] == a[q + 1]);
        }
        assert forall|p: int, q: int| 0 <= p < q < b1.len() implies chars_lt(b1[p], b1[q]) by {
            assert(b1[p] == b[p + 1] && b1[q] == b[q + 1]);
        }
        lemma_sorted_unique(a1, b1);
        assert(a =~= b) by {
            assert forall|k: int| 0 <= k < a.len() implies a[k] == b[k] by {
                if k > 0 {
                    assert(a[k] == a1[k - 1] && b[k] == b1[k - 1]);
                }
            }
        }
    }
}

/// A strictly increasing sequence is the sorted sequence of its strings.
pub proof fn lemma_sorted_names(v: Seq<Seq<char>>)
    requires
        strictly_sorted(v),
    ensures
        sorted_names(v.to_set()) == v,
{
    let q = sorted_names(v.to_set());
    assert(strictly_sorted(v) && v.to_set() == v.to_set());
    lemma_sorted_unique(q, v);
}

/// Adds `x` to a strictly sorted sequence of strings, unless it is there already.
pub fn insert_sorted_unique(v: &mut Vec<Vec<char>>, x: Vec<char>)
    requires
        strictly_sorted(old(v)@.map_values(|s: Vec<char>| s@)),
    ensures
        strictly_sorted(final(v)@.map_values(|s: Vec<char>| s@)),
        final(v)@.map_values(|s: Vec<char>| s@).to_set() == old(v)@.map_values(|s: Vec<char>| s@).to_set().insert(x@),
{
    let ghost vs = v@.map_values(|s: Vec<char>| s@);
    let mut i: usize = 0;
    while i < v.len()
        invariant
            vs == v@.map_values(|s: Vec<char>| s@),
            i <= v@.len(),
            forall|j: int| 0 <= j < i ==> chars_lt(#[trigger] vs[j], x@),
        ensures
            vs == v@.map_values(|s: Vec<char>| s@),
            i <= v@.len(),
            forall|j: int| 0 <= j < i ==> chars_lt(#[trigger] vs[j], x@),
            i < v@.len() ==> !chars_lt(vs[i as int], x@),
        decreases v@.len() - i,
    {
        if !chars_less(v[i].as_slice(), x.as_slice()) {
            break;
        }
        i = i + 1;
    }
    if i < v.len() && chars_eq(v[i].as_slice(), x.as_slice()) {
        assert(vs[i as int] == x@);
        assert(vs.to_set().insert(x@) =~= vs.to_set()) by {
            assert(vs.to_set().contains(vs[i as int]));
        }
        return;
    }
    proof {
        if i < vs.len() {
            lemma_chars_lt_total(vs[i as int], x@);
            assert(chars_lt(x@, vs[i as int]));
        }
    }
    v.insert(i, x);
    proof {
        let ws = v@.map_values(|s: Vec<char>| s@);
        assert(ws =~= vs.insert(i as int, x@));
        assert forall|a: int, b: int| #![trigger ws[a], ws[b]] 0 <= a < b < ws.len() implies chars_lt(ws[a], ws[b]) by {
            if b < i {
            } else if a < i && b == i {
            } else if a < i && b > i {
                assert(chars_lt(vs[a], vs[b - 1]));
            } else if a == i {
                assert(ws[a] == x@);
                assert(ws[b] == vs[b - 1]);
                if b - 1 > i {
                    assert(chars_lt(vs[i as int], vs[b - 1]));
                    lemma_chars_lt_transitive(x@, vs[i as int], vs[b - 1]);
                }
            } else {
                assert(chars_lt(vs[a - 1], vs[b - 1]));
            }
        }
        assert(ws.to_set() =~= vs.to_set().insert(x@)) by {
            assert forall|e: Seq<char>| ws.to_set().contains(e) <==> vs.to_set().insert(x@).contains(e) by {
                if ws.to_set().contains(e) {
                    let k = choose|k: int| 0 <= k < ws.len() && ws[k] == e;
                    if k < i {
                        assert(vs[k] == e);
                    } else if k > i {
                        assert(vs[k - 1] == e);
                    }
                }
                if vs.to_set().contains(e) {
                    let k = choose|k: int| 0 <= k < vs.len() && vs[k] == e;
                    if k < i {
                        assert(ws[k] == e);
                    } else {
                        assert(ws[k + 1] == e);
                    }
                }
                if e == x@ {
                    assert(ws[i as int] == e);
                }
            }
        }
    }
}

/// Whether `p` occurs in `s` at index `i`.
pub open spec fn occurs_at(s: Seq<char>, p: Seq<char>, i: int) -> bool {
    0 <= i && i + p.len() <= s.len() && s.subrange(i, i + p.len()) == p
}

/// The first index at or after `i` where `p` occurs in `s`.
pub open spec fn find_from(s: Seq<char>, p: Seq<char>, i: int) -> Option<int>
    decreases s.len() + 1 - i,
{
    if i < 0 || i + p.len() > s.len() {
        None
    } else if occurs_at(s, p, i) {
        Some(i)
    } else {
        find_from(s, p, i + 1)
    }
}

/// `str::find`: the first index where `p` occurs in `s`.
pub open spec fn find(s: Seq<char>, p: Seq<char>) -> Option<int> {
    find_from(s, p, 0)
}

/// `str::starts_with`.
pub open spec fn starts_with(s: Seq<char>, p: Seq<char>) -> bool {
    occurs_at(s, p, 0)
}

pub proof fn lemma_find_from_bounds(s: Seq<char>, p: Seq<char>, i: int)
    ensures
        find_from(s, p, i) matches Some(k) ==> i <= k && occurs_at(s, p, k),
    decreases s.len() + 1 - i,
{
    if !(i < 0 || i + p.len() > s.len()) && !occurs_at(s, p, i) {
        lemma_find_from_bounds(s, p, i + 1);
    }
}

/// Whether `p` occurs in `s` at `i`.
pub fn occurs_at_exec(s: &[char], p: &[char], i: usize) -> (r: bool)
    ensures
        r == occurs_at(s@, p@, i as int),
{
    if p.len() > s.len() || i > s.len() - p.len() {
        return false;
    }
    let mut k: usize = 0;
    let n = s.len();
    while k < p.len()
        invariant
            n == s@.len(),
            i + p@.len() <= s@.len(),
            k <= p@.len(),
            forall|m: int| 0 <= m < k ==> s@[i + m] == p@[m],
        decreases p@.len() - k,
    {
        if s[i + k] != p[k] {
            assert(s@.subrange(i as int, i + p@.len())[k as int] != p@[k as int]);
            return false;
        }
        k += 1;
    }
    assert(s@.subrange(i as int, i + p@.len()) =~= p@);
    true
}

/// `str::find` from index `from`.
pub fn find_exec(s: &[char], p: &[char], from: usize) -> (r: Option<usize>)
    ensures
        match r {
            Some(k) => find_from(s@, p@, from as int) == Some(k as int),
            None => find_from(s@, p@, from as int) is None,
        },
{
    let mut i = from;
    let n = s.len();
    while i <= s.len()
        invariant
            n == s@.len(),
            from <= i,
            find_from(s@, p@, i as int) == find_from(s@, p@, from as int),
        decreases s@.len() + 1 - i,
    {
        if occurs_at_exec(s, p, i) {
            return Some(i);
        }
        if p.len() > s.len() || i > s.len() - p.len() {
            return None;
        }
        if p.len() == 0 {
            assert(s@.subrange(i as int, i as int) =~= p@);
        }
        i += 1;
    }
    None
}

/// The last index below `j` holding `c`.
pub open spec fn rfind_char_before(s: Seq<char>, c: char, j: int) -> Option<int>
    decreases j,
{
    if j <= 0 || j > s.len() {
        None
    } else if s[j - 1] == c {
        Some(j - 1)
    } else {
        rfind_char_before(s, c, j - 1)
    }
}

/// `str::rfind` with a character.
pub open spec fn rfind_char(s: Seq<char>, c: char) -> Option<int> {
    rfind_char_before(s, c, s.len() as int)
}

pub proof fn lemma_rfind_bounds(s: Seq<char>, c: char, j: int)
    ensures
        rfind_char_before(s, c, j) matches Some(k) ==> 0 <= k < j && s[k] == c,
    decreases j,
{
    if !(j <= 0 || j > s.len()) && s[j - 1] != c {
        lemma_rfind_bounds(s, c, j - 1);
    }
}

pub fn rfind_char_exec(s: &[char], c: char) -> (r: Option<usize>)
    ensures
        match r {
            Some(k) => rfind_char(s@, c) == Some(k as int),
            None => rfind_char(s@, c) is None,
        },
{
    let mut j: usize = s.len();
    while j > 0
        invariant
            j <= s@.len(),
            rfind_char_before(s@, c, j as int) == rfind_char(s@, c),
        decreases j,
    {
        if s[j - 1] == c {
            return Some(j - 1);
        }
        j -= 1;
    }
    None
}

/// `str::split` with a character: the pieces between occurrences of `c`.
pub open spec fn split_char(s: Seq<char>, c: char) -> Seq<Seq<char>>
    decreases s.len(),
{
    if s.len() == 0 {
        seq![Seq::empty()]
    } else {
        let prev = split_char(s.drop_last(), c);
        if s.last() == c {
            prev.push(Seq::empty())
        } else {
            prev.update(prev.len() - 1, prev.last().push(s.last()))
        }
    }
}

pub proof fn lemma_split_char_nonempty(s: Seq<char>, c: char)
    ensures
        split_char(s, c).len() >= 1,
    decreases s.len(),
{
    if s.len() > 0 {
        lemma_split_char_nonempty(s.drop_last(), c);
    }
}

/// `str::split` with a character.
pub fn split_char_exec(s: &[char], c: char) -> (r: Vec<Vec<char>>)
    ensures
        r@.map_values(|v: Vec<char>| v@) == split_char(s@, c),
{
    let mut pieces: Vec<Vec<char>> = Vec::new();
    let mut cur: Vec<char> = Vec::new();
    let mut i: usize = 0;
    assert(s@.take(0) =~= Seq::<char>::empty());
    while i < s.len()
        invariant
            i <= s@.len(),
            pieces@.map_values(|v: Vec<char>| v@).push(cur@) == split_char(s@.take(i as int), c),
        decreases s@.len() - i,
    {
        let ghost prev = pieces@.map_values(|v: Vec<char>| v@).push(cur@);
        assert(s@.take(i + 1).drop_last() =~= s@.take(i as int));
        proof {
            lemma_split_char_nonempty(s@.take(i as int), c);
        }
        if s[i] == c {
            let done = cur;
            pieces.push(done);
            cur = Vec::new();
            assert(pieces@.map_values(|v: Vec<char>| v@).push(cur@) =~= prev.push(Seq::empty()));
        } else {
            cur.push(s[i]);
            assert(pieces@.map_values(|v: Vec<char>| v@).push(cur@) =~= prev.update(
                prev.len() - 1,
                prev.last().push(s@[i as int]),
            ));
        }
        i += 1;
    }
    assert(s@.take(i as int) =~= s@);
    pieces.push(cur);
    assert(pieces@.map_values(|v: Vec<char>| v@) =~= split_char(s@, c));
    pieces
}

/// Whitespace-separated tokens gathered left to right: the finished tokens and the one in
/// progress.
pub open spec fn ws_fold(s: Seq<char>) -> (Seq<Seq<char>>, Seq<char>)
    decreases s.len(),
{
    if s.len() == 0 {
        (Seq::empty(), Seq::empty())
    } else {
        let (toks, cur) = ws_fold(s.drop_last());
        if is_ws(s.last()) {
            if cur.len() > 0 {
                (toks.push(cur), Seq::empty())
            } else {
                (toks, cur)
            }
        } else {
            (toks, cur.push(s.last()))
        }
    }
}

/// A word: non-empty, with no whitespace in it.
pub open spec fn is_word(w: Seq<char>) -> bool {
    w.len() > 0 && forall|i: int| 0 <= i < w.len() ==> !is_ws(#[trigger] w[i])
}

/// Characters with no whitespace among them extend the token in progress.
proof fn lemma_ws_fold_extend(p: Seq<char>, q: Seq<char>)
    requires
        forall|i: int| 0 <= i < q.len() ==> !is_ws(#[trigger] q[i]),
    ensures
        ws_fold(p + q) == (ws_fold(p).0, ws_fold(p).1 + q),
    decreases q.len(),
{
    if q.len() == 0 {
        assert(p + q =~= p);
        assert(ws_fold(p).1 + q =~= ws_fold(p).1);
    } else {
        let q0 = q.drop_last();
        lemma_ws_fold_extend(p, q0);
        assert((p + q).drop_last() =~= p + q0);
        assert((p + q).last() == q.last());
        assert(!is_ws(q[q.len() - 1]));
        assert(ws_fold(p).1 + q0 + seq![q.last()] =~= ws_fold(p).1 + q);
        assert((ws_fold(p).1 + q0).push(q.last()) =~= ws_fold(p).1 + q);
    }
}

/// Two words with a space between them are its two tokens; a word alone is its only token.
pub proof fn lemma_tokens_of_words(a: Seq<char>, b: Seq<char>)
    requires
        is_word(a),
        is_word(b),
    ensures
        tokens(a + " "@ + b) == seq![a, b],
        tokens(a) == seq![a],
{
    reveal_strlit(" ");
    lemma_ws_fold_extend(Seq::empty(), a);
    assert(Seq::<char>::empty() + a =~= a);
    assert(ws_fold(Seq::<char>::empty()) == (Seq::<Seq<char>>::empty(), Seq::<char>::empty()));
    assert(Seq::<char>::empty() + a =~= a);
    assert(ws_fold(a) == (Seq::<Seq<char>>::empty(), a));
    let sp = a + " "@;
    assert(sp.drop_last() =~= a);
    assert(is_ws(sp.last()));
    assert(ws_fold(sp) == (seq![a], Seq::<char>::empty()));
    lemma_ws_fold_extend(sp, b);
    assert(Seq::<char>::empty() + b =~= b);
    assert(ws_fold(a + " "@ + b) == (seq![a], b));
    assert(seq![a].push(b) =~= seq![a, b]);
    assert(Seq::<Seq<char>>::empty().push(a) =~= seq![a]);
}

/// Text that starts and ends with a non-whitespace character, after one space, trims to itself.
pub proof fn lemma_trim_after_space(x: Seq<char>)
    requires
        x.len() > 0,
        !is_ws(x[0]),
        !is_ws(x.last()),
    ensures
        trim(" "@ + x) == x,
{
    reveal_strlit(" ");
    let s = " "@ + x;
    assert(s[0] == ' ');
    assert(s[1] == x[0]);
    assert(skip_ws(s, 1) == 1);
    assert(skip_ws(s, 0) == 1);
    assert(trim_start(s) =~= x);
    assert(back_ws(x, x.len() as int) == x.len());
    assert(trim_end(x) =~= x);
}

/// Every token gathered so far is a stretch of the text, and the one in progress ends it.
proof fn lemma_ws_fold_pieces(s: Seq<char>)
    ensures
        forall|i: int| 0 <= i < ws_fold(s).0.len() ==> exists|a: int, b: int|
            0 <= a <= b <= s.len() && #[trigger] ws_fold(s).0[i] == s.subrange(a, b),
        ws_fold(s).1.len() <= s.len(),
        ws_fold(s).1 == s.subrange(s.len() - ws_fold(s).1.len(), s.len() as int),
    decreases s.len(),
{
    if s.len() > 0 {
        let d = s.drop_last();
        lemma_ws_fold_pieces(d);
        let (toks, cur) = ws_fold(d);
        assert(d =~= s.subrange(0, s.len() - 1));
        assert forall|i: int| 0 <= i < toks.len() implies exists|a: int, b: int|
            0 <= a <= b <= s.len() && #[trigger] toks[i] == s.subrange(a, b) by {
            let (a, b) = choose|a: int, b: int| 0 <= a <= b <= d.len() && #[trigger] toks[i] == d.subrange(a, b);
            assert(d.subrange(a, b) =~= s.subrange(a, b));
        }
        assert(cur =~= s.subrange(d.len() - cur.len(), d.len() as int));
        if is_ws(s.last()) {
            if cur.len() > 0 {
                let t2 = toks.push(cur);
                assert forall|i: int| 0 <= i < t2.len() implies exists|a: int, b: int|
                    0 <= a <= b <= s.len() && #[trigger] t2[i] == s.subrange(a, b) by {
                    if i == toks.len() {
                        assert(t2[i] == s.subrange(d.len() - cur.len(), d.len() as int));
                    } else {
                        assert(t2[i] == toks[i]);
                    }
                }
            }
            assert(Seq::<char>::empty() =~= s.subrange(s.len() as int, s.len() as int));
        } else {
            assert(cur.push(s.last()) =~= s.subrange(s.len() - cur.len() - 1, s.len() as int));
        }
    }
}

/// Every token of a text is a stretch of it.
pub proof fn lemma_tokens_are_stretches(s: Seq<char>, i: int)
    requires
        0 <= i < tokens(s).len(),
    ensures
        exists|a: int, b: int| 0 <= a <= b <= s.len() && tokens(s)[i] == s.subrange(a, b),
{
    lemma_ws_fold_pieces(s);
    let (toks, cur) = ws_fold(s);
    if i < toks.len() {
        assert(tokens(s)[i] == toks[i]);
    } else {
        assert(tokens(s)[i] == cur);
    }
}

/// Trimmed text is a stretch of the text.
pub proof fn lemma_trim_stretch(s: Seq<char>)
    ensures
        exists|a: int, b: int| 0 <= a <= b <= s.len() && trim(s) == s.subrange(a, b),
{
    let k = skip_ws(s, 0);
    lemma_skip_ws_bounds(s, 0);
    let u = s.skip(k);
    let b = back_ws(u, u.len() as int);
    lemma_back_ws_bounds(u, u.len() as int);
    assert(trim(s) =~= s.subrange(k, k + b));
}

/// ASCII upper-casing a stretch is taking the stretch of the upper-cased text.
pub proof fn lemma_upper_stretch(s: Seq<char>, a: int, b: int)
    requires
        0 <= a <= b <= s.len(),
    ensures
        upper(s.subrange(a, b)) == upper(s).subrange(a, b),
{
    assert(upper(s.subrange(a, b)) =~= upper(s).subrange(a, b));
}

/// `str::split_whitespace`: the maximal runs of non-whitespace characters.
pub open spec fn tokens(s: Seq<char>) -> Seq<Seq<char>> {
    let (toks, cur) = ws_fold(s);
    if cur.len() > 0 {
        toks.push(cur)
    } else {
        toks
    }
}

/// `str::split_whitespace`.
pub fn tokens_exec(s: &[char]) -> (r: Vec<Vec<char>>)
    ensures
        r@.map_values(|v: Vec<char>| v@) == tokens(s@),
{
    let mut toks: Vec<Vec<char>> = Vec::new();
    let mut cur: Vec<char> = Vec::new();
    let mut i: usize = 0;
    assert(s@.take(0) =~= Seq::<char>::empty());
    while i < s.len()
        invariant
            i <= s@.len(),
            (toks@.map_values(|v: Vec<char>| v@), cur@) == ws_fold(s@.take(i as int)),
        decreases s@.len() - i,
    {
        assert(s@.take(i + 1).drop_last() =~= s@.take(i as int));
        let ghost t0 = toks@.map_values(|v: Vec<char>| v@);
        if is_whitespace(s[i]) {
            if cur.len() > 0 {
                let done = cur;
                toks.push(done);
                cur = Vec::new();
                assert(toks@.map_values(|v: Vec<char>| v@) =~= t0.push(done@));
            }
        } else {
            cur.push(s[i]);
        }
        i += 1;
    }
    assert(s@.take(i as int) =~= s@);
    if cur.len() > 0 {
        let ghost t0 = toks@.map_values(|v: Vec<char>| v@);
        let done = cur;
        toks.push(done);
        assert(toks@.map_values(|v: Vec<char>| v@) =~= t0.push(done@));
    }
    toks
}

/// Whether two character sequences are equal.
pub fn chars_eq(a: &[char], b: &[char]) -> (r: bool)
    ensures
        r == (a@ == b@),
{
    if a.len() != b.len() {
        return false;
    }
    let mut i: usize = 0;
    while i < a.len()
        invariant
            a@.len() == b@.len(),
            i <= a@.len(),
            forall|j: int| 0 <= j < i ==> a@[j] == b@[j],
        decreases a@.len() - i,
    {
        if a[i] != b[i] {
            return false;
        }
        i += 1;
    }
    assert(a@ =~= b@);
    true
}

/// Whether two character sequences are equal ignoring ASCII case.
pub fn chars_eq_ignore_case(a: &[char], b: &[char]) -> (r: bool)
    ensures
        r == (upper(a@) == upper(b@)),
{
    let ua = to_upper(a);
    let ub = to_upper(b);
    chars_eq(ua.as_slice(), ub.as_slice())
}

/// The value of a sequence of decimal digits.
pub open spec fn digits_value(d: Seq<char>) -> nat
    decreases d.len(),
{
    if d.len() == 0 {
        0
    } else {
        digits_value(d.drop_last()) * 10 + ((d.last() as u32) - ('0' as u32)) as nat
    }
}

pub open spec fn is_digit(c: char) -> bool {
    '0' <= c && c <= '9'
}

/// The digits part of a number: `s` without one leading `+`.
pub open spec fn digits_part(s: Seq<char>) -> Seq<char> {
    if s.len() > 0 && s[0] == '+' {
        s.drop_first()
    } else {
        s
    }
}

pub open spec fn all_digits(d: Seq<char>) -> bool {
    forall|i: int| 0 <= i < d.len() ==> is_digit(#[trigger] d[i])
}

/// `str::parse::<usize>`: an optional `+` followed by at least one decimal digit, within range.
pub open spec fn parse_usize(s: Seq<char>) -> Option<usize> {
    let d = digits_part(s);
    if d.len() == 0 || !all_digits(d) {
        None
    } else if digits_value(d) > usize::MAX {
        None
    } else {
        Some(digits_value(d) as usize)
    }
}

proof fn lemma_digits_value_mono(d: Seq<char>, k: int)
    requires
        0 <= k <= d.len(),
        forall|i: int| 0 <= i < d.len() ==> is_digit(#[trigger] d[i]),
    ensures
        digits_value(d.take(k)) <= digits_value(d),
    decreases d.len() - k,
{
    if k < d.len() {
        assert(d.take(k + 1).drop_last() =~= d.take(k));
        lemma_digits_value_mono(d, k + 1);
    } else {
        assert(d.take(k) =~= d);
    }
}

/// `str::parse::<usize>`.
pub fn parse_usize_exec(s: &[char]) -> (r: Option<usize>)
    ensures
        r == parse_usize(s@),
{
    let start: usize = if s.len() > 0 && s[0] == '+' {
        1
    } else {
        0
    };
    let ghost d = digits_part(s@);
    assert(d =~= s@.skip(start as int));
    if start >= s.len() {
        return None;
    }
    let mut v: usize = 0;
    let mut i = start;
    while i < s.len()
        invariant
            start <= i <= s@.len(),
            d == s@.skip(start as int),
            d == digits_part(s@),
            d.len() > 0,
            forall|j: int| start <= j < i ==> is_digit(#[trigger] s@[j]),
            v == digits_value(d.take(i - start)),
        decreases s@.len() - i,
    {
        let c = s[i];
        if !('0' <= c && c <= '9') {
            assert(!is_digit(d[i - start]));
            assert(!all_digits(d));
            return None;
        }
        let digit = (c as u32 - '0' as u32) as usize;
        assert(d.take(i + 1 - start).drop_last() =~= d.take(i - start));
        if v > (usize::MAX - digit) / 10 {
            proof {
                let k = i + 1 - start;
                assert(d.take(k).last() == c);
                assert(digits_value(d.take(k)) == v * 10 + digit);
                assert(v * 10 + digit > usize::MAX) by (nonlinear_arith)
                    requires
                        v > (usize::MAX - digit) / 10,
                        digit <= 9,
                ;
                if all_digits(d) {
                    lemma_digits_value_mono(d, k);
                }
            }
            return None;
        }
        assert(v * 10 + digit <= usize::MAX) by (nonlinear_arith)
            requires
                v <= (usize::MAX - digit) / 10,
                digit <= 9,
        ;
        v = v * 10 + digit;
        i += 1;
    }
    assert(d.take(i - start) =~= d);
    Some(v)
}

} // verus!
