//! PostgreSQL wire-protocol messages: bytes in, values out, and the reverse.
use crate::codec::{be_u16, be_u16_value, be_u32, be_u32_value, push_bytes, push_u32_be, read_u16_be, read_u32_be};
use crate::text::{split_char, split_char_exec, starts_with, trim, trim_char, trim_char_exec, trim_chars, vstrings, occurs_at_exec, strings_view, chars_of, find, find_exec, find_from, lemma_find_from_bounds, string_of, subseq};
use vstd::prelude::*;
use vstd::utf8::{decode_utf8, encode_utf8, valid_utf8};

verus! {

/// The text that `String::from_utf8_lossy` makes of `bytes`.
pub uninterp spec fn utf8_lossy(bytes: Seq<u8>) -> Seq<char>;

/// `String::from_utf8_lossy`: the text of `bytes`, invalid sequences replaced by U+FFFD. The
/// contract names the result and, as the documentation says, gives the exact decoding when the
/// bytes are valid UTF-8.
#[verifier::external_body]
pub(crate) fn string_from_utf8_lossy(bytes: &[u8]) -> (s: String)
    ensures
        s@ == utf8_lossy(bytes@),
        valid_utf8(bytes@) ==> s@ == decode_utf8(bytes@),
{
    String::from_utf8_lossy(bytes).into_owned()
}

/// The decimal digits of `n`.
pub open spec fn decimal(n: nat) -> Seq<char>
    decreases n,
{
    if n < 10 {
        seq![((n + 48) as u32) as char]
    } else {
        decimal(n / 10).push((((n % 10) + 48) as u32) as char)
    }
}

/// The decimal digits of `n`.
pub fn decimal_exec(n: usize) -> (r: Vec<char>)
    ensures
        r@ == decimal(n as nat),
    decreases n,
{
    let d = (n % 10) as u32 + 48;
    let c: char = if d == 48 { '0' } else if d == 49 { '1' } else if d == 50 { '2' } else if d == 51 {
        '3'
    } else if d == 52 { '4' } else if d == 53 { '5' } else if d == 54 { '6' } else if d == 55 {
        '7'
    } else if d == 56 { '8' } else { '9' };
    assert(c == (d as char));
    if n < 10 {
        let mut v: Vec<char> = Vec::new();
        v.push(c);
        assert(v@ =~= decimal(n as nat));
        v
    } else {
        let mut v = decimal_exec(n / 10);
        v.push(c);
        v
    }
}

/// The placeholder `$k`.
pub open spec fn placeholder(k: nat) -> Seq<char> {
    seq!['$'] + decimal(k)
}

/// `s` with every occurrence of `p` (scanned left to right, not overlapping) replaced by `r`.
pub open spec fn replace_all(s: Seq<char>, p: Seq<char>, r: Seq<char>) -> Seq<char>
    decreases s.len(),
{
    if p.len() == 0 {
        s
    } else {
        match find(s, p) {
            None => s,
            Some(i) => {
                proof {
                    lemma_find_from_bounds(s, p, 0);
                }
                s.take(i) + r + replace_all(s.skip(i + p.len()), p, r)
            },
        }
    }
}

/// The template after binding the first `n` parameters, `$1` first.
pub open spec fn substituted(sql: Seq<char>, params: Seq<Seq<char>>, n: nat) -> Seq<char>
    decreases n,
{
    if n == 0 {
        sql
    } else {
        replace_all(substituted(sql, params, (n - 1) as nat), placeholder(n), params[n - 1])
    }
}

proof fn lemma_find_from_shift(s: Seq<char>, p: Seq<char>, j: int, i: int)
    requires
        0 <= j <= i,
        j <= s.len(),
    ensures
        find_from(s, p, i) == match find_from(s.skip(j), p, i - j) {
            Some(k) => Some(k + j),
            None => None::<int>,
        },
    decreases s.len() + 1 - i,
{
    let t = s.skip(j);
    if i + p.len() > s.len() {
    } else {
        assert(occurs_at(s, p, i) == occurs_at(t, p, i - j)) by {
            if i + p.len() <= s.len() {
                assert(s.subrange(i, i + p.len()) =~= t.subrange(i - j, i - j + p.len()));
            }
        }
        if !occurs_at(s, p, i) {
            lemma_find_from_shift(s, p, j, i + 1);
        }
    }
}

use crate::text::occurs_at;

/// Replaces every occurrence of `p` in `s` by `r`, as `str::replace` does.
fn replace_exec(s: &[char], p: &[char], r: &[char]) -> (out: Vec<char>)
    requires
        p@.len() > 0,
    ensures
        out@ == replace_all(s@, p@, r@),
{
    let mut out: Vec<char> = Vec::new();
    let mut j: usize = 0;
    let n = s.len();
    assert(s@.skip(0) =~= s@);
    assert(out@ + replace_all(s@, p@, r@) =~= replace_all(s@, p@, r@));
    loop
        invariant
            j <= s@.len(),
            n == s@.len(),
            p@.len() > 0,
            out@ + replace_all(s@.skip(j as int), p@, r@) == replace_all(s@, p@, r@),
        decreases s@.len() - j,
    {
        let ghost t = s@.skip(j as int);
        proof {
            lemma_find_from_shift(s@, p@, j as int, j as int);
            lemma_find_from_bounds(s@, p@, j as int);
        }
        match find_exec(s, p, j) {
            None => {
                let tail = subseq(s, j, n);
                let ghost before = out@;
                let mut k: usize = 0;
                while k < tail.len()
                    invariant
                        k <= tail@.len(),
                        out@ == before + tail@.take(k as int),
                    decreases tail@.len() - k,
                {
                    out.push(tail[k]);
                    k += 1;
                    assert(out@ =~= before + tail@.take(k as int));
                }
                assert(tail@.take(k as int) =~= t);
                assert(out@ =~= before + replace_all(t, p@, r@));
                return out;
            },
            Some(i) => {
                let ghost before = out@;
                let ghost k0 = i - j;
                let mut k = j;
                while k < i
                    invariant
                        j <= k <= i,
                        i <= s@.len(),
                        out@ == before + s@.subrange(j as int, k as int),
                    decreases i - k,
                {
                    out.push(s[k]);
                    k += 1;
                    assert(out@ =~= before + s@.subrange(j as int, k as int));
                }
                let ghost mid = out@;
                let mut m: usize = 0;
                while m < r.len()
                    invariant
                        m <= r@.len(),
                        out@ == mid + r@.take(m as int),
                    decreases r@.len() - m,
                {
                    out.push(r[m]);
                    m += 1;
                    assert(out@ =~= mid + r@.take(m as int));
                }
                assert(r@.take(m as int) =~= r@);
                assert(t.take(k0) =~= s@.subrange(j as int, i as int));
                assert(t.skip(k0 + p@.len()) =~= s@.skip(i + p@.len()));
                assert(out@ + replace_all(s@.skip(i + p@.len()), p@, r@) =~= before + replace_all(t, p@, r@));
                j = i + p.len();
            },
        }
    }
}

/// Substitutes `$1`, `$2`, ... placeholders in a SQL template with bound values, one after
/// the other.
pub fn substitute_params(sql: &str, params: &[String]) -> (r: String)
    ensures
        r@ == substituted(sql@, params@.map_values(|s: String| s@), params@.len()),
{
    let ghost ps = params@.map_values(|s: String| s@);
    let mut cur = chars_of(sql);
    let mut i: usize = 0;
    while i < params.len()
        invariant
            i <= params@.len(),
            ps == params@.map_values(|s: String| s@),
            cur@ == substituted(sql@, ps, i as nat),
        decreases params@.len() - i,
    {
        let mut ph: Vec<char> = Vec::new();
        ph.push('$');
        let digits = decimal_exec(i + 1);
        let mut k: usize = 0;
        while k < digits.len()
            invariant
                k <= digits@.len(),
                ph@ == seq!['$'] + digits@.take(k as int),
            decreases digits@.len() - k,
        {
            ph.push(digits[k]);
            k += 1;
            assert(ph@ =~= seq!['$'] + digits@.take(k as int));
        }
        assert(digits@.take(k as int) =~= digits@);
        let value = chars_of(params[i].as_str());
        cur = replace_exec(cur.as_slice(), ph.as_slice(), value.as_slice());
        i += 1;
    }
    string_of(cur.as_slice())
}


/// The first zero byte of `b` at or after `from`, or the end of `b`.
pub open spec fn next_zero(b: Seq<u8>, from: int) -> int
    decreases b.len() - from,
{
    if from < 0 || from >= b.len() {
        b.len() as int
    } else if b[from] == 0 {
        from
    } else {
        next_zero(b, from + 1)
    }
}

proof fn lemma_next_zero(b: Seq<u8>, from: int)
    requires
        0 <= from <= b.len(),
    ensures
        from <= next_zero(b, from) <= b.len(),
        next_zero(b, from) < b.len() ==> b[next_zero(b, from)] == 0,
        forall|i: int| from <= i < next_zero(b, from) ==> b[i] != 0,
    decreases b.len() - from,
{
    if from < b.len() && b[from] != 0 {
        lemma_next_zero(b, from + 1);
    }
}

/// The first zero byte at or after `from`.
fn next_zero_exec(b: &[u8], from: usize) -> (r: usize)
    requires
        from <= b@.len(),
    ensures
        r == next_zero(b@, from as int),
{
    let mut i = from;
    while i < b.len() && b[i] != 0
        invariant
            from <= i <= b@.len(),
            next_zero(b@, from as int) == next_zero(b@, i as int),
        decreases b@.len() - i,
    {
        i = i + 1;
    }
    i
}

/// The statement name and SQL template of a Parse ('P') message body: the first two
/// zero-terminated strings (a missing one reads as empty).
pub open spec fn p_message(body: Seq<u8>) -> (Seq<char>, Seq<char>) {
    let z1 = next_zero(body, 0);
    let name = utf8_lossy(body.subrange(0, z1));
    let template = if z1 < body.len() {
        utf8_lossy(body.subrange(z1 + 1, next_zero(body, z1 + 1)))
    } else {
        utf8_lossy(Seq::empty())
    };
    (name, template)
}

/// Reads a Parse ('P') message body: the statement name and the SQL template.
pub fn parse_p_message(body: &[u8]) -> (r: (String, String))
    ensures
        (r.0@, r.1@) == p_message(body@),
{
    let z1 = next_zero_exec(body, 0);
    proof {
        lemma_next_zero(body@, 0);
    }
    let name_bytes = crate::codec::copy_range(body, 0, z1);
    let name = string_from_utf8_lossy(name_bytes.as_slice());
    let template = if z1 < body.len() {
        let z2 = next_zero_exec(body, z1 + 1);
        proof {
            lemma_next_zero(body@, z1 + 1);
        }
        let t = crate::codec::copy_range(body, z1 + 1, z2);
        string_from_utf8_lossy(t.as_slice())
    } else {
        let none: Vec<u8> = Vec::new();
        proof {
            assert(none@ =~= Seq::<u8>::empty());
        }
        string_from_utf8_lossy(none.as_slice())
    };
    (name, template)
}

/// The parameters of a Bind message from `off` on, `n` still announced: a big-endian signed
/// 4-byte length and that many bytes each; a length of zero or less, or one past the end,
/// yields no parameter, and a cut-short length field yields none.
pub open spec fn b_params(body: Seq<u8>, off: int, n: nat) -> Seq<Seq<char>>
    decreases n,
{
    if n == 0 {
        Seq::empty()
    } else if off + 4 <= body.len() {
        let plen = be_u32_value(body.subrange(off, off + 4)) as int;
        let o = off + 4;
        if 0 < plen < 0x8000_0000 && o + plen <= body.len() {
            seq![utf8_lossy(body.subrange(o, o + plen))] + b_params(body, o + plen, (n - 1) as nat)
        } else {
            b_params(body, o, (n - 1) as nat)
        }
    } else {
        b_params(body, off, (n - 1) as nat)
    }
}

/// The statement name and parameter values of a Bind ('B') message body: after the portal
/// name, the statement name, then the parameter format codes (skipped) and the values.
pub open spec fn b_message(body: Seq<u8>) -> (Seq<char>, Seq<Seq<char>>) {
    let stmt_start = next_zero(body, 0) + 1;
    let z2 = next_zero(body, stmt_start);
    let name = utf8_lossy(body.subrange(stmt_start, z2));
    let off = z2 + 1;
    let params = if off + 2 <= body.len() {
        let nf = be_u16_value(body.subrange(off, off + 2)) as int;
        let off2 = off + 2 + nf * 2;
        if off2 + 2 <= body.len() {
            b_params(body, off2 + 2, be_u16_value(body.subrange(off2, off2 + 2)) as nat)
        } else {
            Seq::empty()
        }
    } else {
        Seq::empty()
    };
    (name, params)
}

/// Whether a Bind body holds the zero byte that ends its portal name.
pub open spec fn has_zero(body: Seq<u8>) -> bool {
    exists|i: int| 0 <= i < body.len() && body[i] == 0
}


/// Reads a Bind ('B') message body: the statement name and the parameter values. The body
/// must hold a zero byte ending the portal name.
pub fn parse_b_message(body: &[u8]) -> (r: (String, Vec<String>))
    requires
        has_zero(body@),
    ensures
        (r.0@, strings_view(r.1@)) == b_message(body@),
{
    proof {
        lemma_next_zero(body@, 0);
        let i = choose|i: int| 0 <= i < body@.len() && body@[i] == 0;
        assert(next_zero(body@, 0) <= i);
        assert(next_zero(body@, 0) < body@.len());
    }
    let z1 = next_zero_exec(body, 0);
    let len0 = body.len();
    let stmt_start = z1 + 1;
    proof {
        lemma_next_zero(body@, stmt_start as int);
    }
    let z2 = next_zero_exec(body, stmt_start);
    let name_bytes = crate::codec::copy_range(body, stmt_start, z2);
    let stmt_name = string_from_utf8_lossy(name_bytes.as_slice());
    let len = body.len();
    let mut params: Vec<String> = Vec::new();
    if z2 < len && len - (z2 + 1) >= 2 {
        let off = z2 + 1;
        let nf = read_u16_be(body, off) as usize;
        if nf * 2 <= len - off - 2 && len - off - 2 - nf * 2 >= 2 {
            let off2 = off + 2 + nf * 2;
            let np = read_u16_be(body, off2) as usize;
            let mut offset = off2 + 2;
            let mut k: usize = 0;
            let ghost goal = b_params(body@, offset as int, np as nat);
            proof {
                assert(strings_view(params@) =~= Seq::<Seq<char>>::empty());
                assert(goal =~= strings_view(params@) + b_params(body@, offset as int, (np - k) as nat));
            }
            while k < np
                invariant
                    k <= np,
                    offset <= len,
                    len == body@.len(),
                    goal == strings_view(params@) + b_params(body@, offset as int, (np - k) as nat),
                decreases np - k,
            {
                let ghost prev = strings_view(params@);
                if len - offset >= 4 {
                    let plen = read_u32_be(body, offset);
                    let o = offset + 4;
                    if plen > 0 && plen < 0x8000_0000 && (plen as usize) <= len - o {
                        let p = crate::codec::copy_range(body, o, o + plen as usize);
                        let v = string_from_utf8_lossy(p.as_slice());
                        params.push(v);
                        proof {
                            assert(strings_view(params@) =~= prev.push(utf8_lossy(body@.subrange(o as int, o + plen))));
                            assert(prev + b_params(body@, offset as int, (np - k) as nat) =~= strings_view(params@) + b_params(body@, o + plen, (np - k - 1) as nat));
                        }
                        offset = o + plen as usize;
                    } else {
                        offset = o;
                    }
                }
                k = k + 1;
            }
            proof {
                assert(strings_view(params@) + Seq::<Seq<char>>::empty() =~= strings_view(params@));
            }
        }
    }
    proof {
        if !(z2 < len && len - (z2 + 1) >= 2) {
            assert(strings_view(params@) =~= Seq::<Seq<char>>::empty());
        }
    }
    (stmt_name, params)
}

/// Reads a Bind ('B') message body, or `None` when it holds no zero byte to end the portal
/// name.
pub fn try_parse_b_message(body: &[u8]) -> (r: Option<(String, Vec<String>)>)
    ensures
        has_zero(body@) <==> r is Some,
        r matches Some(m) ==> (m.0@, strings_view(m.1@)) == b_message(body@),
{
    let z1 = next_zero_exec(body, 0);
    proof {
        lemma_next_zero(body@, 0);
    }
    if z1 >= body.len() {
        proof {
            if has_zero(body@) {
                let i = choose|i: int| 0 <= i < body@.len() && body@[i] == 0;
                assert(body@[i] != 0);
            }
        }
        return None;
    }
    Some(parse_b_message(body))
}

/// A message: its type byte, the big-endian length of the body plus the length field itself,
/// and the body.
pub open spec fn framed(tag: u8, body: Seq<u8>) -> Seq<u8> {
    seq![tag] + be_u32((body.len() + 4) as u32) + body
}

fn frame(tag: u8, body: &[u8]) -> (r: Vec<u8>)
    requires
        body@.len() + 4 <= u32::MAX,
    ensures
        r@ == framed(tag, body@),
{
    let mut msg: Vec<u8> = Vec::new();
    msg.push(tag);
    push_u32_be(&mut msg, (body.len() + 4) as u32);
    push_bytes(&mut msg, body);
    assert(msg@ =~= framed(tag, body@));
    msg
}

/// A ParameterStatus ('S') message: the name and the value, each zero-terminated.
pub fn make_parameter_status(name: &str, val: &str) -> (r: Vec<u8>)
    requires
        encode_utf8(name@).len() + encode_utf8(val@).len() + 6 <= u32::MAX,
    ensures
        r@ == framed(83u8, encode_utf8(name@) + seq![0u8] + encode_utf8(val@) + seq![0u8]),
{
    let mut body: Vec<u8> = Vec::new();
    push_bytes(&mut body, name.as_bytes());
    body.push(0u8);
    push_bytes(&mut body, val.as_bytes());
    body.push(0u8);
    assert(body@ =~= encode_utf8(name@) + seq![0u8] + encode_utf8(val@) + seq![0u8]);
    frame(83u8, body.as_slice())
}

/// An ErrorResponse ('E') message: severity "E", then the message text, zero-terminated,
/// and the closing zero byte.
pub fn error_response_message(err_msg: &str) -> (r: Vec<u8>)
    requires
        encode_utf8(err_msg@).len() + 10 <= u32::MAX,
    ensures
        r@ == framed(69u8, seq![83u8, 69u8, 0u8, 77u8] + encode_utf8(err_msg@) + seq![0u8, 0u8]),
{
    let mut body: Vec<u8> = Vec::new();
    body.push(83u8);
    body.push(69u8);
    body.push(0u8);
    body.push(77u8);
    push_bytes(&mut body, err_msg.as_bytes());
    body.push(0u8);
    body.push(0u8);
    assert(body@ =~= seq![83u8, 69u8, 0u8, 77u8] + encode_utf8(err_msg@) + seq![0u8, 0u8]);
    frame(69u8, body.as_slice())
}


/// The prepared statements as a map from name to SQL template.
pub open spec fn statements_map(ps: Seq<(String, String)>) -> Map<Seq<char>, Seq<char>> {
    Map::new(
        |k: Seq<char>| exists|i: int| 0 <= i < ps.len() && #[trigger] ps[i].0@ == k,
        |k: Seq<char>| ps[choose|i: int| 0 <= i < ps.len() && #[trigger] ps[i].0@ == k].1@,
    )
}

/// Names held once each.
pub open spec fn names_distinct(ps: Seq<(String, String)>) -> bool {
    forall|i: int, j: int| 0 <= i < ps.len() && 0 <= j < ps.len() && i != j ==> #[trigger] ps[i].0@ != #[trigger] ps[j].0@
}

/// The ReadyForQuery ('Z') message, idle.
pub open spec fn ready_bytes() -> Seq<u8> {
    seq![90u8, 0u8, 0u8, 0u8, 5u8, 73u8]
}

/// The CommandComplete ('C') message the server sends after every result.
pub open spec fn command_complete_bytes() -> Seq<u8> {
    framed(67u8, "SELECT 1"@.map_values(|c: char| c as u8).push(0u8))
}

/// The SQL text of a simple Query ('Q') body: all but its last byte (the terminating zero),
/// decoded and trimmed.
pub open spec fn q_sql(body: Seq<u8>) -> Seq<char> {
    let n = if body.len() > 0 { body.len() - 1 } else { 0 };
    crate::text::trim(utf8_lossy(body.subrange(0, n as int)))
}

/// The SSL request code of a startup message.
pub const SSL_REQUEST_CODE: u32 = 80877103;

/// What a connection does with its first message.
#[derive(Debug, PartialEq, Eq)]
pub enum StartupStep {
    /// The message is shorter than a startup message: close the connection.
    Close,
    /// An SSL request: answer `N` (no SSL), read the real startup message, then greet.
    DeclineSsl,
    /// A startup message: greet.
    Greet,
}

/// The step for a first message whose four length bytes are `len_bytes` and whose body
/// begins with the four code bytes `code_bytes`: fewer than 8 bytes closes, the SSL request
/// code is declined, anything else is greeted.
pub fn startup_step(len_bytes: &[u8], code_bytes: &[u8]) -> (r: StartupStep)
    requires
        len_bytes@.len() == 4,
        code_bytes@.len() == 4,
    ensures
        be_u32_value(len_bytes@) < 8 ==> r == StartupStep::Close,
        be_u32_value(len_bytes@) >= 8 && be_u32_value(code_bytes@) == SSL_REQUEST_CODE ==> r == StartupStep::DeclineSsl,
        be_u32_value(len_bytes@) >= 8 && be_u32_value(code_bytes@) != SSL_REQUEST_CODE ==> r == StartupStep::Greet,
{
    let len = read_u32_be(len_bytes, 0);
    let code = read_u32_be(code_bytes, 0);
    proof {
        assert(len_bytes@.subrange(0, 4) =~= len_bytes@);
        assert(code_bytes@.subrange(0, 4) =~= code_bytes@);
    }
    if len < 8 {
        StartupStep::Close
    } else if code == SSL_REQUEST_CODE {
        StartupStep::DeclineSsl
    } else {
        StartupStep::Greet
    }
}

/// The greeting after startup: AuthenticationOk ('R', ok), the server version "15.0" as a
/// ParameterStatus ('S'), and ReadyForQuery ('Z', idle).
pub fn startup_greeting() -> (r: Vec<u8>)
    ensures
        r@ == seq![82u8, 0u8, 0u8, 0u8, 8u8, 0u8, 0u8, 0u8, 0u8, 83u8, 0u8, 0u8, 0u8, 24u8, 115u8, 101u8, 114u8, 118u8, 101u8, 114u8, 95u8, 118u8, 101u8, 114u8, 115u8, 105u8, 111u8, 110u8, 0u8, 49u8, 53u8, 46u8, 48u8, 0u8, 90u8, 0u8, 0u8, 0u8, 5u8, 73u8],
{
    let r: Vec<u8> = vec![82u8, 0u8, 0u8, 0u8, 8u8, 0u8, 0u8, 0u8, 0u8, 83u8, 0u8, 0u8, 0u8, 24u8, 115u8, 101u8, 114u8, 118u8, 101u8, 114u8, 95u8, 118u8, 101u8, 114u8, 115u8, 105u8, 111u8, 110u8, 0u8, 49u8, 53u8, 46u8, 48u8, 0u8, 90u8, 0u8, 0u8, 0u8, 5u8, 73u8];
    assert(r@ =~= seq![82u8, 0u8, 0u8, 0u8, 8u8, 0u8, 0u8, 0u8, 0u8, 83u8, 0u8, 0u8, 0u8, 24u8, 115u8, 101u8, 114u8, 118u8, 101u8, 114u8, 95u8, 118u8, 101u8, 114u8, 115u8, 105u8, 111u8, 110u8, 0u8, 49u8, 53u8, 46u8, 48u8, 0u8, 90u8, 0u8, 0u8, 0u8, 5u8, 73u8]);
    r
}

/// What a connection does after a message.
#[derive(Debug, PartialEq)]
pub enum PgAction {
    /// Run the SQL, send its result (or its error), then ReadyForQuery.
    Execute(String),
    /// Send these bytes.
    Reply(Vec<u8>),
    /// Close the connection.
    Terminate,
    /// Send nothing.
    Ignore,
}

/// The extended-query state of a PostgreSQL connection: its prepared statements and the SQL
/// last bound.
pub struct PgSession {
    prepared: Vec<(String, String)>,
    bound_sql: String,
}

impl PgSession {
    /// The prepared statements by name.
    pub closed spec fn statements(&self) -> Map<Seq<char>, Seq<char>> {
        statements_map(self.prepared@)
    }

    /// The SQL last bound (empty when none).
    pub closed spec fn bound(&self) -> Seq<char> {
        self.bound_sql@
    }

    pub closed spec fn wf(&self) -> bool {
        names_distinct(self.prepared@)
    }

    /// A session with no prepared statement and nothing bound.
    pub fn new() -> (s: PgSession)
        ensures
            s.wf(),
            s.statements() == Map::<Seq<char>, Seq<char>>::empty(),
            s.bound() == Seq::<char>::empty(),
    {
        let s = PgSession { prepared: Vec::new(), bound_sql: String::new() };
        assert(s.statements() =~= Map::<Seq<char>, Seq<char>>::empty());
        s
    }

    fn position(&self, name: &str) -> (r: Option<usize>)
        requires
            self.wf(),
        ensures
            match r {
                Some(i) => i < self.prepared@.len() && self.prepared@[i as int].0@ == name@,
                None => !self.statements().dom().contains(name@),
            },
    {
        let target = chars_of(name);
        let mut i: usize = 0;
        while i < self.prepared.len()
            invariant
                i <= self.prepared@.len(),
                target@ == name@,
                forall|j: int| 0 <= j < i ==> (#[trigger] self.prepared@[j]).0@ != name@,
            decreases self.prepared@.len() - i,
        {
            if crate::text::chars_eq(chars_of(self.prepared[i].0.as_str()).as_slice(), target.as_slice()) {
                return Some(i);
            }
            i += 1;
        }
        None
    }

    /// The template of the prepared statement `name`.
    pub fn template(&self, name: &str) -> (r: Option<String>)
        requires
            self.wf(),
        ensures
            self.statements().dom().contains(name@) <==> r is Some,
            r matches Some(t) ==> t@ == self.statements()[name@],
    {
        match self.position(name) {
            Some(i) => {
                proof {
                    let ps = self.prepared@;
                    let k = choose|j: int| 0 <= j < ps.len() && #[trigger] ps[j].0@ == name@;
                    assert(ps[i as int].0@ == name@);
                    if k != i {
                        assert(ps[k].0@ != ps[i as int].0@);
                    }
                }
                Some(self.prepared[i].1.clone())
            },
            None => None,
        }
    }

    /// Registers (or replaces) the prepared statement `name`.
    pub fn prepare(&mut self, name: String, template: String)
        requires
            old(self).wf(),
        ensures
            final(self).wf(),
            final(self).statements() == old(self).statements().insert(name@, template@),
            final(self).bound() == old(self).bound(),
    {
        let ghost ps0 = self.prepared@;
        let ghost k = name@;
        let ghost t = template@;
        match self.position(name.as_str()) {
            Some(i) => {
                self.prepared.set(i, (name, template));
                proof {
                    let ps = self.prepared@;
                    assert forall|a: int, b: int| 0 <= a < ps.len() && 0 <= b < ps.len() && a != b implies #[trigger] ps[a].0@ != #[trigger] ps[b].0@ by {
                        assert(ps0[a].0@ != ps0[b].0@);
                    }
                    assert forall|key: Seq<char>| #[trigger] statements_map(ps).dom().contains(key) <==> statements_map(ps0).insert(k, t).dom().contains(key) by {
                        if statements_map(ps0).dom().contains(key) {
                            let j = choose|j: int| 0 <= j < ps0.len() && #[trigger] ps0[j].0@ == key;
                            assert(ps[j].0@ == key);
                        }
                        if key == k {
                            assert(ps[i as int].0@ == key);
                        }
                    }
                    assert forall|key: Seq<char>| #[trigger] statements_map(ps).dom().contains(key) implies statements_map(ps)[key] == statements_map(ps0).insert(k, t)[key] by {
                        let j = choose|j: int| 0 <= j < ps.len() && #[trigger] ps[j].0@ == key;
                        if key == k {
                            if j != i {
                                assert(ps[j].0@ != ps[i as int].0@);
                            }
                        } else {
                            let j0 = choose|j0: int| 0 <= j0 < ps0.len() && #[trigger] ps0[j0].0@ == key;
                            assert(j0 != i);
                            assert(ps[j0].0@ == key);
                            if j != j0 {
                                assert(ps[j].0@ != ps[j0].0@);
                            }
                        }
                    }
                    assert(statements_map(ps) =~= statements_map(ps0).insert(k, t));
                }
            },
            None => {
                self.prepared.push((name, template));
                proof {
                    let ps = self.prepared@;
                    let n = ps0.len() as int;
                    assert forall|a: int, b: int| 0 <= a < ps.len() && 0 <= b < ps.len() && a != b implies #[trigger] ps[a].0@ != #[trigger] ps[b].0@ by {
                        if a == n {
                            assert(!statements_map(ps0).dom().contains(k));
                            assert(ps0[b].0@ != k);
                        } else if b == n {
                            assert(!statements_map(ps0).dom().contains(k));
                            assert(ps0[a].0@ != k);
                        } else {
                            assert(ps0[a].0@ != ps0[b].0@);
                        }
                    }
                    assert forall|key: Seq<char>| #[trigger] statements_map(ps).dom().contains(key) <==> statements_map(ps0).insert(k, t).dom().contains(key) by {
                        if statements_map(ps0).dom().contains(key) {
                            let j = choose|j: int| 0 <= j < ps0.len() && #[trigger] ps0[j].0@ == key;
                            assert(ps[j].0@ == key);
                        }
                        if key == k {
                            assert(ps[n].0@ == key);
                        }
                        if statements_map(ps).dom().contains(key) {
                            let j = choose|j: int| 0 <= j < ps.len() && #[trigger] ps[j].0@ == key;
                            if j < n {
                                assert(ps0[j].0@ == key);
                            }
                        }
                    }
                    assert forall|key: Seq<char>| #[trigger] statements_map(ps).dom().contains(key) implies statements_map(ps)[key] == statements_map(ps0).insert(k, t)[key] by {
                        let j = choose|j: int| 0 <= j < ps.len() && #[trigger] ps[j].0@ == key;
                        if key == k {
                            if j != n {
                                assert(ps[j].0@ != ps[n].0@);
                            }
                        } else {
                            let j0 = choose|j0: int| 0 <= j0 < ps0.len() && #[trigger] ps0[j0].0@ == key;
                            assert(ps[j0].0@ == key);
                            if j != j0 {
                                assert(ps[j].0@ != ps[j0].0@);
                            }
                        }
                    }
                    assert(statements_map(ps) =~= statements_map(ps0).insert(k, t));
                }
            },
        }
    }

    /// Handles one message of the extended or simple query protocol: `Q` runs its SQL; `P`
    /// registers a prepared statement and answers ParseComplete; `B` binds the parameters to
    /// the named statement's template (the unnamed one when the name is unknown) and answers
    /// BindComplete; `E` runs the bound SQL, or answers an empty result when none is bound;
    /// `S` answers ReadyForQuery; `X` ends the connection; others are ignored.
    pub fn on_message(&mut self, tag: u8, body: &[u8]) -> (a: PgAction)
        requires
            old(self).wf(),
        ensures
            final(self).wf(),
            tag == 81u8 ==> (a matches PgAction::Execute(sql) && sql@ == q_sql(body@) && *final(self) == *old(self)),
            tag == 80u8 ==> (a matches PgAction::Reply(b) && b@ == seq![49u8, 0u8, 0u8, 0u8, 4u8]
                && final(self).statements() == old(self).statements().insert(p_message(body@).0, p_message(body@).1)
                && final(self).bound() == old(self).bound()),
            tag == 66u8 ==> (a matches PgAction::Reply(b) && b@ == seq![50u8, 0u8, 0u8, 0u8, 4u8]
                && final(self).statements() == old(self).statements()
                && final(self).bound() == bound_after(old(self).statements(), old(self).bound(), body@)),
            tag == 69u8 ==> *final(self) == *old(self) && if old(self).bound().len() > 0 {
                (a matches PgAction::Execute(sql) && sql@ == old(self).bound())
            } else {
                (a matches PgAction::Reply(b) && b@ == command_complete_bytes() + ready_bytes())
            },
            tag == 83u8 ==> (a matches PgAction::Reply(b) && b@ == ready_bytes() && *final(self) == *old(self)),
            tag == 88u8 ==> a is Terminate && *final(self) == *old(self),
            tag != 81u8 && tag != 80u8 && tag != 66u8 && tag != 69u8 && tag != 83u8 && tag != 88u8
                ==> a is Ignore && *final(self) == *old(self),
    {
        if tag == 81u8 {
            let n = if body.len() > 0 { body.len() - 1 } else { 0 };
            let text_bytes = crate::codec::copy_range(body, 0, n);
            let q = string_from_utf8_lossy(text_bytes.as_slice());
            let t = crate::text::trim_chars(chars_of(q.as_str()).as_slice());
            PgAction::Execute(string_of(t.as_slice()))
        } else if tag == 80u8 {
            let (name, template) = parse_p_message(body);
            self.prepare(name, template);
            PgAction::Reply(vec![49u8, 0u8, 0u8, 0u8, 4u8])
        } else if tag == 66u8 {
            match try_parse_b_message(body) {
                Some((name, params)) => {
                    assert(params@.map_values(|s: String| s@) =~= strings_view(params@));
                    proof {
                        reveal_strlit("");
                        assert(""@ =~= Seq::<char>::empty());
                    }
                    let found = match self.template(name.as_str()) {
                        Some(t) => Some(t),
                        None => self.template(""),
                    };
                    match found {
                        Some(t) => {
                            self.bound_sql = substitute_params(t.as_str(), params.as_slice());
                        },
                        None => {},
                    }
                },
                None => {},
            }
            PgAction::Reply(vec![50u8, 0u8, 0u8, 0u8, 4u8])
        } else if tag == 69u8 {
            if chars_of(self.bound_sql.as_str()).len() > 0 {
                PgAction::Execute(self.bound_sql.clone())
            } else {
                let mut b: Vec<u8> = vec![67u8, 0u8, 0u8, 0u8, 13u8, 83u8, 69u8, 76u8, 69u8, 67u8, 84u8, 32u8, 49u8, 0u8];
                b.push(90u8);
                b.push(0u8);
                b.push(0u8);
                b.push(0u8);
                b.push(5u8);
                b.push(73u8);
                proof {
                    reveal_strlit("SELECT 1");
                    assert(be_u32(13u32) =~= seq![0u8, 0u8, 0u8, 13u8]) by {
                        lemma_be_u32_13();
                    }
                    assert(b@ =~= command_complete_bytes() + ready_bytes());
                }
                PgAction::Reply(b)
            }
        } else if tag == 83u8 {
            proof {
                assert(seq![90u8, 0u8, 0u8, 0u8, 5u8, 73u8] =~= ready_bytes());
            }
            PgAction::Reply(vec![90u8, 0u8, 0u8, 0u8, 5u8, 73u8])
        } else if tag == 88u8 {
            PgAction::Terminate
        } else {
            PgAction::Ignore
        }
    }
}

proof fn lemma_be_u32_13()
    ensures
        be_u32(13u32) == seq![0u8, 0u8, 0u8, 13u8],
{
    assert(be_u32(13u32) =~= seq![0u8, 0u8, 0u8, 13u8]);
}

/// Binding parameters to the statement just prepared under the name the Bind message names
/// substitutes them into that statement's template, whatever was prepared or bound before.
pub proof fn lemma_bind_uses_prepared(
    stmts: Map<Seq<char>, Seq<char>>,
    bound: Seq<char>,
    name: Seq<char>,
    template: Seq<char>,
    body: Seq<u8>,
)
    requires
        has_zero(body),
        b_message(body).0 == name,
    ensures
        bound_after(stmts.insert(name, template), bound, body) == substituted(template, b_message(body).1, b_message(body).1.len()),
{
}

/// The SQL bound after a Bind message: the parameters substituted into the named
/// statement's template, or the unnamed one's when the name is unknown; unchanged when
/// neither exists or the body is not a Bind body.
pub open spec fn bound_after(stmts: Map<Seq<char>, Seq<char>>, bound: Seq<char>, body: Seq<u8>) -> Seq<char> {
    if !has_zero(body) {
        bound
    } else {
        let (name, params) = b_message(body);
        if stmts.dom().contains(name) {
            substituted(stmts[name], params, params.len())
        } else if stmts.dom().contains(Seq::<char>::empty()) {
            substituted(stmts[Seq::<char>::empty()], params, params.len())
        } else {
            bound
        }
    }
}

/// The lines of a text as `str::lines` gives them: split at `'\n'`, a final empty piece
/// dropped, and a `'\r'` before a `'\n'` removed.
pub open spec fn lines_of(s: Seq<char>) -> Seq<Seq<char>> {
    let parts = split_char(s, '\n');
    let kept = if parts.len() > 0 && parts.last().len() == 0 {
        parts.drop_last()
    } else {
        parts
    };
    Seq::new(
        kept.len(),
        |i: int|
            if i < parts.len() - 1 && kept[i].len() > 0 && kept[i].last() == '\r' {
                kept[i].drop_last()
            } else {
                kept[i]
            },
    )
}

/// Two bytes of a count sent as a 16-bit integer (wrapping).
pub open spec fn i16_bytes(n: nat) -> Seq<u8> {
    be_u16((n % 65536) as u16)
}

/// Four bytes of a length sent as a 32-bit integer (wrapping).
pub open spec fn i32_bytes(n: nat) -> Seq<u8> {
    be_u32((n % 0x1_0000_0000) as u32)
}

/// The cells of a table line: the line without its outer `|`s, split at `|`, each trimmed.
pub open spec fn cells_of(line: Seq<char>) -> Seq<Seq<char>> {
    split_char(trim_char(line, '|'), '|').map_values(|c: Seq<char>| trim(c))
}

/// The column names of a header line (trimmed once more before the split).
pub open spec fn header_cells(line: Seq<char>) -> Seq<Seq<char>> {
    split_char(trim(trim_char(line, '|')), '|').map_values(|c: Seq<char>| trim(c))
}

/// A column's field description: its name, zero-terminated, no table, no attribute number,
/// type OID 25 (text), size -1, type modifier -1, text format.
pub open spec fn field_desc(c: Seq<char>) -> Seq<u8> {
    encode_utf8(c) + seq![0u8, 0u8, 0u8, 0u8, 0u8, 0u8, 0u8, 0u8, 0u8, 0u8, 25u8, 255u8, 255u8, 255u8, 255u8, 255u8, 255u8, 0u8, 0u8]
}

pub open spec fn field_descs(cs: Seq<Seq<char>>) -> Seq<u8>
    decreases cs.len(),
{
    if cs.len() == 0 {
        Seq::empty()
    } else {
        field_descs(cs.drop_last()) + field_desc(cs.last())
    }
}

/// A cell of a data row: its length, then its bytes.
pub open spec fn field_values(vs: Seq<Seq<char>>) -> Seq<u8>
    decreases vs.len(),
{
    if vs.len() == 0 {
        Seq::empty()
    } else {
        field_values(vs.drop_last()) + i32_bytes(encode_utf8(vs.last()).len()) + encode_utf8(vs.last())
    }
}

/// A message whose length field is sent as a 32-bit integer.
pub open spec fn message(tag: u8, body: Seq<u8>) -> Seq<u8> {
    seq![tag] + i32_bytes(body.len() + 4) + body
}

/// The RowDescription ('T') message of a header line.
pub open spec fn row_description(line: Seq<char>) -> Seq<u8> {
    let cs = header_cells(line);
    message(84u8, i16_bytes(cs.len()) + field_descs(cs))
}

/// The DataRow ('D') messages of the lines that start with `|`.
pub open spec fn data_rows(ls: Seq<Seq<char>>) -> Seq<u8>
    decreases ls.len(),
{
    if ls.len() == 0 {
        Seq::empty()
    } else {
        let l = ls.last();
        let prev = data_rows(ls.drop_last());
        if l.len() > 0 && l[0] == '|' {
            let vs = cells_of(l);
            prev + message(68u8, i16_bytes(vs.len()) + field_values(vs))
        } else {
            prev
        }
    }
}

/// The messages answering a result: when the result is a table (at least four lines, the
/// first starting with `+--`), a RowDescription from its header line and a DataRow for each
/// row line between the header's closing rule and the last two lines; then CommandComplete.
pub open spec fn query_response(out: Seq<char>) -> Seq<u8> {
    let ls = lines_of(out);
    let table = if ls.len() >= 4 && starts_with(ls[0], "+--"@) {
        row_description(ls[1]) + data_rows(ls.subrange(3, ls.len() - 2))
    } else {
        Seq::empty()
    };
    table + command_complete_bytes()
}

/// The messages a byte stream holds, read one after another: a type byte, a big-endian
/// length counting itself and the body, then the body; reading stops at bytes that do not
/// hold a whole message.
pub open spec fn messages_in(b: Seq<u8>) -> Seq<(u8, Seq<u8>)>
    decreases b.len(),
{
    if b.len() < 5 {
        Seq::empty()
    } else {
        let n = be_u32_value(b.subrange(1, 5)) as int;
        if n < 4 || b.len() < 1 + n {
            Seq::empty()
        } else {
            seq![(b[0], b.subrange(5, 1 + n))] + messages_in(b.skip(1 + n))
        }
    }
}

/// Whether a line of a result table is a row line: it starts with `|`.
pub open spec fn is_row_line(l: Seq<char>) -> bool {
    l.len() > 0 && l[0] == '|'
}

/// The row lines among `ls`, in order.
pub open spec fn row_lines(ls: Seq<Seq<char>>) -> Seq<Seq<char>> {
    ls.filter(|l: Seq<char>| is_row_line(l))
}

/// The DataRow message a row line is sent as: its cells, counted, each with its length.
pub open spec fn data_row_message(l: Seq<char>) -> (u8, Seq<u8>) {
    (68u8, i16_bytes(cells_of(l).len()) + field_values(cells_of(l)))
}

/// A message read from the front of a stream is the message written there.
proof fn lemma_read_message(tag: u8, body: Seq<u8>, rest: Seq<u8>)
    requires
        body.len() + 4 <= u32::MAX,
    ensures
        messages_in(message(tag, body) + rest) == seq![(tag, body)] + messages_in(rest),
        messages_in(framed(tag, body) + rest) == seq![(tag, body)] + messages_in(rest),
{
    let n: int = (body.len() + 4) as int;
    crate::codec::lemma_be_u32_roundtrip(n as u32);
    assert(i32_bytes(n as nat) == be_u32(n as u32));
    let b = message(tag, body) + rest;
    assert(b.subrange(1, 5) =~= be_u32(n as u32));
    assert(b.subrange(5, 1 + n) =~= body);
    assert(b.skip(1 + n) =~= rest);
    let c = framed(tag, body) + rest;
    assert(c.subrange(1, 5) =~= be_u32(n as u32));
    assert(c.subrange(5, 1 + n) =~= body);
    assert(c.skip(1 + n) =~= rest);
}

/// The DataRow messages of lines, read back: one per row line, in order.
proof fn lemma_read_data_rows(ls: Seq<Seq<char>>, rest: Seq<u8>)
    requires
        data_rows(ls).len() + rest.len() <= u32::MAX,
    ensures
        messages_in(data_rows(ls) + rest) == row_lines(ls).map_values(|l: Seq<char>| data_row_message(l)) + messages_in(rest),
    decreases ls.len(),
{
    if ls.len() == 0 {
        assert(data_rows(ls) + rest =~= rest);
        assert(row_lines(ls) =~= Seq::<Seq<char>>::empty());
        assert(row_lines(ls).map_values(|l: Seq<char>| data_row_message(l)) + messages_in(rest) =~= messages_in(rest));
    } else {
        let dl = ls.drop_last();
        let l = ls.last();
        assert(row_lines(ls) == if is_row_line(l) { row_lines(dl).push(l) } else { row_lines(dl) }) by {
            reveal(Seq::filter);
        }
        if is_row_line(l) {
            let vs = cells_of(l);
            let m = message(68u8, i16_bytes(vs.len()) + field_values(vs));
            assert(data_rows(ls) == data_rows(dl) + m);
            assert(data_rows(ls) + rest =~= data_rows(dl) + (m + rest));
            lemma_read_data_rows(dl, m + rest);
            lemma_read_message(68u8, i16_bytes(vs.len()) + field_values(vs), rest);
            assert(row_lines(ls).map_values(|l: Seq<char>| data_row_message(l))
                =~= row_lines(dl).map_values(|l: Seq<char>| data_row_message(l)).push(data_row_message(l)));
            assert(row_lines(ls).map_values(|l: Seq<char>| data_row_message(l)) + messages_in(rest)
                =~= row_lines(dl).map_values(|l: Seq<char>| data_row_message(l)) + (seq![data_row_message(l)] + messages_in(rest)));
        } else {
            assert(data_rows(ls) == data_rows(dl));
            lemma_read_data_rows(dl, rest);
        }
    }
}

/// The first `n` length-prefixed values of `b`: a big-endian length, then that many bytes;
/// reading stops early at bytes that do not hold a whole value.
pub open spec fn values_in(b: Seq<u8>, n: nat) -> Seq<Seq<u8>>
    decreases n,
{
    if n == 0 || b.len() < 4 {
        Seq::empty()
    } else {
        let k = be_u32_value(b.subrange(0, 4)) as int;
        if b.len() < 4 + k {
            Seq::empty()
        } else {
            seq![b.subrange(4, 4 + k)] + values_in(b.skip(4 + k), (n - 1) as nat)
        }
    }
}

/// A length-prefixed value read from the front of bytes is the value written there.
proof fn lemma_read_value(e: Seq<u8>, rest: Seq<u8>, m: nat)
    requires
        e.len() <= u32::MAX,
    ensures
        values_in(i32_bytes(e.len()) + e + rest, m + 1) == seq![e] + values_in(rest, m),
{
    let k: int = e.len() as int;
    crate::codec::lemma_be_u32_roundtrip(k as u32);
    assert(i32_bytes(e.len()) == be_u32(k as u32));
    let b = i32_bytes(e.len()) + e + rest;
    assert(b.subrange(0, 4) =~= be_u32(k as u32));
    assert(b.subrange(4, 4 + k) =~= e);
    assert(b.skip(4 + k) =~= rest);
}

proof fn lemma_read_values(vs: Seq<Seq<char>>, rest: Seq<u8>, m: nat)
    requires
        field_values(vs).len() + rest.len() <= u32::MAX,
    ensures
        values_in(field_values(vs) + rest, vs.len() + m) == vs.map_values(|v: Seq<char>| encode_utf8(v)) + values_in(rest, m),
    decreases vs.len(),
{
    if vs.len() == 0 {
        assert(field_values(vs) + rest =~= rest);
        assert(vs.map_values(|v: Seq<char>| encode_utf8(v)) + values_in(rest, m) =~= values_in(rest, m));
    } else {
        let dl = vs.drop_last();
        let e = encode_utf8(vs.last());
        let f = i32_bytes(e.len()) + e;
        assert(field_values(vs) == field_values(dl) + f);
        assert(field_values(vs) + rest =~= field_values(dl) + (f + rest));
        lemma_read_values(dl, f + rest, m + 1);
        assert(f + rest =~= i32_bytes(e.len()) + e + rest);
        lemma_read_value(e, rest, m);
        assert(dl.len() + (m + 1) == vs.len() + m);
        assert(vs.map_values(|v: Seq<char>| encode_utf8(v)) =~= dl.map_values(|v: Seq<char>| encode_utf8(v)).push(e));
        assert(vs.map_values(|v: Seq<char>| encode_utf8(v)) + values_in(rest, m)
            =~= dl.map_values(|v: Seq<char>| encode_utf8(v)) + (seq![e] + values_in(rest, m)));
    }
}

/// The DataRow message of a row line carries that line's cells: its body starts with their
/// count, and its values, read back, are the cells' bytes, in order.
pub proof fn lemma_data_row_carries_cells(l: Seq<char>)
    requires
        data_row_message(l).1.len() <= u32::MAX,
        cells_of(l).len() < 65536,
    ensures
        ({
            let body = data_row_message(l).1;
            &&& be_u16_value(body.subrange(0, 2)) == cells_of(l).len()
            &&& values_in(body.skip(2), cells_of(l).len()) == cells_of(l).map_values(|v: Seq<char>| encode_utf8(v))
        }),
{
    let vs = cells_of(l);
    let body = data_row_message(l).1;
    crate::codec::lemma_be_u16_roundtrip(vs.len() as u16);
    assert(i16_bytes(vs.len()) == be_u16(vs.len() as u16));
    assert(body.subrange(0, 2) =~= be_u16(vs.len() as u16));
    assert(body.skip(2) =~= field_values(vs) + Seq::<u8>::empty());
    lemma_read_values(vs, Seq::empty(), 0);
    assert(values_in(Seq::<u8>::empty(), 0) =~= Seq::<Seq<u8>>::empty());
    assert(vs.map_values(|v: Seq<char>| encode_utf8(v)) + Seq::<Seq<u8>>::empty() =~= vs.map_values(|v: Seq<char>| encode_utf8(v)));
}

/// A table result is answered with its RowDescription, then exactly one DataRow message for
/// each row line between the header's closing rule and the last two lines, in order and
/// carrying that line's cells, then CommandComplete: no row line is dropped, repeated or
/// reordered.
pub proof fn lemma_one_data_row_per_row_line(out: Seq<char>)
    requires
        lines_of(out).len() > 4,
        starts_with(lines_of(out)[0], "+--"@),
        query_response(out).len() <= u32::MAX,
    ensures
        ({
            let ls = lines_of(out);
            let rows = row_lines(ls.subrange(3, ls.len() - 2));
            let ms = messages_in(query_response(out));
            &&& ms.len() == rows.len() + 2
            &&& ms[0].0 == 84u8
            &&& forall|i: int| 0 <= i < rows.len() ==> ms[i + 1] == data_row_message(#[trigger] rows[i])
            &&& ms[ms.len() - 1].0 == 67u8
        }),
{
    let ls = lines_of(out);
    let mid = ls.subrange(3, ls.len() - 2);
    let cs = header_cells(ls[1]);
    let tbody = i16_bytes(cs.len()) + field_descs(cs);
    let cc = command_complete_bytes();
    let cbody = "SELECT 1"@.map_values(|c: char| c as u8).push(0u8);
    let tail = data_rows(mid) + cc;
    assert(query_response(out) =~= message(84u8, tbody) + tail);
    lemma_read_message(84u8, tbody, tail);
    lemma_read_data_rows(mid, cc);
    assert(cc =~= framed(67u8, cbody) + Seq::<u8>::empty());
    lemma_read_message(67u8, cbody, Seq::empty());
    assert(messages_in(Seq::<u8>::empty()) =~= Seq::<(u8, Seq<u8>)>::empty());
    let rows = row_lines(mid);
    let ms = messages_in(query_response(out));
    assert(ms =~= seq![(84u8, tbody)] + (rows.map_values(|l: Seq<char>| data_row_message(l)) + seq![(67u8, cbody)]));
}

/// Whether a result is a table too short to hold its rows' lines (four lines, the first a
/// rule): the answer to it is not defined.
pub open spec fn truncated_table(out: Seq<char>) -> bool {
    let ls = lines_of(out);
    ls.len() == 4 && starts_with(ls[0], "+--"@)
}

fn lines_exec(s: &[char]) -> (r: Vec<Vec<char>>)
    ensures
        vstrings(r@) == lines_of(s@),
{
    let parts = split_char_exec(s, '\n');
    let ghost pv = split_char(s@, '\n');
    assert(vstrings(parts@) == pv);
    let n = parts.len();
    let kept = if n > 0 && parts[n - 1].len() == 0 {
        n - 1
    } else {
        n
    };
    let ghost kv = if pv.len() > 0 && pv.last().len() == 0 { pv.drop_last() } else { pv };
    assert(kv.len() == kept);
    let mut out: Vec<Vec<char>> = Vec::new();
    let mut i: usize = 0;
    while i < kept
        invariant
            kept <= n,
            n == parts@.len(),
            vstrings(parts@) == pv,
            pv == split_char(s@, '\n'),
            kv.len() == kept,
            kv == (if pv.len() > 0 && pv.last().len() == 0 { pv.drop_last() } else { pv }),
            forall|j: int| 0 <= j < kept ==> kv[j] == pv[j],
            i <= kept,
            out@.len() == i,
            forall|j: int| 0 <= j < i ==> (#[trigger] out@[j])@ == lines_of(s@)[j],
        decreases kept - i,
    {
        let p = &parts[i];
        assert(p@ == pv[i as int]);
        let line = if i + 1 < n && p.len() > 0 && p[p.len() - 1] == '\r' {
            subseq(p.as_slice(), 0, p.len() - 1)
        } else {
            subseq(p.as_slice(), 0, p.len())
        };
        proof {
            assert(p@.subrange(0, p@.len() as int) =~= p@);
            if i + 1 < n && p@.len() > 0 && p@.last() == '\r' {
                assert(p@.subrange(0, p@.len() - 1) =~= p@.drop_last());
            }
            assert(kv[i as int] == p@);
            assert(lines_of(s@)[i as int] == (if (i as int) < pv.len() - 1 && kv[i as int].len() > 0 && kv[i as int].last() == '\r' {
                kv[i as int].drop_last()
            } else {
                kv[i as int]
            }));
        }
        out.push(line);
        i += 1;
    }
    assert(vstrings(out@) =~= lines_of(s@));
    out
}

fn push_i16(buf: &mut Vec<u8>, n: usize)
    ensures
        final(buf)@ == old(buf)@ + i16_bytes(n as nat),
{
    crate::codec::push_u16_be(buf, (n % 65536) as u16);
}

fn push_i32(buf: &mut Vec<u8>, n: usize)
    ensures
        final(buf)@ == old(buf)@ + i32_bytes(n as nat),
{
    let m = (n as u64 % 0x1_0000_0000) as u32;
    push_u32_be(buf, m);
}

fn push_message(buf: &mut Vec<u8>, tag: u8, body: &Vec<u8>)
    ensures
        final(buf)@ == old(buf)@ + message(tag, body@),
{
    buf.push(tag);
    let len = body.len();
    let m = ((len as u64 % 0x1_0000_0000 + 4) % 0x1_0000_0000) as u32;
    assert(m == ((body@.len() + 4) % 0x1_0000_0000) as u32) by (nonlinear_arith)
        requires
            m == ((len as u64 % 0x1_0000_0000 + 4) % 0x1_0000_0000) as u32,
            len == body@.len(),
    {
    }
    push_u32_be(buf, m);
    push_bytes(buf, body.as_slice());
    assert(final(buf)@ =~= old(buf)@ + message(tag, body@)) by {
        assert(buf@ =~= old(buf)@ + seq![tag] + be_u32(m) + body@);
    }
}

fn cells_exec(line: &[char], header: bool) -> (r: Vec<Vec<char>>)
    ensures
        header ==> vstrings(r@) == header_cells(line@),
        !header ==> vstrings(r@) == cells_of(line@),
{
    let inner = trim_char_exec(line, '|');
    let inner = if header {
        trim_chars(inner.as_slice())
    } else {
        inner
    };
    let pieces = split_char_exec(inner.as_slice(), '|');
    let ghost pv = vstrings(pieces@);
    let mut out: Vec<Vec<char>> = Vec::new();
    let mut i: usize = 0;
    while i < pieces.len()
        invariant
            i <= pieces@.len(),
            pv == vstrings(pieces@),
            out@.len() == i,
            forall|j: int| 0 <= j < i ==> (#[trigger] out@[j])@ == trim(pv[j]),
        decreases pieces@.len() - i,
    {
        out.push(trim_chars(pieces[i].as_slice()));
        i += 1;
    }
    proof {
        assert(vstrings(out@) =~= pv.map_values(|c: Seq<char>| trim(c)));
    }
    out
}

/// The messages answering a result (see `query_response`).
pub fn query_response_bytes(out: &str) -> (r: Vec<u8>)
    requires
        !truncated_table(out@),
    ensures
        r@ == query_response(out@),
{
    let ls = lines_exec(chars_of(out).as_slice());
    let ghost lv = vstrings(ls@);
    let mut bytes: Vec<u8> = Vec::new();
    let rule = chars_of("+--");
    proof {
        reveal_strlit("+--");
    }
    if ls.len() >= 4 && ls[0].len() >= 3 && occurs_at_exec(ls[0].as_slice(), rule.as_slice(), 0) {
        assert(lv[0] == ls@[0]@);
        let cols = cells_exec(ls[1].as_slice(), true);
        assert(lv[1] == ls@[1]@);
        let mut desc: Vec<u8> = Vec::new();
        push_i16(&mut desc, cols.len());
        let ghost cv = vstrings(cols@);
        let mut c: usize = 0;
        while c < cols.len()
            invariant
                c <= cols@.len(),
                cv == vstrings(cols@),
                desc@ == i16_bytes(cols@.len() as nat) + field_descs(cv.take(c as int)),
            decreases cols@.len() - c,
        {
            let ghost before = desc@;
            push_bytes(&mut desc, string_of(cols[c].as_slice()).as_str().as_bytes());
            let tail: Vec<u8> = vec![0u8, 0u8, 0u8, 0u8, 0u8, 0u8, 0u8, 0u8, 0u8, 0u8, 25u8, 255u8, 255u8, 255u8, 255u8, 255u8, 255u8, 0u8, 0u8];
            push_bytes(&mut desc, tail.as_slice());
            proof {
                assert(cv.take(c + 1).drop_last() =~= cv.take(c as int));
                assert(cv.take(c + 1).last() == cols@[c as int]@);
                assert(desc@ =~= before + field_desc(cols@[c as int]@));
            }
            c += 1;
        }
        assert(cv.take(c as int) =~= cv);
        push_message(&mut bytes, 84u8, &desc);
        let ghost head = bytes@;
        let last = ls.len() - 2;
        let ghost mid = lv.subrange(3, last as int);
        let mut i: usize = 3;
        while i < last
            invariant
                3 <= i <= last,
                last == ls@.len() - 2,
                lv == vstrings(ls@),
                mid == lv.subrange(3, last as int),
                bytes@ == head + data_rows(mid.take(i - 3)),
            decreases last - i,
        {
            let line = &ls[i];
            assert(line@ == lv[i as int]);
            proof {
                assert(mid.take(i + 1 - 3).drop_last() =~= mid.take(i - 3));
                assert(mid.take(i + 1 - 3).last() == lv[i as int]);
            }
            if line.len() > 0 && line[0] == '|' {
                let vals = cells_exec(line.as_slice(), false);
                let ghost vv = vstrings(vals@);
                let mut body: Vec<u8> = Vec::new();
                push_i16(&mut body, vals.len());
                let mut k: usize = 0;
                while k < vals.len()
                    invariant
                        k <= vals@.len(),
                        vv == vstrings(vals@),
                        body@ == i16_bytes(vals@.len() as nat) + field_values(vv.take(k as int)),
                    decreases vals@.len() - k,
                {
                    let ghost before = body@;
                    let st = string_of(vals[k].as_slice());
                    let vb = st.as_str().as_bytes();
                    push_i32(&mut body, vb.len());
                    push_bytes(&mut body, vb);
                    proof {
                        assert(vv.take(k + 1).drop_last() =~= vv.take(k as int));
                        assert(vv.take(k + 1).last() == vals@[k as int]@);
                        assert(body@ =~= before + i32_bytes(encode_utf8(vals@[k as int]@).len()) + encode_utf8(vals@[k as int]@));
                    }
                    k += 1;
                }
                assert(vv.take(k as int) =~= vv);
                push_message(&mut bytes, 68u8, &body);
            }
            i += 1;
        }
        assert(mid.take(last - 3) =~= mid);
    } else {
        proof {
            if lv.len() >= 4 && starts_with(lv[0], "+--"@) {
                assert(occurs_at(lv[0], "+--"@, 0));
            }
        }
    }
    let tail: Vec<u8> = vec![67u8, 0u8, 0u8, 0u8, 13u8, 83u8, 69u8, 76u8, 69u8, 67u8, 84u8, 32u8, 49u8, 0u8];
    proof {
        reveal_strlit("SELECT 1");
        lemma_be_u32_13();
        assert(tail@ =~= command_complete_bytes());
    }
    push_bytes(&mut bytes, tail.as_slice());
    bytes
}
} // verus!
