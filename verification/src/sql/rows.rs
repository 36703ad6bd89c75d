//! How SQL rows are stored: a row is a 16-byte MVCC header [xmin: 8B][xmax: 8B] followed
//! by its values, each a little-endian 4-byte byte length and the value's UTF-8 bytes.
use crate::codec::{le_u32, le_u32_value, le_u64, push_bytes, push_u32_le, push_u64_le, read_u32_le};
use crate::text::strings_view;
use vstd::prelude::*;
use vstd::utf8::{decode_utf8, encode_utf8, valid_utf8};

verus! {

/// `String::from_utf8`: the string that the bytes encode, when they are valid UTF-8.
#[verifier::external_body]
pub(crate) fn string_from_utf8(bytes: Vec<u8>) -> (r: Option<String>)
    ensures
        r is Some <==> valid_utf8(bytes@),
        r matches Some(s) ==> s@ == decode_utf8(bytes@),
{
    String::from_utf8(bytes).ok()
}

/// The stored form of one value.
pub open spec fn enc_value(v: Seq<char>) -> Seq<u8> {
    le_u32(encode_utf8(v).len() as u32) + encode_utf8(v)
}

/// The stored form of a sequence of values.
pub open spec fn enc_values(vs: Seq<Seq<char>>) -> Seq<u8>
    decreases vs.len(),
{
    if vs.len() == 0 {
        Seq::empty()
    } else {
        enc_value(vs[0]) + enc_values(vs.drop_first())
    }
}

/// The stored form of a row with its MVCC header.
pub open spec fn encoded_row(vs: Seq<Seq<char>>, xmin: u64, xmax: u64) -> Seq<u8> {
    le_u64(xmin) + le_u64(xmax) + enc_values(vs)
}


/// Encodes a row's values behind the MVCC header `[xmin][xmax]`.
pub fn encode_values_mvcc(values: &[String], xmin: u64, xmax: u64) -> (r: Vec<u8>)
    ensures
        r@ == encoded_row(strings_view(values@), xmin, xmax),
{
    let mut buf: Vec<u8> = Vec::new();
    push_u64_le(&mut buf, xmin);
    push_u64_le(&mut buf, xmax);
    let ghost header = buf@;
    let ghost vs = strings_view(values@);
    let mut i: usize = 0;
    assert(vs.skip(0) =~= vs);
    while i < values.len()
        invariant
            vs == strings_view(values@),
            i <= vs.len(),
            header == le_u64(xmin) + le_u64(xmax),
            buf@ + enc_values(vs.skip(i as int)) == header + enc_values(vs),
        decreases vs.len() - i,
    {
        let ghost before = buf@;
        let bytes = values[i].as_str().as_bytes();
        push_u32_le(&mut buf, bytes.len() as u32);
        push_bytes(&mut buf, bytes);
        proof {
            assert(vs.skip(i as int).drop_first() =~= vs.skip(i + 1));
            assert(vs.skip(i as int)[0] == values@[i as int]@);
            assert(buf@ + enc_values(vs.skip(i + 1)) =~= before + enc_values(vs.skip(i as int)));
        }
        i = i + 1;
    }
    assert(vs.skip(i as int) =~= Seq::<Seq<char>>::empty());
    assert(buf@ =~= header + enc_values(vs));
    buf
}

/// Encodes a row with the header of a row created by transaction 1 and never deleted.
pub fn encode_values(values: &[String]) -> (r: Vec<u8>)
    ensures
        r@ == encoded_row(strings_view(values@), 1, 0),
{
    encode_values_mvcc(values, 1, 0)
}

/// Why a stored row cannot be read.
#[derive(Debug, Clone, PartialEq, Eq)]
pub enum RowError {
    /// A length field or the bytes it announces run past the end.
    Corrupted,
    /// A value is not valid UTF-8.
    InvalidUtf8,
}

/// How reading values from some offset on ends.
pub enum FieldsOutcome {
    /// Every value read.
    Fields(Seq<Seq<char>>),
    /// A length field is cut short: the reader starts over without a header.
    Restart,
    Failed(RowError),
}

/// Reads values from `data` at `off` to the end. A cut-short length field ends in `Restart`,
/// or in a `Corrupted` failure when `strict`.
pub open spec fn read_fields(data: Seq<u8>, off: int, strict: bool) -> FieldsOutcome
    decreases data.len() - off,
{
    if off < 0 || off >= data.len() {
        FieldsOutcome::Fields(Seq::empty())
    } else if off + 4 > data.len() {
        if strict {
            FieldsOutcome::Failed(RowError::Corrupted)
        } else {
            FieldsOutcome::Restart
        }
    } else {
        let len = le_u32_value(data.subrange(off, off + 4)) as int;
        let o = off + 4;
        if o + len > data.len() {
            FieldsOutcome::Failed(RowError::Corrupted)
        } else if !valid_utf8(data.subrange(o, o + len)) {
            FieldsOutcome::Failed(RowError::InvalidUtf8)
        } else {
            match read_fields(data, o + len, strict) {
                FieldsOutcome::Fields(rest) => FieldsOutcome::Fields(
                    seq![decode_utf8(data.subrange(o, o + len))] + rest,
                ),
                other => other,
            }
        }
    }
}

/// The values of a stored row: read after the 16-byte header when there is room for one,
/// and read again from the start, strictly, when a length field is cut short.
pub open spec fn decoded_row(data: Seq<u8>) -> Result<Seq<Seq<char>>, RowError> {
    let start: int = if data.len() >= 16 {
        16
    } else {
        0
    };
    match read_fields(data, start, false) {
        FieldsOutcome::Fields(vs) => Ok(vs),
        FieldsOutcome::Failed(e) => Err(e),
        FieldsOutcome::Restart => match read_fields(data, 0, true) {
            FieldsOutcome::Fields(vs) => Ok(vs),
            FieldsOutcome::Failed(e) => Err(e),
            FieldsOutcome::Restart => Err(RowError::Corrupted),
        },
    }
}

/// `FieldsOutcome` with `vs` in front of the values it holds.
pub open spec fn prefixed(vs: Seq<Seq<char>>, o: FieldsOutcome) -> FieldsOutcome {
    match o {
        FieldsOutcome::Fields(rest) => FieldsOutcome::Fields(vs + rest),
        other => other,
    }
}

/// Reads values from `off` on, as `read_fields` says.
fn read_fields_exec(data: &[u8], off: usize, strict: bool) -> (r: (Option<Vec<String>>, bool, RowError))
    requires
        off <= data@.len(),
    ensures
        match read_fields(data@, off as int, strict) {
            FieldsOutcome::Fields(vs) => r.0 matches Some(v) && strings_view(v@) == vs,
            FieldsOutcome::Restart => r.0 is None && r.1,
            FieldsOutcome::Failed(e) => r.0 is None && !r.1 && r.2 == e,
        },
{
    let mut values: Vec<String> = Vec::new();
    let mut offset = off;
    let ghost goal = read_fields(data@, off as int, strict);
    proof {
        assert(strings_view(values@) =~= Seq::<Seq<char>>::empty());
        match read_fields(data@, off as int, strict) {
            FieldsOutcome::Fields(rest) => {
                assert(Seq::<Seq<char>>::empty() + rest =~= rest);
            },
            _ => {},
        }
    }
    while offset < data.len()
        invariant
            off <= offset <= data@.len(),
            goal == read_fields(data@, off as int, strict),
            goal == prefixed(strings_view(values@), read_fields(data@, offset as int, strict)),
        decreases data@.len() - offset,
    {
        if data.len() - offset < 4 {
            if strict {
                return (None, false, RowError::Corrupted);
            }
            return (None, true, RowError::Corrupted);
        }
        let len = read_u32_le(data, offset) as usize;
        let o = offset + 4;
        if len > data.len() - o {
            return (None, false, RowError::Corrupted);
        }
        let bytes = crate::codec::copy_range(data, o, o + len);
        match string_from_utf8(bytes) {
            Some(s) => {
                let ghost prev = values@;
                values.push(s);
                proof {
                    assert(strings_view(values@) =~= strings_view(prev).push(decode_utf8(data@.subrange(o as int, o + len))));
                    match read_fields(data@, o + len, strict) {
                        FieldsOutcome::Fields(rest) => {
                            assert(strings_view(prev) + (seq![decode_utf8(data@.subrange(o as int, o + len))] + rest) =~= strings_view(values@) + rest);
                        },
                        _ => {},
                    }
                }
                offset = o + len;
            },
            None => {
                return (None, false, RowError::InvalidUtf8);
            },
        }
    }
    proof {
        assert(strings_view(values@) + Seq::<Seq<char>>::empty() =~= strings_view(values@));
    }
    (Some(values), false, RowError::Corrupted)
}

/// The values of a stored row, as `decoded_row` says.
pub fn decode_values(data: &[u8]) -> (r: Result<Vec<String>, RowError>)
    ensures
        match decoded_row(data@) {
            Ok(vs) => r matches Ok(v) && strings_view(v@) == vs,
            Err(e) => r == Err::<Vec<String>, RowError>(e),
        },
{
    let start: usize = if data.len() >= 16 {
        16
    } else {
        0
    };
    assert(start as int == (if data@.len() >= 16 { 16int } else { 0int }));
    let res = read_fields_exec(data, start, false);
    match res.0 {
        Some(v) => {
            assert(read_fields(data@, start as int, false) is Fields);
            assert(strings_view(v@) == read_fields(data@, start as int, false)->Fields_0);
            Ok(v)
        },
        None => {
            if !res.1 {
                return Err(res.2);
            }
            assert(read_fields(data@, start as int, false) is Restart);
            proof {
                lemma_strict_no_restart(data@, 0);
            }
            let (second, _, err2) = read_fields_exec(data, 0, true);
            match second {
                Some(v) => {
                    assert(read_fields(data@, 0, true) is Fields);
                    Ok(v)
                },
                None => Err(err2),
            }
        },
    }
}

/// A strict read never starts over.
proof fn lemma_strict_no_restart(data: Seq<u8>, off: int)
    ensures
        !(read_fields(data, off, true) is Restart),
    decreases data.len() - off,
{
    if off >= 0 && off < data.len() && off + 4 <= data.len() {
        let len = le_u32_value(data.subrange(off, off + 4)) as int;
        let o = off + 4;
        if o + len <= data.len() && valid_utf8(data.subrange(o, o + len)) {
            lemma_strict_no_restart(data, o + len);
        }
    }
}

/// Reading back an encoded row gives its values.
pub proof fn lemma_row_roundtrip(vs: Seq<Seq<char>>, xmin: u64, xmax: u64)
    requires
        forall|i: int| 0 <= i < vs.len() ==> encode_utf8(#[trigger] vs[i]).len() <= u32::MAX,
    ensures
        decoded_row(encoded_row(vs, xmin, xmax)) == Ok::<Seq<Seq<char>>, RowError>(vs),
{
    let data = encoded_row(vs, xmin, xmax);
    let header = le_u64(xmin) + le_u64(xmax);
    assert(header.len() == 16);
    lemma_read_encoded(header, vs);
}

proof fn lemma_read_encoded(prefix: Seq<u8>, vs: Seq<Seq<char>>)
    requires
        forall|i: int| 0 <= i < vs.len() ==> encode_utf8(#[trigger] vs[i]).len() <= u32::MAX,
    ensures
        read_fields(prefix + enc_values(vs), prefix.len() as int, false) == FieldsOutcome::Fields(vs),
    decreases vs.len(),
{
    let data = prefix + enc_values(vs);
    let off = prefix.len() as int;
    if vs.len() == 0 {
        assert(enc_values(vs) =~= Seq::<u8>::empty());
        assert(data =~= prefix);
        assert(vs =~= Seq::<Seq<char>>::empty());
    } else {
        let v = vs[0];
        let b = encode_utf8(v);
        let n = b.len() as u32;
        crate::codec::lemma_le_u32_roundtrip(n);
        let next_prefix = prefix + enc_value(v);
        assert(data =~= next_prefix + enc_values(vs.drop_first()));
        assert(data.subrange(off, off + 4) =~= le_u32(n));
        assert(data.subrange(off + 4, off + 4 + n) =~= b);
        vstd::utf8::encode_utf8_valid_utf8(v);
        vstd::utf8::encode_utf8_decode_utf8(v);
        assert forall|i: int| 0 <= i < vs.drop_first().len() implies encode_utf8(#[trigger] vs.drop_first()[i]).len() <= u32::MAX by {
            assert(vs.drop_first()[i] == vs[i + 1]);
        }
        lemma_read_encoded(next_prefix, vs.drop_first());
        assert(next_prefix.len() == off + 4 + n);
        assert(seq![v] + vs.drop_first() =~= vs);
        assert(le_u32_value(data.subrange(off, off + 4)) == n);
        assert(valid_utf8(data.subrange(off + 4, off + 4 + n)));
        assert(decode_utf8(data.subrange(off + 4, off + 4 + n)) == v);
        assert(read_fields(data, off + 4 + n, false) == FieldsOutcome::Fields(vs.drop_first()));
    }
}

} // verus!
