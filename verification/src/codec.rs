//! The row codec: a row's values as a fixed-width run of bytes, laid out
//! field by field as the schema says.
//!
//! A string field of `n` bytes holds one length byte, the string's UTF-8
//! form, and zeros up to the end of its slot. A number field holds the eight
//! bytes of a signed 64-bit integer.

use vstd::prelude::*;
use vstd::slice::{slice_subrange, slice_to_vec};
use vstd::utf8::{decode_utf8, encode_utf8, valid_utf8};
use crate::datatype::{
    lemma_row_width_prefix, lemma_row_width_step, row_width, DataType, ScalarValue, ScalarView,
    Schema,
};
use crate::encoding::{
    copy_bytes, fill_zero, i64_bytes, i64_value, lemma_i64_round_trip, overwrite, read_i64,
    write_i64, zeros,
};
use crate::errors::Error;

verus! {

/// The bytes of one field holding `value`.
pub open spec fn encode_field(ty: DataType, value: ScalarView) -> Seq<u8> {
    match (ty, value) {
        (DataType::String(n), ScalarView::String(s)) => {
            let payload = encode_utf8(s);
            seq![payload.len() as u8] + payload + zeros(n - 1 - payload.len())
        },
        (DataType::Number, ScalarView::Number(x)) => i64_bytes(x),
        _ => zeros(ty.spec_size() as int),
    }
}

/// The bytes of a row: its fields' bytes one after the other.
pub open spec fn encode_row(types: Seq<DataType>, values: Seq<ScalarView>) -> Seq<u8>
    decreases types.len(),
{
    if types.len() == 0 {
        Seq::empty()
    } else {
        encode_row(types.drop_last(), values.drop_last()) + encode_field(
            types.last(),
            values.last(),
        )
    }
}

/// The value that the bytes of one field hold. A string field holds none
/// where it has no length byte, where the length runs past the slot, or where
/// the payload is not UTF-8.
pub open spec fn decode_field(ty: DataType, slot: Seq<u8>) -> Option<ScalarView> {
    match ty {
        DataType::String(n) => {
            if n >= 1 && slot[0] < n && valid_utf8(slot.subrange(1, 1 + slot[0])) {
                Some(ScalarView::String(decode_utf8(slot.subrange(1, 1 + slot[0]))))
            } else {
                None
            }
        },
        DataType::Number => Some(ScalarView::Number(i64_value(slot))),
    }
}

/// The values that a row's bytes hold, field by field from the start of
/// `bytes`; none where some field holds none.
pub open spec fn decode_row(types: Seq<DataType>, bytes: Seq<u8>) -> Option<Seq<ScalarView>>
    decreases types.len(),
{
    if types.len() == 0 {
        Some(Seq::empty())
    } else {
        let at = row_width(types.drop_last()) as int;
        match (
            decode_row(types.drop_last(), bytes),
            decode_field(types.last(), bytes.subrange(at, at + types.last().spec_size())),
        ) {
            (Some(values), Some(value)) => Some(values.push(value)),
            _ => None,
        }
    }
}

/// The values accepted by `types`, as [`Schema::accepts`] says it of a schema.
pub open spec fn accepted(types: Seq<DataType>, values: Seq<ScalarView>) -> bool {
    &&& values.len() == types.len()
    &&& forall|i: int| 0 <= i < types.len() ==> (#[trigger] types[i]).accepts(values[i])
}

/// An accepted value fills its field exactly, and decodes to itself.
pub proof fn lemma_field_round_trip(ty: DataType, value: ScalarView)
    requires
        ty.accepts(value),
    ensures
        encode_field(ty, value).len() == ty.spec_size(),
        decode_field(ty, encode_field(ty, value)) == Some(value),
{
    match (ty, value) {
        (DataType::String(n), ScalarView::String(s)) => {
            let payload = encode_utf8(s);
            let slot = encode_field(ty, value);
            vstd::utf8::encode_utf8_valid_utf8(s);
            vstd::utf8::encode_utf8_decode_utf8(s);
            assert(slot.subrange(1, 1 + slot[0]) =~= payload);
        },
        (DataType::Number, ScalarView::Number(x)) => {
            lemma_i64_round_trip(x);
        },
        _ => {},
    }
}

/// Accepted values fill a row exactly.
pub proof fn lemma_encode_row_len(types: Seq<DataType>, values: Seq<ScalarView>)
    requires
        accepted(types, values),
    ensures
        encode_row(types, values).len() == row_width(types),
    decreases types.len(),
{
    if types.len() > 0 {
        lemma_encode_row_len(types.drop_last(), values.drop_last());
        lemma_field_round_trip(types.last(), values.last());
    }
}

/// What a row holds depends only on its own bytes.
pub proof fn lemma_decode_row_local(types: Seq<DataType>, a: Seq<u8>, b: Seq<u8>)
    requires
        row_width(types) <= a.len(),
        row_width(types) <= b.len(),
        a.subrange(0, row_width(types) as int) == b.subrange(0, row_width(types) as int),
    ensures
        decode_row(types, a) == decode_row(types, b),
    decreases types.len(),
{
    if types.len() > 0 {
        let w = row_width(types) as int;
        let at = row_width(types.drop_last()) as int;
        assert(a.subrange(0, at) =~= a.subrange(0, w).subrange(0, at));
        assert(b.subrange(0, at) =~= b.subrange(0, w).subrange(0, at));
        lemma_decode_row_local(types.drop_last(), a, b);
        assert(a.subrange(at, w) =~= a.subrange(0, w).subrange(at, w));
        assert(b.subrange(at, w) =~= b.subrange(0, w).subrange(at, w));
    }
}

/// Decoding an encoded row gives back the values: for every list of field
/// types and all values that they accept.
pub proof fn lemma_row_round_trip(types: Seq<DataType>, values: Seq<ScalarView>)
    requires
        accepted(types, values),
    ensures
        encode_row(types, values).len() == row_width(types),
        decode_row(types, encode_row(types, values)) == Some(values),
    decreases types.len(),
{
    lemma_encode_row_len(types, values);
    if types.len() > 0 {
        let head_types = types.drop_last();
        let head_values = values.drop_last();
        let head = encode_row(head_types, head_values);
        let slot = encode_field(types.last(), values.last());
        let row = encode_row(types, values);
        lemma_row_round_trip(head_types, head_values);
        lemma_field_round_trip(types.last(), values.last());
        assert(row.subrange(0, head.len() as int) =~= head);
        assert(head.subrange(0, head.len() as int) =~= head);
        lemma_decode_row_local(head_types, row, head);
        assert(row.subrange(head.len() as int, (head.len() + slot.len()) as int) =~= slot);
    }
}

/// What [`encode`] has written, [`decode`] reads: for every schema, all
/// values that it accepts, and every place in a buffer that has room for a
/// row, the row that is decoded there after the values were encoded there
/// holds these values.
pub proof fn lemma_decode_encode(buf: Seq<u8>, offset: int, schema: &Schema, values: Seq<ScalarView>)
    requires
        schema.accepts(values),
        0 <= offset,
        offset + schema.spec_row_size() <= buf.len(),
    ensures
        decode_row(
            schema.types(),
            overwrite(buf, offset, encode_row(schema.types(), values)).subrange(
                offset,
                offset + schema.spec_row_size(),
            ),
        ) == Some(values),
{
    lemma_row_round_trip(schema.types(), values);
    assert(overwrite(buf, offset, encode_row(schema.types(), values)).subrange(
        offset,
        offset + schema.spec_row_size(),
    ) =~= encode_row(schema.types(), values));
}

/// Where a prefix of the fields cannot be decoded, the row cannot.
pub proof fn lemma_decode_row_prefix(types: Seq<DataType>, bytes: Seq<u8>, n: int)
    requires
        0 <= n <= types.len(),
        decode_row(types.take(n), bytes) is None,
    ensures
        decode_row(types, bytes) is None,
    decreases types.len(),
{
    if n == types.len() {
        assert(types.take(n) =~= types);
    } else {
        assert(types.drop_last().take(n) =~= types.take(n));
        lemma_decode_row_prefix(types.drop_last(), bytes, n);
    }
}

/// Writing `b` right behind `a` is writing the two joined.
pub proof fn lemma_overwrite_append(s: Seq<u8>, at: int, a: Seq<u8>, b: Seq<u8>)
    requires
        0 <= at,
    ensures
        overwrite(overwrite(s, at, a), at + a.len(), b) == overwrite(s, at, a + b),
{
}

/// `String::from_utf8`: the text that `bytes` spell in UTF-8, or nothing
/// where they are not valid UTF-8.
#[verifier::external_body]
pub(crate) fn string_from_utf8(bytes: Vec<u8>) -> (r: Option<String>)
    ensures
        r is Some <==> valid_utf8(bytes@),
        r matches Some(s) ==> s@ == decode_utf8(bytes@),
{
    String::from_utf8(bytes).ok()
}

/// Writes one field at `at`, which `value` must fit.
fn encode_value(buf: &mut [u8], at: usize, ty: DataType, value: &ScalarValue)
    requires
        ty.accepts(value.deep_view()),
        at + ty.spec_size() <= old(buf)@.len(),
    ensures
        final(buf)@ == overwrite(old(buf)@, at as int, encode_field(ty, value.deep_view())),
{
    match (ty, value) {
        (DataType::String(n), ScalarValue::String(s)) => {
            let payload = s.as_str().as_bytes();
            proof {
                vstd::slice::axiom_spec_len(payload);
                vstd::slice::axiom_spec_len(buf);
            }
            let len = payload.len();
            buf[at] = len as u8;
            copy_bytes(buf, at + 1, payload, 0, len);
            fill_zero(buf, at + 1 + len, n - 1 - len);
            assert(buf@ =~= overwrite(
                old(buf)@,
                at as int,
                encode_field(ty, value.deep_view()),
            ));
        },
        (DataType::Number, ScalarValue::Number(x)) => {
            write_i64(buf, at, *x);
        },
        _ => {},
    }
}

/// Reads one field at `at`.
fn decode_value(buf: &[u8], at: usize, ty: DataType) -> (r: Option<ScalarValue>)
    requires
        at + ty.spec_size() <= buf@.len(),
    ensures
        match r {
            Some(value) => decode_field(ty, buf@.subrange(at as int, at + ty.spec_size()))
                == Some(value.deep_view()),
            None => decode_field(ty, buf@.subrange(at as int, at + ty.spec_size())) is None,
        },
{
    proof {
        vstd::slice::axiom_spec_len(buf);
    }
    let ghost slot = buf@.subrange(at as int, at + ty.spec_size());
    match ty {
        DataType::String(n) => {
            if n < 1 {
                return None;
            }
            let len = buf[at] as usize;
            if len >= n {
                return None;
            }
            let payload = slice_to_vec(slice_subrange(buf, at + 1, at + 1 + len));
            assert(payload@ =~= slot.subrange(1, 1 + slot[0]));
            match string_from_utf8(payload) {
                Some(s) => Some(ScalarValue::String(s)),
                None => None,
            }
        },
        DataType::Number => {
            let x = read_i64(buf, at);
            Some(ScalarValue::Number(x))
        },
    }
}

/// Encodes `values` into the row that starts at `offset`.
///
/// Values that the schema does not accept (a wrong count, a wrong kind, a
/// string longer than the payload of its slot) are refused with
/// [`Error::ParseError`], and the buffer stays as it was.
pub fn encode(buf: &mut [u8], offset: usize, schema: &Schema, values: &[ScalarValue]) -> (r:
    Result<(), Error>)
    requires
        offset + schema.spec_row_size() <= old(buf)@.len(),
    ensures
        schema.accepts(values.deep_view()) ==> r is Ok && final(buf)@ == overwrite(
            old(buf)@,
            offset as int,
            encode_row(schema.types(), values.deep_view()),
        ),
        !schema.accepts(values.deep_view()) ==> r == Err::<(), Error>(Error::ParseError)
            && final(buf)@ == old(buf)@,
{
    if !schema.matches(values) {
        return Err(Error::ParseError);
    }
    let ghost types = schema.types();
    let ghost vals = values.deep_view();
    proof {
        vstd::slice::axiom_spec_len(buf);
    }
    let mut at: usize = offset;
    let mut i: usize = 0;
    while i < schema.feilds.len()
        invariant
            i <= schema.feilds@.len(),
            types == schema.types(),
            vals == values.deep_view(),
            accepted(types, vals),
            buf@.len() == old(buf)@.len(),
            buf@.len() <= usize::MAX,
            offset + row_width(types) <= buf@.len(),
            at == offset + row_width(types.take(i as int)),
            buf@ == overwrite(
                old(buf)@,
                offset as int,
                encode_row(types.take(i as int), vals.take(i as int)),
            ),
        decreases schema.feilds@.len() - i,
    {
        let ty = schema.feilds[i].1;
        proof {
            lemma_row_width_step(types, i as int);
            lemma_row_width_prefix(types, i + 1);
            lemma_encode_row_len(types.take(i as int), vals.take(i as int));
            lemma_field_round_trip(ty, vals[i as int]);
            assert(types.take(i + 1).drop_last() =~= types.take(i as int));
            assert(vals.take(i + 1).drop_last() =~= vals.take(i as int));
            lemma_overwrite_append(
                old(buf)@,
                offset as int,
                encode_row(types.take(i as int), vals.take(i as int)),
                encode_field(ty, vals[i as int]),
            );
        }
        encode_value(buf, at, ty, &values[i]);
        at = at + ty.size();
        i += 1;
    }
    proof {
        assert(types.take(i as int) =~= types);
        assert(vals.take(i as int) =~= vals);
    }
    Ok(())
}

/// Decodes the row that starts at `offset`.
///
/// Fails with [`Error::ParseError`] exactly where the bytes hold no row of
/// this schema: see [`decode_field`].
pub fn decode(buf: &[u8], offset: usize, schema: &Schema) -> (r: Result<Vec<ScalarValue>, Error>)
    requires
        offset + schema.spec_row_size() <= buf@.len(),
    ensures
        match r {
            Ok(values) => decode_row(
                schema.types(),
                buf@.subrange(offset as int, offset + schema.spec_row_size()),
            ) == Some(values.deep_view()),
            Err(e) => e == Error::ParseError && decode_row(
                schema.types(),
                buf@.subrange(offset as int, offset + schema.spec_row_size()),
            ) is None,
        },
{
    let ghost types = schema.types();
    let ghost row = buf@.subrange(offset as int, offset + schema.spec_row_size());
    proof {
        vstd::slice::axiom_spec_len(buf);
    }
    let mut out: Vec<ScalarValue> = Vec::new();
    let mut at: usize = offset;
    let mut i: usize = 0;
    while i < schema.feilds.len()
        invariant
            i <= schema.feilds@.len(),
            types == schema.types(),
            row == buf@.subrange(offset as int, offset + row_width(types)),
            buf@.len() <= usize::MAX,
            offset + row_width(types) <= buf@.len(),
            at == offset + row_width(types.take(i as int)),
            decode_row(types.take(i as int), row) == Some(out.deep_view()),
        decreases schema.feilds@.len() - i,
    {
        let ty = schema.feilds[i].1;
        proof {
            lemma_row_width_step(types, i as int);
            lemma_row_width_prefix(types, i + 1);
            assert(types.take(i + 1).drop_last() =~= types.take(i as int));
            assert(buf@.subrange(at as int, at + ty.spec_size()) =~= row.subrange(
                at - offset,
                at - offset + ty.spec_size(),
            ));
        }
        match decode_value(buf, at, ty) {
            Some(value) => {
                out.push(value);
            },
            None => {
                proof {
                    lemma_decode_row_prefix(types, row, i + 1);
                }
                return Err(Error::ParseError);
            },
        }
        at = at + ty.size();
        i += 1;
    }
    proof {
        assert(types.take(i as int) =~= types);
    }
    Ok(out)
}

} // verus!
