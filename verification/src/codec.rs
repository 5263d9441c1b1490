//! The wire format and its codec.
//!
//! [`wire`] fixes, value by value, the exact byte sequence a value encodes
//! to under a schema; [`parse`] fixes what any byte sequence decodes to,
//! including every failure. The central theorem, [`lemma_parse_wire`],
//! states that parsing an encoded value yields exactly its normalisation:
//! the same value with every skip-marked field restored to its default and
//! every skip-marked variant restored to the default variant.
//!
//! The executable encoder and decoder refine these two functions clause by
//! clause, so everything proved about `wire` and `parse` holds of the code
//! that runs.

use vstd::prelude::*;
use crate::err::CodecError;
use crate::schema::FieldV;
use crate::schema::SchemaV;
use crate::schema::TypeSchema;
use crate::schema::default_ordinal_of;
use crate::schema::lemma_fields_view;
use crate::schema::resolved_order;
use crate::schema::vec_fields_view;
use crate::schema::field_order;
use crate::schema::fields_wf;
use crate::schema::lemma_default_ordinal_in_range;
use crate::schema::lemma_field_order_entries;
use crate::schema::lemma_fields_wf;
use crate::schema::schema_wf;
use crate::schema::wire_ordinal;
use crate::value::ValV;
use crate::value::Value;
use crate::value::conforms;
use crate::value::default_value;
use crate::value::lemma_vals_view;
use crate::value::seq_vals_view;
use crate::value::value_view;
use crate::value::vec_vals_view;
use crate::value::default_val;
use crate::value::defaults_of;
use crate::value::elems_conform;
use crate::value::fields_conform;
use crate::value::lemma_defaults_of;
use crate::value::lemma_elems_conform;
use crate::value::lemma_fields_conform;
use crate::value::lemma_normalize_elems;
use crate::value::lemma_normalize_fields;
use crate::value::normalize;
use crate::value::normalize_elems;
use crate::value::normalize_fields;
use crate::varint::parse_varu32;
use crate::varint::parse_varu64;
use crate::varint::lemma_parse_varu32_of_vleb;
use crate::varint::lemma_parse_varu64_of_vleb;
use crate::varint::lemma_parse_vleb_bounds;
use crate::varint::lemma_vleb_len;
use crate::varint::lemma_pow128_values;
use crate::varint::read_varu32;
use crate::varint::read_varu64;
use crate::varint::vleb;
use crate::varint::write_vleb;

verus! {

/// The unsigned image of a signed 8-bit integer, modulo `2^8`.
pub open spec fn norm8(x: i8) -> nat {
    if x >= 0 {
        x as nat
    } else {
        (x + 0x100) as nat
    }
}

/// The signed reading of an unsigned value below `2^8`.
pub open spec fn denorm8(n: nat) -> i8 {
    if n < 0x80 {
        n as i8
    } else {
        (n - 0x100) as i8
    }
}

/// The unsigned image of a signed 32-bit integer, modulo `2^32`.
pub open spec fn norm32(x: i32) -> nat {
    if x >= 0 {
        x as nat
    } else {
        (x + 0x1_0000_0000) as nat
    }
}

/// The signed reading of an unsigned value below `2^32`.
pub open spec fn denorm32(n: nat) -> i32 {
    if n < 0x8000_0000 {
        n as i32
    } else {
        (n - 0x1_0000_0000) as i32
    }
}

/// The unsigned image of a signed 64-bit integer, modulo `2^64`.
pub open spec fn norm64(x: i64) -> nat {
    if x >= 0 {
        x as nat
    } else {
        (x + 0x1_0000_0000_0000_0000) as nat
    }
}

/// The signed reading of an unsigned value below `2^64`.
pub open spec fn denorm64(n: nat) -> i64 {
    if n < 0x8000_0000_0000_0000 {
        n as i64
    } else {
        (n - 0x1_0000_0000_0000_0000) as i64
    }
}

/// Whether `n` is a Unicode scalar value, the code of some character.
pub open spec fn is_scalar(n: nat) -> bool {
    n < 0xD800 || (0xE000 <= n && n < 0x11_0000)
}

/// The wire image of the characters of `cs` from position `k` on: one
/// varint code point per character.
pub open spec fn wire_chars_from(cs: Seq<char>, k: int) -> Seq<u8>
    decreases cs.len() - k,
{
    if k < 0 || k >= cs.len() {
        Seq::empty()
    } else {
        vleb(cs[k] as nat) + wire_chars_from(cs, k + 1)
    }
}

/// The result of parsing `count` characters from the front of `input`.
pub open spec fn parse_chars(input: Seq<u8>, count: nat, acc: Seq<char>) -> Result<
    (Seq<char>, int),
    CodecError,
>
    decreases count,
{
    if count == 0 {
        Ok((acc, 0))
    } else {
        match parse_varu32(input) {
            Ok((n, k)) => if is_scalar(n) && 1 <= k <= input.len() {
                match parse_chars(input.skip(k), (count - 1) as nat, acc.push(n as char)) {
                    Ok((cs, m)) => Ok((cs, k + m)),
                    Err(e) => Err(e),
                }
            } else {
                Err(CodecError::MalformedData)
            },
            Err(e) => Err(e),
        }
    }
}

/// The wire image of a value under a schema.
///
/// For a struct, the non-skipped fields are written in the resolver's
/// sorted order with no tags or length prefixes; a skipped field
/// contributes no bytes at all. For an enum, a single varint carries the
/// ordinal-table entry of the selected variant: its own position, or the
/// default variant's position when it is skip-marked.
pub open spec fn wire(s: SchemaV, v: ValV) -> Seq<u8>
    decreases v, 0int,
{
    match v {
        ValV::Bool(b) => seq![
            if b {
                1u8
            } else {
                0u8
            },
        ],
        ValV::I8(x) => seq![norm8(x) as u8],
        ValV::I32(x) => vleb(norm32(x)),
        ValV::I64(x) => vleb(norm64(x)),
        ValV::F32Bits(x) => vleb(x as nat),
        ValV::F64Bits(x) => vleb(x as nat),
        ValV::Str(cs) => vleb(cs.len()) + wire_chars_from(cs, 0),
        ValV::List(es) => match s {
            SchemaV::List(t) => vleb(es.len()) + wire_elems(*t, es, 0),
            _ => Seq::empty(),
        },
        ValV::Struct(vs) => match s {
            SchemaV::Struct(fields) => wire_fields(fields, field_order(fields), vs, 0),
            _ => Seq::empty(),
        },
        ValV::Enum(o) => match s {
            SchemaV::Enum(variants) => if (o as int) < variants.len() {
                vleb(wire_ordinal(variants, o as int) as nat)
            } else {
                Seq::empty()
            },
            _ => Seq::empty(),
        },
    }
}

/// The concatenated wire images of the elements of `es` from position `k`.
pub open spec fn wire_elems(t: SchemaV, es: Seq<ValV>, k: int) -> Seq<u8>
    decreases es, es.len() - k,
{
    if k < 0 || k >= es.len() {
        Seq::empty()
    } else {
        wire(t, es[k]) + wire_elems(t, es, k + 1)
    }
}

/// The concatenated wire images of the fields named by `order` from
/// position `k` on: for each order entry, the value at that declared
/// position, encoded under that field's type.
pub open spec fn wire_fields(fields: Seq<FieldV>, order: Seq<usize>, vs: Seq<ValV>, k: int) -> Seq<
    u8,
>
    decreases vs, order.len() - k,
{
    if k < 0 || k >= order.len() {
        Seq::empty()
    } else {
        let j = order[k] as int;
        if 0 <= j < vs.len() {
            wire(fields[j].ty, vs[j]) + wire_fields(fields, order, vs, k + 1)
        } else {
            wire_fields(fields, order, vs, k + 1)
        }
    }
}

/// The result of parsing one value of schema `s` from the front of
/// `input`: the reconstructed value and the bytes consumed, or the first
/// error. A struct parse starts from the declaration's defaults and fills
/// in the non-skipped fields in resolver order; an enum parse rejects any
/// ordinal that is not the position of an unskipped variant.
pub open spec fn parse(s: SchemaV, input: Seq<u8>) -> Result<(ValV, int), CodecError>
    decreases input.len(), s, 0int,
{
    match s {
        SchemaV::Bool => if input.len() == 0 {
            Err(CodecError::MalformedData)
        } else if input[0] == 0 {
            Ok((ValV::Bool(false), 1))
        } else if input[0] == 1 {
            Ok((ValV::Bool(true), 1))
        } else {
            Err(CodecError::MalformedData)
        },
        SchemaV::I8 => if input.len() == 0 {
            Err(CodecError::MalformedData)
        } else {
            Ok((ValV::I8(denorm8(input[0] as nat)), 1))
        },
        SchemaV::I32 => match parse_varu32(input) {
            Ok((n, k)) => Ok((ValV::I32(denorm32(n)), k)),
            Err(e) => Err(e),
        },
        SchemaV::I64 => match parse_varu64(input) {
            Ok((n, k)) => Ok((ValV::I64(denorm64(n)), k)),
            Err(e) => Err(e),
        },
        SchemaV::F32 => match parse_varu32(input) {
            Ok((n, k)) => Ok((ValV::F32Bits(n as u32), k)),
            Err(e) => Err(e),
        },
        SchemaV::F64 => match parse_varu64(input) {
            Ok((n, k)) => Ok((ValV::F64Bits(n as u64), k)),
            Err(e) => Err(e),
        },
        SchemaV::Str => match parse_varu32(input) {
            Ok((n, k)) => if 1 <= k <= input.len() {
                match parse_chars(input.skip(k), n, Seq::empty()) {
                    Ok((cs, m)) => Ok((ValV::Str(cs), k + m)),
                    Err(e) => Err(e),
                }
            } else {
                Err(CodecError::MalformedData)
            },
            Err(e) => Err(e),
        },
        SchemaV::List(t) => match parse_varu32(input) {
            Ok((n, k)) => if 1 <= k <= input.len() {
                match parse_elems(*t, input.skip(k), n, Seq::empty()) {
                    Ok((es, m)) => Ok((ValV::List(es), k + m)),
                    Err(e) => Err(e),
                }
            } else {
                Err(CodecError::MalformedData)
            },
            Err(e) => Err(e),
        },
        SchemaV::Struct(fields) => match parse_fields(
            fields,
            field_order(fields),
            input,
            0,
            defaults_of(fields),
        ) {
            Ok((vs, m)) => Ok((ValV::Struct(vs), m)),
            Err(e) => Err(e),
        },
        SchemaV::Enum(variants) => match parse_varu32(input) {
            Ok((o, k)) => if o < variants.len() && !variants[o as int].skip {
                Ok((ValV::Enum(o as u32), k))
            } else {
                Err(CodecError::UnknownEnumValue)
            },
            Err(e) => Err(e),
        },
    }
}

/// The result of parsing `count` elements of schema `t` from the front of
/// `input`, appended to `acc`.
pub open spec fn parse_elems(t: SchemaV, input: Seq<u8>, count: nat, acc: Seq<ValV>) -> Result<
    (Seq<ValV>, int),
    CodecError,
>
    decreases input.len(), t, count,
{
    if count == 0 {
        Ok((acc, 0))
    } else {
        match parse(t, input) {
            Ok((v, k)) => if 0 <= k <= input.len() {
                match parse_elems(t, input.skip(k), (count - 1) as nat, acc.push(v)) {
                    Ok((es, m)) => Ok((es, k + m)),
                    Err(e) => Err(e),
                }
            } else {
                Err(CodecError::MalformedData)
            },
            Err(e) => Err(e),
        }
    }
}

/// The result of parsing the fields named by `order[k..]` from the front
/// of `input`, each decoded value replacing the entry of `acc` at its
/// declared position.
pub open spec fn parse_fields(
    fields: Seq<FieldV>,
    order: Seq<usize>,
    input: Seq<u8>,
    k: int,
    acc: Seq<ValV>,
) -> Result<(Seq<ValV>, int), CodecError>
    decreases input.len(), fields, order.len() - k,
{
    if k < 0 || k >= order.len() {
        Ok((acc, 0))
    } else {
        let j = order[k] as int;
        if 0 <= j < fields.len() {
            match parse(fields[j].ty, input) {
                Ok((v, m)) => if 0 <= m <= input.len() {
                    match parse_fields(fields, order, input.skip(m), k + 1, acc.update(j, v)) {
                        Ok((vs, m2)) => Ok((vs, m + m2)),
                        Err(e) => Err(e),
                    }
                } else {
                    Err(CodecError::MalformedData)
                },
                Err(e) => Err(e),
            }
        } else {
            Err(CodecError::MalformedData)
        }
    }
}

/// The assignments a field parse performs: the entries of `acc` at the
/// positions named by `order[k..]`, replaced by the normalised values.
pub open spec fn apply_norms(
    acc: Seq<ValV>,
    fields: Seq<FieldV>,
    order: Seq<usize>,
    vs: Seq<ValV>,
    k: int,
) -> Seq<ValV>
    decreases order.len() - k,
{
    if k < 0 || k >= order.len() {
        acc
    } else {
        let j = order[k] as int;
        apply_norms(
            acc.update(j, normalize(fields[j].ty, vs[j])),
            fields,
            order,
            vs,
            k + 1,
        )
    }
}

/// What `apply_norms` does pointwise: positions named by a remaining order
/// entry hold the normalised value, all others keep the accumulator's.
pub proof fn lemma_apply_norms(
    acc: Seq<ValV>,
    fields: Seq<FieldV>,
    order: Seq<usize>,
    vs: Seq<ValV>,
    k: int,
)
    requires
        0 <= k <= order.len(),
        forall|i: int| k <= i < order.len() ==> 0 <= #[trigger] order[i] < acc.len(),
    ensures
        apply_norms(acc, fields, order, vs, k).len() == acc.len(),
        forall|j: int|
            0 <= j < acc.len() ==> #[trigger] apply_norms(acc, fields, order, vs, k)[j] == (
            if exists|i: int| k <= i < order.len() && order[i] == j {
                normalize(fields[j].ty, vs[j])
            } else {
                acc[j]
            }),
    decreases order.len() - k,
{
    if k < order.len() {
        let j0 = order[k] as int;
        let acc2 = acc.update(j0, normalize(fields[j0].ty, vs[j0]));
        lemma_apply_norms(acc2, fields, order, vs, k + 1);
        assert forall|j: int|
            0 <= j < acc.len() implies #[trigger] apply_norms(acc, fields, order, vs, k)[j] == (
        if exists|i: int| k <= i < order.len() && order[i] == j {
            normalize(fields[j].ty, vs[j])
        } else {
            acc[j]
        }) by {
            if exists|i: int| k + 1 <= i < order.len() && order[i] == j {
                let i = choose|i: int| k + 1 <= i < order.len() && order[i] == j;
                assert(k <= i < order.len() && order[i] == j);
            } else if j == j0 {
                assert(acc2[j] == normalize(fields[j].ty, vs[j]));
                assert(k <= k < order.len() && order[k] == j);
            } else {
                assert(acc2[j] == acc[j]);
                if exists|i: int| k <= i < order.len() && order[i] == j {
                    let i = choose|i: int| k <= i < order.len() && order[i] == j;
                    assert(i == k || k + 1 <= i);
                    assert(false);
                }
            }
        }
    }
}

/// Parsing an encoded character run gives back exactly those characters.
pub proof fn lemma_parse_chars(cs: Seq<char>, k: int, acc: Seq<char>, rest: Seq<u8>)
    requires
        0 <= k <= cs.len(),
        cs.len() <= 0xFFFF_FFFF,
    ensures
        parse_chars(wire_chars_from(cs, k) + rest, (cs.len() - k) as nat, acc) == Ok::<
            (Seq<char>, int),
            CodecError,
        >((acc + cs.skip(k), wire_chars_from(cs, k).len() as int)),
    decreases cs.len() - k,
{
    if k == cs.len() {
        assert(wire_chars_from(cs, k) + rest =~= rest);
        assert(acc + cs.skip(k) =~= acc);
    } else {
        let c = cs[k];
        vstd::utf8::char_is_scalar(c);
        vstd::utf8::char_u32_cast(c, c as u32);
        assert(c as nat == (c as u32) as nat);
        let cw = vleb(c as nat);
        let tailw = wire_chars_from(cs, k + 1);
        assert(wire_chars_from(cs, k) == cw + tailw);
        assert((cw + tailw) + rest =~= cw + (tailw + rest));
        lemma_parse_varu32_of_vleb(c as nat, tailw + rest);
        assert(is_scalar(c as nat));
        lemma_pow128_values();
        lemma_vleb_len(c as nat, 5);
        assert((cw + (tailw + rest)).skip(cw.len() as int) =~= tailw + rest);
        lemma_parse_chars(cs, k + 1, acc.push((c as nat) as char), rest);
        assert((c as nat) as char == c);
        assert(acc.push(c) + cs.skip(k + 1) =~= acc + cs.skip(k));
    }
}

/// Parsing an encoded element run gives back the normalised elements.
pub proof fn lemma_parse_wire_elems(
    t: SchemaV,
    es: Seq<ValV>,
    k: int,
    acc: Seq<ValV>,
    rest: Seq<u8>,
)
    requires
        0 <= k <= es.len(),
        schema_wf(t),
        forall|i: int| 0 <= i < es.len() ==> conforms(#[trigger] es[i], t),
    ensures
        parse_elems(t, wire_elems(t, es, k) + rest, (es.len() - k) as nat, acc) == Ok::<
            (Seq<ValV>, int),
            CodecError,
        >((acc + normalize_elems(es, t).skip(k), wire_elems(t, es, k).len() as int)),
    decreases es, es.len() - k, 1int,
{
    lemma_normalize_elems(es, t);
    if k == es.len() {
        assert(wire_elems(t, es, k) + rest =~= rest);
        assert(acc + normalize_elems(es, t).skip(k) =~= acc);
    } else {
        let ew = wire(t, es[k]);
        let tailw = wire_elems(t, es, k + 1);
        assert(wire_elems(t, es, k) == ew + tailw);
        assert((ew + tailw) + rest =~= ew + (tailw + rest));
        lemma_parse_wire(t, es[k], tailw + rest);
        assert((ew + (tailw + rest)).skip(ew.len() as int) =~= tailw + rest);
        lemma_parse_wire_elems(t, es, k + 1, acc.push(normalize(t, es[k])), rest);
        assert(acc.push(normalize(t, es[k])) + normalize_elems(es, t).skip(k + 1) =~= acc
            + normalize_elems(es, t).skip(k));
    }
}

/// Parsing an encoded field run performs exactly the normalising
/// assignments of `apply_norms`.
pub proof fn lemma_parse_wire_fields(
    fields: Seq<FieldV>,
    order: Seq<usize>,
    vs: Seq<ValV>,
    k: int,
    acc: Seq<ValV>,
    rest: Seq<u8>,
)
    requires
        0 <= k <= order.len(),
        vs.len() == fields.len(),
        fields_wf(fields),
        fields_conform(vs, fields),
        forall|i: int| 0 <= i < order.len() ==> 0 <= #[trigger] order[i] < fields.len(),
    ensures
        parse_fields(fields, order, wire_fields(fields, order, vs, k) + rest, k, acc) == Ok::<
            (Seq<ValV>, int),
            CodecError,
        >((apply_norms(acc, fields, order, vs, k), wire_fields(fields, order, vs, k).len() as int)),
    decreases vs, order.len() - k, 1int,
{
    if k < order.len() {
        let j = order[k] as int;
        assert(0 <= j < fields.len());
        let fw = wire(fields[j].ty, vs[j]);
        let tailw = wire_fields(fields, order, vs, k + 1);
        assert(wire_fields(fields, order, vs, k) == fw + tailw);
        assert((fw + tailw) + rest =~= fw + (tailw + rest));
        lemma_fields_wf(fields);
        lemma_fields_conform(vs, fields);
        assert(schema_wf(fields[j].ty));
        assert(conforms(vs[j], fields[j].ty));
        lemma_parse_wire(fields[j].ty, vs[j], tailw + rest);
        assert((fw + (tailw + rest)).skip(fw.len() as int) =~= tailw + rest);
        lemma_parse_wire_fields(
            fields,
            order,
            vs,
            k + 1,
            acc.update(j, normalize(fields[j].ty, vs[j])),
            rest,
        );
    }
}

/// The round-trip theorem of the codec: parsing the wire image of a
/// conforming value under a well-formed schema consumes exactly that
/// image, whatever follows it, and reconstructs the value's
/// normalisation — the value itself with every skip-marked field restored
/// to its default and every skip-marked variant restored to the default
/// variant.
pub proof fn lemma_parse_wire(s: SchemaV, v: ValV, rest: Seq<u8>)
    requires
        schema_wf(s),
        conforms(v, s),
    ensures
        parse(s, wire(s, v) + rest) == Ok::<(ValV, int), CodecError>((
            normalize(s, v),
            wire(s, v).len() as int,
        )),
    decreases v, 0int, 0int,
{
    lemma_pow128_values();
    match v {
        ValV::Bool(b) => {
            let w = wire(s, v);
            assert((w + rest)[0] == w[0]);
        },
        ValV::I8(x) => {
            let w = wire(s, v);
            assert((w + rest)[0] == w[0]);
            assert(denorm8(norm8(x)) == x);
        },
        ValV::I32(x) => {
            lemma_parse_varu32_of_vleb(norm32(x), rest);
            assert(denorm32(norm32(x)) == x);
        },
        ValV::I64(x) => {
            lemma_parse_varu64_of_vleb(norm64(x), rest);
            assert(denorm64(norm64(x)) == x);
        },
        ValV::F32Bits(x) => {
            lemma_parse_varu32_of_vleb(x as nat, rest);
        },
        ValV::F64Bits(x) => {
            lemma_parse_varu64_of_vleb(x as nat, rest);
        },
        ValV::Str(cs) => {
            let cw = wire_chars_from(cs, 0);
            let lw = vleb(cs.len());
            assert(wire(s, v) == lw + cw);
            assert((lw + cw) + rest =~= lw + (cw + rest));
            lemma_parse_varu32_of_vleb(cs.len(), cw + rest);
            lemma_vleb_len(cs.len(), 5);
            assert((lw + (cw + rest)).skip(lw.len() as int) =~= cw + rest);
            lemma_parse_chars(cs, 0, Seq::empty(), rest);
            assert(Seq::<char>::empty() + cs.skip(0) =~= cs);
            assert(normalize(s, v) == v);
        },
        ValV::List(es) => {
            if let SchemaV::List(t) = s {
                let ew = wire_elems(*t, es, 0);
                let lw = vleb(es.len());
                assert(wire(s, v) == lw + ew);
                assert((lw + ew) + rest =~= lw + (ew + rest));
                lemma_parse_varu32_of_vleb(es.len(), ew + rest);
                lemma_vleb_len(es.len(), 5);
                assert((lw + (ew + rest)).skip(lw.len() as int) =~= ew + rest);
                lemma_elems_conform(es, *t);
                lemma_parse_wire_elems(*t, es, 0, Seq::empty(), rest);
                lemma_normalize_elems(es, *t);
                assert(Seq::<ValV>::empty() + normalize_elems(es, *t).skip(0) =~= normalize_elems(
                    es,
                    *t,
                ));
            }
        },
        ValV::Struct(vs) => {
            if let SchemaV::Struct(fields) = s {
                let order = field_order(fields);
                lemma_field_order_entries(fields);
                assert forall|i: int|
                    0 <= i < order.len() implies 0 <= #[trigger] order[i] < fields.len() by {
                    assert(order.contains(order[i]));
                }
                lemma_parse_wire_fields(fields, order, vs, 0, defaults_of(fields), rest);
                lemma_defaults_of(fields);
                lemma_apply_norms(defaults_of(fields), fields, order, vs, 0);
                lemma_normalize_fields(vs, fields);
                let got = apply_norms(defaults_of(fields), fields, order, vs, 0);
                assert forall|j: int|
                    0 <= j < vs.len() implies #[trigger] got[j] == normalize_fields(
                    vs,
                    fields,
                )[j] by {
                    if fields[j].skip {
                        assert(!order.contains(j as usize));
                        if exists|i: int| 0 <= i < order.len() && order[i] == j {
                            let i = choose|i: int| 0 <= i < order.len() && order[i] == j;
                            assert(order.contains(order[i]));
                            assert(false);
                        }
                        assert(got[j] == defaults_of(fields)[j]);
                    } else {
                        assert(order.contains(j as usize));
                        let i = choose|i: int| 0 <= i < order.len() && order[i] == j as usize;
                        assert(0 <= i < order.len() && order[i] == j);
                    }
                }
                assert(got =~= normalize_fields(vs, fields));
            }
        },
        ValV::Enum(o) => {
            if let SchemaV::Enum(variants) = s {
                lemma_default_ordinal_in_range(variants, 0);
                let t = wire_ordinal(variants, o as int);
                assert(0 <= t < variants.len());
                lemma_parse_varu32_of_vleb(t as nat, rest);
                assert(!variants[t].skip);
            }
        },
    }
}



/// Relies on `char::from_u32`: it returns the character of a Unicode
/// scalar value, `None` exactly for surrogate values and values above the
/// Unicode maximum, and the returned character casts back to the given
/// code.
#[verifier::external_body]
fn char_from_u32(n: u32) -> (r: Option<char>)
    ensures
        r is Some <==> is_scalar(n as nat),
        r matches Some(c) ==> c as u32 == n,
{
    char::from_u32(n)
}

/// Appends a varint character count and the characters' varint code
/// points to `out`.
pub fn encode_chars(cs: &Vec<char>, out: &mut Vec<u8>)
    requires
        cs@.len() <= 0xFFFF_FFFF,
    ensures
        final(out)@ == old(out)@ + vleb(cs@.len()) + wire_chars_from(cs@, 0),
{
    write_vleb(out, cs.len() as u64);
    let ghost mid = out@;
    let n = cs.len();
    let mut k: usize = 0;
    while k < n
        invariant
            k <= n,
            n == cs@.len(),
            mid == old(out)@ + vleb(cs@.len()),
            wire_chars_from(cs@, 0) == out@.skip(mid.len() as int) + wire_chars_from(cs@, k as int),
            out@.len() >= mid.len(),
            out@.subrange(0, mid.len() as int) == mid,
        decreases n - k,
    {
        let c = cs[k];
        proof {
            vstd::utf8::char_is_scalar(c);
            vstd::utf8::char_u32_cast(c, c as u32);
            assert(c as nat == (c as u32) as nat);
        }
        write_vleb(out, (c as u32) as u64);
        proof {
            assert(((c as u32) as u64) as nat == cs@[k as int] as nat);
            assert(wire_chars_from(cs@, k as int) == vleb(cs@[k as int] as nat)
                + wire_chars_from(cs@, k + 1));
            assert(out@.skip(mid.len() as int) =~= out@.subrange(
                mid.len() as int,
                out@.len() as int,
            ));
            assert(wire_chars_from(cs@, 0) =~= out@.skip(mid.len() as int) + wire_chars_from(
                cs@,
                k + 1,
            ));
            assert(out@.subrange(0, mid.len() as int) =~= mid);
        }
        k = k + 1;
    }
    proof {
        assert(wire_chars_from(cs@, n as int) =~= Seq::<u8>::empty());
        assert(wire_chars_from(cs@, 0) =~= out@.skip(mid.len() as int));
        assert(out@ =~= out@.subrange(0, mid.len() as int) + out@.skip(mid.len() as int));
        assert(out@ =~= old(out)@ + vleb(cs@.len()) + wire_chars_from(cs@, 0));
    }
}

/// Reads a varint character count and that many varint code points from
/// `data` at `pos`.
pub fn decode_chars(data: &Vec<u8>, pos: usize) -> (r: Result<(Vec<char>, usize), CodecError>)
    requires
        pos <= data@.len(),
    ensures
        match parse(SchemaV::Str, data@.skip(pos as int)) {
            Ok((w, m)) => r matches Ok(p) && ValV::Str(p.0@) == w && p.1 == pos + m && pos <= p.1
                <= data@.len(),
            Err(e) => r matches Err(e2) && e2 == e,
        },
{
    let ghost input = data@.skip(pos as int);
    let (n, start) = match read_varu32(data, pos) {
        Ok(p) => p,
        Err(e) => {
            return Err(e);
        },
    };
    proof {
        lemma_parse_vleb_bounds(input, 5);
        assert(input.skip(start - pos) =~= data@.skip(start as int));
    }
    let mut out: Vec<char> = Vec::new();
    let mut cur: usize = start;
    let mut i: u32 = 0;
    while i < n
        invariant
            i <= n,
            start <= cur <= data@.len(),
            parse_varu32(data@.skip(pos as int)) == Ok::<(nat, int), CodecError>((
                n as nat,
                start - pos,
            )),
            pos < start,
            out@.len() == i,
            ({
                let orig = parse_chars(data@.skip(start as int), n as nat, Seq::empty());
                match parse_chars(data@.skip(cur as int), (n - i) as nat, out@) {
                    Ok((cs2, m2)) => orig == Ok::<(Seq<char>, int), CodecError>((
                        cs2,
                        (cur - start) + m2,
                    )),
                    Err(e2) => orig == Err::<(Seq<char>, int), CodecError>(e2),
                }
            }),
        decreases n - i,
    {
        let ghost suffix = data@.skip(cur as int);
        let (code, p2) = match read_varu32(data, cur) {
            Ok(p) => p,
            Err(e) => {
                proof {
                    assert(data@.skip(pos as int).skip(start - pos) =~= data@.skip(start as int));
                    assert(1 <= start - pos <= data@.skip(pos as int).len());
                }
                proof {
                    assert(parse_chars(data@.skip(cur as int), (n - i) as nat, out@) == Err::<
                        (Seq<char>, int),
                        CodecError,
                    >(e));
                }
                return Err(e);
            },
        };
        proof {
            lemma_parse_vleb_bounds(suffix, 5);
        }
        let c = match char_from_u32(code) {
            Some(c) => c,
            None => {
                proof {
                    assert(data@.skip(pos as int).skip(start - pos) =~= data@.skip(start as int));
                    assert(1 <= start - pos <= data@.skip(pos as int).len());
                }
                proof {
                    assert(parse_chars(data@.skip(cur as int), (n - i) as nat, out@) == Err::<
                        (Seq<char>, int),
                        CodecError,
                    >(CodecError::MalformedData));
                }
                return Err(CodecError::MalformedData);
            },
        };
        out.push(c);
        proof {
            assert(suffix.skip(p2 - cur) =~= data@.skip(p2 as int));
            vstd::utf8::char_u32_cast(c, code);
            assert((code as nat) as char == c);
        }
        cur = p2;
        i = i + 1;
    }
    proof {
        assert(parse_chars(data@.skip(cur as int), 0, out@) == Ok::<(Seq<char>, int), CodecError>((
            out@,
            0,
        )));
        assert(data@.skip(pos as int).skip(start - pos) =~= data@.skip(start as int));
        assert(1 <= start - pos <= data@.skip(pos as int).len());
    }
    Ok((out, cur))
}



/// Appends the wire image of `v` under the well-formed schema `s` to
/// `out`, provided `v` conforms to `s`.
pub fn encode(s: &TypeSchema, v: &Value, out: &mut Vec<u8>)
    requires
        schema_wf(s@),
        conforms(v@, s@),
    ensures
        final(out)@ == old(out)@ + wire(s@, v@),
    decreases *v,
{
    match (v, s) {
        (Value::Bool(b), TypeSchema::Bool) => {
            proof {
                assert(*v == Value::Bool(*b));
            }
            out.push(if *b { 1 } else { 0 });
            proof {
                assert(out@ =~= old(out)@ + wire(s@, v@));
            }
        },
        (Value::I8(x), TypeSchema::I8) => {
            proof {
                assert(*v == Value::I8(*x));
            }
            let b: u8 = if *x >= 0 {
                *x as u8
            } else {
                ((*x as i16) + 0x100) as u8
            };
            out.push(b);
            proof {
                assert(b as nat == norm8(*x));
                assert(out@ =~= old(out)@ + wire(s@, v@));
            }
        },
        (Value::I32(x), TypeSchema::I32) => {
            proof {
                assert(*v == Value::I32(*x));
            }
            let n: u32 = if *x >= 0 {
                *x as u32
            } else {
                ((*x as i64) + 0x1_0000_0000) as u32
            };
            proof {
                assert(n as nat == norm32(*x));
            }
            write_vleb(out, n as u64);
        },
        (Value::I64(x), TypeSchema::I64) => {
            proof {
                assert(*v == Value::I64(*x));
            }
            let n: u64 = if *x >= 0 {
                *x as u64
            } else {
                ((*x as i128) + 0x1_0000_0000_0000_0000) as u64
            };
            proof {
                assert(n as nat == norm64(*x));
            }
            write_vleb(out, n);
        },
        (Value::F32Bits(x), TypeSchema::F32) => {
            proof {
                assert(*v == Value::F32Bits(*x));
            }
            write_vleb(out, *x as u64);
        },
        (Value::F64Bits(x), TypeSchema::F64) => {
            proof {
                assert(*v == Value::F64Bits(*x));
            }
            write_vleb(out, *x);
        },
        (Value::Str(cs), TypeSchema::Str) => {
            proof {
                assert(*v == Value::Str(*cs));
            }
            encode_chars(cs, out);
            proof {
                assert(out@ =~= old(out)@ + wire(s@, v@));
            }
        },
        (Value::List(es), TypeSchema::List(t)) => {
            proof {
                assert(*v == Value::List(*es));
                assert(*s == TypeSchema::List(*t));
                lemma_vals_view(es@);
            }
            let ghost tv = (**t)@;
            let ghost ev = vec_vals_view(*es);
            write_vleb(out, es.len() as u64);
            let ghost mid = out@;
            let n = es.len();
            let mut k: usize = 0;
            while k < n
                invariant
                    k <= n,
                    n == es@.len(),
                    *v == Value::List(*es),
                    *s == TypeSchema::List(*t),
                    schema_wf(s@),
                    conforms(v@, s@),
                    tv == (**t)@,
                    ev == vec_vals_view(*es),
                    ev.len() == n,
                    mid == old(out)@ + vleb(ev.len()),
                    out@.len() >= mid.len(),
                    out@.subrange(0, mid.len() as int) == mid,
                    wire_elems(tv, ev, 0) == out@.skip(mid.len() as int) + wire_elems(
                        tv,
                        ev,
                        k as int,
                    ),
                decreases n - k,
            {
                proof {
                    lemma_vals_view(es@);
                    assert(v@ == ValV::List(ev));
                    assert(s@ == SchemaV::List(Box::new(tv)));
                    assert(elems_conform(ev, tv));
                    lemma_elems_conform(ev, tv);
                    assert(conforms(ev[k as int], tv));
                    assert(es@[k as int]@ == ev[k as int]);
                    assert((*v)->List_0 == *es);
                    assert(decreases_to!(*v => (*v)->List_0));
                    assert(decreases_to!(*es => es@));
                    assert(decreases_to!(es@ => es@[k as int]));
                }
                let ghost before = out@;
                encode(t, &es[k], out);
                proof {
                    assert(wire_elems(tv, ev, k as int) == wire(tv, ev[k as int]) + wire_elems(
                        tv,
                        ev,
                        k + 1,
                    ));
                    assert(out@.skip(mid.len() as int) =~= before.skip(mid.len() as int) + wire(
                        tv,
                        ev[k as int],
                    ));
                    assert(wire_elems(tv, ev, 0) =~= out@.skip(mid.len() as int) + wire_elems(
                        tv,
                        ev,
                        k + 1,
                    ));
                    assert(out@.subrange(0, mid.len() as int) =~= mid);
                }
                k = k + 1;
            }
            proof {
                assert(wire_elems(tv, ev, n as int) =~= Seq::<u8>::empty());
                assert(wire_elems(tv, ev, 0) =~= out@.skip(mid.len() as int));
                assert(wire(s@, v@) == vleb(ev.len()) + wire_elems(tv, ev, 0));
                assert(out@ =~= out@.subrange(0, mid.len() as int) + out@.skip(mid.len() as int));
                assert(out@ =~= old(out)@ + wire(s@, v@));
            }
        },
        (Value::Struct(vs), TypeSchema::Struct(fields)) => {
            proof {
                assert(*v == Value::Struct(*vs));
                assert(*s == TypeSchema::Struct(*fields));
                lemma_vals_view(vs@);
                lemma_fields_view(fields@);
            }
            let ghost fv = vec_fields_view(*fields);
            let ghost vv = vec_vals_view(*vs);
            let order = resolved_order(fields);
            let ghost mid = out@;
            let m = order.len();
            let mut k: usize = 0;
            while k < m
                invariant
                    k <= m,
                    m == order@.len(),
                    *v == Value::Struct(*vs),
                    *s == TypeSchema::Struct(*fields),
                    schema_wf(s@),
                    conforms(v@, s@),
                    fv == vec_fields_view(*fields),
                    vv == vec_vals_view(*vs),
                    vv.len() == vs@.len(),
                    fv.len() == fields@.len(),
                    vs@.len() == fields@.len(),
                    order@ == field_order(fv),
                    forall|j: int| 0 <= j < order@.len() ==> #[trigger] order@[j] < fields@.len(),
                    mid == old(out)@,
                    out@.len() >= mid.len(),
                    out@.subrange(0, mid.len() as int) == mid,
                    wire_fields(fv, order@, vv, 0) == out@.skip(mid.len() as int) + wire_fields(
                        fv,
                        order@,
                        vv,
                        k as int,
                    ),
                decreases m - k,
            {
                let j = order[k];
                proof {
                    lemma_vals_view(vs@);
                    lemma_fields_view(fields@);
                    assert(v@ == ValV::Struct(vv));
                    assert(s@ == SchemaV::Struct(fv));
                    assert(fields_conform(vv, fv));
                    lemma_fields_conform(vv, fv);
                    assert(conforms(vv[j as int], fv[j as int].ty));
                    lemma_fields_wf(fv);
                    assert(schema_wf(fv[j as int].ty));
                    assert(vs@[j as int]@ == vv[j as int]);
                    assert((*v)->Struct_0 == *vs);
                    assert(decreases_to!(*v => (*v)->Struct_0));
                    assert(decreases_to!(*vs => vs@));
                    assert(decreases_to!(vs@ => vs@[j as int]));
                }
                let ghost before = out@;
                encode(&fields[j].ty, &vs[j], out);
                proof {
                    assert(wire_fields(fv, order@, vv, k as int) == wire(
                        fv[j as int].ty,
                        vv[j as int],
                    ) + wire_fields(fv, order@, vv, k + 1));
                    assert(out@.skip(mid.len() as int) =~= before.skip(mid.len() as int) + wire(
                        fv[j as int].ty,
                        vv[j as int],
                    ));
                    assert(wire_fields(fv, order@, vv, 0) =~= out@.skip(mid.len() as int)
                        + wire_fields(fv, order@, vv, k + 1));
                    assert(out@.subrange(0, mid.len() as int) =~= mid);
                }
                k = k + 1;
            }
            proof {
                assert(wire_fields(fv, order@, vv, m as int) =~= Seq::<u8>::empty());
                assert(wire(s@, v@) == wire_fields(fv, field_order(fv), vv, 0));
                assert(out@ =~= out@.subrange(0, mid.len() as int) + out@.skip(mid.len() as int));
                assert(out@ =~= old(out)@ + wire(s@, v@));
            }
        },
        (Value::Enum(o), TypeSchema::Enum(variants)) => {
            proof {
                assert(*v == Value::Enum(*o));
                assert(*s == TypeSchema::Enum(*variants));
            }
            let idx = *o as usize;
            let t_ord: u32 = if variants[idx].skip {
                let d = default_ordinal_of(variants);
                d as u32
            } else {
                *o
            };
            proof {
                assert(t_ord as nat == wire_ordinal(variants@, *o as int) as nat);
            }
            write_vleb(out, t_ord as u64);
            proof {
                assert(out@ =~= old(out)@ + wire(s@, v@));
            }
        },
        _ => {
            proof {
                assert(false);
            }
        },
    }
}



/// Reads one value of the well-formed schema `s` from `data` at `pos`,
/// returning the reconstructed value and the position after it, or the
/// first error, exactly as [`parse`] prescribes.
#[verifier::rlimit(80)]
pub fn decode(s: &TypeSchema, data: &Vec<u8>, pos: usize) -> (r: Result<(Value, usize), CodecError>)
    requires
        pos <= data@.len(),
        schema_wf(s@),
    ensures
        match parse(s@, data@.skip(pos as int)) {
            Ok((w, m)) => r matches Ok(p) && p.0@ == w && p.1 == pos + m && pos <= p.1
                <= data@.len(),
            Err(e) => r matches Err(e2) && e2 == e,
        },
    decreases *s,
{
    match s {
        TypeSchema::Bool => {
            if pos == data.len() {
                return Err(CodecError::MalformedData);
            }
            let b = data[pos];
            proof {
                assert(data@.skip(pos as int)[0] == data@[pos as int]);
            }
            if b == 0 {
                Ok((Value::Bool(false), pos + 1))
            } else if b == 1 {
                Ok((Value::Bool(true), pos + 1))
            } else {
                Err(CodecError::MalformedData)
            }
        },
        TypeSchema::I8 => {
            if pos == data.len() {
                return Err(CodecError::MalformedData);
            }
            let b = data[pos];
            proof {
                assert(data@.skip(pos as int)[0] == data@[pos as int]);
            }
            let x: i8 = if b < 0x80 {
                b as i8
            } else {
                ((b as i16) - 0x100) as i8
            };
            proof {
                assert(x == denorm8(b as nat));
            }
            Ok((Value::I8(x), pos + 1))
        },
        TypeSchema::I32 => {
            match read_varu32(data, pos) {
                Ok((n, p2)) => {
                    proof {
                        lemma_parse_vleb_bounds(data@.skip(pos as int), 5);
                    }
                    let x: i32 = if n < 0x8000_0000 {
                        n as i32
                    } else {
                        ((n as i64) - 0x1_0000_0000) as i32
                    };
                    proof {
                        assert(x == denorm32(n as nat));
                    }
                    Ok((Value::I32(x), p2))
                },
                Err(e) => Err(e),
            }
        },
        TypeSchema::I64 => {
            match read_varu64(data, pos) {
                Ok((n, p2)) => {
                    proof {
                        lemma_parse_vleb_bounds(data@.skip(pos as int), 10);
                    }
                    let x: i64 = if n < 0x8000_0000_0000_0000 {
                        n as i64
                    } else {
                        ((n as i128) - 0x1_0000_0000_0000_0000) as i64
                    };
                    proof {
                        assert(x == denorm64(n as nat));
                    }
                    Ok((Value::I64(x), p2))
                },
                Err(e) => Err(e),
            }
        },
        TypeSchema::F32 => {
            match read_varu32(data, pos) {
                Ok((n, p2)) => {
                    proof {
                        lemma_parse_vleb_bounds(data@.skip(pos as int), 5);
                    }
                    Ok((Value::F32Bits(n), p2))
                },
                Err(e) => Err(e),
            }
        },
        TypeSchema::F64 => {
            match read_varu64(data, pos) {
                Ok((n, p2)) => {
                    proof {
                        lemma_parse_vleb_bounds(data@.skip(pos as int), 10);
                    }
                    Ok((Value::F64Bits(n), p2))
                },
                Err(e) => Err(e),
            }
        },
        TypeSchema::Str => {
            match decode_chars(data, pos) {
                Ok((cs, p2)) => Ok((Value::Str(cs), p2)),
                Err(e) => Err(e),
            }
        },
        TypeSchema::List(t) => {
            proof {
                assert(*s == TypeSchema::List(*t));
            }
            let ghost tv = (**t)@;
            let (n, start) = match read_varu32(data, pos) {
                Ok(p) => p,
                Err(e) => {
                    return Err(e);
                },
            };
            proof {
                lemma_parse_vleb_bounds(data@.skip(pos as int), 5);
            }
            let mut out: Vec<Value> = Vec::new();
            let mut cur: usize = start;
            let mut i: u32 = 0;
            while i < n
                invariant
                    i <= n,
                    start <= cur <= data@.len(),
                    pos < start <= data@.len(),
                    *s == TypeSchema::List(*t),
                    schema_wf(s@),
                    tv == (**t)@,
                    schema_wf(tv),
                    parse_varu32(data@.skip(pos as int)) == Ok::<(nat, int), CodecError>((
                        n as nat,
                        start - pos,
                    )),
                    out@.len() == i,
                    ({
                        let orig = parse_elems(tv, data@.skip(start as int), n as nat, Seq::empty());
                        match parse_elems(
                            tv,
                            data@.skip(cur as int),
                            (n - i) as nat,
                            seq_vals_view(out@),
                        ) {
                            Ok((es2, m2)) => orig == Ok::<(Seq<ValV>, int), CodecError>((
                                es2,
                                (cur - start) + m2,
                            )),
                            Err(e2) => orig == Err::<(Seq<ValV>, int), CodecError>(e2),
                        }
                    }),
                decreases n - i,
            {
                proof {
                    assert((*s)->List_0 == *t);
                    assert(decreases_to!(*s => (*s)->List_0));
                }
                match decode(t, data, cur) {
                    Ok((val, p2)) => {
                        let ghost old_out = out@;
                        out.push(val);
                        proof {
                            assert(out@.subrange(0, out@.len() - 1) =~= old_out);
                            assert(seq_vals_view(out@) =~= seq_vals_view(old_out).push(val@));
                            assert(data@.skip(cur as int).skip(p2 - cur) =~= data@.skip(p2 as int));
                        }
                        cur = p2;
                    },
                    Err(e) => {
                        proof {
                            assert(parse_elems(
                                tv,
                                data@.skip(cur as int),
                                (n - i) as nat,
                                seq_vals_view(out@),
                            ) == Err::<(Seq<ValV>, int), CodecError>(e));
                            assert(data@.skip(pos as int).skip(start - pos) =~= data@.skip(
                                start as int,
                            ));
                            assert(1 <= start - pos <= data@.skip(pos as int).len());
                        }
                        return Err(e);
                    },
                }
                i = i + 1;
            }
            proof {
                assert(parse_elems(tv, data@.skip(cur as int), 0, seq_vals_view(out@)) == Ok::<
                    (Seq<ValV>, int),
                    CodecError,
                >((seq_vals_view(out@), 0)));
                assert(data@.skip(pos as int).skip(start - pos) =~= data@.skip(start as int));
                assert(1 <= start - pos <= data@.skip(pos as int).len());
                assert(value_view(Value::List(out)) == ValV::List(seq_vals_view(out@)));
            }
            Ok((Value::List(out), cur))
        },
        TypeSchema::Enum(variants) => {
            proof {
                assert(*s == TypeSchema::Enum(*variants));
            }
            match read_varu32(data, pos) {
                Ok((o, p2)) => {
                    proof {
                        lemma_parse_vleb_bounds(data@.skip(pos as int), 5);
                    }
                    if (o as usize) < variants.len() {
                        if !variants[o as usize].skip {
                            Ok((Value::Enum(o), p2))
                        } else {
                            Err(CodecError::UnknownEnumValue)
                        }
                    } else {
                        Err(CodecError::UnknownEnumValue)
                    }
                },
                Err(e) => Err(e),
            }
        },
        TypeSchema::Struct(fields) => {
            proof {
                assert(*s == TypeSchema::Struct(*fields));
                lemma_fields_view(fields@);
            }
            let ghost fv = vec_fields_view(*fields);
            let n = fields.len();
            let mut vals: Vec<Value> = Vec::new();
            let mut k: usize = 0;
            while k < n
                invariant
                    k <= n,
                    n == fields@.len(),
                    *s == TypeSchema::Struct(*fields),
                    schema_wf(s@),
                    fv == vec_fields_view(*fields),
                    fv.len() == n,
                    vals@.len() == k,
                    forall|j: int|
                        0 <= j < k ==> value_view(#[trigger] vals@[j]) == default_val(fv[j].ty),
                decreases n - k,
            {
                proof {
                    lemma_fields_view(fields@);
                    assert(s@ == SchemaV::Struct(fv));
                    lemma_fields_wf(fv);
                    assert(schema_wf(fv[k as int].ty));
                }
                let d = default_value(&fields[k].ty);
                vals.push(d);
                k = k + 1;
            }
            let order = resolved_order(fields);
            proof {
                lemma_vals_view(vals@);
                assert(seq_vals_view(vals@) =~= defaults_of(fv)) by {
                    lemma_defaults_of(fv);
                    lemma_vals_view(vals@);
                }
            }
            let m = order.len();
            let mut cur: usize = pos;
            let mut k2: usize = 0;
            while k2 < m
                invariant
                    k2 <= m,
                    m == order@.len(),
                    pos <= cur <= data@.len(),
                    *s == TypeSchema::Struct(*fields),
                    schema_wf(s@),
                    fv == vec_fields_view(*fields),
                    fv.len() == fields@.len(),
                    vals@.len() == fv.len(),
                    order@ == field_order(fv),
                    forall|j: int| 0 <= j < order@.len() ==> #[trigger] order@[j] < fields@.len(),
                    ({
                        let orig = parse_fields(
                            fv,
                            order@,
                            data@.skip(pos as int),
                            0,
                            defaults_of(fv),
                        );
                        match parse_fields(
                            fv,
                            order@,
                            data@.skip(cur as int),
                            k2 as int,
                            seq_vals_view(vals@),
                        ) {
                            Ok((vs2, m2)) => orig == Ok::<(Seq<ValV>, int), CodecError>((
                                vs2,
                                (cur - pos) + m2,
                            )),
                            Err(e2) => orig == Err::<(Seq<ValV>, int), CodecError>(e2),
                        }
                    }),
                decreases m - k2,
            {
                let j = order[k2];
                proof {
                    lemma_fields_view(fields@);
                    assert(s@ == SchemaV::Struct(fv));
                    lemma_fields_wf(fv);
                    assert(schema_wf(fv[j as int].ty));
                    assert((*s)->Struct_0 == *fields);
                    assert(decreases_to!(*s => (*s)->Struct_0));
                    assert(decreases_to!(*fields => fields@));
                    assert(decreases_to!(fields@ => fields@[j as int]));
                    assert(decreases_to!(fields@[j as int] => fields@[j as int].ty));
                }
                match decode(&fields[j].ty, data, cur) {
                    Ok((val, p2)) => {
                        let ghost old_vals = vals@;
                        vals.remove(j);
                        vals.insert(j, val);
                        proof {
                            assert(vals@ =~= old_vals.update(j as int, val));
                            lemma_vals_view(old_vals);
                            lemma_vals_view(vals@);
                            assert(seq_vals_view(vals@) =~= seq_vals_view(old_vals).update(
                                j as int,
                                val@,
                            ));
                            assert(data@.skip(cur as int).skip(p2 - cur) =~= data@.skip(p2 as int));
                        }
                        cur = p2;
                    },
                    Err(e) => {
                        proof {
                            assert(parse_fields(
                                fv,
                                order@,
                                data@.skip(cur as int),
                                k2 as int,
                                seq_vals_view(vals@),
                            ) == Err::<(Seq<ValV>, int), CodecError>(e));
                        }
                        return Err(e);
                    },
                }
                k2 = k2 + 1;
            }
            proof {
                assert(parse_fields(fv, order@, data@.skip(cur as int), m as int, seq_vals_view(
                    vals@,
                )) == Ok::<(Seq<ValV>, int), CodecError>((seq_vals_view(vals@), 0)));
                assert(value_view(Value::Struct(vals)) == ValV::Struct(seq_vals_view(vals@)));
            }
            Ok((Value::Struct(vals), cur))
        },
    }
}

} // verus!
