//! The format's guarantees, stated as theorems.
//!
//! Each proof function here is a public statement about the wire format:
//! what any reader reconstructs from any writer's bytes. They are proved
//! from the codec's round-trip theorem and the resolver's properties, so
//! they hold of the executable encoder and decoder, whose contracts are
//! given by the same `wire` and `parse` functions.

use vstd::prelude::*;
use crate::codec::parse;
use crate::codec::wire;
use crate::codec::wire_fields;
use crate::codec::lemma_parse_wire;
use crate::engine::RegV;
use crate::engine::framed_wire;
use crate::engine::parse_framed;
use crate::engine::reg_wf;
use crate::engine::spec_actual_type_id;
use crate::engine::type_info_wire;
use crate::err::CodecError;
use crate::schema::FieldV;
use crate::schema::SchemaV;
use crate::schema::VariantSchema;
use crate::schema::default_ordinal;
use crate::schema::field_order;
use crate::schema::lemma_field_order_entries;
use crate::schema::lemma_fields_unskipped;
use crate::schema::lemma_fields_wf;
use crate::schema::lemma_variants_unskipped;
use crate::schema::no_skip;
use crate::schema::schema_wf;
use crate::value::ValV;
use crate::value::conforms;
use crate::value::default_val;
use crate::value::lemma_elems_conform;
use crate::value::lemma_fields_conform;
use crate::value::lemma_normalize_elems;
use crate::value::lemma_normalize_fields;
use crate::value::normalize;
use crate::value::normalize_elems;
use crate::value::normalize_fields;
use crate::varint::lemma_parse_varu32_of_vleb;
use crate::varint::lemma_pow128_values;
use crate::varint::lemma_vleb_len;
use crate::varint::vleb;

verus! {

/// Where no skip mark appears anywhere in the schema, normalisation
/// changes nothing: the decoder reconstructs the value exactly.
pub proof fn lemma_normalize_no_skip(s: SchemaV, v: ValV)
    requires
        schema_wf(s),
        conforms(v, s),
        no_skip(s),
    ensures
        normalize(s, v) == v,
    decreases v,
{
    match v {
        ValV::Struct(vs) => {
            if let SchemaV::Struct(fields) = s {
                lemma_fields_wf(fields);
                lemma_fields_unskipped(fields);
                lemma_fields_conform(vs, fields);
                lemma_normalize_fields(vs, fields);
                assert forall|i: int|
                    0 <= i < vs.len() implies #[trigger] normalize_fields(vs, fields)[i]
                    == vs[i] by {
                    assert(!fields[i].skip);
                    assert(no_skip(fields[i].ty));
                    assert(schema_wf(fields[i].ty));
                    assert(conforms(vs[i], fields[i].ty));
                    lemma_normalize_no_skip_at(vs, fields[i].ty, i);
                }
                assert(normalize_fields(vs, fields) =~= vs);
            }
        },
        ValV::List(es) => {
            if let SchemaV::List(t) = s {
                lemma_elems_conform(es, *t);
                lemma_normalize_elems(es, *t);
                assert forall|i: int|
                    0 <= i < es.len() implies #[trigger] normalize_elems(es, *t)[i] == es[i] by {
                    lemma_normalize_no_skip_at(es, *t, i);
                }
                assert(normalize_elems(es, *t) =~= es);
            }
        },
        ValV::Enum(o) => {
            if let SchemaV::Enum(variants) = s {
                lemma_variants_unskipped(variants);
                assert(!variants[o as int].skip);
            }
        },
        _ => {},
    }
}

/// One element of a value list normalises to itself when its schema holds
/// no skip mark.
proof fn lemma_normalize_no_skip_at(vs: Seq<ValV>, t: SchemaV, i: int)
    requires
        0 <= i < vs.len(),
        schema_wf(t),
        conforms(vs[i], t),
        no_skip(t),
    ensures
        normalize(t, vs[i]) == vs[i],
    decreases vs,
{
    lemma_normalize_no_skip(t, vs[i]);
}

/// Round trip on non-skipped data: for every value conforming to a
/// well-formed schema with no skip marks anywhere, parsing the encoded
/// bytes reconstructs the value itself, exactly, whatever bytes follow.
pub proof fn lemma_round_trip_no_skip(s: SchemaV, v: ValV, rest: Seq<u8>)
    requires
        schema_wf(s),
        conforms(v, s),
        no_skip(s),
    ensures
        parse(s, wire(s, v) + rest) == Ok::<(ValV, int), CodecError>((
            v,
            wire(s, v).len() as int,
        )),
{
    lemma_parse_wire(s, v, rest);
    lemma_normalize_no_skip(s, v);
}

/// Skip-to-default: whatever a skip-marked field held before encoding,
/// the decoder reconstructs that field as its type's default value, and
/// every other field as its own normalisation.
pub proof fn lemma_skip_field_decodes_default(
    fields: Seq<FieldV>,
    vs: Seq<ValV>,
    rest: Seq<u8>,
)
    requires
        schema_wf(SchemaV::Struct(fields)),
        conforms(ValV::Struct(vs), SchemaV::Struct(fields)),
    ensures
        ({
            let r = parse(
                SchemaV::Struct(fields),
                wire(SchemaV::Struct(fields), ValV::Struct(vs)) + rest,
            );
            r matches Ok((w, m)) && w matches ValV::Struct(ws) && ws.len() == vs.len() && (forall|
                j: int,
            |
                0 <= j < vs.len() && fields[j].skip ==> #[trigger] ws[j] == default_val(
                    fields[j].ty,
                )) && (forall|j: int|
                0 <= j < vs.len() && !fields[j].skip ==> #[trigger] ws[j] == normalize(
                    fields[j].ty,
                    vs[j],
                ))
        }),
{
    lemma_parse_wire(SchemaV::Struct(fields), ValV::Struct(vs), rest);
    lemma_normalize_fields(vs, fields);
}

/// Nested skip isolation: skipping a composite field neither disturbs its
/// sibling fields nor reaches into them. Every non-skipped sibling whose
/// own type holds no skip mark decodes to exactly the value written,
/// while each skip-marked field decodes to its type's default.
pub proof fn lemma_nested_skip_isolation(fields: Seq<FieldV>, vs: Seq<ValV>, rest: Seq<u8>)
    requires
        schema_wf(SchemaV::Struct(fields)),
        conforms(ValV::Struct(vs), SchemaV::Struct(fields)),
    ensures
        ({
            let r = parse(
                SchemaV::Struct(fields),
                wire(SchemaV::Struct(fields), ValV::Struct(vs)) + rest,
            );
            r matches Ok((w, m)) && w matches ValV::Struct(ws) && ws.len() == vs.len() && (forall|
                j: int,
            |
                0 <= j < vs.len() && fields[j].skip ==> #[trigger] ws[j] == default_val(
                    fields[j].ty,
                )) && (forall|j: int|
                0 <= j < vs.len() && !fields[j].skip && no_skip(fields[j].ty) ==> #[trigger] ws[j]
                    == vs[j])
        }),
{
    lemma_skip_field_decodes_default(fields, vs, rest);
    lemma_parse_wire(SchemaV::Struct(fields), ValV::Struct(vs), rest);
    lemma_normalize_fields(vs, fields);
    lemma_fields_wf(fields);
    lemma_fields_conform(vs, fields);
    let ws = normalize_fields(vs, fields);
    assert forall|j: int|
        0 <= j < vs.len() && !fields[j].skip && no_skip(fields[j].ty) implies #[trigger] ws[j]
        == vs[j] by {
        assert(schema_wf(fields[j].ty));
        assert(conforms(vs[j], fields[j].ty));
        lemma_normalize_no_skip_at(vs, fields[j].ty, j);
    }
}

/// Enum default fallback: encoding a skip-marked variant writes the
/// default variant's ordinal, so decoding yields the default variant;
/// every non-skipped variant round-trips exactly.
pub proof fn lemma_enum_skip_fallback(variants: Seq<VariantSchema>, o: u32, rest: Seq<u8>)
    requires
        schema_wf(SchemaV::Enum(variants)),
        (o as int) < variants.len(),
    ensures
        ({
            let s = SchemaV::Enum(variants);
            let v = ValV::Enum(o);
            let r = parse(s, wire(s, v) + rest);
            &&& variants[o as int].skip ==> r == Ok::<(ValV, int), CodecError>((
                ValV::Enum(default_ordinal(variants) as u32),
                wire(s, v).len() as int,
            ))
            &&& !variants[o as int].skip ==> r == Ok::<(ValV, int), CodecError>((
                v,
                wire(s, v).len() as int,
            ))
        }),
{
    lemma_parse_wire(SchemaV::Enum(variants), ValV::Enum(o), rest);
}

/// Unknown ordinal rejection: a wire ordinal that names no unskipped
/// variant — beyond the table or donated away by a skip mark — fails the
/// decode with the unknown-enum error, never a silent default.
pub proof fn lemma_unknown_ordinal_rejected(variants: Seq<VariantSchema>, o: nat, rest: Seq<u8>)
    requires
        schema_wf(SchemaV::Enum(variants)),
        o < 0x1_0000_0000,
        o >= variants.len() || variants[o as int].skip,
    ensures
        parse(SchemaV::Enum(variants), vleb(o) + rest) == Err::<(ValV, int), CodecError>(
            CodecError::UnknownEnumValue,
        ),
{
    lemma_parse_varu32_of_vleb(o, rest);
}



/// The summed wire lengths of the fields named by `order`.
pub open spec fn sum_len(fields: Seq<FieldV>, vs: Seq<ValV>, order: Seq<usize>) -> int
    decreases order.len(),
{
    if order.len() == 0 {
        0
    } else {
        wire(fields[order[0] as int].ty, vs[order[0] as int]).len() + sum_len(
            fields,
            vs,
            order.skip(1),
        )
    }
}

/// The length of a field run's wire image is the sum of its fields'
/// wire lengths.
proof fn lemma_wire_fields_len(fields: Seq<FieldV>, vs: Seq<ValV>, order: Seq<usize>, k: int)
    requires
        0 <= k <= order.len(),
        forall|i: int| 0 <= i < order.len() ==> 0 <= #[trigger] order[i] < vs.len(),
    ensures
        wire_fields(fields, order, vs, k).len() == sum_len(fields, vs, order.skip(k)),
    decreases order.len() - k,
{
    if k == order.len() {
        assert(order.skip(k) =~= Seq::<usize>::empty());
    } else {
        lemma_wire_fields_len(fields, vs, order, k + 1);
        assert(order.skip(k)[0] == order[k]);
        assert(order.skip(k).skip(1) =~= order.skip(k + 1));
    }
}

/// Summed lengths split over concatenation.
proof fn lemma_sum_len_concat(fields: Seq<FieldV>, vs: Seq<ValV>, a: Seq<usize>, b: Seq<usize>)
    ensures
        sum_len(fields, vs, a + b) == sum_len(fields, vs, a) + sum_len(fields, vs, b),
    decreases a.len(),
{
    if a.len() == 0 {
        assert(a + b =~= b);
    } else {
        assert((a + b)[0] == a[0]);
        assert((a + b).skip(1) =~= a.skip(1) + b);
        lemma_sum_len_concat(fields, vs, a.skip(1), b);
    }
}

/// Two duplicate-free orders naming the same fields have the same summed
/// length.
proof fn lemma_sum_len_perm(fields: Seq<FieldV>, vs: Seq<ValV>, o1: Seq<usize>, o2: Seq<usize>)
    requires
        o1.no_duplicates(),
        o2.no_duplicates(),
        forall|x: usize| #[trigger] o1.contains(x) <==> o2.contains(x),
    ensures
        sum_len(fields, vs, o1) == sum_len(fields, vs, o2),
    decreases o1.len(),
{
    if o1.len() == 0 {
        if o2.len() > 0 {
            assert(o2.contains(o2[0]));
            assert(o1.contains(o2[0]));
            assert(false);
        }
    } else {
        let x = o1[0];
        assert(o1.contains(x));
        assert(o2.contains(x));
        let w = choose|w: int| 0 <= w < o2.len() && o2[w] == x;
        let a = o2.subrange(0, w);
        let b = o2.subrange(w + 1, o2.len() as int);
        assert(o2 =~= a + seq![x] + b);
        lemma_sum_len_concat(fields, vs, a + seq![x], b);
        lemma_sum_len_concat(fields, vs, a, seq![x]);
        lemma_sum_len_concat(fields, vs, a, b);
        assert(sum_len(fields, vs, seq![x]) == wire(fields[x as int].ty, vs[x as int]).len()) by {
            let sx = seq![x];
            assert(sx.len() == 1);
            assert(sx[0] == x);
            assert(sx.skip(1) =~= Seq::<usize>::empty());
            assert(sum_len(fields, vs, sx.skip(1)) == 0);
            assert(sum_len(fields, vs, sx) == wire(fields[sx[0] as int].ty, vs[sx[0] as int]).len()
                + sum_len(fields, vs, sx.skip(1)));
        }
        let o1t = o1.skip(1);
        let o2t = a + b;
        assert(o1t.no_duplicates()) by {
            assert forall|p: int, q: int|
                0 <= p < o1t.len() && 0 <= q < o1t.len() && p != q implies o1t[p] != o1t[q] by {
                assert(o1t[p] == o1[p + 1]);
                assert(o1t[q] == o1[q + 1]);
            }
        }
        assert(o2t.no_duplicates()) by {
            assert forall|p: int, q: int|
                0 <= p < o2t.len() && 0 <= q < o2t.len() && p != q implies o2t[p] != o2t[q] by {
                assert(o2t[p] == if p < w {
                    o2[p]
                } else {
                    o2[p + 1]
                });
                assert(o2t[q] == if q < w {
                    o2[q]
                } else {
                    o2[q + 1]
                });
            }
        }
        assert forall|y: usize| #[trigger] o1t.contains(y) implies o2t.contains(y) by {
            let p = choose|p: int| 0 <= p < o1t.len() && o1t[p] == y;
            assert(o1[p + 1] == y);
            assert(y != x);
            assert(o1.contains(y));
            assert(o2.contains(y));
            let q = choose|q: int| 0 <= q < o2.len() && o2[q] == y;
            assert(q != w);
            if q < w {
                assert(o2t[q] == y);
            } else {
                assert(o2t[q - 1] == y);
            }
        }
        assert forall|y: usize| #[trigger] o2t.contains(y) implies o1t.contains(y) by {
            let q = choose|q: int| 0 <= q < o2t.len() && o2t[q] == y;
            if q < w {
                assert(o2[q] == y);
            } else {
                assert(o2[q + 1] == y);
            }
            assert(o2.contains(y));
            assert(y != x) by {
                if y == x {
                    if q < w {
                        assert(o2[q] == o2[w]);
                        assert(false);
                    } else {
                        assert(o2[q + 1] == o2[w]);
                        assert(false);
                    }
                }
            }
            assert(o1.contains(y));
            let p = choose|p: int| 0 <= p < o1.len() && o1[p] == y;
            assert(p != 0);
            assert(o1t[p - 1] == y);
        }
        lemma_sum_len_perm(fields, vs, o1t, o2t);
    }
}

/// The wire image of a field depends only on its type, so two field
/// lists with equal types give equal summed lengths over one order.
proof fn lemma_sum_len_same_tys(
    f1: Seq<FieldV>,
    f2: Seq<FieldV>,
    vs: Seq<ValV>,
    order: Seq<usize>,
)
    requires
        f1.len() == f2.len(),
        forall|i: int| 0 <= i < f1.len() ==> #[trigger] f1[i].ty == f2[i].ty,
        forall|i: int| 0 <= i < order.len() ==> 0 <= #[trigger] order[i] < f1.len(),
    ensures
        sum_len(f1, vs, order) == sum_len(f2, vs, order),
    decreases order.len(),
{
    if order.len() > 0 {
        assert forall|i: int| 0 <= i < order.skip(1).len() implies 0 <= #[trigger] order.skip(
            1,
        )[i] < f1.len() by {
            assert(order.skip(1)[i] == order[i + 1]);
        }
        lemma_sum_len_same_tys(f1, f2, vs, order.skip(1));
    }
}

/// Skip reduces size: of two structurally identical struct declarations
/// that differ only in one field being skip-marked, and one value for
/// both, the skip-marked declaration's wire image is strictly shorter,
/// as long as the skipped field's own wire image is not empty.
pub proof fn lemma_skip_reduces_size(f1: Seq<FieldV>, f2: Seq<FieldV>, vs: Seq<ValV>, j: int)
    requires
        f1.len() == f2.len(),
        vs.len() == f1.len(),
        f1.len() <= 0xFFFF_FFFF,
        forall|i: int| 0 <= i < f1.len() ==> #[trigger] f1[i].ty == f2[i].ty,
        forall|i: int| 0 <= i < f1.len() ==> #[trigger] f1[i].name == f2[i].name,
        forall|i: int| 0 <= i < f1.len() && i != j ==> #[trigger] f1[i].skip == f2[i].skip,
        0 <= j < f1.len(),
        f1[j].skip,
        !f2[j].skip,
        wire(f2[j].ty, vs[j]).len() > 0,
    ensures
        wire(SchemaV::Struct(f1), ValV::Struct(vs)).len() < wire(
            SchemaV::Struct(f2),
            ValV::Struct(vs),
        ).len(),
{
    let o1 = field_order(f1);
    let o2 = field_order(f2);
    lemma_field_order_entries(f1);
    lemma_field_order_entries(f2);
    assert forall|i: int| 0 <= i < o1.len() implies 0 <= #[trigger] o1[i] < vs.len() by {
        assert(o1.contains(o1[i]));
    }
    assert forall|i: int| 0 <= i < o2.len() implies 0 <= #[trigger] o2[i] < vs.len() by {
        assert(o2.contains(o2[i]));
    }
    lemma_wire_fields_len(f1, vs, o1, 0);
    lemma_wire_fields_len(f2, vs, o2, 0);
    assert(o1.skip(0) =~= o1);
    assert(o2.skip(0) =~= o2);
    lemma_sum_len_same_tys(f1, f2, vs, o1);
    let ext = seq![j as usize] + o1;
    assert(ext.no_duplicates()) by {
        assert(!o1.contains(j as usize));
        assert forall|p: int, q: int|
            0 <= p < ext.len() && 0 <= q < ext.len() && p != q implies ext[p] != ext[q] by {
            if p == 0 {
                assert(ext[q] == o1[q - 1]);
                assert(o1.contains(o1[q - 1]));
            } else if q == 0 {
                assert(ext[p] == o1[p - 1]);
                assert(o1.contains(o1[p - 1]));
            } else {
                assert(ext[p] == o1[p - 1]);
                assert(ext[q] == o1[q - 1]);
            }
        }
    }
    assert forall|x: usize| #[trigger] ext.contains(x) implies o2.contains(x) by {
        let p = choose|p: int| 0 <= p < ext.len() && ext[p] == x;
        if p == 0 {
            assert(x == j as usize);
            assert(!f2[j].skip);
        } else {
            assert(o1[p - 1] == x);
            assert(o1.contains(x));
            assert(x < f1.len() && !f1[x as int].skip);
            assert(!f2[x as int].skip);
        }
    }
    assert forall|x: usize| #[trigger] o2.contains(x) implies ext.contains(x) by {
        assert(x < f2.len() && !f2[x as int].skip);
        if x == j as usize {
            assert(ext[0] == x);
        } else {
            assert(!f1[x as int].skip);
            assert(o1.contains(x));
            let p = choose|p: int| 0 <= p < o1.len() && o1[p] == x;
            assert(ext[p + 1] == x);
        }
    }
    lemma_sum_len_perm(f2, vs, ext, o2);
    lemma_sum_len_concat(f2, vs, seq![j as usize], o1);
    assert(sum_len(f2, vs, seq![j as usize]) == wire(f2[j].ty, vs[j]).len()) by {
        let sx = seq![j as usize];
        assert(sx.len() == 1);
        assert(sx[0] == j as usize);
        assert(sx.skip(1) =~= Seq::<usize>::empty());
        assert(sum_len(f2, vs, sx.skip(1)) == 0);
        assert(sum_len(f2, vs, sx) == wire(f2[sx[0] as int].ty, vs[sx[0] as int]).len() + sum_len(
            f2,
            vs,
            sx.skip(1),
        ));
    }
}



/// The registry-level round trip: deserializing what serialize produced
/// under the same registration accepts the type information, consumes
/// exactly the produced bytes, and reconstructs the value's
/// normalisation.
#[verifier::rlimit(60)]
pub proof fn lemma_framed_round_trip(reg: RegV, compatible: bool, v: ValV, rest: Seq<u8>)
    requires
        reg_wf(reg),
        conforms(v, reg.schema),
    ensures
        parse_framed(reg, compatible, framed_wire(reg, compatible, v) + rest) == Ok::<
            (ValV, int),
            CodecError,
        >((normalize(reg.schema, v), framed_wire(reg, compatible, v).len() as int)),
{
    lemma_pow128_values();
    let tag = spec_actual_type_id(reg.id, reg.by_name, compatible, reg.schema is Enum);
    assert(0 <= tag < 0x1_0000_0000);
    let tw = vleb(tag as nat);
    lemma_vleb_len(tag as nat, 5);
    let dw = wire(reg.schema, v);
    if reg.by_name {
        let nw = wire(SchemaV::Str, ValV::Str(reg.name));
        assert(type_info_wire(reg, compatible) =~= tw + nw);
        assert(framed_wire(reg, compatible, v) + rest =~= tw + ((nw + dw) + rest));
        lemma_parse_varu32_of_vleb(tag as nat, (nw + dw) + rest);
        let input = framed_wire(reg, compatible, v) + rest;
        assert(input.skip(tw.len() as int) =~= (nw + dw) + rest);
        assert((nw + dw) + rest =~= nw + (dw + rest));
        lemma_parse_wire(SchemaV::Str, ValV::Str(reg.name), dw + rest);
        assert(normalize(SchemaV::Str, ValV::Str(reg.name)) == ValV::Str(reg.name));
        assert((nw + (dw + rest)).skip(nw.len() as int) =~= dw + rest);
        assert(input.skip(tw.len() as int + nw.len() as int) =~= dw + rest);
        lemma_parse_wire(reg.schema, v, rest);
    } else {
        assert(type_info_wire(reg, compatible) =~= tw);
        assert(framed_wire(reg, compatible, v) + rest =~= tw + (dw + rest));
        lemma_parse_varu32_of_vleb(tag as nat, dw + rest);
        let input = framed_wire(reg, compatible, v) + rest;
        assert(input.skip(tw.len() as int) =~= dw + rest);
        lemma_parse_wire(reg.schema, v, rest);
    }
}

} // verus!
