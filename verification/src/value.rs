//! The dynamic value model.
//!
//! A [`Value`] is a typed in-memory value as the codec sees it: scalars,
//! text, lists, structs (their field values in declaration order), and enum
//! values (the declared position of the selected variant). Floating-point
//! data travels as its IEEE 754 bit pattern, which keeps every operation of
//! the codec exact.
//!
//! Besides the value tree itself this module defines what it means for a
//! value to conform to a schema, the default value of every schema, and the
//! normalisation map: the value a decoder reconstructs after skip-marked
//! fields fall back to their defaults and skip-marked variants fall back to
//! the default variant.

use vstd::prelude::*;
use crate::schema::FieldV;
use crate::schema::SchemaV;
use crate::schema::TypeSchema;
use crate::schema::default_ordinal;
use crate::schema::default_ordinal_of;
use crate::schema::lemma_default_ordinal_in_range;
use crate::schema::lemma_fields_view;
use crate::schema::lemma_fields_wf;
use crate::schema::schema_wf;
use crate::schema::vec_fields_view;

verus! {

/// A typed in-memory value.
#[derive(Debug, PartialEq)]
pub enum Value {
    /// A boolean.
    Bool(bool),
    /// A signed 8-bit integer.
    I8(i8),
    /// A signed 32-bit integer.
    I32(i32),
    /// A signed 64-bit integer.
    I64(i64),
    /// A 32-bit float, carried as its IEEE 754 bit pattern.
    F32Bits(u32),
    /// A 64-bit float, carried as its IEEE 754 bit pattern.
    F64Bits(u64),
    /// Text, as a sequence of Unicode scalar values.
    Str(Vec<char>),
    /// A homogeneous list.
    List(Vec<Value>),
    /// A struct's field values, in declaration order.
    Struct(Vec<Value>),
    /// The declaration position of the selected enum variant.
    Enum(u32),
}

/// The mathematical image of a value.
#[verifier::ext_equal]
pub ghost enum ValV {
    /// A boolean.
    Bool(bool),
    /// A signed 8-bit integer.
    I8(i8),
    /// A signed 32-bit integer.
    I32(i32),
    /// A signed 64-bit integer.
    I64(i64),
    /// A 32-bit float bit pattern.
    F32Bits(u32),
    /// A 64-bit float bit pattern.
    F64Bits(u64),
    /// Text.
    Str(Seq<char>),
    /// A homogeneous list.
    List(Seq<ValV>),
    /// A struct's field values, in declaration order.
    Struct(Seq<ValV>),
    /// The declaration position of the selected enum variant.
    Enum(u32),
}

/// The mathematical image of a value.
pub open spec fn value_view(v: Value) -> ValV
    decreases v,
{
    match v {
        Value::Bool(b) => ValV::Bool(b),
        Value::I8(x) => ValV::I8(x),
        Value::I32(x) => ValV::I32(x),
        Value::I64(x) => ValV::I64(x),
        Value::F32Bits(x) => ValV::F32Bits(x),
        Value::F64Bits(x) => ValV::F64Bits(x),
        Value::Str(cs) => ValV::Str(cs@),
        Value::List(es) => ValV::List(vec_vals_view(es)),
        Value::Struct(vs) => ValV::Struct(vec_vals_view(vs)),
        Value::Enum(o) => ValV::Enum(o),
    }
}

/// The image of a list of values held in a vector.
pub open spec fn vec_vals_view(vs: Vec<Value>) -> Seq<ValV>
    decreases vs,
{
    seq_vals_view(vs@)
}

/// The image of a list of values.
pub open spec fn seq_vals_view(vs: Seq<Value>) -> Seq<ValV>
    decreases vs,
{
    if vs.len() == 0 {
        Seq::empty()
    } else {
        seq_vals_view(vs.subrange(0, vs.len() - 1)).push(value_view(vs[vs.len() - 1]))
    }
}

/// The value-list image has one entry per value, in order.
pub proof fn lemma_vals_view(vs: Seq<Value>)
    ensures
        seq_vals_view(vs).len() == vs.len(),
        forall|i: int|
            0 <= i < vs.len() ==> #[trigger] seq_vals_view(vs)[i] == value_view(vs[i]),
    decreases vs.len(),
{
    if vs.len() > 0 {
        let head = vs.subrange(0, vs.len() - 1);
        lemma_vals_view(head);
        assert forall|i: int|
            0 <= i < vs.len() implies #[trigger] seq_vals_view(vs)[i] == value_view(vs[i]) by {
            if i < vs.len() - 1 {
                assert(head[i] == vs[i]);
            }
        }
    }
}

impl View for Value {
    type V = ValV;

    open spec fn view(&self) -> ValV {
        value_view(*self)
    }
}

/// The value has the shape the schema declares, and its strings and lists
/// are short enough for their varint length prefixes.
pub open spec fn conforms(v: ValV, s: SchemaV) -> bool
    decreases v,
{
    match v {
        ValV::Bool(_) => s is Bool,
        ValV::I8(_) => s is I8,
        ValV::I32(_) => s is I32,
        ValV::I64(_) => s is I64,
        ValV::F32Bits(_) => s is F32,
        ValV::F64Bits(_) => s is F64,
        ValV::Str(cs) => s is Str && cs.len() <= 0xFFFF_FFFF,
        ValV::List(es) => s matches SchemaV::List(t) && es.len() <= 0xFFFF_FFFF && elems_conform(
            es,
            *t,
        ),
        ValV::Struct(vs) => s matches SchemaV::Struct(fields) && vs.len() == fields.len()
            && fields_conform(vs, fields),
        ValV::Enum(o) => s matches SchemaV::Enum(variants) && (o as int) < variants.len(),
    }
}

/// Every element of the list conforms to the element schema.
pub open spec fn elems_conform(es: Seq<ValV>, t: SchemaV) -> bool
    decreases es,
{
    if es.len() == 0 {
        true
    } else {
        elems_conform(es.subrange(0, es.len() - 1), t) && conforms(es[es.len() - 1], t)
    }
}

/// Every field value conforms to its declared field type.
pub open spec fn fields_conform(vs: Seq<ValV>, fields: Seq<FieldV>) -> bool
    decreases vs,
{
    if vs.len() == 0 {
        true
    } else {
        fields_conform(vs.subrange(0, vs.len() - 1), fields.subrange(0, vs.len() - 1)) && conforms(
            vs[vs.len() - 1],
            fields[vs.len() - 1].ty,
        )
    }
}

/// `elems_conform` holds exactly when each element conforms.
pub proof fn lemma_elems_conform(es: Seq<ValV>, t: SchemaV)
    requires
        elems_conform(es, t),
    ensures
        forall|i: int| 0 <= i < es.len() ==> conforms(#[trigger] es[i], t),
    decreases es.len(),
{
    if es.len() > 0 {
        let head = es.subrange(0, es.len() - 1);
        lemma_elems_conform(head, t);
        assert forall|i: int| 0 <= i < es.len() implies conforms(#[trigger] es[i], t) by {
            if i < es.len() - 1 {
                assert(head[i] == es[i]);
                assert(conforms(head[i], t));
            }
        }
    }
}

/// When each element conforms, the whole list passes `elems_conform`.
pub proof fn lemma_elems_conform_rev(es: Seq<ValV>, t: SchemaV)
    requires
        forall|i: int| 0 <= i < es.len() ==> conforms(#[trigger] es[i], t),
    ensures
        elems_conform(es, t),
    decreases es.len(),
{
    if es.len() > 0 {
        let head = es.subrange(0, es.len() - 1);
        assert forall|i: int| 0 <= i < head.len() implies conforms(#[trigger] head[i], t) by {
            assert(head[i] == es[i]);
        }
        lemma_elems_conform_rev(head, t);
    }
}

/// `fields_conform` holds exactly when each field value conforms, as long
/// as there are at least as many declared fields as values.
pub proof fn lemma_fields_conform(vs: Seq<ValV>, fields: Seq<FieldV>)
    requires
        vs.len() <= fields.len(),
        fields_conform(vs, fields),
    ensures
        forall|i: int| 0 <= i < vs.len() ==> conforms(#[trigger] vs[i], fields[i].ty),
    decreases vs.len(),
{
    if vs.len() > 0 {
        let vh = vs.subrange(0, vs.len() - 1);
        let fh = fields.subrange(0, vs.len() - 1);
        lemma_fields_conform(vh, fh);
        assert forall|i: int| 0 <= i < vs.len() implies conforms(#[trigger] vs[i], fields[i].ty) by {
            if i < vs.len() - 1 {
                assert(vh[i] == vs[i]);
                assert(fh[i] == fields[i]);
                assert(conforms(vh[i], fh[i].ty));
            }
        }
    }
}

/// When each field value conforms, the whole list passes `fields_conform`.
pub proof fn lemma_fields_conform_rev(vs: Seq<ValV>, fields: Seq<FieldV>)
    requires
        vs.len() <= fields.len(),
        forall|i: int| 0 <= i < vs.len() ==> conforms(#[trigger] vs[i], fields[i].ty),
    ensures
        fields_conform(vs, fields),
    decreases vs.len(),
{
    if vs.len() > 0 {
        let vh = vs.subrange(0, vs.len() - 1);
        let fh = fields.subrange(0, vs.len() - 1);
        assert forall|i: int| 0 <= i < vh.len() implies conforms(#[trigger] vh[i], fh[i].ty) by {
            assert(vh[i] == vs[i]);
            assert(fh[i] == fields[i]);
            assert(conforms(vs[i], fields[i].ty));
        }
        lemma_fields_conform_rev(vh, fh);
        assert(fields_conform(vs.subrange(0, vs.len() - 1), fields.subrange(0, vs.len() - 1)));
        assert(conforms(vs[vs.len() - 1], fields[vs.len() - 1].ty));
    }
}

/// The default value of a schema: zero scalars, an empty string or list, a
/// struct of field defaults, the default variant of an enum.
pub open spec fn default_val(s: SchemaV) -> ValV
    decreases s,
{
    match s {
        SchemaV::Bool => ValV::Bool(false),
        SchemaV::I8 => ValV::I8(0),
        SchemaV::I32 => ValV::I32(0),
        SchemaV::I64 => ValV::I64(0),
        SchemaV::F32 => ValV::F32Bits(0),
        SchemaV::F64 => ValV::F64Bits(0),
        SchemaV::Str => ValV::Str(Seq::empty()),
        SchemaV::List(_) => ValV::List(Seq::empty()),
        SchemaV::Struct(fields) => ValV::Struct(defaults_of(fields)),
        SchemaV::Enum(variants) => ValV::Enum(default_ordinal(variants) as u32),
    }
}

/// The defaults of a field list, in declaration order.
pub open spec fn defaults_of(fields: Seq<FieldV>) -> Seq<ValV>
    decreases fields,
{
    if fields.len() == 0 {
        Seq::empty()
    } else {
        defaults_of(fields.subrange(0, fields.len() - 1)).push(
            default_val(fields[fields.len() - 1].ty),
        )
    }
}

/// The field defaults line up with the declared fields.
pub proof fn lemma_defaults_of(fields: Seq<FieldV>)
    ensures
        defaults_of(fields).len() == fields.len(),
        forall|i: int|
            0 <= i < fields.len() ==> #[trigger] defaults_of(fields)[i] == default_val(
                fields[i].ty,
            ),
    decreases fields.len(),
{
    if fields.len() > 0 {
        let head = fields.subrange(0, fields.len() - 1);
        lemma_defaults_of(head);
        assert forall|i: int|
            0 <= i < fields.len() implies #[trigger] defaults_of(fields)[i] == default_val(
            fields[i].ty,
        ) by {
            if i < fields.len() - 1 {
                assert(head[i] == fields[i]);
            }
        }
    }
}

/// The default value of a well-formed schema conforms to it.
pub proof fn lemma_default_conforms(s: SchemaV)
    requires
        schema_wf(s),
    ensures
        conforms(default_val(s), s),
    decreases s,
{
    match s {
        SchemaV::Struct(fields) => {
            lemma_defaults_of(fields);
            lemma_fields_wf(fields);
            let ds = defaults_of(fields);
            assert forall|i: int|
                0 <= i < ds.len() implies conforms(#[trigger] ds[i], fields[i].ty) by {
                assert(schema_wf(fields[i].ty));
                lemma_default_conforms_at(fields, i);
            }
            lemma_fields_conform_rev(ds, fields);
        },
        SchemaV::Enum(variants) => {
            lemma_default_ordinal_in_range(variants, 0);
        },
        _ => {},
    }
}

/// The default of one declared field's type conforms to that type.
proof fn lemma_default_conforms_at(fields: Seq<FieldV>, i: int)
    requires
        0 <= i < fields.len(),
        schema_wf(fields[i].ty),
    ensures
        conforms(default_val(fields[i].ty), fields[i].ty),
    decreases fields,
{
    lemma_default_conforms(fields[i].ty);
}

/// What a decoder reconstructs: skip-marked fields replaced by their
/// defaults, skip-marked variants replaced by the default variant, and
/// everything else kept, recursively.
pub open spec fn normalize(s: SchemaV, v: ValV) -> ValV
    decreases v,
{
    match v {
        ValV::Struct(vs) => match s {
            SchemaV::Struct(fields) => ValV::Struct(normalize_fields(vs, fields)),
            _ => v,
        },
        ValV::List(es) => match s {
            SchemaV::List(t) => ValV::List(normalize_elems(es, *t)),
            _ => v,
        },
        ValV::Enum(o) => match s {
            SchemaV::Enum(variants) => if 0 <= (o as int) < variants.len() && variants[
                o as int
            ].skip {
                ValV::Enum(default_ordinal(variants) as u32)
            } else {
                v
            },
            _ => v,
        },
        _ => v,
    }
}

/// The normalisation of a struct's field values.
pub open spec fn normalize_fields(vs: Seq<ValV>, fields: Seq<FieldV>) -> Seq<ValV>
    decreases vs,
{
    if vs.len() == 0 {
        Seq::empty()
    } else {
        normalize_fields(vs.subrange(0, vs.len() - 1), fields.subrange(0, vs.len() - 1)).push(
            if fields[vs.len() - 1].skip {
                default_val(fields[vs.len() - 1].ty)
            } else {
                normalize(fields[vs.len() - 1].ty, vs[vs.len() - 1])
            },
        )
    }
}

/// The normalisation of a list's elements.
pub open spec fn normalize_elems(es: Seq<ValV>, t: SchemaV) -> Seq<ValV>
    decreases es,
{
    if es.len() == 0 {
        Seq::empty()
    } else {
        normalize_elems(es.subrange(0, es.len() - 1), t).push(normalize(t, es[es.len() - 1]))
    }
}

/// The normalised field values line up with the originals: default where
/// skip-marked, normalised where not.
pub proof fn lemma_normalize_fields(vs: Seq<ValV>, fields: Seq<FieldV>)
    requires
        vs.len() <= fields.len(),
    ensures
        normalize_fields(vs, fields).len() == vs.len(),
        forall|i: int|
            0 <= i < vs.len() ==> #[trigger] normalize_fields(vs, fields)[i] == (
            if fields[i].skip {
                default_val(fields[i].ty)
            } else {
                normalize(fields[i].ty, vs[i])
            }),
    decreases vs.len(),
{
    if vs.len() > 0 {
        let vh = vs.subrange(0, vs.len() - 1);
        let fh = fields.subrange(0, vs.len() - 1);
        lemma_normalize_fields(vh, fh);
        assert forall|i: int|
            0 <= i < vs.len() implies #[trigger] normalize_fields(vs, fields)[i] == (
        if fields[i].skip {
            default_val(fields[i].ty)
        } else {
            normalize(fields[i].ty, vs[i])
        }) by {
            if i < vs.len() - 1 {
                assert(vh[i] == vs[i]);
                assert(fh[i] == fields[i]);
            }
        }
    }
}

/// The normalised elements line up with the originals.
pub proof fn lemma_normalize_elems(es: Seq<ValV>, t: SchemaV)
    ensures
        normalize_elems(es, t).len() == es.len(),
        forall|i: int|
            0 <= i < es.len() ==> #[trigger] normalize_elems(es, t)[i] == normalize(t, es[i]),
    decreases es.len(),
{
    if es.len() > 0 {
        let head = es.subrange(0, es.len() - 1);
        lemma_normalize_elems(head, t);
        assert forall|i: int|
            0 <= i < es.len() implies #[trigger] normalize_elems(es, t)[i] == normalize(
            t,
            es[i],
        ) by {
            if i < es.len() - 1 {
                assert(head[i] == es[i]);
            }
        }
    }
}

/// Builds the default value of a well-formed schema.
pub fn default_value(s: &TypeSchema) -> (r: Value)
    requires
        schema_wf(s@),
    ensures
        r@ == default_val(s@),
    decreases *s,
{
    match s {
        TypeSchema::Bool => Value::Bool(false),
        TypeSchema::I8 => Value::I8(0),
        TypeSchema::I32 => Value::I32(0),
        TypeSchema::I64 => Value::I64(0),
        TypeSchema::F32 => Value::F32Bits(0),
        TypeSchema::F64 => Value::F64Bits(0),
        TypeSchema::Str => Value::Str(Vec::new()),
        TypeSchema::List(_) => Value::List(Vec::new()),
        TypeSchema::Enum(variants) => {
            proof {
                assert(s@ == SchemaV::Enum(variants@));
            }
            let d = default_ordinal_of(variants);
            Value::Enum(d as u32)
        },
        TypeSchema::Struct(fields) => {
            proof {
                lemma_fields_view(fields@);
                assert(*s == TypeSchema::Struct(*fields));
            }
            let ghost fv = vec_fields_view(*fields);
            let n = fields.len();
            let mut out: Vec<Value> = Vec::new();
            let mut k: usize = 0;
            while k < n
                invariant
                    k <= n,
                    n == fields@.len(),
                    *s == TypeSchema::Struct(*fields),
                    schema_wf(s@),
                    fv == vec_fields_view(*fields),
                    fv.len() == n,
                    out@.len() == k,
                    forall|j: int|
                        0 <= j < k ==> value_view(#[trigger] out@[j]) == default_val(fv[j].ty),
                decreases n - k,
            {
                proof {
                    lemma_fields_view(fields@);
                    lemma_fields_wf(fv);
                    assert(s@ == SchemaV::Struct(fv));
                    assert(schema_wf(fv[k as int].ty));
                    assert(decreases_to!(*s => *fields));
                    assert(decreases_to!(*fields => fields@));
                    assert(decreases_to!(fields@ => fields@[k as int]));
                    assert(decreases_to!(fields@[k as int] => fields@[k as int].ty));
                }
                let d = default_value(&fields[k].ty);
                out.push(d);
                k = k + 1;
            }
            proof {
                lemma_vals_view(out@);
                lemma_defaults_of(fv);
                assert(seq_vals_view(out@) =~= defaults_of(fv));
                assert(s@ == SchemaV::Struct(fv));
            }
            Value::Struct(out)
        },
    }
}

/// Decides whether a value has the shape a schema declares.
pub fn conforms_check(v: &Value, s: &TypeSchema) -> (r: bool)
    ensures
        r == conforms(v@, s@),
    decreases *v,
{
    match (v, s) {
        (Value::Bool(_), TypeSchema::Bool) => true,
        (Value::I8(_), TypeSchema::I8) => true,
        (Value::I32(_), TypeSchema::I32) => true,
        (Value::I64(_), TypeSchema::I64) => true,
        (Value::F32Bits(_), TypeSchema::F32) => true,
        (Value::F64Bits(_), TypeSchema::F64) => true,
        (Value::Str(cs), TypeSchema::Str) => cs.len() <= 0xFFFF_FFFF,
        (Value::List(es), TypeSchema::List(t)) => {
            proof {
                assert(*v == Value::List(*es));
                assert(*s == TypeSchema::List(*t));
                lemma_vals_view(es@);
            }
            let ghost ev = vec_vals_view(*es);
            let n = es.len();
            if n > 0xFFFF_FFFF {
                return false;
            }
            let mut k: usize = 0;
            while k < n
                invariant
                    k <= n,
                    n == es@.len(),
                    *v == Value::List(*es),
                    *s == TypeSchema::List(*t),
                    ev == vec_vals_view(*es),
                    ev.len() == n,
                    forall|j: int| 0 <= j < k ==> conforms(#[trigger] ev[j], (**t)@),
                decreases n - k,
            {
                proof {
                    lemma_vals_view(es@);
                    assert((*v)->List_0 == *es);
                    assert(decreases_to!(*v => (*v)->List_0));
                    assert(decreases_to!(*es => es@));
                    assert(decreases_to!(es@ => es@[k as int]));
                }
                if !conforms_check(&es[k], t) {
                    proof {
                        assert(!conforms(ev[k as int], (**t)@));
                        if elems_conform(ev, (**t)@) {
                            lemma_elems_conform(ev, (**t)@);
                        }
                    }
                    return false;
                }
                k = k + 1;
            }
            proof {
                lemma_elems_conform_rev(ev, (**t)@);
            }
            true
        },
        (Value::Struct(vs), TypeSchema::Struct(fields)) => {
            proof {
                assert(*v == Value::Struct(*vs));
                assert(*s == TypeSchema::Struct(*fields));
                lemma_vals_view(vs@);
                lemma_fields_view(fields@);
            }
            let ghost vv = vec_vals_view(*vs);
            let ghost fv = vec_fields_view(*fields);
            let n = vs.len();
            if n != fields.len() {
                return false;
            }
            let mut k: usize = 0;
            while k < n
                invariant
                    k <= n,
                    n == vs@.len(),
                    n == fields@.len(),
                    *v == Value::Struct(*vs),
                    *s == TypeSchema::Struct(*fields),
                    vv == vec_vals_view(*vs),
                    fv == vec_fields_view(*fields),
                    vv.len() == n,
                    fv.len() == n,
                    forall|j: int| 0 <= j < k ==> conforms(#[trigger] vv[j], fv[j].ty),
                decreases n - k,
            {
                proof {
                    lemma_vals_view(vs@);
                    lemma_fields_view(fields@);
                    assert((*v)->Struct_0 == *vs);
                    assert(decreases_to!(*v => (*v)->Struct_0));
                    assert(decreases_to!(*vs => vs@));
                    assert(decreases_to!(vs@ => vs@[k as int]));
                }
                if !conforms_check(&vs[k], &fields[k].ty) {
                    proof {
                        assert(!conforms(vv[k as int], fv[k as int].ty));
                        if fields_conform(vv, fv) {
                            lemma_fields_conform(vv, fv);
                        }
                    }
                    return false;
                }
                k = k + 1;
            }
            proof {
                lemma_fields_conform_rev(vv, fv);
            }
            true
        },
        (Value::Enum(o), TypeSchema::Enum(variants)) => {
            proof {
                assert(*v == Value::Enum(*o));
                assert(*s == TypeSchema::Enum(*variants));
            }
            (*o as usize) < variants.len()
        },
        _ => {
            proof {
                assert(!conforms(v@, s@));
            }
            false
        },
    }
}

} // verus!
