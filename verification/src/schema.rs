//! Type descriptors and the field/variant resolver.
//!
//! A [`TypeSchema`] declares the shape of a registrable type: a scalar, a
//! character string, a homogeneous list, a struct with named fields, or an
//! enum with positional variants. Fields and variants carry a `skip` flag;
//! an enum variant may further be marked as the default.
//!
//! The resolver turns a struct's declared field list into the deterministic
//! wire order — the skip-marked fields removed, the rest sorted by field
//! name — and an enum's declared variant list into its ordinal table, in
//! which every skip-marked variant donates its ordinal to the default
//! variant. Both are pure functions of the declaration, so independently
//! compiled producers and consumers agree on them.

use vstd::prelude::*;
use vstd::string::StrSliceExecFns;
use crate::err::CodecError;

verus! {

/// One declared struct field: its name, its skip flag, and its type.
#[derive(Debug)]
pub struct FieldSchema {
    /// The field's name; the wire order sorts by it.
    pub name: String,
    /// A skip-marked field is elided from the wire and decodes to its
    /// type's default value.
    pub skip: bool,
    /// The field's own type.
    pub ty: TypeSchema,
}

/// One declared enum variant: its skip flag and its default marker.
/// A variant is identified by its declaration position.
#[derive(Clone, Copy, Debug, PartialEq, Eq, Structural)]
pub struct VariantSchema {
    /// A skip-marked variant is never written as itself and donates its
    /// ordinal to the default variant.
    pub skip: bool,
    /// At most one variant may be so marked; when none is, the variant at
    /// position zero is the implicit default.
    pub is_default: bool,
}

/// The declared shape of a type.
#[derive(Debug)]
pub enum TypeSchema {
    /// A boolean, one byte on the wire.
    Bool,
    /// A signed 8-bit integer, one byte on the wire.
    I8,
    /// A signed 32-bit integer, a varint of its two's-complement image.
    I32,
    /// A signed 64-bit integer, a varint of its two's-complement image.
    I64,
    /// A 32-bit float carried as its bit pattern, a varint.
    F32,
    /// A 64-bit float carried as its bit pattern, a varint.
    F64,
    /// A character string: a varint count, then one varint per character.
    Str,
    /// A homogeneous list: a varint count, then the elements.
    List(Box<TypeSchema>),
    /// A struct: the non-skipped fields in sorted-by-name order, no tags.
    Struct(Vec<FieldSchema>),
    /// An enum: a single varint ordinal.
    Enum(Vec<VariantSchema>),
}

/// The mathematical image of one declared field.
#[verifier::ext_equal]
pub ghost struct FieldV {
    /// The field name as a sequence of characters.
    pub name: Seq<char>,
    /// The skip flag.
    pub skip: bool,
    /// The field's type.
    pub ty: SchemaV,
}

/// The mathematical image of a declared type.
#[verifier::ext_equal]
pub ghost enum SchemaV {
    /// A boolean.
    Bool,
    /// A signed 8-bit integer.
    I8,
    /// A signed 32-bit integer.
    I32,
    /// A signed 64-bit integer.
    I64,
    /// A 32-bit float bit pattern.
    F32,
    /// A 64-bit float bit pattern.
    F64,
    /// A character string.
    Str,
    /// A homogeneous list.
    List(Box<SchemaV>),
    /// A struct with its declared fields.
    Struct(Seq<FieldV>),
    /// An enum with its declared variants.
    Enum(Seq<VariantSchema>),
}

/// The mathematical image of a schema.
pub open spec fn schema_view(s: TypeSchema) -> SchemaV
    decreases s,
{
    match s {
        TypeSchema::Bool => SchemaV::Bool,
        TypeSchema::I8 => SchemaV::I8,
        TypeSchema::I32 => SchemaV::I32,
        TypeSchema::I64 => SchemaV::I64,
        TypeSchema::F32 => SchemaV::F32,
        TypeSchema::F64 => SchemaV::F64,
        TypeSchema::Str => SchemaV::Str,
        TypeSchema::List(t) => SchemaV::List(Box::new(schema_view(*t))),
        TypeSchema::Struct(fields) => SchemaV::Struct(vec_fields_view(fields)),
        TypeSchema::Enum(variants) => SchemaV::Enum(variants@),
    }
}

/// The image of a declared field list held in a vector.
pub open spec fn vec_fields_view(fields: Vec<FieldSchema>) -> Seq<FieldV>
    decreases fields,
{
    seq_fields_view(fields@)
}

/// The image of a declared field list.
pub open spec fn seq_fields_view(fields: Seq<FieldSchema>) -> Seq<FieldV>
    decreases fields,
{
    if fields.len() == 0 {
        Seq::empty()
    } else {
        seq_fields_view(fields.subrange(0, fields.len() - 1)).push(
            field_view(fields[fields.len() - 1]),
        )
    }
}

/// The image of one declared field.
pub open spec fn field_view(f: FieldSchema) -> FieldV
    decreases f,
{
    FieldV { name: f.name@, skip: f.skip, ty: schema_view(f.ty) }
}

/// The field-list image has one entry per declared field, in order.
pub proof fn lemma_fields_view(fields: Seq<FieldSchema>)
    ensures
        seq_fields_view(fields).len() == fields.len(),
        forall|i: int|
            0 <= i < fields.len() ==> #[trigger] seq_fields_view(fields)[i] == field_view(
                fields[i],
            ),
    decreases fields.len(),
{
    if fields.len() > 0 {
        let head = fields.subrange(0, fields.len() - 1);
        lemma_fields_view(head);
        assert forall|i: int|
            0 <= i < fields.len() implies #[trigger] seq_fields_view(fields)[i] == field_view(
            fields[i],
        ) by {
            if i < fields.len() - 1 {
                assert(head[i] == fields[i]);
            }
        }
    }
}

impl View for TypeSchema {
    type V = SchemaV;

    open spec fn view(&self) -> SchemaV {
        schema_view(*self)
    }
}

/// Lexicographic order on character sequences, by code point.
pub open spec fn lex_le(a: Seq<char>, b: Seq<char>) -> bool
    decreases a.len(),
{
    if a.len() == 0 {
        true
    } else if b.len() == 0 {
        false
    } else if a[0] != b[0] {
        (a[0] as u32) < (b[0] as u32)
    } else {
        lex_le(a.skip(1), b.skip(1))
    }
}

/// Inserts field index `i` into the index list `s`, which is sorted by
/// field name, keeping it sorted; `i` goes before the first entry whose
/// name is not below `i`'s.
pub open spec fn insert_sorted(i: usize, fields: Seq<FieldV>, s: Seq<usize>) -> Seq<usize>
    decreases s.len(),
{
    if s.len() == 0 {
        seq![i]
    } else if lex_le(fields[i as int].name, fields[s[0] as int].name) {
        seq![i] + s
    } else {
        seq![s[0]] + insert_sorted(i, fields, s.skip(1))
    }
}

/// The resolved wire order of the first `n` declared fields: the indices of
/// the non-skipped ones, sorted by field name.
pub open spec fn order_upto(fields: Seq<FieldV>, n: int) -> Seq<usize>
    decreases n,
{
    if n <= 0 {
        Seq::empty()
    } else if fields[n - 1].skip {
        order_upto(fields, n - 1)
    } else {
        insert_sorted((n - 1) as usize, fields, order_upto(fields, n - 1))
    }
}

/// The resolved wire order of a struct's whole field list.
pub open spec fn field_order(fields: Seq<FieldV>) -> Seq<usize> {
    order_upto(fields, fields.len() as int)
}

/// How many variants are marked as the default.
pub open spec fn count_defaults(variants: Seq<VariantSchema>) -> nat
    decreases variants.len(),
{
    if variants.len() == 0 {
        0
    } else {
        count_defaults(variants.drop_last()) + if variants.last().is_default {
            1nat
        } else {
            0nat
        }
    }
}

/// The first default-marked variant at or after position `k`, or zero.
pub open spec fn find_default(variants: Seq<VariantSchema>, k: int) -> int
    decreases variants.len() - k,
{
    if k < 0 || k >= variants.len() {
        0
    } else if variants[k].is_default {
        k
    } else {
        find_default(variants, k + 1)
    }
}

/// The ordinal of the default variant: the first variant marked as the
/// default, or position zero when none is marked.
pub open spec fn default_ordinal(variants: Seq<VariantSchema>) -> int {
    find_default(variants, 0)
}

/// The ordinal table entry of variant `i`: a skip-marked variant donates
/// its ordinal to the default variant, every other variant keeps its
/// declaration position.
pub open spec fn wire_ordinal(variants: Seq<VariantSchema>, i: int) -> int {
    if variants[i].skip {
        default_ordinal(variants)
    } else {
        i
    }
}

/// The names of `fields` are pairwise distinct.
pub open spec fn distinct_names(fields: Seq<FieldV>) -> bool {
    forall|i: int, j: int|
        0 <= i < j < fields.len() ==> fields[i].name != fields[j].name
}

/// A registrable declaration: struct field lists are small and their names
/// distinct, enums have at least one variant, at most one default marker,
/// and a default variant that is not itself skip-marked, recursively.
pub open spec fn schema_wf(s: SchemaV) -> bool
    decreases s,
{
    match s {
        SchemaV::List(t) => schema_wf(*t),
        SchemaV::Struct(fields) => fields.len() <= 0xFFFF_FFFF && distinct_names(fields)
            && fields_wf(fields),
        SchemaV::Enum(variants) => 1 <= variants.len() <= 0xFFFF_FFFF && count_defaults(variants)
            <= 1 && !variants[default_ordinal(variants)].skip,
        _ => true,
    }
}

/// Every field type in the list is itself well formed.
pub open spec fn fields_wf(fields: Seq<FieldV>) -> bool
    decreases fields,
{
    if fields.len() == 0 {
        true
    } else {
        fields_wf(fields.subrange(0, fields.len() - 1)) && schema_wf(
            fields[fields.len() - 1].ty,
        )
    }
}

/// `fields_wf` holds exactly when every field's type is well formed.
pub proof fn lemma_fields_wf(fields: Seq<FieldV>)
    ensures
        fields_wf(fields) <==> (forall|i: int|
            0 <= i < fields.len() ==> #[trigger] schema_wf(fields[i].ty)),
    decreases fields.len(),
{
    if fields.len() > 0 {
        let head = fields.subrange(0, fields.len() - 1);
        lemma_fields_wf(head);
        if fields_wf(fields) {
            assert forall|i: int|
                0 <= i < fields.len() implies #[trigger] schema_wf(fields[i].ty) by {
                if i < fields.len() - 1 {
                    assert(head[i] == fields[i]);
                    assert(schema_wf(head[i].ty));
                }
            }
        }
        if forall|i: int| 0 <= i < fields.len() ==> #[trigger] schema_wf(fields[i].ty) {
            assert forall|i: int| 0 <= i < head.len() implies #[trigger] schema_wf(head[i].ty) by {
                assert(head[i] == fields[i]);
                assert(schema_wf(fields[i].ty));
            }
            assert(schema_wf(fields[fields.len() - 1].ty));
        }
    }
}

/// No field or variant anywhere in `s` is skip-marked.
pub open spec fn no_skip(s: SchemaV) -> bool
    decreases s,
{
    match s {
        SchemaV::List(t) => no_skip(*t),
        SchemaV::Struct(fields) => fields_unskipped(fields),
        SchemaV::Enum(variants) => variants_unskipped(variants),
        _ => true,
    }
}

/// No field in the list is skip-marked, and none of their types holds a
/// skip mark either.
pub open spec fn fields_unskipped(fields: Seq<FieldV>) -> bool
    decreases fields,
{
    if fields.len() == 0 {
        true
    } else {
        fields_unskipped(fields.subrange(0, fields.len() - 1)) && !fields[fields.len() - 1].skip
            && no_skip(fields[fields.len() - 1].ty)
    }
}

/// No variant in the list is skip-marked.
pub open spec fn variants_unskipped(variants: Seq<VariantSchema>) -> bool
    decreases variants.len(),
{
    if variants.len() == 0 {
        true
    } else {
        variants_unskipped(variants.drop_last()) && !variants.last().skip
    }
}

/// When the list passes `fields_unskipped`, no single field carries a
/// skip mark.
pub proof fn lemma_fields_unskipped(fields: Seq<FieldV>)
    requires
        fields_unskipped(fields),
    ensures
        forall|i: int| 0 <= i < fields.len() ==> !(#[trigger] fields[i]).skip,
        forall|i: int| 0 <= i < fields.len() ==> no_skip((#[trigger] fields[i]).ty),
    decreases fields.len(),
{
    if fields.len() > 0 {
        let head = fields.subrange(0, fields.len() - 1);
        lemma_fields_unskipped(head);
        assert forall|i: int| 0 <= i < fields.len() implies !(#[trigger] fields[i]).skip
            && no_skip(fields[i].ty) by {
            if i < fields.len() - 1 {
                assert(head[i] == fields[i]);
                assert(no_skip(head[i].ty));
                assert(!head[i].skip);
            }
        }
    }
}

/// When no single field carries a skip mark, the list passes
/// `fields_unskipped`.
pub proof fn lemma_fields_unskipped_rev(fields: Seq<FieldV>)
    requires
        forall|i: int| 0 <= i < fields.len() ==> !(#[trigger] fields[i]).skip,
        forall|i: int| 0 <= i < fields.len() ==> no_skip((#[trigger] fields[i]).ty),
    ensures
        fields_unskipped(fields),
    decreases fields.len(),
{
    if fields.len() > 0 {
        let head = fields.subrange(0, fields.len() - 1);
        assert forall|i: int| 0 <= i < head.len() implies !(#[trigger] head[i]).skip && no_skip(
            head[i].ty,
        ) by {
            assert(head[i] == fields[i]);
        }
        lemma_fields_unskipped_rev(head);
        assert(!fields[fields.len() - 1].skip && no_skip(fields[fields.len() - 1].ty));
    }
}

/// When the list passes `variants_unskipped`, no single variant carries a
/// skip mark.
pub proof fn lemma_variants_unskipped(variants: Seq<VariantSchema>)
    requires
        variants_unskipped(variants),
    ensures
        forall|i: int| 0 <= i < variants.len() ==> !(#[trigger] variants[i]).skip,
    decreases variants.len(),
{
    if variants.len() > 0 {
        let head = variants.drop_last();
        lemma_variants_unskipped(head);
        assert forall|i: int| 0 <= i < variants.len() implies !(#[trigger] variants[i]).skip by {
            if i < variants.len() - 1 {
                assert(head[i] == variants[i]);
            }
        }
    }
}

/// When no single variant carries a skip mark, the list passes
/// `variants_unskipped`.
pub proof fn lemma_variants_unskipped_rev(variants: Seq<VariantSchema>)
    requires
        forall|i: int| 0 <= i < variants.len() ==> !(#[trigger] variants[i]).skip,
    ensures
        variants_unskipped(variants),
    decreases variants.len(),
{
    if variants.len() > 0 {
        let head = variants.drop_last();
        assert forall|i: int| 0 <= i < head.len() implies !(#[trigger] head[i]).skip by {
            assert(head[i] == variants[i]);
        }
        lemma_variants_unskipped_rev(head);
    }
}

/// The default ordinal names a declared variant.
pub proof fn lemma_default_ordinal_in_range(variants: Seq<VariantSchema>, k: int)
    requires
        variants.len() >= 1,
        0 <= k <= variants.len(),
    ensures
        0 <= find_default(variants, k) < variants.len(),
    decreases variants.len() - k,
{
    if k < variants.len() && !variants[k].is_default {
        lemma_default_ordinal_in_range(variants, k + 1);
    }
}

/// What insertion does to the index list: one entry longer, the same
/// entries plus `i`, and no duplicates if `i` was not already present.
pub proof fn lemma_insert_sorted_entries(i: usize, fields: Seq<FieldV>, s: Seq<usize>)
    ensures
        insert_sorted(i, fields, s).len() == s.len() + 1,
        forall|x: usize| #[trigger]
            insert_sorted(i, fields, s).contains(x) <==> (x == i || s.contains(x)),
        s.no_duplicates() && !s.contains(i) ==> insert_sorted(i, fields, s).no_duplicates(),
    decreases s.len(),
{
    let r = insert_sorted(i, fields, s);
    if s.len() == 0 {
        assert forall|x: usize| #[trigger] r.contains(x) <==> (x == i || s.contains(x)) by {
            if x == i {
                assert(r[0] == i);
            }
        }
    } else if lex_le(fields[i as int].name, fields[s[0] as int].name) {
        assert(r == seq![i] + s);
        assert forall|x: usize| #[trigger] r.contains(x) <==> (x == i || s.contains(x)) by {
            if x == i {
                assert(r[0] == i);
            }
            if s.contains(x) {
                let w = choose|w: int| 0 <= w < s.len() && s[w] == x;
                assert(r[w + 1] == x);
            }
            if r.contains(x) {
                let w = choose|w: int| 0 <= w < r.len() && r[w] == x;
                if w > 0 {
                    assert(s[w - 1] == x);
                }
            }
        }
    } else {
        lemma_insert_sorted_entries(i, fields, s.skip(1));
        let tail = insert_sorted(i, fields, s.skip(1));
        assert(r == seq![s[0]] + tail);
        assert forall|x: usize| #[trigger] r.contains(x) <==> (x == i || s.contains(x)) by {
            if r.contains(x) {
                let w = choose|w: int| 0 <= w < r.len() && r[w] == x;
                if w == 0 {
                    assert(s[0] == x);
                } else {
                    assert(tail[w - 1] == x);
                    assert(tail.contains(x));
                    if x != i {
                        let u = choose|u: int| 0 <= u < s.skip(1).len() && s.skip(1)[u] == x;
                        assert(s[u + 1] == x);
                    }
                }
            }
            if x == i {
                assert(tail.contains(i));
                let w = choose|w: int| 0 <= w < tail.len() && tail[w] == x;
                assert(r[w + 1] == x);
            }
            if s.contains(x) {
                let w = choose|w: int| 0 <= w < s.len() && s[w] == x;
                if w == 0 {
                    assert(r[0] == x);
                } else {
                    assert(s.skip(1)[w - 1] == x);
                    assert(s.skip(1).contains(x));
                    assert(tail.contains(x));
                    let u = choose|u: int| 0 <= u < tail.len() && tail[u] == x;
                    assert(r[u + 1] == x);
                }
            }
        }
        if s.no_duplicates() && !s.contains(i) {
            assert(s.skip(1).no_duplicates()) by {
                assert forall|p: int, q: int|
                    0 <= p < s.skip(1).len() && 0 <= q < s.skip(1).len() && p != q implies s.skip(
                    1,
                )[p] != s.skip(1)[q] by {
                    assert(s[p + 1] == s.skip(1)[p]);
                    assert(s[q + 1] == s.skip(1)[q]);
                }
            }
            assert(!s.skip(1).contains(i)) by {
                if s.skip(1).contains(i) {
                    let w = choose|w: int| 0 <= w < s.skip(1).len() && s.skip(1)[w] == i;
                    assert(s[w + 1] == i);
                }
            }
            assert(!tail.contains(s[0])) by {
                if tail.contains(s[0]) {
                    assert(s[0] == i || s.skip(1).contains(s[0]));
                    if s.skip(1).contains(s[0]) {
                        let w = choose|w: int| 0 <= w < s.skip(1).len() && s.skip(1)[w] == s[0];
                        assert(s[w + 1] == s[0]);
                    }
                }
            }
            assert forall|p: int, q: int|
                0 <= p < r.len() && 0 <= q < r.len() && p != q implies r[p] != r[q] by {
                if p > 0 && q > 0 {
                    assert(r[p] == tail[p - 1]);
                    assert(r[q] == tail[q - 1]);
                } else if p == 0 && q > 0 {
                    assert(r[q] == tail[q - 1]);
                    assert(tail.contains(tail[q - 1]));
                } else if q == 0 && p > 0 {
                    assert(r[p] == tail[p - 1]);
                    assert(tail.contains(tail[p - 1]));
                }
            }
        }
    }
}

/// The resolved order of the first `n` fields holds exactly the non-skipped
/// indices below `n`, each once.
pub proof fn lemma_order_upto_entries(fields: Seq<FieldV>, n: int)
    requires
        0 <= n <= fields.len(),
        fields.len() <= 0xFFFF_FFFF,
    ensures
        forall|x: usize| #[trigger]
            order_upto(fields, n).contains(x) <==> (x < n && !fields[x as int].skip),
        order_upto(fields, n).no_duplicates(),
    decreases n,
{
    if n > 0 {
        lemma_order_upto_entries(fields, n - 1);
        let prev = order_upto(fields, n - 1);
        if !fields[n - 1].skip {
            assert(!prev.contains((n - 1) as usize));
            lemma_insert_sorted_entries((n - 1) as usize, fields, prev);
        }
    }
}

/// The resolved order of a whole field list: exactly the non-skipped
/// indices, each once.
pub proof fn lemma_field_order_entries(fields: Seq<FieldV>)
    requires
        fields.len() <= 0xFFFF_FFFF,
    ensures
        forall|x: usize| #[trigger]
            field_order(fields).contains(x) <==> (x < fields.len() && !fields[x as int].skip),
        field_order(fields).no_duplicates(),
{
    lemma_order_upto_entries(fields, fields.len() as int);
}

/// The index list names fields in non-decreasing name order.
pub open spec fn order_sorted(fields: Seq<FieldV>, s: Seq<usize>) -> bool {
    forall|p: int, q: int|
        0 <= p < q < s.len() ==> lex_le(fields[#[trigger] s[p] as int].name, fields[#[trigger] s[q] as int].name)
}

/// The lexicographic order is total.
pub proof fn lemma_lex_le_total(a: Seq<char>, b: Seq<char>)
    ensures
        lex_le(a, b) || lex_le(b, a),
    decreases a.len(),
{
    if a.len() > 0 && b.len() > 0 {
        if a[0] == b[0] {
            lemma_lex_le_total(a.skip(1), b.skip(1));
        } else {
            vstd::utf8::char_u32_cast(a[0], a[0] as u32);
            vstd::utf8::char_u32_cast(b[0], b[0] as u32);
            assert(a[0] as u32 != b[0] as u32);
        }
    }
}

/// The lexicographic order is transitive.
pub proof fn lemma_lex_le_trans(a: Seq<char>, b: Seq<char>, c: Seq<char>)
    requires
        lex_le(a, b),
        lex_le(b, c),
    ensures
        lex_le(a, c),
    decreases a.len(),
{
    if a.len() > 0 && c.len() > 0 {
        if a[0] == b[0] && b[0] == c[0] {
            lemma_lex_le_trans(a.skip(1), b.skip(1), c.skip(1));
        }
    }
}

/// Inserting an index into a sorted list keeps it sorted.
pub proof fn lemma_insert_sorted_keeps_order(i: usize, fields: Seq<FieldV>, s: Seq<usize>)
    requires
        order_sorted(fields, s),
    ensures
        order_sorted(fields, insert_sorted(i, fields, s)),
    decreases s.len(),
{
    let r = insert_sorted(i, fields, s);
    if s.len() == 0 {
        assert(order_sorted(fields, r));
    } else if lex_le(fields[i as int].name, fields[s[0] as int].name) {
        assert(r == seq![i] + s);
        assert forall|p: int, q: int|
            0 <= p < q < r.len() implies lex_le(
            fields[#[trigger] r[p] as int].name,
            fields[#[trigger] r[q] as int].name,
        ) by {
            if p == 0 {
                assert(r[q] == s[q - 1]);
                if q > 1 {
                    assert(lex_le(fields[s[0] as int].name, fields[s[q - 1] as int].name));
                    lemma_lex_le_trans(
                        fields[i as int].name,
                        fields[s[0] as int].name,
                        fields[s[q - 1] as int].name,
                    );
                }
            } else {
                assert(r[p] == s[p - 1]);
                assert(r[q] == s[q - 1]);
            }
        }
    } else {
        let tail = s.skip(1);
        assert(order_sorted(fields, tail)) by {
            assert forall|p: int, q: int|
                0 <= p < q < tail.len() implies lex_le(
                fields[#[trigger] tail[p] as int].name,
                fields[#[trigger] tail[q] as int].name,
            ) by {
                assert(tail[p] == s[p + 1]);
                assert(tail[q] == s[q + 1]);
            }
        }
        lemma_insert_sorted_keeps_order(i, fields, tail);
        lemma_insert_sorted_entries(i, fields, tail);
        let it = insert_sorted(i, fields, tail);
        assert(r == seq![s[0]] + it);
        lemma_lex_le_total(fields[i as int].name, fields[s[0] as int].name);
        assert(lex_le(fields[s[0] as int].name, fields[i as int].name));
        assert forall|p: int, q: int|
            0 <= p < q < r.len() implies lex_le(
            fields[#[trigger] r[p] as int].name,
            fields[#[trigger] r[q] as int].name,
        ) by {
            if p == 0 {
                assert(r[q] == it[q - 1]);
                let x = it[q - 1];
                assert(it.contains(x));
                if x == i {
                    assert(lex_le(fields[s[0] as int].name, fields[i as int].name));
                } else {
                    assert(tail.contains(x));
                    let w = choose|w: int| 0 <= w < tail.len() && tail[w] == x;
                    assert(s[w + 1] == x);
                    assert(lex_le(fields[s[0] as int].name, fields[x as int].name));
                }
            } else {
                assert(r[p] == it[p - 1]);
                assert(r[q] == it[q - 1]);
            }
        }
    }
}

/// The resolver's wire order is sorted by field name.
pub proof fn lemma_order_upto_sorted(fields: Seq<FieldV>, n: int)
    requires
        0 <= n <= fields.len(),
    ensures
        order_sorted(fields, order_upto(fields, n)),
    decreases n,
{
    if n > 0 {
        lemma_order_upto_sorted(fields, n - 1);
        if !fields[n - 1].skip {
            lemma_insert_sorted_keeps_order((n - 1) as usize, fields, order_upto(fields, n - 1));
        }
    }
}

/// The deterministic wire order of a struct's fields is sorted by field
/// name, whatever the declaration order was.
pub proof fn lemma_field_order_sorted(fields: Seq<FieldV>)
    ensures
        order_sorted(fields, field_order(fields)),
{
    lemma_order_upto_sorted(fields, fields.len() as int);
}

/// Where the insertion lands: splitting `s` at the first entry whose name
/// is not below `i`'s gives the inserted list by plain concatenation.
pub proof fn lemma_insert_sorted_split(i: usize, fields: Seq<FieldV>, s: Seq<usize>, p: int)
    requires
        0 <= p <= s.len(),
        forall|j: int| 0 <= j < p ==> !lex_le(fields[i as int].name, fields[#[trigger] s[j] as int].name),
        p < s.len() ==> lex_le(fields[i as int].name, fields[s[p] as int].name),
    ensures
        insert_sorted(i, fields, s) == s.subrange(0, p) + seq![i] + s.subrange(p, s.len() as int),
    decreases s.len(),
{
    if s.len() == 0 {
        assert(insert_sorted(i, fields, s) =~= s.subrange(0, p) + seq![i] + s.subrange(
            p,
            s.len() as int,
        ));
    } else if p == 0 {
        assert(seq![i] + s =~= s.subrange(0, 0) + seq![i] + s.subrange(0, s.len() as int));
    } else {
        assert(!lex_le(fields[i as int].name, fields[s[0] as int].name)) by {
            assert(s[0] == s[0]);
        }
        let tail = s.skip(1);
        assert(tail =~= s.subrange(1, s.len() as int));
        assert forall|j: int| 0 <= j < p - 1 implies !lex_le(
            fields[i as int].name,
            fields[#[trigger] tail[j] as int].name,
        ) by {
            assert(tail[j] == s[j + 1]);
        }
        assert(p - 1 < tail.len() ==> lex_le(fields[i as int].name, fields[tail[p - 1] as int].name));
        lemma_insert_sorted_split(i, fields, tail, p - 1);
        assert(seq![s[0]] + (tail.subrange(0, p - 1) + seq![i] + tail.subrange(
            p - 1,
            tail.len() as int,
        )) =~= s.subrange(0, p) + seq![i] + s.subrange(p, s.len() as int));
    }
}

/// Compares two strings character by character.
pub fn str_eq(a: &str, b: &str) -> (r: bool)
    ensures
        r == (a@ == b@),
{
    let alen = a.unicode_len();
    let blen = b.unicode_len();
    if alen != blen {
        return false;
    }
    let mut k: usize = 0;
    while k < alen
        invariant
            alen == a@.len(),
            blen == b@.len(),
            alen == blen,
            k <= alen,
            forall|j: int| 0 <= j < k ==> a@[j] == b@[j],
        decreases alen - k,
    {
        if a.get_char(k) != b.get_char(k) {
            return false;
        }
        k = k + 1;
    }
    proof {
        assert(a@ =~= b@);
    }
    true
}

/// Decides the lexicographic order of two strings.
pub fn str_lex_le(a: &str, b: &str) -> (r: bool)
    ensures
        r == lex_le(a@, b@),
{
    let alen = a.unicode_len();
    let blen = b.unicode_len();
    let mut k: usize = 0;
    proof {
        assert(a@.skip(0) =~= a@);
        assert(b@.skip(0) =~= b@);
    }
    loop
        invariant
            alen == a@.len(),
            blen == b@.len(),
            k <= alen,
            k <= blen,
            lex_le(a@, b@) == lex_le(a@.skip(k as int), b@.skip(k as int)),
        decreases alen - k,
    {
        if k == alen {
            return true;
        }
        if k == blen {
            return false;
        }
        let ca = a.get_char(k);
        let cb = b.get_char(k);
        if ca != cb {
            return (ca as u32) < (cb as u32);
        }
        proof {
            assert(a@.skip(k as int).skip(1) =~= a@.skip(k as int + 1));
            assert(b@.skip(k as int).skip(1) =~= b@.skip(k as int + 1));
        }
        k = k + 1;
    }
}

/// Finds the default variant's ordinal: the first default-marked variant,
/// or position zero when none is marked.
pub fn default_ordinal_of(variants: &Vec<VariantSchema>) -> (r: usize)
    requires
        1 <= variants@.len(),
    ensures
        r as int == default_ordinal(variants@),
        r < variants@.len(),
{
    let n = variants.len();
    let mut k: usize = 0;
    while k < n
        invariant
            k <= n,
            n == variants@.len(),
            default_ordinal(variants@) == find_default(variants@, k as int),
        decreases n - k,
    {
        if variants[k].is_default {
            return k;
        }
        k = k + 1;
    }
    0
}

/// Checks the enum rules: at least one variant, a field count the wire
/// word can carry, at most one default marker, and an unskipped default.
fn check_variants(variants: &Vec<VariantSchema>) -> (r: Result<(), CodecError>)
    ensures
        r is Ok <==> (1 <= variants@.len() <= 0xFFFF_FFFF && count_defaults(variants@) <= 1
            && !variants@[default_ordinal(variants@)].skip),
        r is Err ==> (r->Err_0 == CodecError::MultipleDefaultVariants || r->Err_0
            == CodecError::InvalidSchema),
        r is Err && r->Err_0 == CodecError::MultipleDefaultVariants ==> count_defaults(variants@)
            > 1,
{
    let n = variants.len();
    if n == 0 || n > 0xFFFF_FFFF {
        return Err(CodecError::InvalidSchema);
    }
    let mut count: usize = 0;
    let mut k: usize = 0;
    while k < n
        invariant
            k <= n,
            n == variants@.len(),
            count <= k,
            count == count_defaults(variants@.subrange(0, k as int)),
        decreases n - k,
    {
        if variants[k].is_default {
            count = count + 1;
        }
        proof {
            assert(variants@.subrange(0, k + 1).drop_last() =~= variants@.subrange(0, k as int));
            assert(variants@.subrange(0, k + 1).last() == variants@[k as int]);
        }
        k = k + 1;
    }
    proof {
        assert(variants@.subrange(0, n as int) =~= variants@);
    }
    if count > 1 {
        return Err(CodecError::MultipleDefaultVariants);
    }
    let d = default_ordinal_of(variants);
    if variants[d].skip {
        return Err(CodecError::InvalidSchema);
    }
    Ok(())
}

/// Checks that no two declared fields share a name.
fn check_distinct_names(fields: &Vec<FieldSchema>) -> (r: bool)
    ensures
        r == distinct_names(vec_fields_view(*fields)),
{
    proof {
        lemma_fields_view(fields@);
    }
    let ghost fv = vec_fields_view(*fields);
    let n = fields.len();
    let mut i: usize = 0;
    while i < n
        invariant
            i <= n,
            n == fields@.len(),
            fv == vec_fields_view(*fields),
            fv.len() == n,
            forall|p: int, q: int| 0 <= p < q < n && p < i ==> fv[p].name != fv[q].name,
        decreases n - i,
    {
        let mut j: usize = i + 1;
        while j < n
            invariant
                i < j <= n || (i + 1 == j && j > n),
                i < n,
                n == fields@.len(),
                fv == vec_fields_view(*fields),
                fv.len() == n,
                forall|q: int| i < q < j ==> fv[i as int].name != fv[q].name,
            decreases n - j,
        {
            if str_eq(fields[i].name.as_str(), fields[j].name.as_str()) {
                proof {
                    lemma_fields_view(fields@);
                    assert(fv[i as int].name == fv[j as int].name);
                }
                return false;
            }
            proof {
                lemma_fields_view(fields@);
            }
            j = j + 1;
        }
        i = i + 1;
    }
    true
}

/// Computes the wire order of a declared field list: the indices of the
/// non-skipped fields, sorted by field name.
pub fn resolved_order(fields: &Vec<FieldSchema>) -> (r: Vec<usize>)
    ensures
        r@ == field_order(vec_fields_view(*fields)),
        forall|j: int| 0 <= j < r@.len() ==> #[trigger] r@[j] < fields@.len(),
{
    proof {
        lemma_fields_view(fields@);
    }
    let ghost fv = vec_fields_view(*fields);
    let n = fields.len();
    let mut order: Vec<usize> = Vec::new();
    let mut k: usize = 0;
    while k < n
        invariant
            k <= n,
            n == fields@.len(),
            fv == vec_fields_view(*fields),
            fv.len() == n,
            order@ == order_upto(fv, k as int),
            forall|j: int| 0 <= j < order@.len() ==> #[trigger] order@[j] < k,
        decreases n - k,
    {
        proof {
            lemma_fields_view(fields@);
        }
        if !fields[k].skip {
            let mut p: usize = 0;
            loop
                invariant
                    p <= order@.len(),
                    k < n,
                    n == fields@.len(),
                    fv == vec_fields_view(*fields),
                    fv.len() == n,
                    order@ == order_upto(fv, k as int),
                    forall|j: int| 0 <= j < order@.len() ==> #[trigger] order@[j] < k,
                    forall|j: int|
                        0 <= j < p ==> !lex_le(
                            fv[k as int].name,
                            fv[#[trigger] order@[j] as int].name,
                        ),
                ensures
                    p <= order@.len(),
                    order@ == order_upto(fv, k as int),
                    forall|j: int|
                        0 <= j < p ==> !lex_le(
                            fv[k as int].name,
                            fv[#[trigger] order@[j] as int].name,
                        ),
                    p == order@.len() || lex_le(fv[k as int].name, fv[order@[p as int] as int].name),
                decreases order@.len() - p,
            {
                if p == order.len() {
                    break;
                }
                let oi = order[p];
                if str_lex_le(fields[k].name.as_str(), fields[oi].name.as_str()) {
                    proof {
                        lemma_fields_view(fields@);
                    }
                    break;
                }
                proof {
                    lemma_fields_view(fields@);
                }
                p = p + 1;
            }
            let ghost prev = order@;
            proof {
                lemma_insert_sorted_split(k, fv, order@, p as int);
            }
            order.insert(p, k);
            proof {
                assert(order@ =~= prev.subrange(0, p as int) + seq![k] + prev.subrange(
                    p as int,
                    prev.len() as int,
                ));
                lemma_fields_view(fields@);
                assert(!fv[k as int].skip);
                assert(order@ == insert_sorted(k, fv, order_upto(fv, k as int)));
                assert(order@ == order_upto(fv, k + 1));
            }
        } else {
            proof {
                lemma_fields_view(fields@);
                assert(fv[k as int].skip);
                assert(order@ == order_upto(fv, k + 1));
            }
        }
        k = k + 1;
    }
    order
}

/// Checks a declaration against the registration rules, recursively.
pub fn check_schema(s: &TypeSchema) -> (r: Result<(), CodecError>)
    ensures
        r is Ok <==> schema_wf(s@),
        r is Err ==> (r->Err_0 == CodecError::MultipleDefaultVariants || r->Err_0
            == CodecError::InvalidSchema),
    decreases *s,
{
    match s {
        TypeSchema::List(t) => {
            let r = check_schema(t);
            proof {
                assert(*s == TypeSchema::List(*t));
                assert(s@ == SchemaV::List(Box::new(schema_view(**t))));
                assert(schema_wf(s@) == schema_wf(schema_view(**t)));
                assert((r is Ok) == schema_wf((**t)@));
                assert((r is Ok) == schema_wf(s@));
            }
            r
        },
        TypeSchema::Enum(variants) => {
            let r = check_variants(variants);
            proof {
                assert(s@ == SchemaV::Enum(variants@));
            }
            r
        },
        TypeSchema::Struct(fields) => {
            proof {
                lemma_fields_view(fields@);
            }
            let ghost fv = vec_fields_view(*fields);
            let n = fields.len();
            if n > 0xFFFF_FFFF {
                return Err(CodecError::InvalidSchema);
            }
            if !check_distinct_names(fields) {
                return Err(CodecError::InvalidSchema);
            }
            proof {
                assert(*s == TypeSchema::Struct(*fields));
            }
            let mut k: usize = 0;
            while k < n
                invariant
                    k <= n,
                    n == fields@.len(),
                    *s == TypeSchema::Struct(*fields),
                    fv == vec_fields_view(*fields),
                    fv.len() == n,
                    n <= 0xFFFF_FFFF,
                    distinct_names(fv),
                    forall|j: int| 0 <= j < k ==> #[trigger] schema_wf(fv[j].ty),
                decreases n - k,
            {
                proof {
                    lemma_fields_view(fields@);
                    assert(s@ == SchemaV::Struct(fv));
                    assert(decreases_to!(*s => *fields));
                    assert(decreases_to!(*fields => fields@));
                    assert(decreases_to!(fields@ => fields@[k as int]));
                    assert(decreases_to!(fields@[k as int] => fields@[k as int].ty));
                }
                match check_schema(&fields[k].ty) {
                    Ok(()) => {},
                    Err(e) => {
                        proof {
                            assert(!schema_wf(fv[k as int].ty));
                            assert(s@ == SchemaV::Struct(fv));
                            lemma_fields_wf(fv);
                            assert(!fields_wf(fv));
                        }
                        return Err(e);
                    },
                }
                k = k + 1;
            }
            proof {
                assert(s@ == SchemaV::Struct(fv));
                lemma_fields_wf(fv);
                assert(fields_wf(fv));
            }
            Ok(())
        },
        TypeSchema::Bool => Ok(()),
        TypeSchema::I8 => Ok(()),
        TypeSchema::I32 => Ok(()),
        TypeSchema::I64 => Ok(()),
        TypeSchema::F32 => Ok(()),
        TypeSchema::F64 => Ok(()),
        TypeSchema::Str => Ok(()),
    }
}

} // verus!

