//! The type registry and the top-level serialize and deserialize calls.
//!
//! A [`Fory`] instance holds an append-only list of type registrations.
//! Each binds a caller-chosen numeric type id — and, for by-name
//! registrations, a type name — to a declared schema. Serialization frames
//! a value's data bytes with type information: by id, a single varint
//! carrying the id joined with an internal type tag; by name, a varint tag
//! followed by the encoded name. Deserialization verifies that framing
//! against the expected registration before it decodes the data, so a
//! reader never interprets bytes under the wrong schema.

use vstd::prelude::*;
use vstd::string::StrSliceExecFns;
use crate::codec::decode;
use crate::codec::decode_chars;
use crate::codec::encode;
use crate::codec::encode_chars;
use crate::codec::parse;
use crate::codec::wire;
use crate::codec::wire_chars_from;
use crate::err::CodecError;
use crate::schema::SchemaV;
use crate::schema::TypeSchema;
use crate::schema::check_schema;
use crate::schema::schema_wf;
use crate::value::ValV;
use crate::value::Value;
use crate::value::conforms;
use crate::value::conforms_check;
use crate::varint::parse_varu32;
use crate::varint::read_varu32;
use crate::varint::vleb;
use crate::varint::write_vleb;

verus! {

/// The internal wire tag of an enum registered by id.
pub const ENUM_TAG: u32 = 10;

/// The internal wire tag of an enum registered by name.
pub const NAMED_ENUM_TAG: u32 = 11;

/// The internal wire tag of a struct registered by id.
pub const STRUCT_TAG: u32 = 12;

/// The internal wire tag of a struct registered by id in compatible mode.
pub const COMPATIBLE_STRUCT_TAG: u32 = 13;

/// The internal wire tag of a struct registered by name.
pub const NAMED_STRUCT_TAG: u32 = 14;

/// The internal wire tag of a struct registered by name in compatible
/// mode.
pub const NAMED_COMPATIBLE_STRUCT_TAG: u32 = 15;

/// The id word a registration puts on the wire: for a by-name
/// registration the bare internal tag; for a by-id registration the
/// caller's type id shifted into the high bytes and joined with the tag.
/// The compatible flag selects the struct tags that tolerate field-set
/// drift.
pub open spec fn spec_actual_type_id(
    type_id: u32,
    register_by_name: bool,
    compatible: bool,
    is_enum: bool,
) -> int {
    if is_enum {
        if register_by_name {
            NAMED_ENUM_TAG as int
        } else {
            type_id * 256 + ENUM_TAG
        }
    } else {
        if register_by_name {
            if compatible {
                NAMED_COMPATIBLE_STRUCT_TAG as int
            } else {
                NAMED_STRUCT_TAG as int
            }
        } else {
            type_id * 256 + if compatible {
                COMPATIBLE_STRUCT_TAG as int
            } else {
                STRUCT_TAG as int
            }
        }
    }
}

/// Computes the id word a registration puts on the wire.
pub fn actual_type_id(type_id: u32, register_by_name: bool, compatible: bool, is_enum: bool) -> (r:
    u32)
    requires
        type_id < 0x100_0000,
    ensures
        r as int == spec_actual_type_id(type_id, register_by_name, compatible, is_enum),
{
    if is_enum {
        if register_by_name {
            NAMED_ENUM_TAG
        } else {
            type_id * 256 + ENUM_TAG
        }
    } else {
        if register_by_name {
            if compatible {
                NAMED_COMPATIBLE_STRUCT_TAG
            } else {
                NAMED_STRUCT_TAG
            }
        } else {
            type_id * 256 + if compatible {
                COMPATIBLE_STRUCT_TAG
            } else {
                STRUCT_TAG
            }
        }
    }
}

/// One type registration: the local id, the resolution mode, the wire
/// name (empty for by-id registrations), and the declared schema.
pub struct Registration {
    /// The caller-chosen numeric type id.
    pub id: u32,
    /// Whether the type resolves by name on the wire.
    pub by_name: bool,
    /// The wire name, for by-name registrations.
    pub name: Vec<char>,
    /// The declared schema.
    pub schema: TypeSchema,
}

/// The mathematical image of a registration.
#[verifier::ext_equal]
pub ghost struct RegV {
    /// The numeric type id.
    pub id: u32,
    /// The resolution mode.
    pub by_name: bool,
    /// The wire name.
    pub name: Seq<char>,
    /// The declared schema.
    pub schema: SchemaV,
}

/// The image of one registration.
pub open spec fn reg_view(r: Registration) -> RegV {
    RegV { id: r.id, by_name: r.by_name, name: r.name@, schema: r.schema@ }
}

impl View for Registration {
    type V = RegV;

    open spec fn view(&self) -> RegV {
        reg_view(*self)
    }
}

/// A registration the engine can act on: a small id, a name short enough
/// for its length prefix, a well-formed composite schema.
pub open spec fn reg_wf(r: RegV) -> bool {
    r.id < 0x100_0000 && r.name.len() <= 0xFFFF_FFFF && schema_wf(r.schema) && (r.schema is Struct
        || r.schema is Enum)
}

/// The first registration bound to `id`, if any.
pub open spec fn spec_lookup(regs: Seq<Registration>, id: u32) -> Option<RegV>
    decreases regs.len(),
{
    if regs.len() == 0 {
        None
    } else if regs[0]@.id == id {
        Some(regs[0]@)
    } else {
        spec_lookup(regs.skip(1), id)
    }
}

/// The type-information bytes written ahead of a value's data.
pub open spec fn type_info_wire(reg: RegV, compatible: bool) -> Seq<u8> {
    if reg.by_name {
        vleb(
            spec_actual_type_id(reg.id, true, compatible, reg.schema is Enum) as nat,
        ) + vleb(reg.name.len()) + wire_chars_from(reg.name, 0)
    } else {
        vleb(spec_actual_type_id(reg.id, false, compatible, reg.schema is Enum) as nat)
    }
}

/// The full wire image of a value under a registration: its type
/// information, then its data bytes.
pub open spec fn framed_wire(reg: RegV, compatible: bool, v: ValV) -> Seq<u8> {
    type_info_wire(reg, compatible) + wire(reg.schema, v)
}

/// The result of reading a framed value: the type information is checked
/// against the registration, then the data is parsed under its schema.
pub open spec fn parse_framed(reg: RegV, compatible: bool, input: Seq<u8>) -> Result<
    (ValV, int),
    CodecError,
> {
    match parse_varu32(input) {
        Ok((t, k)) => if !(1 <= k <= input.len()) {
            Err(CodecError::MalformedData)
        } else if t != spec_actual_type_id(
            reg.id,
            reg.by_name,
            compatible,
            reg.schema is Enum,
        ) {
            Err(CodecError::TypeInfoMismatch)
        } else if reg.by_name {
            match parse(SchemaV::Str, input.skip(k)) {
                Ok((nm, m)) => if !(0 <= m <= input.skip(k).len()) {
                    Err(CodecError::MalformedData)
                } else if nm != ValV::Str(reg.name) {
                    Err(CodecError::TypeInfoMismatch)
                } else {
                    match parse(reg.schema, input.skip(k + m)) {
                        Ok((v, n)) => Ok((v, k + m + n)),
                        Err(e) => Err(e),
                    }
                },
                Err(e) => Err(e),
            }
        } else {
            match parse(reg.schema, input.skip(k)) {
                Ok((v, n)) => Ok((v, k + n)),
                Err(e) => Err(e),
            }
        },
        Err(e) => Err(e),
    }
}

/// A serialization engine instance: its registrations and its
/// compatible-mode flag.
pub struct Fory {
    /// The registrations, in registration order.
    pub regs: Vec<Registration>,
    /// Whether struct type ids announce compatible mode.
    pub compatible: bool,
}

/// A cursor over an input buffer for repeated deserialization.
pub struct Reader {
    /// The buffered input bytes.
    pub data: Vec<u8>,
    /// The read position.
    pub pos: usize,
}

impl Reader {
    /// Buffers `bytes` and places the cursor at the start.
    pub fn new(bytes: &[u8]) -> (r: Reader)
        ensures
            r.data@ == bytes@,
            r.pos == 0,
    {
        Reader { data: vstd::slice::slice_to_vec(bytes), pos: 0 }
    }
}

/// Compares two character vectors.
fn chars_eq(a: &Vec<char>, b: &Vec<char>) -> (r: bool)
    ensures
        r == (a@ == b@),
{
    if a.len() != b.len() {
        return false;
    }
    let n = a.len();
    let mut k: usize = 0;
    while k < n
        invariant
            k <= n,
            n == a@.len(),
            n == b@.len(),
            forall|j: int| 0 <= j < k ==> a@[j] == b@[j],
        decreases n - k,
    {
        if a[k] != b[k] {
            return false;
        }
        k = k + 1;
    }
    proof {
        assert(a@ =~= b@);
    }
    true
}

/// Copies the characters of a string into a vector.
fn str_to_chars(s: &str) -> (r: Vec<char>)
    ensures
        r@ == s@,
{
    let n = s.unicode_len();
    let mut out: Vec<char> = Vec::new();
    let mut k: usize = 0;
    while k < n
        invariant
            k <= n,
            n == s@.len(),
            out@.len() == k,
            forall|j: int| 0 <= j < k ==> out@[j] == s@[j],
        decreases n - k,
    {
        out.push(s.get_char(k));
        k = k + 1;
    }
    proof {
        assert(out@ =~= s@);
    }
    out
}

impl Fory {
    /// A fresh engine with no registrations, out of compatible mode.
    pub fn new() -> (r: Fory)
        ensures
            r.regs@.len() == 0,
            !r.compatible,
    {
        Fory { regs: Vec::new(), compatible: false }
    }

    /// A fresh engine with no registrations and the given compatible-mode
    /// flag.
    pub fn with_compatible(compatible: bool) -> (r: Fory)
        ensures
            r.regs@.len() == 0,
            r.compatible == compatible,
    {
        Fory { regs: Vec::new(), compatible }
    }

    /// Looks up the registration bound to `id`.
    fn lookup(&self, id: u32) -> (r: Option<usize>)
        ensures
            match r {
                Some(i) => i < self.regs@.len() && self.regs@[i as int]@.id == id && spec_lookup(
                    self.regs@,
                    id,
                ) == Some(self.regs@[i as int]@),
                None => spec_lookup(self.regs@, id) is None,
            },
    {
        let n = self.regs.len();
        let mut k: usize = 0;
        proof {
            assert(self.regs@.skip(0) =~= self.regs@);
        }
        while k < n
            invariant
                k <= n,
                n == self.regs@.len(),
                spec_lookup(self.regs@, id) == spec_lookup(self.regs@.skip(k as int), id),
            decreases n - k,
        {
            if self.regs[k].id == id {
                proof {
                    assert(self.regs@.skip(k as int)[0] == self.regs@[k as int]);
                }
                return Some(k);
            }
            proof {
                assert(self.regs@.skip(k as int)[0] == self.regs@[k as int]);
                assert(self.regs@.skip(k as int).skip(1) =~= self.regs@.skip(k as int + 1));
            }
            k = k + 1;
        }
        None
    }

    /// Records a registration after checking the registration rules:
    /// the schema must be a well-formed struct or enum declaration, the
    /// id must fit beside the internal tag and must not be bound yet, and
    /// a wire name must be short enough for its length prefix.
    fn register_inner(&mut self, schema: TypeSchema, id: u32, by_name: bool, name: Vec<char>) -> (r:
        Result<(), CodecError>)
        ensures
            r is Ok <==> (schema_wf(schema@) && (schema@ is Struct || schema@ is Enum) && id
                < 0x100_0000 && name@.len() <= 0xFFFF_FFFF && spec_lookup(old(self).regs@, id)
                is None),
            r is Ok ==> final(self).regs@ == old(self).regs@.push(
                Registration { id, by_name, name, schema },
            ) && reg_wf(final(self).regs@.last()@),
            r is Err ==> final(self).regs@ == old(self).regs@,
            final(self).compatible == old(self).compatible,
    {
        match check_schema(&schema) {
            Ok(()) => {},
            Err(e) => {
                return Err(e);
            },
        }
        let composite = match &schema {
            TypeSchema::Struct(_) => true,
            TypeSchema::Enum(_) => true,
            _ => false,
        };
        if !composite {
            return Err(CodecError::InvalidSchema);
        }
        if id >= 0x100_0000 {
            return Err(CodecError::TypeIdTooLarge);
        }
        if name.len() > 0xFFFF_FFFF {
            return Err(CodecError::InvalidSchema);
        }
        match self.lookup(id) {
            Some(_) => Err(CodecError::DuplicateTypeId),
            None => {
                self.regs.push(Registration { id, by_name, name, schema });
                Ok(())
            },
        }
    }

    /// Registers a type under a numeric id.
    pub fn register(&mut self, schema: TypeSchema, id: u32) -> (r: Result<(), CodecError>)
        ensures
            r is Ok <==> (schema_wf(schema@) && (schema@ is Struct || schema@ is Enum) && id
                < 0x100_0000 && spec_lookup(old(self).regs@, id) is None),
            r is Ok ==> final(self).regs@.len() == old(self).regs@.len() + 1 && final(self).regs@.last()@ == (RegV {
                id,
                by_name: false,
                name: Seq::empty(),
                schema: schema@,
            }) && final(self).regs@.subrange(0, old(self).regs@.len() as int) == old(self).regs@,
            r is Err ==> final(self).regs@ == old(self).regs@,
            final(self).compatible == old(self).compatible,
    {
        let r = self.register_inner(schema, id, false, Vec::new());
        proof {
            if r is Ok {
                assert(final(self).regs@.subrange(0, old(self).regs@.len() as int) =~= old(self).regs@);
            }
        }
        r
    }

    /// Registers a type under a numeric id and a wire name; on the wire
    /// the type then resolves by that name.
    pub fn register_by_name(&mut self, schema: TypeSchema, id: u32, name: &str) -> (r: Result<
        (),
        CodecError,
    >)
        ensures
            r is Ok <==> (schema_wf(schema@) && (schema@ is Struct || schema@ is Enum) && id
                < 0x100_0000 && name@.len() <= 0xFFFF_FFFF && spec_lookup(old(self).regs@, id)
                is None),
            r is Ok ==> final(self).regs@.len() == old(self).regs@.len() + 1 && final(self).regs@.last()@ == (RegV { id, by_name: true, name: name@, schema: schema@ }) && final(self).regs@.subrange(0, old(self).regs@.len() as int) == old(self).regs@,
            r is Err ==> final(self).regs@ == old(self).regs@,
            final(self).compatible == old(self).compatible,
    {
        let chars = str_to_chars(name);
        let r = self.register_inner(schema, id, true, chars);
        proof {
            if r is Ok {
                assert(final(self).regs@.subrange(0, old(self).regs@.len() as int) =~= old(self).regs@);
            }
        }
        r
    }

    /// Encodes `v` under the registration bound to `id`, appending the
    /// type information and the data bytes to `out`. On any error `out`
    /// is left untouched.
    pub fn serialize_to(&self, id: u32, v: &Value, out: &mut Vec<u8>) -> (r: Result<(), CodecError>)
        ensures
            match spec_lookup(self.regs@, id) {
                None => r == Err::<(), CodecError>(CodecError::UnknownTypeId) && final(out)@ == old(out)@,
                Some(reg) => if !reg_wf(reg) {
                    r == Err::<(), CodecError>(CodecError::InvalidSchema) && final(out)@ == old(out)@
                } else if !conforms(v@, reg.schema) {
                    r == Err::<(), CodecError>(CodecError::ValueMismatch) && final(out)@ == old(out)@
                } else {
                    r is Ok && final(out)@ == old(out)@ + framed_wire(reg, self.compatible, v@)
                },
            },
    {
        let i = match self.lookup(id) {
            Some(i) => i,
            None => {
                return Err(CodecError::UnknownTypeId);
            },
        };
        let reg = &self.regs[i];
        let schema_ok = match check_schema(&reg.schema) {
            Ok(()) => true,
            Err(_) => false,
        };
        let composite = match &reg.schema {
            TypeSchema::Struct(_) => true,
            TypeSchema::Enum(_) => true,
            _ => false,
        };
        let is_enum = match &reg.schema {
            TypeSchema::Enum(_) => true,
            _ => false,
        };
        if !schema_ok || !composite || reg.id >= 0x100_0000 || reg.name.len() > 0xFFFF_FFFF {
            return Err(CodecError::InvalidSchema);
        }
        if !conforms_check(v, &reg.schema) {
            return Err(CodecError::ValueMismatch);
        }
        let tag = actual_type_id(reg.id, reg.by_name, self.compatible, is_enum);
        write_vleb(out, tag as u64);
        if reg.by_name {
            encode_chars(&reg.name, out);
        }
        encode(&reg.schema, v, out);
        proof {
            assert(out@ =~= old(out)@ + framed_wire(reg@, self.compatible, v@));
        }
        Ok(())
    }

    /// Encodes `v` under the registration bound to `id` into a fresh
    /// buffer.
    pub fn serialize(&self, id: u32, v: &Value) -> (r: Result<Vec<u8>, CodecError>)
        ensures
            match spec_lookup(self.regs@, id) {
                None => r == Err::<Vec<u8>, CodecError>(CodecError::UnknownTypeId),
                Some(reg) => if !reg_wf(reg) {
                    r == Err::<Vec<u8>, CodecError>(CodecError::InvalidSchema)
                } else if !conforms(v@, reg.schema) {
                    r == Err::<Vec<u8>, CodecError>(CodecError::ValueMismatch)
                } else {
                    r matches Ok(bytes) && bytes@ == framed_wire(reg, self.compatible, v@)
                },
            },
    {
        let mut out: Vec<u8> = Vec::new();
        match self.serialize_to(id, v, &mut out) {
            Ok(()) => Ok(out),
            Err(e) => Err(e),
        }
    }

    /// Decodes one framed value of the registration bound to `id` from
    /// the reader's position, advancing it past the value on success and
    /// leaving it in place on any error.
    pub fn deserialize_from(&self, id: u32, reader: &mut Reader) -> (r: Result<Value, CodecError>)
        requires
            old(reader).pos <= old(reader).data@.len(),
        ensures
            final(reader).data@ == old(reader).data@,
            r is Err ==> final(reader).pos == old(reader).pos,
            match spec_lookup(self.regs@, id) {
                None => r == Err::<Value, CodecError>(CodecError::UnknownTypeId),
                Some(reg) => if !reg_wf(reg) {
                    r == Err::<Value, CodecError>(CodecError::InvalidSchema)
                } else {
                    match parse_framed(
                        reg,
                        self.compatible,
                        old(reader).data@.skip(old(reader).pos as int),
                    ) {
                        Ok((w, m)) => r matches Ok(v) && v@ == w && final(reader).pos == old(reader).pos + m,
                        Err(e) => r == Err::<Value, CodecError>(e),
                    }
                },
            },
    {
        let ghost input = reader.data@.skip(reader.pos as int);
        let i = match self.lookup(id) {
            Some(i) => i,
            None => {
                return Err(CodecError::UnknownTypeId);
            },
        };
        let reg = &self.regs[i];
        let schema_ok = match check_schema(&reg.schema) {
            Ok(()) => true,
            Err(_) => false,
        };
        let composite = match &reg.schema {
            TypeSchema::Struct(_) => true,
            TypeSchema::Enum(_) => true,
            _ => false,
        };
        let is_enum = match &reg.schema {
            TypeSchema::Enum(_) => true,
            _ => false,
        };
        if !schema_ok || !composite || reg.id >= 0x100_0000 || reg.name.len() > 0xFFFF_FFFF {
            return Err(CodecError::InvalidSchema);
        }
        let (t, p1) = match read_varu32(&reader.data, reader.pos) {
            Ok(p) => p,
            Err(e) => {
                return Err(e);
            },
        };
        proof {
            crate::varint::lemma_parse_vleb_bounds(input, 5);
        }
        let expected = actual_type_id(reg.id, reg.by_name, self.compatible, is_enum);
        if t != expected {
            return Err(CodecError::TypeInfoMismatch);
        }
        let mut cur: usize = p1;
        if reg.by_name {
            let (nm, p2) = match decode_chars(&reader.data, cur) {
                Ok(p) => p,
                Err(e) => {
                    proof {
                        assert(input.skip(p1 - reader.pos) =~= reader.data@.skip(p1 as int));
                    }
                    return Err(e);
                },
            };
            proof {
                assert(input.skip(p1 - reader.pos) =~= reader.data@.skip(p1 as int));
            }
            if !chars_eq(&nm, &reg.name) {
                return Err(CodecError::TypeInfoMismatch);
            }
            cur = p2;
        }
        proof {
            assert(input.skip(cur - reader.pos) =~= reader.data@.skip(cur as int));
        }
        match decode(&reg.schema, &reader.data, cur) {
            Ok((v, p3)) => {
                reader.pos = p3;
                Ok(v)
            },
            Err(e) => Err(e),
        }
    }

    /// Decodes one framed value of the registration bound to `id` from
    /// the front of `bytes`.
    pub fn deserialize(&self, id: u32, bytes: &[u8]) -> (r: Result<Value, CodecError>)
        ensures
            match spec_lookup(self.regs@, id) {
                None => r == Err::<Value, CodecError>(CodecError::UnknownTypeId),
                Some(reg) => if !reg_wf(reg) {
                    r == Err::<Value, CodecError>(CodecError::InvalidSchema)
                } else {
                    match parse_framed(reg, self.compatible, bytes@) {
                        Ok((w, m)) => r matches Ok(v) && v@ == w,
                        Err(e) => r == Err::<Value, CodecError>(e),
                    }
                },
            },
    {
        let mut reader = Reader::new(bytes);
        proof {
            assert(reader.data@.skip(0) =~= bytes@);
        }
        self.deserialize_from(id, &mut reader)
    }
}

impl Default for Fory {
    /// A fresh engine with no registrations, out of compatible mode.
    fn default() -> (r: Fory)
        ensures
            r.regs@.len() == 0,
            !r.compatible,
    {
        Fory::new()
    }
}

} // verus!
