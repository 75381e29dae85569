//! What deriving `Encode` and `Decode` writes for a type, decided from the
//! type's shape: a struct is its fields in order, an enum of one variant is
//! nothing, any other enum is the raw bytes of its value.

use vstd::prelude::*;

verus! {

/// The fields of a struct.
#[derive(Clone, Copy, PartialEq, Eq, Structural, Debug)]
pub enum FieldsShape {
    /// Named fields, `{ a: A, b: B }`, by count.
    Named(usize),
    /// Positional fields, `(A, B)`, by count.
    Unnamed(usize),
    /// No field list at all.
    Unit,
}

/// The shape of a type that a derive is asked for.
#[derive(Clone, Copy, PartialEq, Eq, Structural, Debug)]
pub enum ItemShape {
    /// An enum with this many variants.
    Enum(usize),
    /// A struct with these fields.
    Struct(FieldsShape),
    /// Anything else: deriving is refused.
    Other,
}

/// What the derived encoder does.
#[derive(Clone, Copy, PartialEq, Eq, Structural, Debug)]
pub enum EncodeBody {
    /// Writes nothing.
    Nothing,
    /// Writes the raw bytes of the value.
    RawBytes,
    /// Encodes the named fields, in order; by count.
    NamedFields(usize),
    /// Encodes the positional fields `0, 1, ...`, in order; by count.
    IndexedFields(usize),
}

/// What the derived decoder does.
#[derive(Clone, Copy, PartialEq, Eq, Structural, Debug)]
pub enum DecodeBody {
    /// Gives the first (and only) variant, reading nothing.
    FirstVariant,
    /// Reads the raw bytes of the value.
    RawBytes,
    /// Decodes the named fields in order and builds `Self { .. }`; by count.
    NamedFields(usize),
    /// Decodes the positional fields in order and builds `Self(..)`; by count.
    TupleFields(usize),
    /// Builds `Self {}`, reading nothing.
    EmptyBraces,
}

/// The number of fields.
pub open spec fn field_count(fields: FieldsShape) -> nat {
    match fields {
        FieldsShape::Named(n) => n as nat,
        FieldsShape::Unnamed(n) => n as nat,
        FieldsShape::Unit => 0,
    }
}

/// The derived encoder of a type of shape `shape`. Only enums and structs
/// derive it: for any other item (`ItemShape::Other`) this is an error, which
/// the token front end reports by panicking with "unimplemented item type",
/// so that no impl is produced.
pub fn encode_derive(shape: ItemShape) -> (r: Result<EncodeBody, ()>)
    ensures
        r == encode_derive_spec(shape),
{
    match shape {
        ItemShape::Enum(variants) => if variants == 1 {
            Ok(EncodeBody::Nothing)
        } else {
            Ok(EncodeBody::RawBytes)
        },
        ItemShape::Struct(fields) => Ok(generate_encoder(fields)),
        ItemShape::Other => Err(()),
    }
}

/// The derived decoder of a type of shape `shape`. Only enums and structs
/// derive it: for any other item (`ItemShape::Other`) this is an error, which
/// the token front end reports by panicking with "unimplemented item type",
/// so that no impl is produced.
pub fn decode_derive(shape: ItemShape) -> (r: Result<DecodeBody, ()>)
    ensures
        r == decode_derive_spec(shape),
{
    match shape {
        ItemShape::Enum(variants) => if variants == 1 {
            Ok(DecodeBody::FirstVariant)
        } else {
            Ok(DecodeBody::RawBytes)
        },
        ItemShape::Struct(fields) => Ok(generate_decoder(fields)),
        ItemShape::Other => Err(()),
    }
}

/// A struct without fields encodes to nothing; otherwise its fields are
/// encoded in order, by name or by position.
pub open spec fn generate_encoder_spec(fields: FieldsShape) -> EncodeBody {
    if field_count(fields) == 0 {
        EncodeBody::Nothing
    } else {
        match fields {
            FieldsShape::Named(n) => EncodeBody::NamedFields(n),
            FieldsShape::Unnamed(n) => EncodeBody::IndexedFields(n),
            FieldsShape::Unit => EncodeBody::Nothing,
        }
    }
}

/// A struct without fields is built as `Self {}`; otherwise its fields are
/// decoded in order, by name or by position.
pub open spec fn generate_decoder_spec(fields: FieldsShape) -> DecodeBody {
    if field_count(fields) == 0 {
        DecodeBody::EmptyBraces
    } else {
        match fields {
            FieldsShape::Named(n) => DecodeBody::NamedFields(n),
            FieldsShape::Unnamed(n) => DecodeBody::TupleFields(n),
            FieldsShape::Unit => DecodeBody::EmptyBraces,
        }
    }
}

/// The encoder of a struct with fields `fields`.
pub fn generate_encoder(fields: FieldsShape) -> (r: EncodeBody)
    ensures
        r == generate_encoder_spec(fields),
{
    match fields {
        FieldsShape::Named(n) => if n == 0 {
            EncodeBody::Nothing
        } else {
            EncodeBody::NamedFields(n)
        },
        FieldsShape::Unnamed(n) => if n == 0 {
            EncodeBody::Nothing
        } else {
            EncodeBody::IndexedFields(n)
        },
        FieldsShape::Unit => EncodeBody::Nothing,
    }
}

/// The decoder of a struct with fields `fields`.
pub fn generate_decoder(fields: FieldsShape) -> (r: DecodeBody)
    ensures
        r == generate_decoder_spec(fields),
{
    match fields {
        FieldsShape::Named(n) => if n == 0 {
            DecodeBody::EmptyBraces
        } else {
            DecodeBody::NamedFields(n)
        },
        FieldsShape::Unnamed(n) => if n == 0 {
            DecodeBody::EmptyBraces
        } else {
            DecodeBody::TupleFields(n)
        },
        FieldsShape::Unit => DecodeBody::EmptyBraces,
    }
}

/// The derived encoder and decoder agree: they handle the same fields the
/// same way, and read nothing exactly where nothing is written.
pub proof fn lemma_derive_agree(shape: ItemShape)
    ensures
        (encode_derive_spec(shape) is Ok) == (decode_derive_spec(shape) is Ok),
        encode_derive_spec(shape) == Ok::<EncodeBody, ()>(EncodeBody::Nothing) <==> (
        decode_derive_spec(shape) == Ok::<DecodeBody, ()>(DecodeBody::FirstVariant)
            || decode_derive_spec(shape) == Ok::<DecodeBody, ()>(DecodeBody::EmptyBraces)),
        encode_derive_spec(shape) == Ok::<EncodeBody, ()>(EncodeBody::RawBytes) <==> decode_derive_spec(shape)
            == Ok::<DecodeBody, ()>(DecodeBody::RawBytes),
        forall|n: usize|
            encode_derive_spec(shape) == Ok::<EncodeBody, ()>(EncodeBody::NamedFields(n)) <==> decode_derive_spec(shape)
                == Ok::<DecodeBody, ()>(DecodeBody::NamedFields(n)),
        forall|n: usize|
            encode_derive_spec(shape) == Ok::<EncodeBody, ()>(EncodeBody::IndexedFields(n)) <==> decode_derive_spec(shape)
                == Ok::<DecodeBody, ()>(DecodeBody::TupleFields(n)),
{
}

/// How many fields an encoder writes.
pub open spec fn encoded_field_count(body: EncodeBody) -> nat {
    match body {
        EncodeBody::NamedFields(n) => n as nat,
        EncodeBody::IndexedFields(n) => n as nat,
        _ => 0,
    }
}

/// How many fields a decoder reads.
pub open spec fn decoded_field_count(body: DecodeBody) -> nat {
    match body {
        DecodeBody::NamedFields(n) => n as nat,
        DecodeBody::TupleFields(n) => n as nat,
        _ => 0,
    }
}

/// The derived codec of a struct covers every field: the encoder writes as
/// many fields as the struct has, and the decoder reads as many; named fields
/// are handled by name and positional ones by position, and a struct writes
/// or reads nothing only when it has no fields.
pub proof fn lemma_struct_derive_covers_fields(fields: FieldsShape)
    ensures
        encoded_field_count(generate_encoder_spec(fields)) == field_count(fields),
        decoded_field_count(generate_decoder_spec(fields)) == field_count(fields),
        encode_derive_spec(ItemShape::Struct(fields)) == Ok::<EncodeBody, ()>(generate_encoder_spec(fields)),
        decode_derive_spec(ItemShape::Struct(fields)) == Ok::<DecodeBody, ()>(generate_decoder_spec(fields)),
        fields is Named && field_count(fields) > 0 ==> generate_encoder_spec(fields) is NamedFields
            && generate_decoder_spec(fields) is NamedFields,
        fields is Unnamed && field_count(fields) > 0 ==> generate_encoder_spec(fields) is IndexedFields
            && generate_decoder_spec(fields) is TupleFields,
        generate_encoder_spec(fields) == EncodeBody::Nothing <==> field_count(fields) == 0,
        generate_decoder_spec(fields) == DecodeBody::EmptyBraces <==> field_count(fields) == 0,
{
}

/// What `encode_derive` gives.
pub open spec fn encode_derive_spec(shape: ItemShape) -> Result<EncodeBody, ()> {
    match shape {
        ItemShape::Enum(n) => if n == 1 {
            Ok(EncodeBody::Nothing)
        } else {
            Ok(EncodeBody::RawBytes)
        },
        ItemShape::Struct(fields) => Ok(generate_encoder_spec(fields)),
        ItemShape::Other => Err(()),
    }
}

/// What `decode_derive` gives.
pub open spec fn decode_derive_spec(shape: ItemShape) -> Result<DecodeBody, ()> {
    match shape {
        ItemShape::Enum(n) => if n == 1 {
            Ok(DecodeBody::FirstVariant)
        } else {
            Ok(DecodeBody::RawBytes)
        },
        ItemShape::Struct(fields) => Ok(generate_decoder_spec(fields)),
        ItemShape::Other => Err(()),
    }
}

/// Whether the raw bytes read for a fieldless enum are the bytes of one of its
/// variants: the derived decoder refuses any other bytes, which name no value
/// of the type.
pub fn matches_variant(bytes: &[u8], variants: &Vec<Vec<u8>>) -> (r: bool)
    ensures
        r == exists|i: int| 0 <= i < variants@.len() && #[trigger] variants@[i]@ == bytes@,
{
    let mut i: usize = 0;
    while i < variants.len()
        invariant
            i <= variants@.len(),
            forall|j: int| 0 <= j < i ==> #[trigger] variants@[j]@ != bytes@,
        decreases variants@.len() - i,
    {
        if same_bytes(variants[i].as_slice(), bytes) {
            return true;
        }
        i += 1;
    }
    false
}

/// Whether two byte strings are equal.
fn same_bytes(a: &[u8], b: &[u8]) -> (r: bool)
    ensures
        r == (a@ == b@),
{
    if a.len() != b.len() {
        return false;
    }
    let mut i: usize = 0;
    while i < a.len()
        invariant
            i <= a@.len(),
            a@.len() == b@.len(),
            forall|j: int| 0 <= j < i ==> a@[j] == b@[j],
        decreases a@.len() - i,
    {
        if a[i] != b[i] {
            return false;
        }
        i += 1;
    }
    assert(a@ =~= b@);
    true
}

} // verus!
