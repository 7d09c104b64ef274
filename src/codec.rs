use vstd::prelude::*;
use vstd::utf8::{decode_utf8, encode_utf8, valid_utf8};
use byteorder::ByteOrder as _;

verus! {

/// Order of the four bytes of a multi-byte numeric field.
#[derive(Clone, Copy, Debug, PartialEq, Eq, Structural)]
pub enum ByteOrder {
    Big,
    Little,
}

/// Kind of a value on the wire; each kind is announced by its one-byte tag.
#[derive(Clone, Copy, Debug, PartialEq, Eq, Structural)]
pub enum DataType {
    Int32,
    Bool,
    String,
    Float,
    Array,
    Dict,
}

impl DataType {
    pub open spec fn tag(self) -> u8 {
        match self {
            DataType::Int32 => 1,
            DataType::Bool => 2,
            DataType::String => 3,
            DataType::Float => 4,
            DataType::Array => 5,
            DataType::Dict => 6,
        }
    }

    /// The tag byte that announces this kind.
    pub fn to_u8(self) -> (r: u8)
        ensures
            r == self.tag(),
    {
        match self {
            DataType::Int32 => 1,
            DataType::Bool => 2,
            DataType::String => 3,
            DataType::Float => 4,
            DataType::Array => 5,
            DataType::Dict => 6,
        }
    }

    /// The kind that a tag byte announces, if any.
    pub fn from_u8(value: u8) -> (r: Option<DataType>)
        ensures
            r is None <==> !(1 <= value <= 6),
            r matches Some(t) ==> t.tag() == value,
    {
        match value {
            1 => Some(DataType::Int32),
            2 => Some(DataType::Bool),
            3 => Some(DataType::String),
            4 => Some(DataType::Float),
            5 => Some(DataType::Array),
            6 => Some(DataType::Dict),
            _ => None,
        }
    }
}

/// The four bytes of `w`, least significant first.
pub open spec fn le_bytes(w: u32) -> Seq<u8> {
    seq![(w & 0xff) as u8, ((w >> 8u32) & 0xff) as u8, ((w >> 16u32) & 0xff) as u8, (w >> 24u32) as u8]
}

/// The word whose least significant byte is `b0` and most significant is `b3`.
pub open spec fn le_word(b0: u8, b1: u8, b2: u8, b3: u8) -> u32 {
    (b0 as u32) | ((b1 as u32) << 8u32) | ((b2 as u32) << 16u32) | ((b3 as u32) << 24u32)
}

/// The four bytes of `w` in the given order.
pub open spec fn word_bytes(w: u32, order: ByteOrder) -> Seq<u8> {
    match order {
        ByteOrder::Little => le_bytes(w),
        ByteOrder::Big => seq![le_bytes(w)[3], le_bytes(w)[2], le_bytes(w)[1], le_bytes(w)[0]],
    }
}

/// The word held by `b[pos..pos + 4]` in the given order.
pub open spec fn word_at(b: Seq<u8>, pos: int, order: ByteOrder) -> u32 {
    match order {
        ByteOrder::Little => le_word(b[pos], b[pos + 1], b[pos + 2], b[pos + 3]),
        ByteOrder::Big => le_word(b[pos + 3], b[pos + 2], b[pos + 1], b[pos]),
    }
}

/// The word written at `p` reads back unchanged.
proof fn lemma_word_round_trip(b: Seq<u8>, p: int, w: u32, order: ByteOrder)
    requires
        0 <= p,
        p + 4 <= b.len(),
        b.subrange(p, p + 4) == word_bytes(w, order),
    ensures
        word_at(b, p, order) == w,
{
    assert(b[p] == b.subrange(p, p + 4)[0]);
    assert(b[p + 1] == b.subrange(p, p + 4)[1]);
    assert(b[p + 2] == b.subrange(p, p + 4)[2]);
    assert(b[p + 3] == b.subrange(p, p + 4)[3]);
    assert(le_word((w & 0xff) as u8, ((w >> 8u32) & 0xff) as u8, ((w >> 16u32) & 0xff) as u8, (w >> 24u32) as u8) == w) by (bit_vector);
}

/// An `i32` read from a word keeps the word's bits.
pub proof fn lemma_word_int(w: u32)
    ensures
        (w as i32) as u32 == w,
{
    assert((w as i32) as u32 == w) by (bit_vector);
}

/// An `i32` written as a word reads back unchanged.
pub proof fn lemma_int_round_trip(v: i32)
    ensures
        (v as u32) as i32 == v,
{
    assert((v as u32) as i32 == v) by (bit_vector);
}

/// Relies on byteorder's `LittleEndian::write_u32`: the bytes of `n`, least significant first.
#[verifier::external_body]
fn write_word_le(n: u32) -> (r: [u8; 4])
    ensures
        r@ == le_bytes(n),
{
    let mut b = [0u8; 4];
    byteorder::LittleEndian::write_u32(&mut b, n);
    b
}

/// Relies on byteorder's `BigEndian::write_u32`: the bytes of `n`, most significant first.
#[verifier::external_body]
fn write_word_be(n: u32) -> (r: [u8; 4])
    ensures
        r@ == word_bytes(n, ByteOrder::Big),
{
    let mut b = [0u8; 4];
    byteorder::BigEndian::write_u32(&mut b, n);
    b
}

/// Relies on byteorder's `LittleEndian::read_u32`: the word in `b[pos..pos + 4]`, least
/// significant byte first.
#[verifier::external_body]
fn read_word_le(b: &[u8], pos: usize) -> (r: u32)
    requires
        pos + 4 <= b@.len(),
    ensures
        r == word_at(b@, pos as int, ByteOrder::Little),
{
    byteorder::LittleEndian::read_u32(&b[pos..])
}

/// Relies on byteorder's `BigEndian::read_u32`: the word in `b[pos..pos + 4]`, most
/// significant byte first.
#[verifier::external_body]
fn read_word_be(b: &[u8], pos: usize) -> (r: u32)
    requires
        pos + 4 <= b@.len(),
    ensures
        r == word_at(b@, pos as int, ByteOrder::Big),
{
    byteorder::BigEndian::read_u32(&b[pos..])
}


/// Abstract content of a wire value: what an encoding carries and a decoding recovers.
pub enum Datum {
    Int(i32),
    Bool(bool),
    Text(Seq<char>),
    Float(u32),
    List(Seq<Datum>),
    Dict(Seq<(Seq<char>, Datum)>),
}

/// Largest length that the `Int32` length prefix of a string, array or map can carry.
pub const MAX_LEN: usize = 0x7fff_ffff;

/// Every length inside `d` fits its `Int32` length prefix.
pub open spec fn fits(d: Datum) -> bool
    decreases d,
{
    match d {
        Datum::Text(s) => encode_utf8(s).len() <= MAX_LEN,
        Datum::List(items) => items.len() <= MAX_LEN && forall|i: int|
            0 <= i < items.len() ==> fits(#[trigger] items[i]),
        Datum::Dict(entries) => entries.len() <= MAX_LEN && forall|i: int|
            0 <= i < entries.len() ==> encode_utf8((#[trigger] entries[i]).0).len() <= MAX_LEN
                && fits(entries[i].1),
        _ => true,
    }
}

/// Encoding of an `Int32`: its tag, then its four bytes.
pub open spec fn int_field(v: i32, order: ByteOrder) -> Seq<u8> {
    seq![1u8] + word_bytes(v as u32, order)
}

/// Encoding of a string: its tag, its byte length as an `Int32` field, then its UTF-8 bytes.
pub open spec fn text_field(s: Seq<char>, order: ByteOrder) -> Seq<u8> {
    seq![3u8] + int_field(encode_utf8(s).len() as i32, order) + encode_utf8(s)
}

/// Encoding of a datum.
pub open spec fn encode(d: Datum, order: ByteOrder) -> Seq<u8>
    decreases d,
{
    match d {
        Datum::Int(v) => int_field(v, order),
        Datum::Bool(b) => seq![2u8, if b { 1u8 } else { 0u8 }],
        Datum::Text(s) => text_field(s, order),
        Datum::Float(bits) => seq![4u8] + word_bytes(bits, order),
        Datum::List(items) => seq![5u8] + int_field(items.len() as i32, order) + item_parts(
            items,
            order,
        ).flatten(),
        Datum::Dict(entries) => seq![6u8] + int_field(entries.len() as i32, order) + entry_parts(
            entries,
            order,
        ).flatten(),
    }
}

/// Encodings of the items of an array, one for each.
pub open spec fn item_parts(items: Seq<Datum>, order: ByteOrder) -> Seq<Seq<u8>>
    decreases items,
{
    Seq::new(
        items.len(),
        |i: int|
            if 0 <= i < items.len() {
                encode(items[i], order)
            } else {
                Seq::empty()
            },
    )
}

/// Encodings of the entries of a map, key then value, one for each.
pub open spec fn entry_parts(entries: Seq<(Seq<char>, Datum)>, order: ByteOrder) -> Seq<Seq<u8>>
    decreases entries,
{
    Seq::new(
        entries.len(),
        |i: int|
            if 0 <= i < entries.len() {
                text_field(entries[i].0, order) + encode(entries[i].1, order)
            } else {
                Seq::empty()
            },
    )
}

/// Why a byte sequence could not be decoded.
#[derive(Clone, Copy, Debug, PartialEq, Eq, Structural)]
pub enum DecodeError {
    /// The bytes end inside a value.
    UnexpectedEnd,
    /// A byte sequence that no value encodes: an unknown tag, a negative length, a map key
    /// that is not a string, or a string that is not UTF-8.
    InvalidData,
}

/// Reads a four-byte word at `p`; gives the word and the position after it.
pub open spec fn parse_word(b: Seq<u8>, p: int, order: ByteOrder) -> Result<(u32, int), DecodeError> {
    if 0 <= p && p + 4 <= b.len() {
        Ok((word_at(b, p, order), p + 4))
    } else {
        Err(DecodeError::UnexpectedEnd)
    }
}

/// Reads the body of a `Bool`: one byte, true unless zero.
pub open spec fn parse_flag(b: Seq<u8>, p: int) -> Result<(bool, int), DecodeError> {
    if 0 <= p && p < b.len() {
        Ok((b[p] != 0, p + 1))
    } else {
        Err(DecodeError::UnexpectedEnd)
    }
}

/// Reads a length prefix at `p`: an `Int32` field whose tag byte is skipped unread.
pub open spec fn parse_len(b: Seq<u8>, p: int, order: ByteOrder) -> Result<(nat, int), DecodeError> {
    match parse_word(b, p + 1, order) {
        Ok((w, e)) => if (w as i32) < 0 {
            Err(DecodeError::InvalidData)
        } else {
            Ok(((w as i32) as nat, e))
        },
        Err(err) => Err(err),
    }
}

/// Reads the body of a string at `p`: its length prefix, then that many bytes of UTF-8.
pub open spec fn parse_text(b: Seq<u8>, p: int, order: ByteOrder) -> Result<(Seq<char>, int), DecodeError> {
    match parse_len(b, p, order) {
        Ok((n, q)) => if q + n > b.len() {
            Err(DecodeError::UnexpectedEnd)
        } else if valid_utf8(b.subrange(q, q + n)) {
            Ok((decode_utf8(b.subrange(q, q + n)), q + n))
        } else {
            Err(DecodeError::InvalidData)
        },
        Err(err) => Err(err),
    }
}

/// Reads one value at `pos`: its tag, then its body; gives the value and the position after it.
pub open spec fn parse(b: Seq<u8>, pos: int, order: ByteOrder) -> Result<(Datum, int), DecodeError>
    decreases b.len() - pos, 0int,
{
    if pos < 0 || pos >= b.len() {
        Err(DecodeError::UnexpectedEnd)
    } else {
        let tag = b[pos];
        if tag == 1 {
            match parse_word(b, pos + 1, order) {
                Ok((w, e)) => Ok((Datum::Int(w as i32), e)),
                Err(err) => Err(err),
            }
        } else if tag == 2 {
            match parse_flag(b, pos + 1) {
                Ok((f, e)) => Ok((Datum::Bool(f), e)),
                Err(err) => Err(err),
            }
        } else if tag == 3 {
            match parse_text(b, pos + 1, order) {
                Ok((s, e)) => Ok((Datum::Text(s), e)),
                Err(err) => Err(err),
            }
        } else if tag == 4 {
            match parse_word(b, pos + 1, order) {
                Ok((w, e)) => Ok((Datum::Float(w), e)),
                Err(err) => Err(err),
            }
        } else if tag == 5 {
            match parse_list(b, pos + 1, order) {
                Ok((items, e)) => Ok((Datum::List(items), e)),
                Err(err) => Err(err),
            }
        } else if tag == 6 {
            match parse_dict(b, pos + 1, order) {
                Ok((entries, e)) => Ok((Datum::Dict(entries), e)),
                Err(err) => Err(err),
            }
        } else {
            Err(DecodeError::InvalidData)
        }
    }
}

/// Reads the body of an array at `p`: its length prefix, then that many values.
pub open spec fn parse_list(b: Seq<u8>, p: int, order: ByteOrder) -> Result<(Seq<Datum>, int), DecodeError>
    decreases b.len() - p, 0int,
{
    match parse_len(b, p, order) {
        Ok((n, q)) => parse_items(b, q, n, order),
        Err(err) => Err(err),
    }
}

/// Reads the body of a map at `p`: its length prefix, then that many entries.
pub open spec fn parse_dict(b: Seq<u8>, p: int, order: ByteOrder) -> Result<(Seq<(Seq<char>, Datum)>, int), DecodeError>
    decreases b.len() - p, 0int,
{
    match parse_len(b, p, order) {
        Ok((n, q)) => parse_entries(b, q, n, order),
        Err(err) => Err(err),
    }
}

/// Reads `n` values one after another from `pos`.
pub open spec fn parse_items(b: Seq<u8>, pos: int, n: nat, order: ByteOrder) -> Result<(Seq<Datum>, int), DecodeError>
    decreases b.len() - pos, n,
{
    if pos < 0 || pos > b.len() {
        Err(DecodeError::UnexpectedEnd)
    } else if n == 0 {
        Ok((Seq::empty(), pos))
    } else {
        match parse_items(b, pos, (n - 1) as nat, order) {
            Ok((front, p)) => if p < pos || p > b.len() {
                Err(DecodeError::UnexpectedEnd)
            } else {
                match parse(b, p, order) {
                    Ok((d, e)) => Ok((front.push(d), e)),
                    Err(err) => Err(err),
                }
            },
            Err(err) => Err(err),
        }
    }
}

/// Reads `n` map entries one after another from `pos`, each a string key then a value.
pub open spec fn parse_entries(b: Seq<u8>, pos: int, n: nat, order: ByteOrder) -> Result<(Seq<(Seq<char>, Datum)>, int), DecodeError>
    decreases b.len() - pos, n,
{
    if pos < 0 || pos > b.len() {
        Err(DecodeError::UnexpectedEnd)
    } else if n == 0 {
        Ok((Seq::empty(), pos))
    } else {
        match parse_entries(b, pos, (n - 1) as nat, order) {
            Ok((front, p)) => if p < pos || p > b.len() {
                Err(DecodeError::UnexpectedEnd)
            } else {
                match parse(b, p, order) {
                    Ok((Datum::Text(k), q)) => if q < p || q > b.len() {
                        Err(DecodeError::UnexpectedEnd)
                    } else {
                        match parse(b, q, order) {
                            Ok((v, e)) => Ok((front.push((k, v)), e)),
                            Err(err) => Err(err),
                        }
                    },
                    Ok(_) => Err(DecodeError::InvalidData),
                    Err(err) => Err(err),
                }
            },
            Err(err) => Err(err),
        }
    }
}

/// A value of the wire format.
#[derive(Debug)]
pub enum Value {
    Int32(i32),
    Bool(bool),
    String(String),
    /// A single-precision float, held as its IEEE-754 bit pattern.
    Float(u32),
    Array(Vec<Value>),
    /// String-keyed entries, in order; where a key repeats, the last entry is the one that counts.
    Dict(Vec<(String, Value)>),
}

impl Value {
    /// The integer, if this is an `Int32`.
    pub fn as_i32(&self) -> (r: Option<i32>)
        ensures
            r == (match *self {
                Value::Int32(v) => Some(v),
                _ => None,
            }),
    {
        match self {
            Value::Int32(v) => Some(*v),
            _ => None,
        }
    }

    /// The flag, if this is a `Bool`.
    pub fn as_bool(&self) -> (r: Option<bool>)
        ensures
            r == (match *self {
                Value::Bool(v) => Some(v),
                _ => None,
            }),
    {
        match self {
            Value::Bool(v) => Some(*v),
            _ => None,
        }
    }

    /// The string, if this is a `String`.
    pub fn as_string(&self) -> (r: Option<&String>)
        ensures
            r is Some <==> *self is String,
            r matches Some(s) ==> *self == Value::String(*s),
    {
        match self {
            Value::String(v) => Some(v),
            _ => None,
        }
    }

    /// The bit pattern, if this is a `Float`.
    pub fn as_float(&self) -> (r: Option<u32>)
        ensures
            r == (match *self {
                Value::Float(v) => Some(v),
                _ => None,
            }),
    {
        match self {
            Value::Float(v) => Some(*v),
            _ => None,
        }
    }

    /// The items, if this is an `Array`.
    pub fn as_array(&self) -> (r: Option<&Vec<Value>>)
        ensures
            r is Some <==> *self is Array,
            r matches Some(v) ==> *self == Value::Array(*v),
    {
        match self {
            Value::Array(v) => Some(v),
            _ => None,
        }
    }

    /// The entries, if this is a map.
    pub fn as_map(&self) -> (r: Option<&Vec<(String, Value)>>)
        ensures
            r is Some <==> *self is Dict,
            r matches Some(v) ==> *self == Value::Dict(*v),
    {
        match self {
            Value::Dict(v) => Some(v),
            _ => None,
        }
    }

    /// The string, if this is a `String`; otherwise the data is invalid.
    pub fn into_string(self) -> (r: Result<String, DecodeError>)
        ensures
            self is String ==> r == Ok::<String, DecodeError>(self->String_0),
            !(self is String) ==> r == Err::<String, DecodeError>(DecodeError::InvalidData),
    {
        match self {
            Value::String(s) => Ok(s),
            _ => Err(DecodeError::InvalidData),
        }
    }

    pub open spec fn model(self) -> Datum
        decreases self,
    {
        match self {
            Value::Int32(v) => Datum::Int(v),
            Value::Bool(b) => Datum::Bool(b),
            Value::String(s) => Datum::Text(s@),
            Value::Float(bits) => Datum::Float(bits),
            Value::Array(items) => Datum::List(
                Seq::new(
                    items@.len(),
                    |i: int|
                        if 0 <= i < items@.len() {
                            items@[i].model()
                        } else {
                            Datum::Int(0)
                        },
                ),
            ),
            Value::Dict(entries) => Datum::Dict(
                Seq::new(
                    entries@.len(),
                    |i: int|
                        if 0 <= i < entries@.len() {
                            (entries@[i].0@, entries@[i].1.model())
                        } else {
                            (Seq::empty(), Datum::Int(0))
                        },
                ),
            ),
        }
    }
}


/// Models of a sequence of values.
pub open spec fn models(items: Seq<Value>) -> Seq<Datum> {
    Seq::new(items.len(), |j: int| items[j].model())
}

/// Models of a sequence of map entries.
pub open spec fn entry_models(entries: Seq<(String, Value)>) -> Seq<(Seq<char>, Datum)> {
    Seq::new(entries.len(), |j: int| (entries[j].0@, entries[j].1.model()))
}

/// The model of an array is the models of its items.
pub proof fn lemma_array_model(items: Vec<Value>)
    ensures
        Value::Array(items).model() == Datum::List(models(items@)),
{
    assert(Value::Array(items).model()->List_0 =~= models(items@));
}

/// The model of a map is its keys with the models of their values.
pub proof fn lemma_dict_model(entries: Vec<(String, Value)>)
    ensures
        Value::Dict(entries).model() == Datum::Dict(entry_models(entries@)),
{
    assert(Value::Dict(entries).model()->Dict_0 =~= entry_models(entries@));
}

/// Once reading some items has failed, reading more fails in the same way.
proof fn lemma_items_err_extends(b: Seq<u8>, pos: int, k: nat, m: nat, order: ByteOrder)
    requires
        parse_items(b, pos, k, order) is Err,
        k <= m,
    ensures
        parse_items(b, pos, m, order) == parse_items(b, pos, k, order),
    decreases m - k,
{
    if m > k {
        lemma_items_err_extends(b, pos, k, (m - 1) as nat, order);
    }
}

/// Once reading some entries has failed, reading more fails in the same way.
proof fn lemma_entries_err_extends(b: Seq<u8>, pos: int, k: nat, m: nat, order: ByteOrder)
    requires
        parse_entries(b, pos, k, order) is Err,
        k <= m,
    ensures
        parse_entries(b, pos, m, order) == parse_entries(b, pos, k, order),
    decreases m - k,
{
    if m > k {
        lemma_entries_err_extends(b, pos, k, (m - 1) as nat, order);
    }
}

/// A value that a `Serializer` can write.
pub trait Serialize {
    /// The bytes that serializing `self` appends, under `order`.
    spec fn wire(&self, order: ByteOrder) -> Seq<u8>;

    /// Every length inside `self` fits its `Int32` prefix.
    spec fn serializable(&self) -> bool;

    fn serialize(&self, serializer: &mut Serializer)
        requires
            self.serializable(),
        ensures
            final(serializer).bytes() == old(serializer).bytes() + self.wire(old(serializer).order()),
            final(serializer).order() == old(serializer).order(),
    ;
}

impl Serialize for i32 {
    open spec fn wire(&self, order: ByteOrder) -> Seq<u8> {
        int_field(*self, order)
    }

    open spec fn serializable(&self) -> bool {
        true
    }

    fn serialize(&self, serializer: &mut Serializer) {
        serializer.serialize_int32(*self);
    }
}

impl Serialize for bool {
    open spec fn wire(&self, order: ByteOrder) -> Seq<u8> {
        encode(Datum::Bool(*self), order)
    }

    open spec fn serializable(&self) -> bool {
        true
    }

    fn serialize(&self, serializer: &mut Serializer) {
        serializer.serialize_bool(*self);
    }
}

impl Serialize for String {
    open spec fn wire(&self, order: ByteOrder) -> Seq<u8> {
        text_field(self@, order)
    }

    open spec fn serializable(&self) -> bool {
        encode_utf8(self@).len() <= MAX_LEN
    }

    fn serialize(&self, serializer: &mut Serializer) {
        serializer.serialize_string(self.as_str());
    }
}

impl<'a> Serialize for &'a str {
    open spec fn wire(&self, order: ByteOrder) -> Seq<u8> {
        text_field((*self)@, order)
    }

    open spec fn serializable(&self) -> bool {
        encode_utf8((*self)@).len() <= MAX_LEN
    }

    fn serialize(&self, serializer: &mut Serializer) {
        serializer.serialize_string(*self);
    }
}

impl Serialize for Value {
    open spec fn wire(&self, order: ByteOrder) -> Seq<u8> {
        encode(self.model(), order)
    }

    open spec fn serializable(&self) -> bool {
        fits(self.model())
    }

    fn serialize(&self, serializer: &mut Serializer) {
        serializer.serialize_value(self);
    }
}

/// Writes values into a growing byte buffer.
pub struct Serializer {
    buffer: Vec<u8>,
    byte_order: ByteOrder,
}

impl Serializer {
    /// The bytes written so far.
    pub closed spec fn bytes(&self) -> Seq<u8> {
        self.buffer@
    }

    /// The byte order of the numeric fields written.
    pub closed spec fn order(&self) -> ByteOrder {
        self.byte_order
    }

    /// An empty serializer writing in `byte_order`.
    pub fn new(byte_order: ByteOrder) -> (r: Serializer)
        ensures
            r.bytes() == Seq::<u8>::empty(),
            r.order() == byte_order,
    {
        Serializer { buffer: Vec::new(), byte_order }
    }

    fn write_word(&mut self, w: u32)
        ensures
            final(self).bytes() == old(self).bytes() + word_bytes(w, old(self).order()),
            final(self).order() == old(self).order(),
    {
        let b = match self.byte_order {
            ByteOrder::Little => write_word_le(w),
            ByteOrder::Big => write_word_be(w),
        };
        self.buffer.push(b[0]);
        self.buffer.push(b[1]);
        self.buffer.push(b[2]);
        self.buffer.push(b[3]);
        assert(self.buffer@ =~= old(self).buffer@ + word_bytes(w, self.byte_order));
    }

    /// Writes the tag of `data_type`.
    fn write_type(&mut self, data_type: DataType)
        ensures
            final(self).bytes() == old(self).bytes().push(data_type.tag()),
            final(self).order() == old(self).order(),
    {
        self.buffer.push(data_type.to_u8());
    }

    /// Writes an `Int32`.
    pub fn serialize_int32(&mut self, value: i32)
        ensures
            final(self).bytes() == old(self).bytes() + int_field(value, old(self).order()),
            final(self).order() == old(self).order(),
    {
        self.write_type(DataType::Int32);
        self.write_word(value as u32);
        assert(self.bytes() =~= old(self).bytes() + int_field(value, self.order()));
    }

    /// Writes a `Bool`: its tag, then 1 for true and 0 for false.
    pub fn serialize_bool(&mut self, value: bool)
        ensures
            final(self).bytes() == old(self).bytes() + encode(Datum::Bool(value), old(self).order()),
            final(self).order() == old(self).order(),
    {
        self.write_type(DataType::Bool);
        self.buffer.push(if value { 1 } else { 0 });
        assert(self.bytes() =~= old(self).bytes() + encode(Datum::Bool(value), self.order()));
    }

    /// Writes a string: its tag, its byte length as an `Int32`, then its UTF-8 bytes.
    pub fn serialize_string(&mut self, value: &str)
        requires
            encode_utf8(value@).len() <= MAX_LEN,
        ensures
            final(self).bytes() == old(self).bytes() + text_field(value@, old(self).order()),
            final(self).order() == old(self).order(),
    {
        let raw = value.as_bytes();
        self.write_type(DataType::String);
        self.serialize_int32(raw.len() as i32);
        let ghost head = self.buffer@;
        let mut i: usize = 0;
        while i < raw.len()
            invariant
                i <= raw@.len(),
                self.buffer@ == head + raw@.take(i as int),
                self.byte_order == old(self).byte_order,
            decreases raw@.len() - i,
        {
            self.buffer.push(raw[i]);
            assert(raw@.take(i as int + 1) =~= raw@.take(i as int).push(raw@[i as int]));
            i = i + 1;
        }
        assert(raw@.take(i as int) =~= raw@);
        assert(self.bytes() =~= old(self).bytes() + text_field(value@, self.order()));
    }

    /// Writes a `Float` given by its IEEE-754 bit pattern.
    pub fn serialize_float(&mut self, bits: u32)
        ensures
            final(self).bytes() == old(self).bytes() + encode(Datum::Float(bits), old(self).order()),
            final(self).order() == old(self).order(),
    {
        self.write_type(DataType::Float);
        self.write_word(bits);
        assert(self.bytes() =~= old(self).bytes() + encode(Datum::Float(bits), self.order()));
    }

    /// Writes `value` and, recursively, what it holds.
    pub fn serialize_value(&mut self, value: &Value)
        requires
            fits(value.model()),
        ensures
            final(self).bytes() == old(self).bytes() + encode(value.model(), old(self).order()),
            final(self).order() == old(self).order(),
        decreases value,
    {
        let ghost order = self.byte_order;
        match value {
            Value::Int32(v) => self.serialize_int32(*v),
            Value::Bool(b) => self.serialize_bool(*b),
            Value::String(s) => self.serialize_string(s.as_str()),
            Value::Float(bits) => self.serialize_float(*bits),
            Value::Array(items) => {
                let ghost ms = value.model()->List_0;
                self.write_type(DataType::Array);
                self.serialize_int32(items.len() as i32);
                let ghost head = self.buffer@;
                let mut i: usize = 0;
                while i < items.len()
                    invariant
                        i <= items@.len(),
                        ms.len() == items@.len(),
                        forall|j: int| 0 <= j < ms.len() ==> #[trigger] ms[j] == items@[j].model(),
                        forall|j: int| 0 <= j < ms.len() ==> fits(#[trigger] ms[j]),
                        self.byte_order == order,
                        *value == Value::Array(*items),
                        self.buffer@ == head + item_parts(ms, order).take(i as int).flatten(),
                    decreases items@.len() - i,
                {
                    assert(ms[i as int] == items@[i as int].model());
                    proof {
                        vstd::std_specs::vec::axiom_vec_index_decreases(*items, i as int);
                        assert(decreases_to!(*value => value->Array_0));
                    }
                    self.serialize_value(&items[i]);
                    proof {
                        let ps = item_parts(ms, order);
                        ps.take(i as int).lemma_flatten_push(ps[i as int]);
                        assert(ps.take(i as int + 1) =~= ps.take(i as int).push(ps[i as int]));
                    }
                    i = i + 1;
                }
                assert(item_parts(ms, order).take(i as int) =~= item_parts(ms, order));
                assert(self.bytes() =~= old(self).bytes() + encode(value.model(), order));
            },
            Value::Dict(entries) => {
                let ghost ms = value.model()->Dict_0;
                self.write_type(DataType::Dict);
                self.serialize_int32(entries.len() as i32);
                let ghost head = self.buffer@;
                let mut i: usize = 0;
                while i < entries.len()
                    invariant
                        i <= entries@.len(),
                        ms.len() == entries@.len(),
                        forall|j: int|
                            0 <= j < ms.len() ==> #[trigger] ms[j] == (
                                entries@[j].0@,
                                entries@[j].1.model(),
                            ),
                        forall|j: int|
                            0 <= j < ms.len() ==> fits((#[trigger] ms[j]).1) && encode_utf8(
                                ms[j].0,
                            ).len() <= MAX_LEN,
                        self.byte_order == order,
                        *value == Value::Dict(*entries),
                        self.buffer@ == head + entry_parts(ms, order).take(i as int).flatten(),
                    decreases entries@.len() - i,
                {
                    assert(ms[i as int] == (entries@[i as int].0@, entries@[i as int].1.model()));
                    let ghost before = self.buffer@;
                    self.serialize_string(entries[i].0.as_str());
                    proof {
                        vstd::std_specs::vec::axiom_vec_index_decreases(*entries, i as int);
                        assert(decreases_to!(*value => value->Dict_0));
                        assert(decreases_to!(entries@[i as int] => entries@[i as int].1));
                    }
                    self.serialize_value(&entries[i].1);
                    proof {
                        let ps = entry_parts(ms, order);
                        assert(self.buffer@ =~= before + ps[i as int]);
                        ps.take(i as int).lemma_flatten_push(ps[i as int]);
                        assert(ps.take(i as int + 1) =~= ps.take(i as int).push(ps[i as int]));
                    }
                    i = i + 1;
                }
                assert(entry_parts(ms, order).take(i as int) =~= entry_parts(ms, order));
                assert(self.bytes() =~= old(self).bytes() + encode(value.model(), order));
            },
        }
    }

    /// Writes an array: its tag, its length as an `Int32`, then each item.
    pub fn serialize_array<T: Serialize>(&mut self, array: &[T])
        requires
            array@.len() <= MAX_LEN,
            forall|i: int| 0 <= i < array@.len() ==> (#[trigger] array@[i]).serializable(),
        ensures
            final(self).bytes() == old(self).bytes() + seq![5u8] + int_field(array@.len() as i32, old(self).order())
                + Seq::new(array@.len(), |i: int| array@[i].wire(old(self).order())).flatten(),
            final(self).order() == old(self).order(),
    {
        let ghost order = self.byte_order;
        let ghost parts = Seq::new(array@.len(), |i: int| array@[i].wire(order));
        self.write_type(DataType::Array);
        self.serialize_int32(array.len() as i32);
        let ghost head = self.buffer@;
        let mut i: usize = 0;
        while i < array.len()
            invariant
                i <= array@.len(),
                self.byte_order == order,
                forall|j: int| 0 <= j < array@.len() ==> (#[trigger] array@[j]).serializable(),
                parts == Seq::new(array@.len(), |i: int| array@[i].wire(order)),
                self.buffer@ == head + parts.take(i as int).flatten(),
            decreases array@.len() - i,
        {
            array[i].serialize(self);
            proof {
                parts.take(i as int).lemma_flatten_push(parts[i as int]);
                assert(parts.take(i as int + 1) =~= parts.take(i as int).push(parts[i as int]));
            }
            i = i + 1;
        }
        assert(parts.take(i as int) =~= parts);
        assert(self.buffer@ =~= old(self).bytes() + seq![5u8] + int_field(array@.len() as i32, order) + parts.flatten());
    }

    /// Writes a map given by its entries: its tag, its length as an `Int32`, then each key
    /// followed by its value.
    pub fn serialize_map<K: Serialize, V: Serialize>(&mut self, map: &[(K, V)])
        requires
            map@.len() <= MAX_LEN,
            forall|i: int| 0 <= i < map@.len() ==> (#[trigger] map@[i]).0.serializable() && map@[i].1.serializable(),
        ensures
            final(self).bytes() == old(self).bytes() + seq![6u8] + int_field(map@.len() as i32, old(self).order())
                + Seq::new(map@.len(), |i: int| map@[i].0.wire(old(self).order()) + map@[i].1.wire(old(self).order())).flatten(),
            final(self).order() == old(self).order(),
    {
        let ghost order = self.byte_order;
        let ghost parts = Seq::new(map@.len(), |i: int| map@[i].0.wire(order) + map@[i].1.wire(order));
        self.write_type(DataType::Dict);
        self.serialize_int32(map.len() as i32);
        let ghost head = self.buffer@;
        let mut i: usize = 0;
        while i < map.len()
            invariant
                i <= map@.len(),
                self.byte_order == order,
                forall|j: int| 0 <= j < map@.len() ==> (#[trigger] map@[j]).0.serializable() && map@[j].1.serializable(),
                parts == Seq::new(map@.len(), |i: int| map@[i].0.wire(order) + map@[i].1.wire(order)),
                self.buffer@ == head + parts.take(i as int).flatten(),
            decreases map@.len() - i,
        {
            let ghost before = self.buffer@;
            map[i].0.serialize(self);
            map[i].1.serialize(self);
            proof {
                assert(self.buffer@ =~= before + parts[i as int]);
                parts.take(i as int).lemma_flatten_push(parts[i as int]);
                assert(parts.take(i as int + 1) =~= parts.take(i as int).push(parts[i as int]));
            }
            i = i + 1;
        }
        assert(parts.take(i as int) =~= parts);
        assert(self.buffer@ =~= old(self).bytes() + seq![6u8] + int_field(map@.len() as i32, order) + parts.flatten());
    }

    /// The bytes written.
    pub fn get_buffer(self) -> (r: Vec<u8>)
        ensures
            r@ == self.bytes(),
    {
        self.buffer
    }
}


/// The encoding of `value`.
pub fn encode_value(value: &Value, order: ByteOrder) -> (r: Vec<u8>)
    requires
        fits(value.model()),
    ensures
        r@ == encode(value.model(), order),
{
    let mut s = Serializer::new(order);
    s.serialize_value(value);
    s.get_buffer()
}

/// Relies on std's `String::from_utf8`: it succeeds exactly on valid UTF-8 and then holds the
/// characters that the bytes encode.
#[verifier::external_body]
fn string_from_utf8(bytes: Vec<u8>) -> (r: Option<String>)
    ensures
        r is Some <==> valid_utf8(bytes@),
        r matches Some(s) ==> s@ == decode_utf8(bytes@),
{
    String::from_utf8(bytes).ok()
}

/// Whether the outcome of an exec read agrees with the spec reading `spec_r` of the same bytes.
pub open spec fn read_agrees<T, U>(
    r: Result<T, DecodeError>,
    spec_r: Result<(U, int), DecodeError>,
    end: int,
    model: spec_fn(T) -> U,
) -> bool {
    match spec_r {
        Ok((u, e)) => r is Ok && model(r->Ok_0) == u && end == e,
        Err(err) => r == Err::<T, DecodeError>(err),
    }
}

/// Reads values back from a byte buffer.
pub struct Deserializer<'a> {
    buffer: &'a [u8],
    position: usize,
    byte_order: ByteOrder,
}

impl<'a> Deserializer<'a> {
    /// The bytes being read.
    pub closed spec fn input(&self) -> Seq<u8> {
        self.buffer@
    }

    /// The position of the next byte to read.
    pub closed spec fn position(&self) -> int {
        self.position as int
    }

    /// The byte order of the numeric fields read.
    pub closed spec fn order(&self) -> ByteOrder {
        self.byte_order
    }

    /// A deserializer at the start of `buffer`.
    pub fn new(buffer: &'a [u8], byte_order: ByteOrder) -> (r: Deserializer<'a>)
        ensures
            r.input() == buffer@,
            r.position() == 0,
            r.order() == byte_order,
    {
        Deserializer { buffer, position: 0, byte_order }
    }

    fn read_word(&mut self) -> (r: Result<u32, DecodeError>)
        ensures
            final(self).input() == old(self).input(),
            final(self).order() == old(self).order(),
            read_agrees(r, parse_word(old(self).input(), old(self).position(), old(self).order()), final(self).position(), |w: u32| w),
    {
        if self.position <= self.buffer.len() && self.buffer.len() - self.position >= 4 {
            let w = match self.byte_order {
                ByteOrder::Little => read_word_le(self.buffer, self.position),
                ByteOrder::Big => read_word_be(self.buffer, self.position),
            };
            self.position = self.position + 4;
            Ok(w)
        } else {
            Err(DecodeError::UnexpectedEnd)
        }
    }

    /// Reads a tag byte.
    fn read_type(&mut self) -> (r: Result<DataType, DecodeError>)
        ensures
            final(self).input() == old(self).input(),
            final(self).order() == old(self).order(),
            old(self).position() >= old(self).input().len() ==> r == Err::<DataType, DecodeError>(DecodeError::UnexpectedEnd),
            old(self).position() < old(self).input().len() ==> {
                let t = old(self).input()[old(self).position()];
                &&& final(self).position() == old(self).position() + 1
                &&& (1 <= t <= 6 ==> (r matches Ok(d) && d.tag() == t))
                &&& (!(1 <= t <= 6) ==> r == Err::<DataType, DecodeError>(DecodeError::InvalidData))
            },
    {
        if self.position < self.buffer.len() {
            let t = self.buffer[self.position];
            self.position = self.position + 1;
            match DataType::from_u8(t) {
                Some(d) => Ok(d),
                None => Err(DecodeError::InvalidData),
            }
        } else {
            Err(DecodeError::UnexpectedEnd)
        }
    }

    /// Reads the four bytes of an `Int32` whose tag has been read.
    pub fn deserialize_int32(&mut self) -> (r: Result<i32, DecodeError>)
        ensures
            final(self).input() == old(self).input(),
            final(self).order() == old(self).order(),
            read_agrees(r, parse_word(old(self).input(), old(self).position(), old(self).order()), final(self).position(), |v: i32| v as u32),
    {
        match self.read_word() {
            Ok(w) => {
                proof { lemma_word_int(w); }
                Ok(w as i32)
            },
            Err(e) => Err(e),
        }
    }

    /// Reads the byte of a `Bool` whose tag has been read: true unless zero.
    pub fn deserialize_bool(&mut self) -> (r: Result<bool, DecodeError>)
        ensures
            final(self).input() == old(self).input(),
            final(self).order() == old(self).order(),
            read_agrees(r, parse_flag(old(self).input(), old(self).position()), final(self).position(), |f: bool| f),
    {
        if self.position < self.buffer.len() {
            let f = self.buffer[self.position] != 0;
            self.position = self.position + 1;
            Ok(f)
        } else {
            Err(DecodeError::UnexpectedEnd)
        }
    }

    /// Reads the bit pattern of a `Float` whose tag has been read.
    pub fn deserialize_float(&mut self) -> (r: Result<u32, DecodeError>)
        ensures
            final(self).input() == old(self).input(),
            final(self).order() == old(self).order(),
            read_agrees(r, parse_word(old(self).input(), old(self).position(), old(self).order()), final(self).position(), |w: u32| w),
    {
        self.read_word()
    }

    /// Reads a length prefix, skipping its tag byte.
    fn read_len(&mut self) -> (r: Result<usize, DecodeError>)
        ensures
            final(self).input() == old(self).input(),
            final(self).order() == old(self).order(),
            read_agrees(r, parse_len(old(self).input(), old(self).position(), old(self).order()), final(self).position(), |n: usize| n as nat),
    {
        if self.position >= self.buffer.len() {
            return Err(DecodeError::UnexpectedEnd);
        }
        self.position = self.position + 1;
        match self.read_word() {
            Ok(w) => {
                let n = w as i32;
                if n < 0 {
                    Err(DecodeError::InvalidData)
                } else {
                    Ok(n as usize)
                }
            },
            Err(e) => Err(e),
        }
    }

    /// Reads the body of a string whose tag has been read: its length, then its UTF-8 bytes.
    pub fn deserialize_string(&mut self) -> (r: Result<String, DecodeError>)
        ensures
            final(self).input() == old(self).input(),
            final(self).order() == old(self).order(),
            read_agrees(r, parse_text(old(self).input(), old(self).position(), old(self).order()), final(self).position(), |s: String| s@),
    {
        let n = match self.read_len() {
            Ok(n) => n,
            Err(e) => return Err(e),
        };
        if self.buffer.len() - self.position < n {
            return Err(DecodeError::UnexpectedEnd);
        }
        let ghost q = self.position as int;
        let mut raw: Vec<u8> = Vec::new();
        let mut i: usize = 0;
        while i < n
            invariant
                i <= n,
                q + n <= self.buffer@.len() <= usize::MAX,
                q == self.position,
                raw@ == self.buffer@.subrange(q, q + i),
            decreases n - i,
        {
            raw.push(self.buffer[self.position + i]);
            assert(raw@ =~= self.buffer@.subrange(q, q + i + 1));
            i = i + 1;
        }
        self.position = self.position + n;
        match string_from_utf8(raw) {
            Some(s) => Ok(s),
            None => Err(DecodeError::InvalidData),
        }
    }

    /// Reads the next value: its tag, then its body.
    pub fn deserialize_next(&mut self) -> (r: Result<Value, DecodeError>)
        ensures
            final(self).input() == old(self).input(),
            final(self).order() == old(self).order(),
            read_agrees(r, parse(old(self).input(), old(self).position(), old(self).order()), final(self).position(), |v: Value| v.model()),
            r is Ok ==> old(self).position() < final(self).position() <= final(self).input().len(),
        decreases self.input().len() - self.position(), 1int,
    {
        let t = match self.read_type() {
            Ok(t) => t,
            Err(e) => return Err(e),
        };
        match t {
            DataType::Int32 => match self.deserialize_int32() {
                Ok(v) => {
                    proof { lemma_int_round_trip(v); }
                    Ok(Value::Int32(v))
                },
                Err(e) => Err(e),
            },
            DataType::Bool => match self.deserialize_bool() {
                Ok(f) => Ok(Value::Bool(f)),
                Err(e) => Err(e),
            },
            DataType::String => match self.deserialize_string() {
                Ok(s) => Ok(Value::String(s)),
                Err(e) => Err(e),
            },
            DataType::Float => match self.deserialize_float() {
                Ok(bits) => Ok(Value::Float(bits)),
                Err(e) => Err(e),
            },
            DataType::Array => match self.deserialize_array() {
                Ok(items) => {
                    proof { lemma_array_model(items); }
                    Ok(Value::Array(items))
                },
                Err(e) => Err(e),
            },
            DataType::Dict => match self.deserialize_map() {
                Ok(entries) => {
                    proof { lemma_dict_model(entries); }
                    Ok(Value::Dict(entries))
                },
                Err(e) => Err(e),
            },
        }
    }

    /// Reads the body of an array whose tag has been read: its length, then that many values.
    pub fn deserialize_array(&mut self) -> (r: Result<Vec<Value>, DecodeError>)
        ensures
            final(self).input() == old(self).input(),
            final(self).order() == old(self).order(),
            read_agrees(r, parse_list(old(self).input(), old(self).position(), old(self).order()), final(self).position(), |v: Vec<Value>| models(v@)),
            r is Ok ==> old(self).position() < final(self).position() <= final(self).input().len(),
        decreases self.input().len() - self.position(), 0int,
    {
        let ghost b = self.buffer@;
        let ghost order = self.byte_order;
        let n = match self.read_len() {
            Ok(n) => n,
            Err(e) => return Err(e),
        };
        let ghost q0 = self.position as int;
        let mut items: Vec<Value> = Vec::new();
        assert(models(items@) =~= Seq::<Datum>::empty());
        let mut i: usize = 0;
        while i < n
            invariant
                self.buffer@ == b,
                b == old(self).input(),
                order == old(self).order(),
                q0 == old(self).position() + 5,
                parse_len(b, old(self).position(), order) == Ok::<(nat, int), DecodeError>((n as nat, q0)),
                self.byte_order == order,
                q0 <= self.position <= b.len(),
                i <= n,
                parse_items(b, q0, i as nat, order) == Ok::<(Seq<Datum>, int), DecodeError>((models(items@), self.position as int)),
            decreases n - i,
        {
            let ghost p = self.position as int;
            let ghost front = items@;
            match self.deserialize_next() {
                Ok(v) => {
                    items.push(v);
                    assert(models(items@) =~= models(front).push(v.model()));
                },
                Err(e) => {
                    assert(parse_items(b, q0, (i + 1) as nat, order) == Err::<(Seq<Datum>, int), DecodeError>(e));
                    proof { lemma_items_err_extends(b, q0, (i + 1) as nat, n as nat, order); }
                    return Err(e);
                },
            }
            i = i + 1;
        }
        Ok(items)
    }

    /// Reads the body of a map whose tag has been read: its length, then that many entries,
    /// each a string key and a value.
    pub fn deserialize_map(&mut self) -> (r: Result<Vec<(String, Value)>, DecodeError>)
        ensures
            final(self).input() == old(self).input(),
            final(self).order() == old(self).order(),
            read_agrees(r, parse_dict(old(self).input(), old(self).position(), old(self).order()), final(self).position(), |v: Vec<(String, Value)>| entry_models(v@)),
            r is Ok ==> old(self).position() < final(self).position() <= final(self).input().len(),
        decreases self.input().len() - self.position(), 0int,
    {
        let ghost b = self.buffer@;
        let ghost order = self.byte_order;
        let n = match self.read_len() {
            Ok(n) => n,
            Err(e) => return Err(e),
        };
        let ghost q0 = self.position as int;
        let mut entries: Vec<(String, Value)> = Vec::new();
        assert(entry_models(entries@) =~= Seq::<(Seq<char>, Datum)>::empty());
        let mut i: usize = 0;
        while i < n
            invariant
                self.buffer@ == b,
                b == old(self).input(),
                order == old(self).order(),
                q0 == old(self).position() + 5,
                parse_len(b, old(self).position(), order) == Ok::<(nat, int), DecodeError>((n as nat, q0)),
                self.byte_order == order,
                q0 <= self.position <= b.len(),
                i <= n,
                parse_entries(b, q0, i as nat, order) == Ok::<(Seq<(Seq<char>, Datum)>, int), DecodeError>((entry_models(entries@), self.position as int)),
            decreases n - i,
        {
            let ghost front = entries@;
            let ghost p = self.position as int;
            let key = match self.deserialize_next() {
                Ok(Value::String(k)) => k,
                Ok(_) => {
                    assert(parse_entries(b, q0, (i + 1) as nat, order) == Err::<(Seq<(Seq<char>, Datum)>, int), DecodeError>(DecodeError::InvalidData));
                    proof { lemma_entries_err_extends(b, q0, (i + 1) as nat, n as nat, order); }
                    return Err(DecodeError::InvalidData);
                },
                Err(e) => {
                    assert(parse_entries(b, q0, (i + 1) as nat, order) == Err::<(Seq<(Seq<char>, Datum)>, int), DecodeError>(e));
                    proof { lemma_entries_err_extends(b, q0, (i + 1) as nat, n as nat, order); }
                    return Err(e);
                },
            };
            match self.deserialize_next() {
                Ok(v) => {
                    entries.push((key, v));
                    assert(entry_models(entries@) =~= entry_models(front).push((key@, v.model())));
                },
                Err(e) => {
                    assert(parse_entries(b, q0, (i + 1) as nat, order) == Err::<(Seq<(Seq<char>, Datum)>, int), DecodeError>(e));
                    proof { lemma_entries_err_extends(b, q0, (i + 1) as nat, n as nat, order); }
                    return Err(e);
                },
            }
            i = i + 1;
        }
        Ok(entries)
    }
}


/// A piece of a piece of `b` is a piece of `b`.
proof fn lemma_slice(b: Seq<u8>, p: int, s: Seq<u8>, i: int, j: int)
    requires
        0 <= p,
        p + s.len() <= b.len(),
        b.subrange(p, p + s.len()) == s,
        0 <= i <= j <= s.len(),
    ensures
        b.subrange(p + i, p + j) == s.subrange(i, j),
{
    assert(b.subrange(p + i, p + j) =~= b.subrange(p, p + s.len()).subrange(i, j));
}

/// A length prefix written at `p` reads back unchanged.
proof fn lemma_parse_len(b: Seq<u8>, p: int, n: nat, order: ByteOrder)
    requires
        n <= MAX_LEN,
        0 <= p,
        p + 5 <= b.len(),
        b.subrange(p, p + 5) == int_field(n as i32, order),
    ensures
        parse_len(b, p, order) == Ok::<(nat, int), DecodeError>((n, p + 5)),
{
    lemma_slice(b, p, int_field(n as i32, order), 1, 5);
    assert(int_field(n as i32, order).subrange(1, 5) =~= word_bytes((n as i32) as u32, order));
    lemma_word_round_trip(b, p + 1, (n as i32) as u32, order);
    lemma_int_round_trip(n as i32);
}

/// A string written at `p` reads back unchanged.
proof fn lemma_parse_text(b: Seq<u8>, p: int, s: Seq<char>, order: ByteOrder)
    requires
        encode_utf8(s).len() <= MAX_LEN,
        0 <= p,
        p + text_field(s, order).len() <= b.len(),
        b.subrange(p, p + text_field(s, order).len()) == text_field(s, order),
    ensures
        parse(b, p, order) == Ok::<(Datum, int), DecodeError>((Datum::Text(s), p + text_field(s, order).len())),
{
    broadcast use vstd::utf8::encode_utf8_valid_utf8, vstd::utf8::encode_utf8_decode_utf8;

    let u = encode_utf8(s);
    let t = text_field(s, order);
    assert(b[p] == t[0]);
    lemma_slice(b, p, t, 1, 6);
    assert(t.subrange(1, 6) =~= int_field(u.len() as i32, order));
    lemma_parse_len(b, p + 1, u.len(), order);
    lemma_slice(b, p, t, 6, t.len() as int);
    assert(t.subrange(6, t.len() as int) =~= u);
}

/// Reading the encoding of `d` where it stands in `b` gives `d` back and stops right after it.
#[verifier::rlimit(60)]
pub proof fn lemma_parse_encode(b: Seq<u8>, p: int, d: Datum, order: ByteOrder)
    requires
        fits(d),
        0 <= p,
        p + encode(d, order).len() <= b.len(),
        b.subrange(p, p + encode(d, order).len()) == encode(d, order),
    ensures
        parse(b, p, order) == Ok::<(Datum, int), DecodeError>((d, p + encode(d, order).len())),
    decreases d, 0nat,
{
    let e = encode(d, order);
    assert(b[p] == e[0]);
    match d {
        Datum::Int(v) => {
            lemma_slice(b, p, e, 1, 5);
            assert(e.subrange(1, 5) =~= word_bytes(v as u32, order));
            lemma_word_round_trip(b, p + 1, v as u32, order);
            lemma_int_round_trip(v);
        },
        Datum::Bool(f) => {
            assert(b[p + 1] == e[1]);
        },
        Datum::Text(s) => {
            lemma_parse_text(b, p, s, order);
        },
        Datum::Float(bits) => {
            lemma_slice(b, p, e, 1, 5);
            assert(e.subrange(1, 5) =~= word_bytes(bits, order));
            lemma_word_round_trip(b, p + 1, bits, order);
        },
        Datum::List(items) => {
            let body = item_parts(items, order).flatten();
            lemma_slice(b, p, e, 1, 6);
            assert(e.subrange(1, 6) =~= int_field(items.len() as i32, order));
            lemma_parse_len(b, p + 1, items.len(), order);
            assert(item_parts(items, order).take(items.len() as int) =~= item_parts(items, order));
            lemma_slice(b, p, e, 6, e.len() as int);
            assert(e.subrange(6, e.len() as int) =~= body);
            lemma_parse_items(b, p + 6, items, items.len(), order);
            assert(items.take(items.len() as int) =~= items);
        },
        Datum::Dict(entries) => {
            let body = entry_parts(entries, order).flatten();
            lemma_slice(b, p, e, 1, 6);
            assert(e.subrange(1, 6) =~= int_field(entries.len() as i32, order));
            lemma_parse_len(b, p + 1, entries.len(), order);
            assert(entry_parts(entries, order).take(entries.len() as int) =~= entry_parts(entries, order));
            lemma_slice(b, p, e, 6, e.len() as int);
            assert(e.subrange(6, e.len() as int) =~= body);
            lemma_parse_entries(b, p + 6, entries, entries.len(), order);
            assert(entries.take(entries.len() as int) =~= entries);
        },
    }
}

#[verifier::rlimit(60)]
proof fn lemma_parse_items(b: Seq<u8>, q: int, items: Seq<Datum>, k: nat, order: ByteOrder)
    requires
        k <= items.len(),
        forall|i: int| 0 <= i < items.len() ==> fits(#[trigger] items[i]),
        0 <= q,
        q + item_parts(items, order).take(k as int).flatten().len() <= b.len(),
        b.subrange(q, q + item_parts(items, order).take(k as int).flatten().len())
            == item_parts(items, order).take(k as int).flatten(),
    ensures
        parse_items(b, q, k, order) == Ok::<(Seq<Datum>, int), DecodeError>(
            (items.take(k as int), q + item_parts(items, order).take(k as int).flatten().len()),
        ),
    decreases items, k,
{
    let ps = item_parts(items, order);
    if k == 0 {
        assert(ps.take(0) =~= Seq::<Seq<u8>>::empty());
        assert(items.take(0) =~= Seq::<Datum>::empty());
    } else {
        let j = k - 1;
        let front = ps.take(j).flatten();
        let last = ps[j];
        ps.take(j).lemma_flatten_push(last);
        assert(ps.take(k as int) =~= ps.take(j).push(last));
        let all = ps.take(k as int).flatten();
        assert(all == front + last);
        lemma_slice(b, q, all, 0, front.len() as int);
        assert(all.subrange(0, front.len() as int) =~= front);
        lemma_parse_items(b, q, items, j as nat, order);
        let p = q + front.len();
        assert(last == encode(items[j], order));
        lemma_slice(b, q, all, front.len() as int, all.len() as int);
        assert(all.subrange(front.len() as int, all.len() as int) =~= last);
        assert(decreases_to!(items => items[j]));
        lemma_parse_encode(b, p, items[j], order);
        assert(items.take(k as int) =~= items.take(j).push(items[j]));
    }
}

#[verifier::rlimit(60)]
proof fn lemma_parse_entries(b: Seq<u8>, q: int, entries: Seq<(Seq<char>, Datum)>, k: nat, order: ByteOrder)
    requires
        k <= entries.len(),
        forall|i: int| 0 <= i < entries.len() ==> encode_utf8((#[trigger] entries[i]).0).len() <= MAX_LEN && fits(entries[i].1),
        0 <= q,
        q + entry_parts(entries, order).take(k as int).flatten().len() <= b.len(),
        b.subrange(q, q + entry_parts(entries, order).take(k as int).flatten().len())
            == entry_parts(entries, order).take(k as int).flatten(),
    ensures
        parse_entries(b, q, k, order) == Ok::<(Seq<(Seq<char>, Datum)>, int), DecodeError>(
            (entries.take(k as int), q + entry_parts(entries, order).take(k as int).flatten().len()),
        ),
    decreases entries, k,
{
    let ps = entry_parts(entries, order);
    if k == 0 {
        assert(ps.take(0) =~= Seq::<Seq<u8>>::empty());
        assert(entries.take(0) =~= Seq::<(Seq<char>, Datum)>::empty());
    } else {
        let j = k - 1;
        let front = ps.take(j).flatten();
        let last = ps[j];
        ps.take(j).lemma_flatten_push(last);
        assert(ps.take(k as int) =~= ps.take(j).push(last));
        let all = ps.take(k as int).flatten();
        assert(all == front + last);
        lemma_slice(b, q, all, 0, front.len() as int);
        assert(all.subrange(0, front.len() as int) =~= front);
        lemma_parse_entries(b, q, entries, j as nat, order);
        let p = q + front.len();
        let kt = text_field(entries[j].0, order);
        let vt = encode(entries[j].1, order);
        assert(last == kt + vt);
        lemma_slice(b, q, all, front.len() as int, (front.len() + kt.len()) as int);
        assert(all.subrange(front.len() as int, (front.len() + kt.len()) as int) =~= kt);
        lemma_parse_text(b, p, entries[j].0, order);
        let r = p + kt.len();
        lemma_slice(b, q, all, (front.len() + kt.len()) as int, all.len() as int);
        assert(all.subrange((front.len() + kt.len()) as int, all.len() as int) =~= vt);
        assert(decreases_to!(entries => entries[j]));
        assert(decreases_to!(entries[j] => entries[j].1));
        lemma_parse_encode(b, r, entries[j].1, order);
        assert(entries.take(k as int) =~= entries.take(j).push(entries[j]));
    }
}

/// Decoding the encoding of any datum whose lengths fit their prefixes gives that datum back
/// and consumes exactly its encoding, whatever follows it.
pub proof fn lemma_decode_encode(d: Datum, order: ByteOrder, rest: Seq<u8>)
    requires
        fits(d),
    ensures
        parse(encode(d, order) + rest, 0, order) == Ok::<(Datum, int), DecodeError>((d, encode(d, order).len() as int)),
{
    let b = encode(d, order) + rest;
    assert(b.subrange(0, encode(d, order).len() as int) =~= encode(d, order));
    lemma_parse_encode(b, 0, d, order);
}

/// Decoding what `encode_value` writes for `v` gives back a value with the same content:
/// arrays in order, and map entries with their keys and values in order.
pub proof fn lemma_value_round_trip(v: Value, order: ByteOrder)
    requires
        fits(v.model()),
    ensures
        parse(encode(v.model(), order), 0, order) == Ok::<(Datum, int), DecodeError>((v.model(), encode(v.model(), order).len() as int)),
{
    lemma_decode_encode(v.model(), order, Seq::empty());
    assert(encode(v.model(), order) + Seq::<u8>::empty() =~= encode(v.model(), order));
}

/// Decodes the value that `bytes` starts with; what follows it is not read.
pub fn decode_value(bytes: &[u8], order: ByteOrder) -> (r: Result<Value, DecodeError>)
    ensures
        match parse(bytes@, 0, order) {
            Ok((d, _)) => r matches Ok(v) && v.model() == d,
            Err(e) => r == Err::<Value, DecodeError>(e),
        },
{
    let mut d = Deserializer::new(bytes, order);
    d.deserialize_next()
}

} // verus!
