//! The wire format's building blocks: little-endian variable-length
//! integers, flags, optional values and length-prefixed sequences, each with
//! its byte-level meaning and a proof that decoding undoes encoding.

use vstd::prelude::*;

verus! {

/// Why a message could not be encoded.
#[derive(Copy, Clone, Debug, PartialEq, Eq, Structural)]
pub enum EncodeFailure {
    /// The buffer is too small for the message.
    UnexpectedEnd,
}

/// Why bytes could not be decoded.
#[derive(Copy, Clone, Debug, PartialEq, Eq, Structural)]
pub enum DecodeFailure {
    /// The input ended before the value did.
    UnexpectedEnd,
    /// An integer is marked as wider than the type it is read into.
    InvalidIntegerType,
    /// A flag byte is neither 0 nor 1.
    InvalidBooleanValue,
    /// A variant tag names no variant of the type.
    UnexpectedVariant,
    /// A fixed-length array is announced with another length.
    ArrayLengthMismatch,
    /// A length does not fit the machine's address range.
    OutsideUsizeRange,
}

/// Makes `bincode::error::EncodeError` known as a type whose inside is not
/// looked at.
#[verifier::external_type_specification]
#[verifier::external_body]
pub struct ExOutsideEncodeError(bincode::error::EncodeError);

/// Makes `bincode::error::DecodeError` known as a type whose inside is not
/// looked at.
#[verifier::external_type_specification]
#[verifier::external_body]
pub struct ExOutsideDecodeError(bincode::error::DecodeError);

/// Largest value that is written as a single byte.
pub const SINGLE_BYTE_MAX: u8 = 250;

/// Marker byte in front of a two-byte integer.
pub const U16_BYTE: u8 = 251;

/// Marker byte in front of a four-byte integer.
pub const U32_BYTE: u8 = 252;

/// Marker byte in front of an eight-byte integer.
pub const U64_BYTE: u8 = 253;

/// The `n` low bytes of `value`, least significant first.
pub open spec fn le_bytes(value: nat, n: nat) -> Seq<u8>
    decreases n,
{
    if n == 0 {
        Seq::empty()
    } else {
        seq![(value % 256) as u8] + le_bytes(value / 256, (n - 1) as nat)
    }
}

/// The number whose bytes, least significant first, are `bytes`.
pub open spec fn le_value(bytes: Seq<u8>) -> nat
    decreases bytes.len(),
{
    if bytes.len() == 0 {
        0
    } else {
        bytes[0] as nat + 256 * le_value(bytes.skip(1))
    }
}

/// Number of values that `n` bytes can tell apart.
pub open spec fn span(n: nat) -> nat
    decreases n,
{
    if n == 0 {
        1
    } else {
        256 * span((n - 1) as nat)
    }
}

/// The variable-length encoding of an unsigned integer: values up to 250 as
/// one byte, wider ones as a marker and the fewest of 2, 4 or 8 bytes that
/// hold them, least significant byte first.
pub open spec fn varint(value: u64) -> Seq<u8> {
    if value <= SINGLE_BYTE_MAX {
        seq![value as u8]
    } else if value <= u16::MAX {
        seq![U16_BYTE] + le_bytes(value as nat, 2)
    } else if value <= u32::MAX {
        seq![U32_BYTE] + le_bytes(value as nat, 4)
    } else {
        seq![U64_BYTE] + le_bytes(value as nat, 8)
    }
}

/// Number of payload bytes that follow marker byte `marker`.
pub open spec fn marker_width(marker: u8) -> nat {
    if marker == U16_BYTE {
        2
    } else if marker == U32_BYTE {
        4
    } else {
        8
    }
}

/// The integer at the front of `bytes` and the number of bytes it takes,
/// for a reader that accepts markers up to `widest`. `None` where the
/// marker is wider than that or the bytes run out.
pub open spec fn parse_varint(bytes: Seq<u8>, widest: u8) -> Option<(nat, int)> {
    if bytes.len() == 0 {
        None
    } else if bytes[0] <= SINGLE_BYTE_MAX {
        Some((bytes[0] as nat, 1))
    } else if bytes[0] > widest {
        None
    } else if bytes.len() < 1 + marker_width(bytes[0]) {
        None
    } else {
        Some(
            (
                le_value(bytes.subrange(1, 1 + marker_width(bytes[0]) as int)),
                1 + marker_width(bytes[0]) as int,
            ),
        )
    }
}

/// Why `parse_varint` found no integer at the front of `bytes`.
pub open spec fn varint_failure(bytes: Seq<u8>, widest: u8) -> DecodeFailure {
    if bytes.len() > 0 && bytes[0] > widest {
        DecodeFailure::InvalidIntegerType
    } else {
        DecodeFailure::UnexpectedEnd
    }
}

/// The `n` low bytes of a value are `n` bytes.
pub proof fn lemma_le_bytes_len(value: nat, n: nat)
    ensures
        le_bytes(value, n).len() == n,
    decreases n,
{
    if n > 0 {
        lemma_le_bytes_len(value / 256, (n - 1) as nat);
    }
}

/// Reading back the bytes of a value that fits gives the value.
pub proof fn lemma_le_round_trip(value: nat, n: nat)
    requires
        value < span(n),
    ensures
        le_value(le_bytes(value, n)) == value,
        le_bytes(value, n).len() == n,
    decreases n,
{
    lemma_le_bytes_len(value, n);
    if n > 0 {
        let rest = le_bytes(value / 256, (n - 1) as nat);
        lemma_le_round_trip(value / 256, (n - 1) as nat);
        assert(le_bytes(value, n).skip(1) =~= rest);
    }
}

/// A value read from `n` bytes fits in `n` bytes.
pub proof fn lemma_le_value_bound(bytes: Seq<u8>)
    ensures
        le_value(bytes) < span(bytes.len()),
    decreases bytes.len(),
{
    if bytes.len() > 0 {
        lemma_le_value_bound(bytes.skip(1));
    }
}

/// How many values two, four and eight bytes tell apart.
pub proof fn lemma_spans()
    ensures
        span(2) == 0x1_0000,
        span(4) == 0x1_0000_0000,
        span(8) == 0x1_0000_0000_0000_0000,
{
    reveal_with_fuel(span, 9);
}

/// Decoding undoes the variable-length encoding, whatever follows it, for
/// every reader wide enough for the value.
pub proof fn lemma_varint_round_trip(value: u64, widest: u8, rest: Seq<u8>)
    requires
        widest == U16_BYTE || widest == U32_BYTE || widest == U64_BYTE,
        widest == U16_BYTE ==> value <= u16::MAX,
        widest == U32_BYTE ==> value <= u32::MAX,
    ensures
        parse_varint(varint(value) + rest, widest) == Some((value as nat, varint(value).len() as int)),
        1 <= varint(value).len() <= 9,
{
    lemma_spans();
    let bytes = varint(value) + rest;
    if value > SINGLE_BYTE_MAX {
        let n = marker_width(bytes[0]);
        lemma_le_round_trip(value as nat, n);
        assert(bytes.subrange(1, 1 + n as int) =~= le_bytes(value as nat, n));
    }
}

/// What `parse_varint` finds is bounded by the reader's width and by the
/// input's length.
pub proof fn lemma_parse_varint_bounds(bytes: Seq<u8>, widest: u8)
    requires
        widest == U16_BYTE || widest == U32_BYTE || widest == U64_BYTE,
    ensures
        parse_varint(bytes, widest) matches Some((value, used)) ==> {
            &&& 1 <= used <= bytes.len()
            &&& used <= 9
            &&& value <= u64::MAX
            &&& widest == U16_BYTE ==> value <= u16::MAX
            &&& widest == U32_BYTE ==> value <= u32::MAX
        },
{
    lemma_spans();
    if parse_varint(bytes, widest) is Some && bytes[0] > SINGLE_BYTE_MAX {
        lemma_le_value_bound(bytes.subrange(1, 1 + marker_width(bytes[0]) as int));
    }
}

/// Calls `bincode::encode_to_vec` on a `u64` with the standard
/// configuration (little-endian, variable-length integers, no size limit).
/// The contract claims that the call succeeds, since a vector never runs
/// out of room, and yields exactly the bytes of `varint`.
#[verifier::external_body]
fn varint_bytes(value: u64) -> (encoded: Result<Vec<u8>, bincode::error::EncodeError>)
    ensures
        encoded is Ok,
        encoded matches Ok(b) ==> b@ == varint(value),
{
    bincode::encode_to_vec(value, bincode::config::standard())
}

/// Calls `bincode::decode_from_slice` for a `u64` on the bytes of `src`
/// from `at` on, with the standard configuration. The contract claims that
/// the call yields the integer and byte count of `parse_varint` for markers
/// up to the eight-byte one, and fails where `parse_varint` finds nothing.
#[verifier::external_body]
fn varint_u64_at(src: &[u8], at: usize) -> (found: Result<
    (u64, usize),
    bincode::error::DecodeError,
>)
    requires
        at <= src.len(),
    ensures
        found is Ok <==> parse_varint(src@.skip(at as int), U64_BYTE) is Some,
        found matches Ok((v, n)) ==> parse_varint(src@.skip(at as int), U64_BYTE) == Some(
            (v as nat, n as int),
        ),
{
    bincode::decode_from_slice(&src[at..], bincode::config::standard())
}

/// Calls `bincode::decode_from_slice` for a `u32` on the bytes of `src`
/// from `at` on, with the standard configuration. The contract claims that
/// the call yields the integer and byte count of `parse_varint` for markers
/// up to the four-byte one, and fails where `parse_varint` finds nothing.
#[verifier::external_body]
fn varint_u32_at(src: &[u8], at: usize) -> (found: Result<
    (u32, usize),
    bincode::error::DecodeError,
>)
    requires
        at <= src.len(),
    ensures
        found is Ok <==> parse_varint(src@.skip(at as int), U32_BYTE) is Some,
        found matches Ok((v, n)) ==> parse_varint(src@.skip(at as int), U32_BYTE) == Some(
            (v as nat, n as int),
        ),
{
    bincode::decode_from_slice(&src[at..], bincode::config::standard())
}

/// Calls `bincode::decode_from_slice` for a `u16` on the bytes of `src`
/// from `at` on, with the standard configuration. The contract claims that
/// the call yields the integer and byte count of `parse_varint` for markers
/// up to the two-byte one, and fails where `parse_varint` finds nothing.
#[verifier::external_body]
fn varint_u16_at(src: &[u8], at: usize) -> (found: Result<
    (u16, usize),
    bincode::error::DecodeError,
>)
    requires
        at <= src.len(),
    ensures
        found is Ok <==> parse_varint(src@.skip(at as int), U16_BYTE) is Some,
        found matches Ok((v, n)) ==> parse_varint(src@.skip(at as int), U16_BYTE) == Some(
            (v as nat, n as int),
        ),
{
    bincode::decode_from_slice(&src[at..], bincode::config::standard())
}

/// The error for an integer that could not be read at `at`.
fn classify_varint_failure(src: &[u8], at: usize, widest: u8) -> (error: DecodeFailure)
    requires
        at <= src.len(),
    ensures
        error == varint_failure(src@.skip(at as int), widest),
{
    if at < src.len() && src[at] > widest {
        DecodeFailure::InvalidIntegerType
    } else {
        DecodeFailure::UnexpectedEnd
    }
}

/// A value with a place in the wire format.
pub trait Wire: Sized {
    /// The mathematical content of a value.
    type Model;

    /// The content of this value.
    spec fn model(&self) -> Self::Model;

    /// The bytes that stand for a value.
    spec fn wire(m: Self::Model) -> Seq<u8>;

    /// The value at the front of `bytes` and the number of bytes it takes,
    /// or the reason why there is none.
    spec fn parse(bytes: Seq<u8>) -> Result<(Self::Model, int), DecodeFailure>;

    /// Whether `m` is the content of some value: its lengths fit the
    /// machine.
    spec fn fits(m: Self::Model) -> bool;

    /// The content of a value fits.
    proof fn lemma_fits(&self)
        ensures
            Self::fits(self.model()),
    ;

    /// Decoding undoes encoding, whatever follows the encoded value.
    proof fn lemma_round_trip(m: Self::Model, rest: Seq<u8>)
        requires
            Self::fits(m),
        ensures
            Self::parse(Self::wire(m) + rest) == Ok::<(Self::Model, int), DecodeFailure>(
                (m, Self::wire(m).len() as int),
            ),
    ;

    /// A decoded value takes at least one byte and no more than there are.
    proof fn lemma_parse_bounds(bytes: Seq<u8>)
        ensures
            Self::parse(bytes) matches Ok((_, used)) ==> 1 <= used <= bytes.len(),
    ;

    /// Appends the bytes of this value to `out`.
    fn encode(&self, out: &mut Vec<u8>)
        ensures
            final(out)@ == old(out)@ + Self::wire(self.model()),
    ;

    /// Reads a value from `src` at `at`; on success also hands back the
    /// place behind it.
    fn decode(src: &[u8], at: usize) -> (found: Result<(Self, usize), DecodeFailure>)
        requires
            at <= src.len(),
        ensures
            match Self::parse(src@.skip(at as int)) {
                Ok((m, used)) => found matches Ok((value, end)) && value.model() == m && end == at
                    + used && end <= src.len(),
                Err(error) => found == Err::<(Self, usize), DecodeFailure>(error),
            },
    ;
}

impl Wire for u64 {
    type Model = u64;

    open spec fn model(&self) -> u64 {
        *self
    }

    open spec fn wire(m: u64) -> Seq<u8> {
        varint(m)
    }

    open spec fn parse(bytes: Seq<u8>) -> Result<(u64, int), DecodeFailure> {
        match parse_varint(bytes, U64_BYTE) {
            Some((value, used)) => Ok((value as u64, used)),
            None => Err(varint_failure(bytes, U64_BYTE)),
        }
    }

    open spec fn fits(m: u64) -> bool {
        true
    }

    proof fn lemma_fits(&self) {
    }

    proof fn lemma_round_trip(m: u64, rest: Seq<u8>) {
        lemma_varint_round_trip(m, U64_BYTE, rest);
    }

    proof fn lemma_parse_bounds(bytes: Seq<u8>) {
        lemma_parse_varint_bounds(bytes, U64_BYTE);
    }

    fn encode(&self, out: &mut Vec<u8>) {
        match varint_bytes(*self) {
            Ok(mut bytes) => {
                out.append(&mut bytes);
            },
            Err(_) => {},
        }
    }

    fn decode(src: &[u8], at: usize) -> (found: Result<(u64, usize), DecodeFailure>) {
        proof {
            lemma_parse_varint_bounds(src@.skip(at as int), U64_BYTE);
        }
        match varint_u64_at(src, at) {
            Ok((value, used)) => Ok((value, at + used)),
            Err(_) => Err(classify_varint_failure(src, at, U64_BYTE)),
        }
    }
}

impl Wire for u32 {
    type Model = u32;

    open spec fn model(&self) -> u32 {
        *self
    }

    open spec fn wire(m: u32) -> Seq<u8> {
        varint(m as u64)
    }

    open spec fn parse(bytes: Seq<u8>) -> Result<(u32, int), DecodeFailure> {
        match parse_varint(bytes, U32_BYTE) {
            Some((value, used)) => Ok((value as u32, used)),
            None => Err(varint_failure(bytes, U32_BYTE)),
        }
    }

    open spec fn fits(m: u32) -> bool {
        true
    }

    proof fn lemma_fits(&self) {
    }

    proof fn lemma_round_trip(m: u32, rest: Seq<u8>) {
        lemma_varint_round_trip(m as u64, U32_BYTE, rest);
    }

    proof fn lemma_parse_bounds(bytes: Seq<u8>) {
        lemma_parse_varint_bounds(bytes, U32_BYTE);
    }

    fn encode(&self, out: &mut Vec<u8>) {
        let wide: u64 = *self as u64;
        wide.encode(out);
    }

    fn decode(src: &[u8], at: usize) -> (found: Result<(u32, usize), DecodeFailure>) {
        proof {
            lemma_parse_varint_bounds(src@.skip(at as int), U32_BYTE);
        }
        match varint_u32_at(src, at) {
            Ok((value, used)) => Ok((value, at + used)),
            Err(_) => Err(classify_varint_failure(src, at, U32_BYTE)),
        }
    }
}

impl Wire for u16 {
    type Model = u16;

    open spec fn model(&self) -> u16 {
        *self
    }

    open spec fn wire(m: u16) -> Seq<u8> {
        varint(m as u64)
    }

    open spec fn parse(bytes: Seq<u8>) -> Result<(u16, int), DecodeFailure> {
        match parse_varint(bytes, U16_BYTE) {
            Some((value, used)) => Ok((value as u16, used)),
            None => Err(varint_failure(bytes, U16_BYTE)),
        }
    }

    open spec fn fits(m: u16) -> bool {
        true
    }

    proof fn lemma_fits(&self) {
    }

    proof fn lemma_round_trip(m: u16, rest: Seq<u8>) {
        lemma_varint_round_trip(m as u64, U16_BYTE, rest);
    }

    proof fn lemma_parse_bounds(bytes: Seq<u8>) {
        lemma_parse_varint_bounds(bytes, U16_BYTE);
    }

    fn encode(&self, out: &mut Vec<u8>) {
        let wide: u64 = *self as u64;
        wide.encode(out);
    }

    fn decode(src: &[u8], at: usize) -> (found: Result<(u16, usize), DecodeFailure>) {
        proof {
            lemma_parse_varint_bounds(src@.skip(at as int), U16_BYTE);
        }
        match varint_u16_at(src, at) {
            Ok((value, used)) => Ok((value, at + used)),
            Err(_) => Err(classify_varint_failure(src, at, U16_BYTE)),
        }
    }
}

impl Wire for usize {
    type Model = usize;

    open spec fn model(&self) -> usize {
        *self
    }

    open spec fn wire(m: usize) -> Seq<u8> {
        varint(m as u64)
    }

    open spec fn parse(bytes: Seq<u8>) -> Result<(usize, int), DecodeFailure> {
        match parse_varint(bytes, U64_BYTE) {
            Some((value, used)) => if value <= usize::MAX {
                Ok((value as usize, used))
            } else {
                Err(DecodeFailure::OutsideUsizeRange)
            },
            None => Err(varint_failure(bytes, U64_BYTE)),
        }
    }

    open spec fn fits(m: usize) -> bool {
        true
    }

    proof fn lemma_fits(&self) {
    }

    proof fn lemma_round_trip(m: usize, rest: Seq<u8>) {
        lemma_varint_round_trip(m as u64, U64_BYTE, rest);
    }

    proof fn lemma_parse_bounds(bytes: Seq<u8>) {
        lemma_parse_varint_bounds(bytes, U64_BYTE);
    }

    fn encode(&self, out: &mut Vec<u8>) {
        let wide: u64 = *self as u64;
        wide.encode(out);
    }

    fn decode(src: &[u8], at: usize) -> (found: Result<(usize, usize), DecodeFailure>) {
        proof {
            lemma_parse_varint_bounds(src@.skip(at as int), U64_BYTE);
        }
        match u64::decode(src, at) {
            Ok((value, end)) => {
                if value <= usize::MAX as u64 {
                    Ok((value as usize, end))
                } else {
                    Err(DecodeFailure::OutsideUsizeRange)
                }
            },
            Err(error) => Err(error),
        }
    }
}

impl Wire for bool {
    type Model = bool;

    open spec fn model(&self) -> bool {
        *self
    }

    open spec fn wire(m: bool) -> Seq<u8> {
        if m {
            seq![1u8]
        } else {
            seq![0u8]
        }
    }

    open spec fn parse(bytes: Seq<u8>) -> Result<(bool, int), DecodeFailure> {
        if bytes.len() == 0 {
            Err(DecodeFailure::UnexpectedEnd)
        } else if bytes[0] == 0 {
            Ok((false, 1))
        } else if bytes[0] == 1 {
            Ok((true, 1))
        } else {
            Err(DecodeFailure::InvalidBooleanValue)
        }
    }

    open spec fn fits(m: bool) -> bool {
        true
    }

    proof fn lemma_fits(&self) {
    }

    proof fn lemma_round_trip(m: bool, rest: Seq<u8>) {
    }

    proof fn lemma_parse_bounds(bytes: Seq<u8>) {
    }

    fn encode(&self, out: &mut Vec<u8>) {
        if *self {
            out.push(1u8);
        } else {
            out.push(0u8);
        }
    }

    fn decode(src: &[u8], at: usize) -> (found: Result<(bool, usize), DecodeFailure>) {
        if at >= src.len() {
            Err(DecodeFailure::UnexpectedEnd)
        } else if src[at] == 0 {
            Ok((false, at + 1))
        } else if src[at] == 1 {
            Ok((true, at + 1))
        } else {
            Err(DecodeFailure::InvalidBooleanValue)
        }
    }
}

impl<T: Wire> Wire for Option<T> {
    type Model = Option<T::Model>;

    open spec fn model(&self) -> Option<T::Model> {
        match self {
            Some(value) => Some(value.model()),
            None => None,
        }
    }

    open spec fn wire(m: Option<T::Model>) -> Seq<u8> {
        match m {
            Some(value) => seq![1u8] + T::wire(value),
            None => seq![0u8],
        }
    }

    open spec fn parse(bytes: Seq<u8>) -> Result<(Option<T::Model>, int), DecodeFailure> {
        if bytes.len() == 0 {
            Err(DecodeFailure::UnexpectedEnd)
        } else if bytes[0] == 0 {
            Ok((None, 1))
        } else if bytes[0] == 1 {
            match T::parse(bytes.skip(1)) {
                Ok((value, used)) => Ok((Some(value), 1 + used)),
                Err(error) => Err(error),
            }
        } else {
            Err(DecodeFailure::UnexpectedVariant)
        }
    }

    open spec fn fits(m: Option<T::Model>) -> bool {
        match m {
            Some(value) => T::fits(value),
            None => true,
        }
    }

    proof fn lemma_fits(&self) {
        match self {
            Some(value) => {
                value.lemma_fits();
            },
            None => {},
        }
    }

    proof fn lemma_round_trip(m: Option<T::Model>, rest: Seq<u8>) {
        match m {
            Some(value) => {
                T::lemma_round_trip(value, rest);
                assert((Self::wire(m) + rest).skip(1) =~= T::wire(value) + rest);
            },
            None => {},
        }
    }

    proof fn lemma_parse_bounds(bytes: Seq<u8>) {
        if bytes.len() > 0 && bytes[0] == 1 {
            T::lemma_parse_bounds(bytes.skip(1));
        }
    }

    fn encode(&self, out: &mut Vec<u8>) {
        match self {
            Some(value) => {
                out.push(1u8);
                value.encode(out);
            },
            None => {
                out.push(0u8);
            },
        }
    }

    fn decode(src: &[u8], at: usize) -> (found: Result<(Option<T>, usize), DecodeFailure>) {
        if at >= src.len() {
            Err(DecodeFailure::UnexpectedEnd)
        } else if src[at] == 0 {
            Ok((None, at + 1))
        } else if src[at] == 1 {
            assert(src@.skip(at as int).skip(1) =~= src@.skip(at + 1));
            match T::decode(src, at + 1) {
                Ok((value, end)) => Ok((Some(value), end)),
                Err(error) => Err(error),
            }
        } else {
            Err(DecodeFailure::UnexpectedVariant)
        }
    }
}

/// The bytes of a run of values, one after the other.
pub open spec fn wire_all<T: Wire>(items: Seq<T::Model>) -> Seq<u8>
    decreases items.len(),
{
    if items.len() == 0 {
        Seq::empty()
    } else {
        wire_all::<T>(items.drop_last()) + T::wire(items.last())
    }
}

/// The first `count` values at the front of `bytes` and the number of bytes
/// they take, or the reason why the first one that cannot be read cannot.
pub open spec fn parse_all<T: Wire>(bytes: Seq<u8>, count: nat) -> Result<
    (Seq<T::Model>, int),
    DecodeFailure,
>
    decreases count,
{
    if count == 0 {
        Ok((Seq::empty(), 0))
    } else {
        match parse_all::<T>(bytes, (count - 1) as nat) {
            Err(error) => Err(error),
            Ok((items, used)) => match T::parse(bytes.skip(used)) {
                Err(error) => Err(error),
                Ok((item, more)) => Ok((items.push(item), used + more)),
            },
        }
    }
}

/// Whether each of `items` fits.
pub open spec fn all_fit<T: Wire>(items: Seq<T::Model>) -> bool {
    forall|i: int| 0 <= i < items.len() ==> T::fits(#[trigger] items[i])
}

/// Reading back a run of encoded values gives the values.
pub proof fn lemma_all_round_trip<T: Wire>(items: Seq<T::Model>, rest: Seq<u8>)
    requires
        all_fit::<T>(items),
    ensures
        parse_all::<T>(wire_all::<T>(items) + rest, items.len()) == Ok::<
            (Seq<T::Model>, int),
            DecodeFailure,
        >((items, wire_all::<T>(items).len() as int)),
    decreases items.len(),
{
    if items.len() == 0 {
        assert(items =~= Seq::<T::Model>::empty());
    } else {
        let front = items.drop_last();
        let tail = T::wire(items.last()) + rest;
        assert forall|i: int| 0 <= i < front.len() implies T::fits(#[trigger] front[i]) by {
        }
        lemma_all_round_trip::<T>(front, tail);
        assert(wire_all::<T>(items) + rest =~= wire_all::<T>(front) + tail);
        assert((wire_all::<T>(items) + rest).skip(wire_all::<T>(front).len() as int) =~= tail);
        T::lemma_round_trip(items.last(), rest);
        assert(front.push(items.last()) =~= items);
    }
}

/// A run of decoded values has the length asked for and takes at least one
/// byte per value, and no more bytes than there are.
pub proof fn lemma_parse_all_bounds<T: Wire>(bytes: Seq<u8>, count: nat)
    ensures
        parse_all::<T>(bytes, count) matches Ok((items, used)) ==> items.len() == count && count
            <= used <= bytes.len(),
    decreases count,
{
    if count > 0 {
        lemma_parse_all_bounds::<T>(bytes, (count - 1) as nat);
        if let Ok((items, used)) = parse_all::<T>(bytes, (count - 1) as nat) {
            T::lemma_parse_bounds(bytes.skip(used));
        }
    }
}

/// A run that cannot be read up to some count cannot be read further.
pub proof fn lemma_parse_all_fails<T: Wire>(bytes: Seq<u8>, short: nat, count: nat)
    requires
        short <= count,
        parse_all::<T>(bytes, short) is Err,
    ensures
        parse_all::<T>(bytes, count) == parse_all::<T>(bytes, short),
    decreases count,
{
    if short < count {
        lemma_parse_all_fails::<T>(bytes, short, (count - 1) as nat);
    }
}

/// The contents of a run of values.
pub open spec fn models<T: Wire>(items: Seq<T>) -> Seq<T::Model> {
    Seq::new(items.len(), |i: int| items[i].model())
}

/// Appends the bytes of each of `items` to `out`.
pub fn encode_all<T: Wire>(items: &[T], out: &mut Vec<u8>)
    ensures
        final(out)@ == old(out)@ + wire_all::<T>(models::<T>(items@)),
{
    let mut i: usize = 0;
    while i < items.len()
        invariant
            i <= items.len(),
            out@ == old(out)@ + wire_all::<T>(models::<T>(items@).take(i as int)),
        decreases items.len() - i,
    {
        items[i].encode(out);
        assert(models::<T>(items@).take(i + 1).drop_last() =~= models::<T>(items@).take(
            i as int,
        ));
        i += 1;
    }
    assert(models::<T>(items@).take(i as int) =~= models::<T>(items@));
}

/// Reads `count` values from `src` at `at`.
pub fn decode_all<T: Wire>(src: &[u8], at: usize, count: usize) -> (found: Result<
    (Vec<T>, usize),
    DecodeFailure,
>)
    requires
        at <= src.len(),
    ensures
        match parse_all::<T>(src@.skip(at as int), count as nat) {
            Ok((items, used)) => found matches Ok((values, end)) && models::<T>(values@) == items
                && end == at + used && end <= src.len(),
            Err(error) => found == Err::<(Vec<T>, usize), DecodeFailure>(error),
        },
{
    let ghost bytes = src@.skip(at as int);
    let mut values: Vec<T> = Vec::new();
    let mut end: usize = at;
    let mut i: usize = 0;
    assert(models::<T>(values@) =~= Seq::<T::Model>::empty());
    while i < count
        invariant
            i <= count,
            at <= end <= src.len(),
            bytes == src@.skip(at as int),
            parse_all::<T>(bytes, i as nat) == Ok::<(Seq<T::Model>, int), DecodeFailure>(
                (models::<T>(values@), end - at),
            ),
        decreases count - i,
    {
        assert(bytes.skip(end - at) =~= src@.skip(end as int));
        proof {
            T::lemma_parse_bounds(src@.skip(end as int));
        }
        match T::decode(src, end) {
            Ok((value, next)) => {
                let ghost before = models::<T>(values@);
                values.push(value);
                assert(models::<T>(values@) =~= before.push(value.model()));
                end = next;
            },
            Err(error) => {
                proof {
                    lemma_parse_all_fails::<T>(bytes, (i + 1) as nat, count as nat);
                }
                return Err(error);
            },
        }
        i += 1;
    }
    Ok((values, end))
}

impl<T: Wire> Wire for Vec<T> {
    type Model = Seq<T::Model>;

    open spec fn model(&self) -> Seq<T::Model> {
        models::<T>(self@)
    }

    open spec fn wire(m: Seq<T::Model>) -> Seq<u8> {
        varint(m.len() as u64) + wire_all::<T>(m)
    }

    open spec fn parse(bytes: Seq<u8>) -> Result<(Seq<T::Model>, int), DecodeFailure> {
        match usize::parse(bytes) {
            Err(error) => Err(error),
            Ok((count, used)) => match parse_all::<T>(bytes.skip(used), count as nat) {
                Err(error) => Err(error),
                Ok((items, more)) => Ok((items, used + more)),
            },
        }
    }

    open spec fn fits(m: Seq<T::Model>) -> bool {
        m.len() <= usize::MAX && all_fit::<T>(m)
    }

    proof fn lemma_fits(&self) {
        let m = self.model();
        assert forall|i: int| 0 <= i < m.len() implies T::fits(#[trigger] m[i]) by {
            self@[i].lemma_fits();
        }
        assert(m.len() == self.len());
    }

    proof fn lemma_round_trip(m: Seq<T::Model>, rest: Seq<u8>) {
        let count = m.len() as usize;
        let tail = wire_all::<T>(m) + rest;
        usize::lemma_round_trip(count, tail);
        assert(Self::wire(m) + rest =~= varint(count as u64) + tail);
        assert((Self::wire(m) + rest).skip(varint(count as u64).len() as int) =~= tail);
        lemma_all_round_trip::<T>(m, rest);
    }

    proof fn lemma_parse_bounds(bytes: Seq<u8>) {
        usize::lemma_parse_bounds(bytes);
        if let Ok((count, used)) = usize::parse(bytes) {
            lemma_parse_all_bounds::<T>(bytes.skip(used), count as nat);
        }
    }

    fn encode(&self, out: &mut Vec<u8>) {
        let count = self.len();
        count.encode(out);
        encode_all::<T>(self.as_slice(), out);
    }

    fn decode(src: &[u8], at: usize) -> (found: Result<(Vec<T>, usize), DecodeFailure>) {
        match usize::decode(src, at) {
            Err(error) => Err(error),
            Ok((count, start)) => {
                assert(src@.skip(at as int).skip(start - at) =~= src@.skip(start as int));
                decode_all::<T>(src, start, count)
            },
        }
    }
}

impl<A: Wire, B: Wire> Wire for (A, B) {
    type Model = (A::Model, B::Model);

    open spec fn model(&self) -> (A::Model, B::Model) {
        (self.0.model(), self.1.model())
    }

    open spec fn wire(m: (A::Model, B::Model)) -> Seq<u8> {
        A::wire(m.0) + B::wire(m.1)
    }

    open spec fn parse(bytes: Seq<u8>) -> Result<((A::Model, B::Model), int), DecodeFailure> {
        match A::parse(bytes) {
            Err(error) => Err(error),
            Ok((first, used)) => match B::parse(bytes.skip(used)) {
                Err(error) => Err(error),
                Ok((second, more)) => Ok(((first, second), used + more)),
            },
        }
    }

    open spec fn fits(m: (A::Model, B::Model)) -> bool {
        A::fits(m.0) && B::fits(m.1)
    }

    proof fn lemma_fits(&self) {
        self.0.lemma_fits();
        self.1.lemma_fits();
    }

    proof fn lemma_round_trip(m: (A::Model, B::Model), rest: Seq<u8>) {
        let tail = B::wire(m.1) + rest;
        A::lemma_round_trip(m.0, tail);
        assert(Self::wire(m) + rest =~= A::wire(m.0) + tail);
        assert((Self::wire(m) + rest).skip(A::wire(m.0).len() as int) =~= tail);
        B::lemma_round_trip(m.1, rest);
    }

    proof fn lemma_parse_bounds(bytes: Seq<u8>) {
        A::lemma_parse_bounds(bytes);
        if let Ok((_, used)) = A::parse(bytes) {
            B::lemma_parse_bounds(bytes.skip(used));
        }
    }

    fn encode(&self, out: &mut Vec<u8>) {
        self.0.encode(out);
        self.1.encode(out);
    }

    fn decode(src: &[u8], at: usize) -> (found: Result<((A, B), usize), DecodeFailure>) {
        proof {
            A::lemma_parse_bounds(src@.skip(at as int));
        }
        match A::decode(src, at) {
            Err(error) => Err(error),
            Ok((first, middle)) => {
                assert(src@.skip(at as int).skip(middle - at) =~= src@.skip(middle as int));
                match B::decode(src, middle) {
                    Err(error) => Err(error),
                    Ok((second, end)) => Ok(((first, second), end)),
                }
            },
        }
    }
}

/// The `n` low bytes of `value`, most significant first.
pub open spec fn be_bytes(value: nat, n: nat) -> Seq<u8>
    decreases n,
{
    if n == 0 {
        Seq::empty()
    } else {
        be_bytes(value / 256, (n - 1) as nat).push((value % 256) as u8)
    }
}

/// The number whose bytes, most significant first, are `bytes`.
pub open spec fn be_value(bytes: Seq<u8>) -> nat
    decreases bytes.len(),
{
    if bytes.len() == 0 {
        0
    } else {
        be_value(bytes.drop_last()) * 256 + bytes.last() as nat
    }
}

/// The `n` low bytes of a value are `n` bytes.
pub proof fn lemma_be_bytes_len(value: nat, n: nat)
    ensures
        be_bytes(value, n).len() == n,
    decreases n,
{
    if n > 0 {
        lemma_be_bytes_len(value / 256, (n - 1) as nat);
    }
}

/// Reading back the bytes of a value that fits gives the value.
pub proof fn lemma_be_round_trip(value: nat, n: nat)
    requires
        value < span(n),
    ensures
        be_value(be_bytes(value, n)) == value,
        be_bytes(value, n).len() == n,
    decreases n,
{
    lemma_be_bytes_len(value, n);
    if n > 0 {
        let front = be_bytes(value / 256, (n - 1) as nat);
        lemma_be_round_trip(value / 256, (n - 1) as nat);
        assert(be_bytes(value, n).drop_last() =~= front);
    }
}

/// A value read from `n` bytes fits in `n` bytes.
pub proof fn lemma_be_value_bound(bytes: Seq<u8>)
    ensures
        be_value(bytes) < span(bytes.len()),
    decreases bytes.len(),
{
    if bytes.len() > 0 {
        lemma_be_value_bound(bytes.drop_last());
    }
}

/// More bytes tell more values apart.
pub proof fn lemma_span_grows(a: nat, b: nat)
    requires
        a <= b,
    ensures
        0 < span(a) <= span(b),
    decreases b,
{
    if a < b {
        lemma_span_grows(a, (b - 1) as nat);
    } else if a > 0 {
        lemma_span_grows((a - 1) as nat, (a - 1) as nat);
    }
}

/// How many values sixteen bytes tell apart.
pub proof fn lemma_span_16()
    ensures
        span(16) == u128::MAX + 1,
{
    reveal_with_fuel(span, 17);
}

/// Appends the `n` low bytes of `value` to `out`, most significant first.
fn put_be(out: &mut Vec<u8>, value: u128, n: usize)
    ensures
        final(out)@ == old(out)@ + be_bytes(value as nat, n as nat),
    decreases n,
{
    if n > 0 {
        put_be(out, value / 256, n - 1);
        out.push((value % 256) as u8);
    }
}

/// Reads `n` bytes of `src` at `at` as a number, most significant byte
/// first; `None` where fewer than `n` bytes are left.
fn take_be(src: &[u8], at: usize, n: usize) -> (value: Option<u128>)
    requires
        at <= src.len(),
        n <= 16,
    ensures
        value is Some <==> n <= src.len() - at,
        value matches Some(v) ==> v == be_value(src@.subrange(at as int, at + n)),
{
    if src.len() - at < n {
        return None;
    }
    let mut value: u128 = 0;
    let mut i: usize = 0;
    while i < n
        invariant
            i <= n <= 16,
            at + n <= src.len(),
            value == be_value(src@.subrange(at as int, at + i)),
        decreases n - i,
    {
        proof {
            lemma_be_value_bound(src@.subrange(at as int, at + i));
            lemma_span_grows((i + 1) as nat, 16);
            lemma_span_16();
            assert(src@.subrange(at as int, at + i + 1).drop_last() =~= src@.subrange(
                at as int,
                at + i,
            ));
        }
        value = value * 256 + src[at + i] as u128;
        i += 1;
    }
    Some(value)
}

/// Appends the `n` low bytes of `value` to `out`, least significant first.
fn put_le(out: &mut Vec<u8>, value: u64, n: usize)
    ensures
        final(out)@ == old(out)@ + le_bytes(value as nat, n as nat),
    decreases n,
{
    if n > 0 {
        out.push((value % 256) as u8);
        put_le(out, value / 256, n - 1);
    }
}

/// Reads `n` bytes of `src` at `at` as a number, least significant byte
/// first; `None` where fewer than `n` bytes are left.
fn take_le(src: &[u8], at: usize, n: usize) -> (value: Option<u64>)
    requires
        at <= src.len(),
        n <= 8,
    ensures
        value is Some <==> n <= src.len() - at,
        value matches Some(v) ==> v == le_value(src@.subrange(at as int, at + n)),
{
    if src.len() - at < n {
        return None;
    }
    let mut value: u64 = 0;
    let mut i: usize = n;
    while i > 0
        invariant
            i <= n <= 8,
            at + n <= src.len(),
            value == le_value(src@.subrange(at + i, at + n)),
        decreases i,
    {
        proof {
            lemma_le_value_bound(src@.subrange(at + i, at + n));
            lemma_span_grows((n - i + 1) as nat, 8);
            lemma_spans();
            assert(src@.subrange(at + i - 1, at + n).skip(1) =~= src@.subrange(at + i, at + n));
        }
        i -= 1;
        value = src[at + i] as u64 + 256 * value;
    }
    Some(value)
}

/// The bit pattern of a single-precision number, sent as four bytes, least
/// significant first.
#[derive(Copy, Clone, Debug, PartialEq, Eq, Structural)]
pub struct Bits32(pub u32);

impl Wire for Bits32 {
    type Model = u32;

    open spec fn model(&self) -> u32 {
        self.0
    }

    open spec fn wire(m: u32) -> Seq<u8> {
        le_bytes(m as nat, 4)
    }

    open spec fn parse(bytes: Seq<u8>) -> Result<(u32, int), DecodeFailure> {
        if bytes.len() < 4 {
            Err(DecodeFailure::UnexpectedEnd)
        } else {
            Ok((le_value(bytes.subrange(0, 4)) as u32, 4))
        }
    }

    open spec fn fits(m: u32) -> bool {
        true
    }

    proof fn lemma_fits(&self) {
    }

    proof fn lemma_round_trip(m: u32, rest: Seq<u8>) {
        lemma_spans();
        lemma_le_round_trip(m as nat, 4);
        assert((Self::wire(m) + rest).subrange(0, 4) =~= le_bytes(m as nat, 4));
    }

    proof fn lemma_parse_bounds(bytes: Seq<u8>) {
    }

    fn encode(&self, out: &mut Vec<u8>) {
        put_le(out, self.0 as u64, 4);
    }

    fn decode(src: &[u8], at: usize) -> (found: Result<(Bits32, usize), DecodeFailure>) {
        proof {
            if 4 <= src.len() - at {
                lemma_le_value_bound(src@.subrange(at as int, at + 4));
                lemma_spans();
                assert(src@.skip(at as int).subrange(0, 4) =~= src@.subrange(at as int, at + 4));
            }
        }
        match take_le(src, at, 4) {
            Some(value) => Ok((Bits32(value as u32), at + 4)),
            None => Err(DecodeFailure::UnexpectedEnd),
        }
    }
}

/// An internet address of four octets, sent octet by octet in network
/// order.
#[derive(Copy, Clone, Debug, PartialEq, Eq, Structural)]
pub struct Octets4(pub u32);

impl Wire for Octets4 {
    type Model = u32;

    open spec fn model(&self) -> u32 {
        self.0
    }

    open spec fn wire(m: u32) -> Seq<u8> {
        be_bytes(m as nat, 4)
    }

    open spec fn parse(bytes: Seq<u8>) -> Result<(u32, int), DecodeFailure> {
        if bytes.len() < 4 {
            Err(DecodeFailure::UnexpectedEnd)
        } else {
            Ok((be_value(bytes.subrange(0, 4)) as u32, 4))
        }
    }

    open spec fn fits(m: u32) -> bool {
        true
    }

    proof fn lemma_fits(&self) {
    }

    proof fn lemma_round_trip(m: u32, rest: Seq<u8>) {
        lemma_spans();
        lemma_be_round_trip(m as nat, 4);
        assert((Self::wire(m) + rest).subrange(0, 4) =~= be_bytes(m as nat, 4));
    }

    proof fn lemma_parse_bounds(bytes: Seq<u8>) {
    }

    fn encode(&self, out: &mut Vec<u8>) {
        put_be(out, self.0 as u128, 4);
    }

    fn decode(src: &[u8], at: usize) -> (found: Result<(Octets4, usize), DecodeFailure>) {
        proof {
            if 4 <= src.len() - at {
                lemma_be_value_bound(src@.subrange(at as int, at + 4));
                lemma_spans();
                assert(src@.skip(at as int).subrange(0, 4) =~= src@.subrange(at as int, at + 4));
            }
        }
        match take_be(src, at, 4) {
            Some(value) => Ok((Octets4(value as u32), at + 4)),
            None => Err(DecodeFailure::UnexpectedEnd),
        }
    }
}

/// An internet address of sixteen octets, sent octet by octet in network
/// order.
#[derive(Copy, Clone, Debug, PartialEq, Eq, Structural)]
pub struct Octets16(pub u128);

impl Wire for Octets16 {
    type Model = u128;

    open spec fn model(&self) -> u128 {
        self.0
    }

    open spec fn wire(m: u128) -> Seq<u8> {
        be_bytes(m as nat, 16)
    }

    open spec fn parse(bytes: Seq<u8>) -> Result<(u128, int), DecodeFailure> {
        if bytes.len() < 16 {
            Err(DecodeFailure::UnexpectedEnd)
        } else {
            Ok((be_value(bytes.subrange(0, 16)) as u128, 16))
        }
    }

    open spec fn fits(m: u128) -> bool {
        true
    }

    proof fn lemma_fits(&self) {
    }

    proof fn lemma_round_trip(m: u128, rest: Seq<u8>) {
        lemma_span_16();
        lemma_be_round_trip(m as nat, 16);
        assert((Self::wire(m) + rest).subrange(0, 16) =~= be_bytes(m as nat, 16));
    }

    proof fn lemma_parse_bounds(bytes: Seq<u8>) {
    }

    fn encode(&self, out: &mut Vec<u8>) {
        put_be(out, self.0, 16);
    }

    fn decode(src: &[u8], at: usize) -> (found: Result<(Octets16, usize), DecodeFailure>) {
        proof {
            if 16 <= src.len() - at {
                lemma_be_value_bound(src@.subrange(at as int, at + 16));
                lemma_span_16();
                assert(src@.skip(at as int).subrange(0, 16) =~= src@.subrange(at as int, at + 16));
            }
        }
        match take_be(src, at, 16) {
            Some(value) => Ok((Octets16(value), at + 16)),
            None => Err(DecodeFailure::UnexpectedEnd),
        }
    }
}

} // verus!
