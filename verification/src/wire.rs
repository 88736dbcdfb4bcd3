//! The archive format's primitive values: how each is written, and how each is
//! read back from a source of bytes.

use vstd::prelude::*;

verus! {

/// What can be wrong with an archive, or with the order in which one is
/// written.
#[derive(Debug, Clone, Copy, PartialEq, Eq, Structural)]
pub enum ArchiveFault {
    /// The bytes end inside a value.
    UnexpectedEnd,
    /// The bytes end inside the leading magic.
    TruncatedHeader,
    /// The leading magic is another.
    NotAnArchive,
    /// The format version is another.
    UnsupportedVersion(u16),
    /// A partition number breaks the sequence from zero.
    PartitionOutOfSequence { expected: i32, actual: i32 },
    /// More partitions than a partition number can count.
    TooManyPartitions,
    /// More headers than the format can count.
    HeaderCountLimit,
    /// A length that this platform cannot address.
    LengthLimit,
    /// A timestamp that is neither absent nor present.
    TimestampMarker(u8),
    /// A byte string that is neither absent nor present.
    BytesMarker(u8),
    /// The bytes end where a record or the end of a partition is due.
    MissingRecordMarker,
    /// Neither a record nor the end of a partition.
    RecordMarker(u8),
    /// A header key that is no UTF-8.
    HeaderKeyEncoding,
    /// Bytes behind the last partition.
    TrailingData,
    /// A partition is begun inside another.
    PartitionStillOpen(i32),
    /// A partition is begun behind the last declared one.
    UndeclaredPartition,
    /// A partition is begun out of the declared order.
    UnexpectedPartition { expected: i32, actual: i32 },
    /// A record stands outside every partition.
    RecordOutsidePartition,
    /// A partition is ended that was not begun.
    EndOutsidePartition,
    /// The archive is finished inside a partition.
    UnfinishedPartition,
    /// The archive is finished before the last declared partition.
    MissingPartitions(usize),
}

/// Why an archive operation failed: a fault of the archive, or of the stream
/// under it.
#[derive(Debug)]
pub enum ArchiveError {
    Io(std::io::Error),
    Fault(ArchiveFault),
}

/// A value read off the front of a byte string and the bytes behind it, or what
/// is wrong with the bytes.
pub enum Parsed<T> {
    Value(T, Seq<u8>),
    Fault(ArchiveFault),
}

/// A source of bytes.
pub trait ByteSource {
    /// The bytes that are still to come, where that is known.
    spec fn upcoming(&self) -> Option<Seq<u8>>;

    /// Whether reading never fails.
    spec fn reliable(&self) -> bool;

    /// The next `limit` bytes, or all that is left when that is less. Reading
    /// no bytes succeeds whatever the state of the source, and leaves it where
    /// it stands. Fewer bytes than asked for come only of a source whose bytes
    /// are known up to the end, and reading makes no more known of it.
    fn read_up_to(&mut self, limit: usize) -> (r: Result<Vec<u8>, std::io::Error>)
        ensures
            final(self).reliable() == old(self).reliable(),
            r is Err ==> !old(self).reliable(),
            limit == 0 ==> r is Ok && final(self).upcoming() == old(self).upcoming(),
            r matches Ok(bytes) ==> bytes@.len() <= limit,
            r matches Ok(bytes) ==> (old(self).upcoming() matches Some(rest) ==> {
                let count = if limit < rest.len() {
                    limit as int
                } else {
                    rest.len() as int
                };
                &&& bytes@ == rest.take(count)
                &&& final(self).upcoming() == Some(rest.skip(count))
            }),
            r matches Ok(bytes) && bytes@.len() < limit ==> old(self).upcoming() is Some,
            r is Ok && old(self).upcoming() is None ==> final(self).upcoming() is None,
    ;
}

/// Bytes in memory as a source.
pub struct SliceSource<'a> {
    bytes: &'a [u8],
    position: usize,
}

impl<'a> SliceSource<'a> {
    #[verifier::type_invariant]
    spec fn in_bounds(self) -> bool {
        self.position <= self.bytes@.len()
    }

    /// A source that stands at the start of the bytes.
    pub fn new(bytes: &'a [u8]) -> (r: Self)
        ensures
            r.upcoming() == Some(bytes@),
            r.reliable(),
    {
        assert(bytes@.skip(0) == bytes@);
        SliceSource { bytes, position: 0 }
    }
}

impl<'a> ByteSource for SliceSource<'a> {
    closed spec fn upcoming(&self) -> Option<Seq<u8>> {
        Some(self.bytes@.skip(self.position as int))
    }

    closed spec fn reliable(&self) -> bool {
        true
    }

    fn read_up_to(&mut self, limit: usize) -> (r: Result<Vec<u8>, std::io::Error>) {
        proof {
            use_type_invariant(&*self);
        }
        let left: usize = self.bytes.len() - self.position;
        let count: usize = if limit < left {
            limit
        } else {
            left
        };
        let end: usize = self.position + count;
        let mut taken: Vec<u8> = Vec::new();
        let mut i: usize = self.position;
        while i < end
            invariant
                self.position <= i <= end,
                end <= self.bytes@.len(),
                *self == *old(self),
                taken@ == self.bytes@.subrange(self.position as int, i as int),
            decreases end - i,
        {
            taken.push(self.bytes[i]);
            i = i + 1;
        }
        assert(taken@ == self.bytes@.skip(self.position as int).take(count as int));
        assert(self.bytes@.skip(self.position as int).skip(count as int) == self.bytes@.skip(
            end as int,
        ));
        self.position = end;
        Ok(taken)
    }
}

/// How the result of a read agrees with what the upcoming bytes parse to: a
/// value and a fault are those of the parse, and the source then stands behind
/// the value. A failure of the source itself is left to the source. A value
/// makes no more known of a source.
pub open spec fn agrees<T>(
    before: Option<Seq<u8>>,
    after: Option<Seq<u8>>,
    reliable: bool,
    result: Result<T, ArchiveError>,
    parsed: Parsed<T>,
) -> bool {
    &&& reliable ==> !(result matches Err(ArchiveError::Io(_)))
    &&& before is Some ==> match result {
        Ok(value) => after is Some && parsed == Parsed::Value(value, after->0),
        Err(ArchiveError::Fault(fault)) => parsed == Parsed::<T>::Fault(fault),
        Err(ArchiveError::Io(_)) => true,
    }
    &&& before is None && result is Ok ==> after is None
}

/// The little-endian bytes of a number, `width` of them.
pub open spec fn le_bytes(value: nat, width: nat) -> Seq<u8>
    decreases width,
{
    if width == 0 {
        Seq::empty()
    } else {
        seq![(value % 256) as u8] + le_bytes(value / 256, (width - 1) as nat)
    }
}

/// The number that little-endian bytes stand for.
pub open spec fn le_value(bytes: Seq<u8>) -> nat
    decreases bytes.len(),
{
    if bytes.len() == 0 {
        0
    } else {
        bytes[0] as nat + 256 * le_value(bytes.drop_first())
    }
}

/// How many numbers `width` bytes can tell apart.
pub open spec fn byte_range(width: nat) -> nat
    decreases width,
{
    if width == 0 {
        1
    } else {
        256 * byte_range((width - 1) as nat)
    }
}

/// A number that fits its width reads back from its bytes.
pub proof fn lemma_le_round_trip(value: nat, width: nat)
    ensures
        le_bytes(value, width).len() == width,
        value < byte_range(width) ==> le_value(le_bytes(value, width)) == value,
    decreases width,
{
    if width > 0 {
        lemma_le_round_trip(value / 256, (width - 1) as nat);
        let bytes = le_bytes(value, width);
        assert(bytes.drop_first() == le_bytes(value / 256, (width - 1) as nat));
    }
}

proof fn lemma_le_value_range(bytes: Seq<u8>)
    ensures
        le_value(bytes) < byte_range(bytes.len()),
    decreases bytes.len(),
{
    if bytes.len() > 0 {
        lemma_le_value_range(bytes.drop_first());
    }
}

proof fn lemma_byte_ranges()
    ensures
        byte_range(1) == 0x100,
        byte_range(2) == 0x1_0000,
        byte_range(4) == 0x1_0000_0000,
        byte_range(8) == 0x1_0000_0000_0000_0000,
{
    reveal_with_fuel(byte_range, 9);
}

/// The two's complement of a signed 32-bit number.
pub open spec fn unsigned_32(value: i32) -> nat {
    if value < 0 {
        (value + 0x1_0000_0000) as nat
    } else {
        value as nat
    }
}

/// The signed 32-bit number of a two's complement.
pub open spec fn signed_32(value: nat) -> i32 {
    if value < 0x8000_0000 {
        value as i32
    } else {
        (value - 0x1_0000_0000) as i32
    }
}

/// The two's complement of a signed 64-bit number.
pub open spec fn unsigned_64(value: i64) -> nat {
    if value < 0 {
        (value + 0x1_0000_0000_0000_0000) as nat
    } else {
        value as nat
    }
}

/// The signed 64-bit number of a two's complement.
pub open spec fn signed_64(value: nat) -> i64 {
    if value < 0x8000_0000_0000_0000 {
        value as i64
    } else {
        (value - 0x1_0000_0000_0000_0000) as i64
    }
}

/// The form of an optional timestamp: a marker, then the number if there is one.
pub open spec fn optional_i64_bytes(value: Option<i64>) -> Seq<u8> {
    match value {
        Some(value) => seq![1u8] + le_bytes(unsigned_64(value), 8),
        None => seq![0u8],
    }
}

/// The form of a byte string: its length, then its bytes.
pub open spec fn sized_bytes(value: Seq<u8>) -> Seq<u8> {
    le_bytes(value.len(), 8) + value
}

/// The bytes of an optional byte string.
pub open spec fn option_view(value: Option<Vec<u8>>) -> Option<Seq<u8>> {
    match value {
        Some(value) => Some(value@),
        None => None,
    }
}

/// The form of an optional byte string: a marker, then the string if there is
/// one.
pub open spec fn optional_bytes(value: Option<Seq<u8>>) -> Seq<u8> {
    match value {
        Some(value) => seq![1u8] + sized_bytes(value),
        None => seq![0u8],
    }
}

/// The next `count` bytes.
pub open spec fn parse_exact(bytes: Seq<u8>, count: nat) -> Parsed<Seq<u8>> {
    if bytes.len() < count {
        Parsed::Fault(ArchiveFault::UnexpectedEnd)
    } else {
        Parsed::Value(bytes.take(count as int), bytes.skip(count as int))
    }
}

/// An unsigned number of `width` bytes.
pub open spec fn parse_number(bytes: Seq<u8>, width: nat) -> Parsed<nat> {
    match parse_exact(bytes, width) {
        Parsed::Value(taken, rest) => Parsed::Value(le_value(taken), rest),
        Parsed::Fault(fault) => Parsed::Fault(fault),
    }
}

/// A single byte.
pub open spec fn parse_u8(bytes: Seq<u8>) -> Parsed<u8> {
    match parse_exact(bytes, 1) {
        Parsed::Value(taken, rest) => Parsed::Value(taken[0], rest),
        Parsed::Fault(fault) => Parsed::Fault(fault),
    }
}

/// A signed 32-bit number.
pub open spec fn parse_i32(bytes: Seq<u8>) -> Parsed<i32> {
    match parse_number(bytes, 4) {
        Parsed::Value(value, rest) => Parsed::Value(signed_32(value), rest),
        Parsed::Fault(fault) => Parsed::Fault(fault),
    }
}

/// An optional timestamp.
pub open spec fn parse_optional_i64(bytes: Seq<u8>) -> Parsed<Option<i64>> {
    match parse_u8(bytes) {
        Parsed::Value(marker, rest) => if marker == 0 {
            Parsed::Value(None, rest)
        } else if marker == 1 {
            match parse_number(rest, 8) {
                Parsed::Value(value, rest) => Parsed::Value(Some(signed_64(value)), rest),
                Parsed::Fault(fault) => Parsed::Fault(fault),
            }
        } else {
            Parsed::Fault(ArchiveFault::TimestampMarker(marker))
        },
        Parsed::Fault(fault) => Parsed::Fault(fault),
    }
}

/// A byte string.
pub open spec fn parse_bytes(bytes: Seq<u8>) -> Parsed<Seq<u8>> {
    match parse_number(bytes, 8) {
        Parsed::Value(len, rest) => if len > usize::MAX {
            Parsed::Fault(ArchiveFault::LengthLimit)
        } else {
            parse_exact(rest, len)
        },
        Parsed::Fault(fault) => Parsed::Fault(fault),
    }
}

/// An optional byte string.
pub open spec fn parse_optional_bytes(bytes: Seq<u8>) -> Parsed<Option<Seq<u8>>> {
    match parse_u8(bytes) {
        Parsed::Value(marker, rest) => if marker == 0 {
            Parsed::Value(None, rest)
        } else if marker == 1 {
            match parse_bytes(rest) {
                Parsed::Value(value, rest) => Parsed::Value(Some(value), rest),
                Parsed::Fault(fault) => Parsed::Fault(fault),
            }
        } else {
            Parsed::Fault(ArchiveFault::BytesMarker(marker))
        },
        Parsed::Fault(fault) => Parsed::Fault(fault),
    }
}

/// Bytes in front of others are read off again.
pub proof fn lemma_parse_exact(taken: Seq<u8>, rest: Seq<u8>)
    ensures
        parse_exact(taken + rest, taken.len()) == Parsed::Value(taken, rest),
{
    assert((taken + rest).take(taken.len() as int) == taken);
    assert((taken + rest).skip(taken.len() as int) == rest);
}

/// A number that fits its width is read back.
pub proof fn lemma_parse_number(value: nat, width: nat, rest: Seq<u8>)
    requires
        value < byte_range(width),
    ensures
        parse_number(le_bytes(value, width) + rest, width) == Parsed::Value(value, rest),
{
    lemma_le_round_trip(value, width);
    lemma_parse_exact(le_bytes(value, width), rest);
}

/// A byte is read back.
pub proof fn lemma_parse_u8(value: u8, rest: Seq<u8>)
    ensures
        parse_u8(seq![value] + rest) == Parsed::Value(value, rest),
{
    lemma_parse_exact(seq![value], rest);
}

/// A signed number is read back.
pub proof fn lemma_parse_i32(value: i32, rest: Seq<u8>)
    ensures
        parse_i32(le_bytes(unsigned_32(value), 4) + rest) == Parsed::Value(value, rest),
{
    lemma_byte_ranges();
    lemma_parse_number(unsigned_32(value), 4, rest);
}

/// A 32-bit count is read back.
pub proof fn lemma_parse_count(value: nat, rest: Seq<u8>)
    requires
        value <= u32::MAX,
    ensures
        parse_number(le_bytes(value, 4) + rest, 4) == Parsed::Value(value, rest),
{
    lemma_byte_ranges();
    lemma_parse_number(value, 4, rest);
}

/// An optional timestamp is read back.
pub proof fn lemma_parse_optional_i64(value: Option<i64>, rest: Seq<u8>)
    ensures
        parse_optional_i64(optional_i64_bytes(value) + rest) == Parsed::Value(value, rest),
{
    match value {
        Some(number) => {
            let tail = le_bytes(unsigned_64(number), 8) + rest;
            assert(optional_i64_bytes(value) + rest == seq![1u8] + tail);
            lemma_parse_u8(1, tail);
            lemma_byte_ranges();
            lemma_parse_number(unsigned_64(number), 8, rest);
        },
        None => lemma_parse_u8(0, rest),
    }
}

/// A byte string is read back.
pub proof fn lemma_parse_bytes(value: Seq<u8>, rest: Seq<u8>)
    requires
        value.len() <= usize::MAX,
    ensures
        parse_bytes(sized_bytes(value) + rest) == Parsed::Value(value, rest),
{
    assert(sized_bytes(value) + rest == le_bytes(value.len(), 8) + (value + rest));
    lemma_byte_ranges();
    lemma_parse_number(value.len(), 8, value + rest);
    lemma_parse_exact(value, rest);
}

/// An optional byte string is read back.
pub proof fn lemma_parse_optional_bytes(value: Option<Seq<u8>>, rest: Seq<u8>)
    requires
        value matches Some(value) ==> value.len() <= usize::MAX,
    ensures
        parse_optional_bytes(optional_bytes(value) + rest) == Parsed::Value(value, rest),
{
    match value {
        Some(bytes) => {
            let tail = sized_bytes(bytes) + rest;
            assert(optional_bytes(value) + rest == seq![1u8] + tail);
            lemma_parse_u8(1, tail);
            lemma_parse_bytes(bytes, rest);
        },
        None => lemma_parse_u8(0, rest),
    }
}

fn write_le(out: &mut Vec<u8>, value: u64, width: usize)
    requires
        width <= 8,
    ensures
        final(out)@ == old(out)@ + le_bytes(value as nat, width as nat),
{
    let mut left: u64 = value;
    let mut i: usize = 0;
    assert(out@ + le_bytes(left as nat, (width - i) as nat) == old(out)@ + le_bytes(
        value as nat,
        width as nat,
    ));
    while i < width
        invariant
            i <= width,
            out@ + le_bytes(left as nat, (width - i) as nat) == old(out)@ + le_bytes(
                value as nat,
                width as nat,
            ),
        decreases width - i,
    {
        let ghost before = out@;
        let byte: u8 = (left % 256) as u8;
        out.push(byte);
        assert(before + (seq![byte] + le_bytes((left / 256) as nat, (width - i - 1) as nat))
            == out@ + le_bytes((left / 256) as nat, (width - i - 1) as nat));
        left = left / 256;
        i = i + 1;
    }
    assert(out@ + Seq::<u8>::empty() == out@);
}

fn le_number(bytes: &[u8]) -> (r: u64)
    requires
        bytes@.len() <= 8,
    ensures
        r == le_value(bytes@),
{
    let mut value: u64 = 0;
    let mut i: usize = bytes.len();
    assert(bytes@.skip(bytes@.len() as int) == Seq::<u8>::empty());
    while i > 0
        invariant
            i <= bytes@.len() <= 8,
            value == le_value(bytes@.skip(i as int)),
        decreases i,
    {
        i = i - 1;
        let ghost tail = bytes@.skip(i as int);
        proof {
            assert(tail.drop_first() == bytes@.skip(i + 1));
            lemma_le_value_range(tail);
            reveal_with_fuel(byte_range, 9);
        }
        value = bytes[i] as u64 + 256 * value;
    }
    assert(bytes@.skip(0) == bytes@);
    value
}

/// Appends a byte.
pub fn write_u8(out: &mut Vec<u8>, value: u8)
    ensures
        final(out)@ == old(out)@ + seq![value],
{
    out.push(value);
    assert(out@ == old(out)@ + seq![value]);
}

/// Appends an unsigned 16-bit number.
pub fn write_u16(out: &mut Vec<u8>, value: u16)
    ensures
        final(out)@ == old(out)@ + le_bytes(value as nat, 2),
{
    write_le(out, value as u64, 2);
}

/// Appends an unsigned 32-bit number.
pub fn write_u32(out: &mut Vec<u8>, value: u32)
    ensures
        final(out)@ == old(out)@ + le_bytes(value as nat, 4),
{
    write_le(out, value as u64, 4);
}

/// Appends a signed 32-bit number.
pub fn write_i32(out: &mut Vec<u8>, value: i32)
    ensures
        final(out)@ == old(out)@ + le_bytes(unsigned_32(value), 4),
{
    let bits: u64 = if value < 0 {
        (value as i64 + 0x1_0000_0000) as u64
    } else {
        value as u64
    };
    write_le(out, bits, 4);
}

/// Appends an unsigned 64-bit number.
pub fn write_u64(out: &mut Vec<u8>, value: u64)
    ensures
        final(out)@ == old(out)@ + le_bytes(value as nat, 8),
{
    write_le(out, value, 8);
}

/// Appends an optional timestamp.
pub fn write_optional_i64(out: &mut Vec<u8>, value: Option<i64>)
    ensures
        final(out)@ == old(out)@ + optional_i64_bytes(value),
{
    match value {
        Some(value) => {
            let bits: u64 = if value < 0 {
                (value as i128 + 0x1_0000_0000_0000_0000) as u64
            } else {
                value as u64
            };
            write_u8(out, 1);
            write_u64(out, bits);
            assert(out@ == old(out)@ + (seq![1u8] + le_bytes(unsigned_64(value), 8)));
        },
        None => write_u8(out, 0),
    }
}

/// Appends a byte string.
pub fn write_bytes(out: &mut Vec<u8>, value: &[u8])
    ensures
        final(out)@ == old(out)@ + sized_bytes(value@),
        value@.len() <= usize::MAX,
{
    write_u64(out, usize_to_u64(value.len()));
    let ghost before = out@;
    out.extend_from_slice(value);
    assert(out@ =~= before + value@);
    assert(out@ == old(out)@ + sized_bytes(value@));
}

/// Appends an optional byte string.
pub fn write_optional_bytes(out: &mut Vec<u8>, value: &Option<Vec<u8>>)
    ensures
        final(out)@ == old(out)@ + optional_bytes(option_view(*value)),
        value matches Some(value) ==> value@.len() <= usize::MAX,
{
    match value {
        Some(value) => {
            write_u8(out, 1);
            write_bytes(out, value.as_slice());
            assert(out@ == old(out)@ + (seq![1u8] + sized_bytes(value@)));
        },
        None => write_u8(out, 0),
    }
}

/// Reads exactly `count` bytes. Reading none succeeds whatever the state of the
/// source, and leaves it where it stands.
pub fn read_exact<S: ByteSource>(source: &mut S, count: usize) -> (r: Result<
    Vec<u8>,
    ArchiveError,
>)
    ensures
        final(source).reliable() == old(source).reliable(),
        r matches Ok(bytes) ==> bytes@.len() == count,
        count == 0 ==> r is Ok && final(source).upcoming() == old(source).upcoming(),
        agrees(
            old(source).upcoming(),
            final(source).upcoming(),
            old(source).reliable(),
            match r {
                Ok(bytes) => Ok(bytes@),
                Err(error) => Err(error),
            },
            parse_exact(old(source).upcoming()->0, count as nat),
        ),
{
    match source.read_up_to(count) {
        Err(error) => Err(ArchiveError::Io(error)),
        Ok(bytes) => if bytes.len() < count {
            Err(ArchiveError::Fault(ArchiveFault::UnexpectedEnd))
        } else {
            Ok(bytes)
        },
    }
}

fn read_number<S: ByteSource>(source: &mut S, width: usize) -> (r: Result<u64, ArchiveError>)
    requires
        width <= 8,
    ensures
        final(source).reliable() == old(source).reliable(),
        r matches Ok(value) ==> value < byte_range(width as nat),
        agrees(
            old(source).upcoming(),
            final(source).upcoming(),
            old(source).reliable(),
            match r {
                Ok(value) => Ok(value as nat),
                Err(error) => Err(error),
            },
            parse_number(old(source).upcoming()->0, width as nat),
        ),
{
    match read_exact(source, width) {
        Err(error) => Err(error),
        Ok(bytes) => {
            proof {
                lemma_le_value_range(bytes@);
            }
            Ok(le_number(bytes.as_slice()))
        },
    }
}

/// Reads a byte.
pub fn read_u8<S: ByteSource>(source: &mut S) -> (r: Result<u8, ArchiveError>)
    ensures
        final(source).reliable() == old(source).reliable(),
        agrees(
            old(source).upcoming(),
            final(source).upcoming(),
            old(source).reliable(),
            r,
            parse_u8(old(source).upcoming()->0),
        ),
{
    match read_exact(source, 1) {
        Err(error) => Err(error),
        Ok(bytes) => Ok(bytes[0]),
    }
}

/// Reads an unsigned 16-bit number.
pub fn read_u16<S: ByteSource>(source: &mut S) -> (r: Result<u16, ArchiveError>)
    ensures
        final(source).reliable() == old(source).reliable(),
        agrees(
            old(source).upcoming(),
            final(source).upcoming(),
            old(source).reliable(),
            match r {
                Ok(value) => Ok(value as nat),
                Err(error) => Err(error),
            },
            parse_number(old(source).upcoming()->0, 2),
        ),
{
    proof {
        lemma_byte_ranges();
    }
    match read_number(source, 2) {
        Err(error) => Err(error),
        Ok(value) => Ok(value as u16),
    }
}

/// Reads an unsigned 32-bit number.
pub fn read_u32<S: ByteSource>(source: &mut S) -> (r: Result<u32, ArchiveError>)
    ensures
        final(source).reliable() == old(source).reliable(),
        agrees(
            old(source).upcoming(),
            final(source).upcoming(),
            old(source).reliable(),
            match r {
                Ok(value) => Ok(value as nat),
                Err(error) => Err(error),
            },
            parse_number(old(source).upcoming()->0, 4),
        ),
{
    proof {
        lemma_byte_ranges();
    }
    match read_number(source, 4) {
        Err(error) => Err(error),
        Ok(value) => Ok(value as u32),
    }
}

/// Reads a signed 32-bit number.
pub fn read_i32<S: ByteSource>(source: &mut S) -> (r: Result<i32, ArchiveError>)
    ensures
        final(source).reliable() == old(source).reliable(),
        agrees(
            old(source).upcoming(),
            final(source).upcoming(),
            old(source).reliable(),
            r,
            parse_i32(old(source).upcoming()->0),
        ),
{
    proof {
        lemma_byte_ranges();
    }
    match read_number(source, 4) {
        Err(error) => Err(error),
        Ok(value) => if value < 0x8000_0000 {
            Ok(value as i32)
        } else {
            Ok((value as i64 - 0x1_0000_0000) as i32)
        },
    }
}

/// Reads an unsigned 64-bit number.
pub fn read_u64<S: ByteSource>(source: &mut S) -> (r: Result<u64, ArchiveError>)
    ensures
        final(source).reliable() == old(source).reliable(),
        agrees(
            old(source).upcoming(),
            final(source).upcoming(),
            old(source).reliable(),
            match r {
                Ok(value) => Ok(value as nat),
                Err(error) => Err(error),
            },
            parse_number(old(source).upcoming()->0, 8),
        ),
{
    read_number(source, 8)
}

/// Reads an optional timestamp.
pub fn read_optional_i64<S: ByteSource>(source: &mut S) -> (r: Result<Option<i64>, ArchiveError>)
    ensures
        final(source).reliable() == old(source).reliable(),
        agrees(
            old(source).upcoming(),
            final(source).upcoming(),
            old(source).reliable(),
            r,
            parse_optional_i64(old(source).upcoming()->0),
        ),
{
    match read_u8(source) {
        Err(error) => Err(error),
        Ok(0) => Ok(None),
        Ok(1) => match read_u64(source) {
            Err(error) => Err(error),
            Ok(value) => if value < 0x8000_0000_0000_0000 {
                Ok(Some(value as i64))
            } else {
                Ok(Some((value as i128 - 0x1_0000_0000_0000_0000) as i64))
            },
        },
        Ok(marker) => Err(ArchiveError::Fault(ArchiveFault::TimestampMarker(marker))),
    }
}

/// Reads a byte string.
pub fn read_bytes<S: ByteSource>(source: &mut S) -> (r: Result<Vec<u8>, ArchiveError>)
    ensures
        final(source).reliable() == old(source).reliable(),
        agrees(
            old(source).upcoming(),
            final(source).upcoming(),
            old(source).reliable(),
            match r {
                Ok(bytes) => Ok(bytes@),
                Err(error) => Err(error),
            },
            parse_bytes(old(source).upcoming()->0),
        ),
{
    match read_u64(source) {
        Err(error) => Err(error),
        Ok(len) => match u64_to_usize(len) {
            Err(fault) => Err(ArchiveError::Fault(fault)),
            Ok(len) => read_exact(source, len),
        },
    }
}

/// Reads an optional byte string.
pub fn read_optional_bytes<S: ByteSource>(source: &mut S) -> (r: Result<
    Option<Vec<u8>>,
    ArchiveError,
>)
    ensures
        final(source).reliable() == old(source).reliable(),
        agrees(
            old(source).upcoming(),
            final(source).upcoming(),
            old(source).reliable(),
            match r {
                Ok(value) => Ok(option_view(value)),
                Err(error) => Err(error),
            },
            parse_optional_bytes(old(source).upcoming()->0),
        ),
{
    match read_u8(source) {
        Err(error) => Err(error),
        Ok(0) => Ok(None),
        Ok(1) => match read_bytes(source) {
            Err(error) => Err(error),
            Ok(bytes) => Ok(Some(bytes)),
        },
        Ok(marker) => Err(ArchiveError::Fault(ArchiveFault::BytesMarker(marker))),
    }
}

/// A count in the format's 32 bits.
pub fn usize_to_u32(value: usize, limit: ArchiveFault) -> (r: Result<u32, ArchiveFault>)
    ensures
        r == (if value <= u32::MAX {
            Ok::<u32, ArchiveFault>(value as u32)
        } else {
            Err(limit)
        }),
{
    if value <= 0xffff_ffff {
        Ok(value as u32)
    } else {
        Err(limit)
    }
}

/// A length in the format's 64 bits.
pub fn usize_to_u64(value: usize) -> (r: u64)
    ensures
        r == value,
{
    value as u64
}

/// A count of the format on this platform.
pub fn u32_to_usize(value: u32) -> (r: usize)
    ensures
        r == value,
{
    value as usize
}

/// A length of the format on this platform.
pub fn u64_to_usize(value: u64) -> (r: Result<usize, ArchiveFault>)
    ensures
        r == (if value <= usize::MAX {
            Ok::<usize, ArchiveFault>(value as usize)
        } else {
            Err(ArchiveFault::LengthLimit)
        }),
{
    if value <= usize::MAX as u64 {
        Ok(value as usize)
    } else {
        Err(ArchiveFault::LengthLimit)
    }
}

/// Numbers stand with their low byte first.
pub proof fn law_numbers_are_little_endian(value: nat, width: nat)
    ensures
        le_bytes(value, width).len() == width,
        width > 0 ==> le_bytes(value, width)[0] as nat == value % 256,
        width > 0 ==> le_bytes(value, width).drop_first() == le_bytes(
            value / 256,
            (width - 1) as nat,
        ),
{
    lemma_le_round_trip(value, width);
    if width > 0 {
        assert(le_bytes(value, width).drop_first() =~= le_bytes(value / 256, (width - 1) as nat));
    }
}

/// Optional values stand behind a marker: zero for none, one in front of a value.
/// A byte string stands behind its length in eight bytes, and a timestamp in eight
/// bytes of two's complement.
pub proof fn law_optional_values_are_marked(timestamp: i64, value: Seq<u8>)
    ensures
        optional_i64_bytes(None) == seq![0u8],
        optional_i64_bytes(Some(timestamp)) == seq![1u8] + le_bytes(
            (if timestamp < 0 {
                timestamp + 0x1_0000_0000_0000_0000
            } else {
                timestamp as int
            }) as nat,
            8,
        ),
        optional_bytes(None) == seq![0u8],
        optional_bytes(Some(value)) == seq![1u8] + (le_bytes(value.len(), 8) + value),
        sized_bytes(value) == le_bytes(value.len(), 8) + value,
{
}

proof fn lemma_le_bytes_of_value(bytes: Seq<u8>)
    ensures
        le_bytes(le_value(bytes), bytes.len()) == bytes,
    decreases bytes.len(),
{
    if bytes.len() > 0 {
        let rest = bytes.drop_first();
        lemma_le_bytes_of_value(rest);
        let value = le_value(bytes);
        assert(value == bytes[0] as nat + 256 * le_value(rest));
        assert(value % 256 == bytes[0] as nat);
        assert(value / 256 == le_value(rest));
        assert(le_bytes(value, bytes.len()) =~= seq![bytes[0]] + rest);
        assert(seq![bytes[0]] + rest =~= bytes);
    } else {
        assert(le_bytes(le_value(bytes), 0) =~= bytes);
    }
}

/// What is read as a number is the bytes that it is written as, and reading fails
/// exactly where there are too few bytes.
pub proof fn law_numbers_are_read_as_written(bytes: Seq<u8>, width: nat)
    ensures
        parse_number(bytes, width) is Fault <==> bytes.len() < width,
        parse_number(bytes, width) matches Parsed::Value(value, rest) ==> bytes == le_bytes(
            value,
            width,
        ) + rest && value < byte_range(width),
{
    if bytes.len() >= width {
        let taken = bytes.take(width as int);
        lemma_le_bytes_of_value(taken);
        lemma_le_value_range(taken);
        assert(bytes =~= taken + bytes.skip(width as int));
    }
}

proof fn lemma_u8_as_written(bytes: Seq<u8>)
    ensures
        parse_u8(bytes) is Fault <==> bytes.len() < 1,
        parse_u8(bytes) matches Parsed::Value(value, rest) ==> bytes == seq![value] + rest,
{
    if bytes.len() >= 1 {
        assert(bytes =~= seq![bytes[0]] + bytes.skip(1));
        assert(bytes.take(1)[0] == bytes[0]);
    }
}

/// What is read as a signed number is the bytes that it is written as.
pub proof fn law_signed_numbers_are_read_as_written(bytes: Seq<u8>)
    ensures
        parse_i32(bytes) is Fault <==> bytes.len() < 4,
        parse_i32(bytes) matches Parsed::Value(value, rest) ==> bytes == le_bytes(
            unsigned_32(value),
            4,
        ) + rest,
{
    lemma_byte_ranges();
    law_numbers_are_read_as_written(bytes, 4);
}

/// What is read as an optional timestamp is the bytes that it is written as.
pub proof fn law_timestamps_are_read_as_written(bytes: Seq<u8>)
    ensures
        parse_optional_i64(bytes) matches Parsed::Value(value, rest) ==> bytes
            == optional_i64_bytes(value) + rest,
{
    lemma_u8_as_written(bytes);
    if let Parsed::Value(marker, rest) = parse_u8(bytes) {
        if marker == 1 {
            lemma_byte_ranges();
            law_numbers_are_read_as_written(rest, 8);
            if let Parsed::Value(value, behind) = parse_number(rest, 8) {
                assert(unsigned_64(signed_64(value)) == value);
                assert(bytes =~= seq![1u8] + le_bytes(value, 8) + behind);
            }
        }
    }
}

/// What is read as a byte string is the bytes that it is written as.
pub proof fn law_byte_strings_are_read_as_written(bytes: Seq<u8>)
    ensures
        parse_bytes(bytes) matches Parsed::Value(value, rest) ==> bytes == sized_bytes(value)
            + rest,
{
    law_numbers_are_read_as_written(bytes, 8);
    if let Parsed::Value(len, rest) = parse_number(bytes, 8) {
        if let Parsed::Value(value, behind) = parse_bytes(bytes) {
            assert(value.len() == len);
            assert(rest =~= value + behind);
            assert(bytes =~= le_bytes(len, 8) + value + behind);
        }
    }
}

/// What is read as an optional byte string is the bytes that it is written as.
pub proof fn law_optional_bytes_are_read_as_written(bytes: Seq<u8>)
    ensures
        parse_optional_bytes(bytes) matches Parsed::Value(value, rest) ==> bytes
            == optional_bytes(value) + rest,
{
    lemma_u8_as_written(bytes);
    if let Parsed::Value(marker, rest) = parse_u8(bytes) {
        if marker == 1 {
            law_byte_strings_are_read_as_written(rest);
            if let Parsed::Value(value, behind) = parse_bytes(rest) {
                assert(bytes =~= seq![1u8] + sized_bytes(value) + behind);
            }
        }
    }
}

/// A read that agrees with its bytes gives the value that they stand for, or fails
/// with what is wrong with them, and leaves the source right behind the value. A
/// source that never fails gives one or the other.
pub proof fn law_reads_agree_with_their_bytes<T>(
    before: Seq<u8>,
    after: Option<Seq<u8>>,
    reliable: bool,
    result: Result<T, ArchiveError>,
    parsed: Parsed<T>,
)
    requires
        agrees(Some(before), after, reliable, result, parsed),
    ensures
        result matches Ok(value) ==> (parsed matches Parsed::Value(expected, rest) && expected
            == value && after == Some(rest)),
        result matches Err(ArchiveError::Fault(fault)) ==> (parsed matches Parsed::Fault(expected)
            && expected == fault),
        reliable ==> !(result matches Err(ArchiveError::Io(_))),
        reliable && parsed is Value ==> result is Ok,
{
}

/// The next bytes are read off the front, or there are too few.
pub proof fn law_bytes_are_read_off_the_front(bytes: Seq<u8>, count: nat)
    ensures
        parse_exact(bytes, count) is Fault <==> bytes.len() < count,
        parse_exact(bytes, count) matches Parsed::Value(taken, rest) ==> taken.len() == count
            && bytes == taken + rest,
{
    if bytes.len() >= count {
        assert(bytes =~= bytes.take(count as int) + bytes.skip(count as int));
    }
}

} // verus!
