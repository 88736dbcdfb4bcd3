//! The archive layout: which bytes stand for which records, and what reading
//! them gives.

use crate::compression;
use crate::wire;
use crate::wire::{ArchiveFault, Parsed};
use vstd::prelude::*;
use vstd::utf8::*;

verus! {

/// The bytes that open every archive.
pub open spec fn magic() -> Seq<u8> {
    seq![0x46u8, 0x52u8, 0x41u8, 0x4eu8, 0x53u8, 0x53u8, 0x4fu8, 0x4eu8]
}

/// The archive format version.
pub const VERSION: u16 = 2;

/// The compression level of archives.
pub const ZSTD_LEVEL: i32 = 3;

/// A record header.
#[verifier::ext_equal]
pub struct HeaderView {
    pub key: Seq<char>,
    pub value: Option<Seq<u8>>,
}

/// A record.
#[verifier::ext_equal]
pub struct RecordView {
    pub timestamp: Option<i64>,
    pub key: Option<Seq<u8>>,
    pub payload: Option<Seq<u8>>,
    pub headers: Seq<HeaderView>,
}

/// What a reader of an archive comes across.
#[verifier::ext_equal]
pub enum EventView {
    PartitionStart(i32),
    Record(RecordView),
    PartitionEnd(i32),
}

/// A header's form: its key, then its value.
pub open spec fn header_bytes(header: HeaderView) -> Seq<u8> {
    wire::sized_bytes(encode_utf8(header.key)) + wire::optional_bytes(header.value)
}

/// Headers one after the other.
pub open spec fn headers_bytes(headers: Seq<HeaderView>) -> Seq<u8>
    decreases headers.len(),
{
    if headers.len() == 0 {
        Seq::empty()
    } else {
        headers_bytes(headers.drop_last()) + header_bytes(headers.last())
    }
}

/// A record's form behind its marker.
pub open spec fn fields_bytes(record: RecordView) -> Seq<u8> {
    wire::optional_i64_bytes(record.timestamp) + wire::optional_bytes(record.key)
        + wire::optional_bytes(record.payload) + wire::le_bytes(record.headers.len(), 4)
        + headers_bytes(record.headers)
}

/// A record's form: a marker, then its fields.
pub open spec fn record_bytes(record: RecordView) -> Seq<u8> {
    seq![1u8] + fields_bytes(record)
}

/// Records one after the other.
pub open spec fn records_bytes(records: Seq<RecordView>) -> Seq<u8>
    decreases records.len(),
{
    if records.len() == 0 {
        Seq::empty()
    } else {
        records_bytes(records.drop_last()) + record_bytes(records.last())
    }
}

/// A partition's form: its records, then a closing marker.
pub open spec fn block_bytes(records: Seq<RecordView>) -> Seq<u8> {
    records_bytes(records) + seq![0u8]
}

/// Partitions one after the other.
pub open spec fn blocks_bytes(blocks: Seq<Seq<RecordView>>) -> Seq<u8>
    decreases blocks.len(),
{
    if blocks.len() == 0 {
        Seq::empty()
    } else {
        blocks_bytes(blocks.drop_last()) + block_bytes(blocks.last())
    }
}

/// Partition numbers one after the other.
pub open spec fn numbers_bytes(partitions: Seq<i32>) -> Seq<u8>
    decreases partitions.len(),
{
    if partitions.len() == 0 {
        Seq::empty()
    } else {
        numbers_bytes(partitions.drop_last()) + wire::le_bytes(
            wire::unsigned_32(partitions.last()),
            4,
        )
    }
}

/// The declared partitions: how many, then their numbers.
pub open spec fn declaration_bytes(partitions: Seq<i32>) -> Seq<u8> {
    wire::le_bytes(partitions.len(), 4) + numbers_bytes(partitions)
}

/// What an archive holds in compressed form.
pub open spec fn content_bytes(partitions: Seq<i32>, blocks: Seq<Seq<RecordView>>) -> Seq<u8> {
    declaration_bytes(partitions) + blocks_bytes(blocks)
}

/// What an archive holds in front of its compressed content.
pub open spec fn preamble_bytes() -> Seq<u8> {
    magic() + wire::le_bytes(VERSION as nat, 2)
}

/// The archive of some partitions and the records of each.
pub open spec fn archive_bytes(partitions: Seq<i32>, blocks: Seq<Seq<RecordView>>) -> Seq<u8> {
    preamble_bytes() + compression::zstd_stream(
        content_bytes(partitions, blocks),
        ZSTD_LEVEL,
        true,
    )
}

/// A byte string is the archive of some partitions and the records of each, and
/// its compressed part decodes to their content.
pub open spec fn archive_of(
    archive: Seq<u8>,
    partitions: Seq<i32>,
    blocks: Seq<Seq<RecordView>>,
) -> bool {
    &&& archive == archive_bytes(partitions, blocks)
    &&& compression::zstd_content(archive.skip(10)) == Some(content_bytes(partitions, blocks))
}

/// A byte string that this platform can address.
pub open spec fn bytes_fit(value: Option<Seq<u8>>) -> bool {
    value matches Some(value) ==> value.len() <= usize::MAX
}

/// A header within the limits of this platform.
pub open spec fn header_fits(header: HeaderView) -> bool {
    encode_utf8(header.key).len() <= usize::MAX && bytes_fit(header.value)
}

/// A record within the limits of the format and of this platform.
pub open spec fn record_fits(record: RecordView) -> bool {
    &&& bytes_fit(record.key)
    &&& bytes_fit(record.payload)
    &&& record.headers.len() <= u32::MAX
    &&& forall|i: int| 0 <= i < record.headers.len() ==> header_fits(#[trigger] record.headers[i])
}

/// Records within the limits of the format and of this platform.
pub open spec fn records_fit(records: Seq<RecordView>) -> bool {
    forall|i: int| 0 <= i < records.len() ==> record_fits(#[trigger] records[i])
}

/// Partitions whose records are all within the limits.
pub open spec fn blocks_fit(blocks: Seq<Seq<RecordView>>) -> bool {
    forall|i: int| 0 <= i < blocks.len() ==> records_fit(#[trigger] blocks[i])
}

/// Partition numbers that count up from zero.
pub open spec fn contiguous(partitions: Seq<i32>) -> bool {
    &&& partitions.len() <= i32::MAX + 1
    &&& forall|i: int| 0 <= i < partitions.len() ==> #[trigger] partitions[i] == i
}

/// What is wrong with partition number `i`, taken by itself.
pub open spec fn number_fault(partitions: Seq<i32>, i: int) -> Option<ArchiveFault> {
    if i > i32::MAX {
        Some(ArchiveFault::TooManyPartitions)
    } else if partitions[i] != i {
        Some(
            ArchiveFault::PartitionOutOfSequence { expected: i as i32, actual: partitions[i] },
        )
    } else {
        None
    }
}

/// The first thing wrong with partition numbers.
pub open spec fn partitions_fault(partitions: Seq<i32>) -> Option<ArchiveFault>
    decreases partitions.len(),
{
    if partitions.len() == 0 {
        None
    } else {
        match partitions_fault(partitions.drop_last()) {
            Some(fault) => Some(fault),
            None => number_fault(partitions, partitions.len() - 1),
        }
    }
}

/// Partition numbers are in order exactly when they count up from zero.
pub proof fn lemma_contiguous(partitions: Seq<i32>)
    ensures
        partitions_fault(partitions) is None <==> contiguous(partitions),
    decreases partitions.len(),
{
    if partitions.len() > 0 {
        let front = partitions.drop_last();
        lemma_contiguous(front);
        if contiguous(partitions) {
            assert forall|i: int| 0 <= i < front.len() implies #[trigger] front[i] == i by {
                assert(partitions[i] == i);
            }
        }
        if contiguous(front) && number_fault(partitions, partitions.len() - 1) is None {
            assert forall|i: int| 0 <= i < partitions.len() implies #[trigger] partitions[i]
                == i by {
                if i < front.len() {
                    assert(front[i] == i);
                }
            }
        }
    }
}

/// The first fault of the front of a list is the first fault of the list.
pub(crate) proof fn lemma_first_fault_stays(partitions: Seq<i32>, count: int)
    requires
        0 <= count <= partitions.len(),
        partitions_fault(partitions.take(count)) is Some,
    ensures
        partitions_fault(partitions) == partitions_fault(partitions.take(count)),
    decreases partitions.len(),
{
    if count < partitions.len() {
        assert(partitions.drop_last().take(count) == partitions.take(count));
        lemma_first_fault_stays(partitions.drop_last(), count);
    } else {
        assert(partitions.take(count) == partitions);
    }
}

/// What stands in front of the compressed content.
pub open spec fn parse_preamble(bytes: Seq<u8>) -> Parsed<()> {
    if bytes.len() < magic().len() {
        Parsed::Fault(ArchiveFault::TruncatedHeader)
    } else if bytes.take(8) != magic() {
        Parsed::Fault(ArchiveFault::NotAnArchive)
    } else {
        match wire::parse_number(bytes.skip(8), 2) {
            Parsed::Value(version, rest) => if version != VERSION {
                Parsed::Fault(ArchiveFault::UnsupportedVersion(version as u16))
            } else {
                Parsed::Value((), rest)
            },
            Parsed::Fault(fault) => Parsed::Fault(fault),
        }
    }
}

/// `count` partition numbers.
pub open spec fn parse_numbers(bytes: Seq<u8>, count: nat) -> Parsed<Seq<i32>>
    decreases count,
{
    if count == 0 {
        Parsed::Value(Seq::empty(), bytes)
    } else {
        match parse_numbers(bytes, (count - 1) as nat) {
            Parsed::Value(numbers, rest) => match wire::parse_i32(rest) {
                Parsed::Value(number, rest) => Parsed::Value(numbers.push(number), rest),
                Parsed::Fault(fault) => Parsed::Fault(fault),
            },
            Parsed::Fault(fault) => Parsed::Fault(fault),
        }
    }
}

pub(crate) proof fn lemma_numbers_fault_stays(bytes: Seq<u8>, some: nat, all: nat)
    requires
        some <= all,
        parse_numbers(bytes, some) is Fault,
    ensures
        parse_numbers(bytes, all) == parse_numbers(bytes, some),
    decreases all,
{
    if some < all {
        lemma_numbers_fault_stays(bytes, some, (all - 1) as nat);
    }
}

/// The declared partitions.
pub open spec fn parse_declaration(bytes: Seq<u8>) -> Parsed<Seq<i32>> {
    match wire::parse_number(bytes, 4) {
        Parsed::Value(count, rest) => match parse_numbers(rest, count) {
            Parsed::Value(numbers, rest) => match partitions_fault(numbers) {
                Some(fault) => Parsed::Fault(fault),
                None => Parsed::Value(numbers, rest),
            },
            Parsed::Fault(fault) => Parsed::Fault(fault),
        },
        Parsed::Fault(fault) => Parsed::Fault(fault),
    }
}

/// A header.
pub open spec fn parse_header(bytes: Seq<u8>) -> Parsed<HeaderView> {
    match wire::parse_bytes(bytes) {
        Parsed::Value(key, rest) => if !valid_utf8(key) {
            Parsed::Fault(ArchiveFault::HeaderKeyEncoding)
        } else {
            match wire::parse_optional_bytes(rest) {
                Parsed::Value(value, rest) => Parsed::Value(
                    HeaderView { key: decode_utf8(key), value },
                    rest,
                ),
                Parsed::Fault(fault) => Parsed::Fault(fault),
            }
        },
        Parsed::Fault(fault) => Parsed::Fault(fault),
    }
}

/// `count` headers.
pub open spec fn parse_headers(bytes: Seq<u8>, count: nat) -> Parsed<Seq<HeaderView>>
    decreases count,
{
    if count == 0 {
        Parsed::Value(Seq::empty(), bytes)
    } else {
        match parse_headers(bytes, (count - 1) as nat) {
            Parsed::Value(headers, rest) => match parse_header(rest) {
                Parsed::Value(header, rest) => Parsed::Value(headers.push(header), rest),
                Parsed::Fault(fault) => Parsed::Fault(fault),
            },
            Parsed::Fault(fault) => Parsed::Fault(fault),
        }
    }
}

pub(crate) proof fn lemma_headers_fault_stays(bytes: Seq<u8>, some: nat, all: nat)
    requires
        some <= all,
        parse_headers(bytes, some) is Fault,
    ensures
        parse_headers(bytes, all) == parse_headers(bytes, some),
    decreases all,
{
    if some < all {
        lemma_headers_fault_stays(bytes, some, (all - 1) as nat);
    }
}

/// The fields of a record.
pub open spec fn parse_record(bytes: Seq<u8>) -> Parsed<RecordView> {
    match wire::parse_optional_i64(bytes) {
        Parsed::Value(timestamp, rest) => match wire::parse_optional_bytes(rest) {
            Parsed::Value(key, rest) => match wire::parse_optional_bytes(rest) {
                Parsed::Value(payload, rest) => match wire::parse_number(rest, 4) {
                    Parsed::Value(count, rest) => match parse_headers(rest, count) {
                        Parsed::Value(headers, rest) => Parsed::Value(
                            RecordView { timestamp, key, payload, headers },
                            rest,
                        ),
                        Parsed::Fault(fault) => Parsed::Fault(fault),
                    },
                    Parsed::Fault(fault) => Parsed::Fault(fault),
                },
                Parsed::Fault(fault) => Parsed::Fault(fault),
            },
            Parsed::Fault(fault) => Parsed::Fault(fault),
        },
        Parsed::Fault(fault) => Parsed::Fault(fault),
    }
}

/// Where a reader stands: the declared partitions, how many of them are behind
/// it, whether it is inside one, and the content still to come.
#[verifier::ext_equal]
pub struct ReaderState {
    pub partitions: Seq<i32>,
    pub done: int,
    pub open: bool,
    pub rest: Seq<u8>,
}

/// What a reader comes across next.
pub enum Step {
    Event(EventView, ReaderState),
    End,
    Fault(ArchiveFault),
}

/// The next step of a reader.
pub open spec fn step(state: ReaderState) -> Step {
    if !state.open {
        if state.done < state.partitions.len() {
            Step::Event(
                EventView::PartitionStart(state.partitions[state.done]),
                ReaderState { open: true, ..state },
            )
        } else if state.rest.len() > 0 {
            Step::Fault(ArchiveFault::TrailingData)
        } else {
            Step::End
        }
    } else {
        match wire::parse_u8(state.rest) {
            Parsed::Value(marker, rest) => if marker == 0 {
                Step::Event(
                    EventView::PartitionEnd(state.partitions[state.done]),
                    ReaderState { done: state.done + 1, open: false, rest, ..state },
                )
            } else if marker == 1 {
                match parse_record(rest) {
                    Parsed::Value(record, rest) => Step::Event(
                        EventView::Record(record),
                        ReaderState { rest, ..state },
                    ),
                    Parsed::Fault(fault) => Step::Fault(fault),
                }
            } else {
                Step::Fault(ArchiveFault::RecordMarker(marker))
            },
            Parsed::Fault(_) => Step::Fault(ArchiveFault::MissingRecordMarker),
        }
    }
}

proof fn lemma_headers_shrink(bytes: Seq<u8>, count: nat)
    ensures
        parse_headers(bytes, count) matches Parsed::Value(_, rest) ==> rest.len() <= bytes.len(),
    decreases count,
{
    if count > 0 {
        lemma_headers_shrink(bytes, (count - 1) as nat);
    }
}

proof fn lemma_record_shrinks(bytes: Seq<u8>)
    ensures
        parse_record(bytes) matches Parsed::Value(_, rest) ==> rest.len() <= bytes.len(),
{
    if let Parsed::Value(_, rest) = wire::parse_optional_i64(bytes) {
        if let Parsed::Value(_, rest) = wire::parse_optional_bytes(rest) {
            if let Parsed::Value(_, rest) = wire::parse_optional_bytes(rest) {
                if let Parsed::Value(count, rest) = wire::parse_number(rest, 4) {
                    lemma_headers_shrink(rest, count);
                }
            }
        }
    }
}

/// Everything a reader comes across from where it stands up to the end of the
/// archive or the first fault, and that fault.
pub open spec fn events(state: ReaderState) -> (Seq<EventView>, Option<ArchiveFault>)
    decreases
            state.partitions.len() - state.done,
            (if state.open {
                0nat
            } else {
                1nat
            }),
            state.rest.len(),
    when state.done < state.partitions.len() || (!state.open && state.done == state.partitions.len())
    via events_descend
{
    match step(state) {
        Step::Event(event, next) => {
            let (later, fault) = events(next);
            (seq![event] + later, fault)
        },
        Step::End => (Seq::empty(), None),
        Step::Fault(fault) => (Seq::empty(), Some(fault)),
    }
}

#[via_fn]
proof fn events_descend(state: ReaderState) {
    if state.open {
        if let Parsed::Value(_, rest) = wire::parse_u8(state.rest) {
            lemma_record_shrinks(rest);
        }
    }
}

proof fn lemma_parse_header(header: HeaderView, rest: Seq<u8>)
    requires
        header_fits(header),
    ensures
        parse_header(header_bytes(header) + rest) == Parsed::Value(header, rest),
{
    let tail = wire::optional_bytes(header.value) + rest;
    assert(header_bytes(header) + rest == wire::sized_bytes(encode_utf8(header.key)) + tail);
    wire::lemma_parse_bytes(encode_utf8(header.key), tail);
    wire::lemma_parse_optional_bytes(header.value, rest);
    encode_utf8_valid_utf8(header.key);
    encode_utf8_decode_utf8(header.key);
}

proof fn lemma_parse_headers(headers: Seq<HeaderView>, rest: Seq<u8>)
    requires
        forall|i: int| 0 <= i < headers.len() ==> header_fits(#[trigger] headers[i]),
    ensures
        parse_headers(headers_bytes(headers) + rest, headers.len()) == Parsed::Value(headers, rest),
    decreases headers.len(),
{
    if headers.len() == 0 {
        assert(headers_bytes(headers) + rest == rest);
        assert(headers == Seq::<HeaderView>::empty());
    } else {
        let front = headers.drop_last();
        let tail = header_bytes(headers.last()) + rest;
        assert forall|i: int| 0 <= i < front.len() implies header_fits(#[trigger] front[i]) by {
            assert(front[i] == headers[i]);
        }
        lemma_parse_headers(front, tail);
        assert(headers_bytes(headers) + rest == headers_bytes(front) + tail);
        lemma_parse_header(headers.last(), rest);
        assert(front.push(headers.last()) == headers);
    }
}

proof fn lemma_regroup(a: Seq<u8>, b: Seq<u8>, c: Seq<u8>, d: Seq<u8>, e: Seq<u8>, rest: Seq<u8>)
    ensures
        a + b + c + d + e + rest == a + (b + (c + (d + (e + rest)))),
{
    assert(a + b + c + d + e + rest =~= a + (b + (c + (d + (e + rest)))));
}

/// The fields of a record are read back from the bytes they are written as.
pub proof fn law_record_reads_back(record: RecordView, rest: Seq<u8>)
    requires
        record_fits(record),
    ensures
        parse_record(fields_bytes(record) + rest) == Parsed::Value(record, rest),
{
    let from_headers = headers_bytes(record.headers) + rest;
    let from_count = wire::le_bytes(record.headers.len(), 4) + from_headers;
    let from_payload = wire::optional_bytes(record.payload) + from_count;
    let from_key = wire::optional_bytes(record.key) + from_payload;
    lemma_regroup(
        wire::optional_i64_bytes(record.timestamp),
        wire::optional_bytes(record.key),
        wire::optional_bytes(record.payload),
        wire::le_bytes(record.headers.len(), 4),
        headers_bytes(record.headers),
        rest,
    );
    wire::lemma_parse_optional_i64(record.timestamp, from_key);
    wire::lemma_parse_optional_bytes(record.key, from_payload);
    wire::lemma_parse_optional_bytes(record.payload, from_count);
    wire::lemma_parse_count(record.headers.len(), from_headers);
    lemma_parse_headers(record.headers, rest);
}

proof fn lemma_parse_numbers(partitions: Seq<i32>, rest: Seq<u8>)
    ensures
        parse_numbers(numbers_bytes(partitions) + rest, partitions.len()) == Parsed::Value(
            partitions,
            rest,
        ),
    decreases partitions.len(),
{
    if partitions.len() == 0 {
        assert(numbers_bytes(partitions) + rest == rest);
        assert(partitions == Seq::<i32>::empty());
    } else {
        let front = partitions.drop_last();
        let tail = wire::le_bytes(wire::unsigned_32(partitions.last()), 4) + rest;
        lemma_parse_numbers(front, tail);
        assert(numbers_bytes(partitions) + rest == numbers_bytes(front) + tail);
        wire::lemma_parse_i32(partitions.last(), rest);
        assert(front.push(partitions.last()) == partitions);
    }
}

/// Declared partitions are read back from the bytes they are written as.
pub proof fn law_declaration_reads_back(partitions: Seq<i32>, rest: Seq<u8>)
    requires
        contiguous(partitions),
    ensures
        parse_declaration(declaration_bytes(partitions) + rest) == Parsed::Value(partitions, rest),
{
    let tail = numbers_bytes(partitions) + rest;
    assert(declaration_bytes(partitions) + rest == wire::le_bytes(partitions.len(), 4) + tail);
    wire::lemma_parse_count(partitions.len(), tail);
    lemma_parse_numbers(partitions, rest);
    lemma_contiguous(partitions);
}

proof fn lemma_records_from_front(records: Seq<RecordView>)
    requires
        records.len() > 0,
    ensures
        records_bytes(records) == record_bytes(records[0]) + records_bytes(records.drop_first()),
    decreases records.len(),
{
    if records.len() > 1 {
        lemma_records_from_front(records.drop_last());
        assert(records.drop_last().drop_first() == records.drop_first().drop_last());
        assert(records_bytes(records) == record_bytes(records[0]) + records_bytes(
            records.drop_first().drop_last(),
        ) + record_bytes(records.last()));
        assert(records_bytes(records.drop_first()) == records_bytes(
            records.drop_first().drop_last(),
        ) + record_bytes(records.last()));
    } else {
        assert(records_bytes(records.drop_last()) == Seq::<u8>::empty());
        assert(records_bytes(records.drop_first()) == Seq::<u8>::empty());
    }
}

proof fn lemma_blocks_from_front(blocks: Seq<Seq<RecordView>>)
    requires
        blocks.len() > 0,
    ensures
        blocks_bytes(blocks) == block_bytes(blocks[0]) + blocks_bytes(blocks.drop_first()),
    decreases blocks.len(),
{
    if blocks.len() > 1 {
        lemma_blocks_from_front(blocks.drop_last());
        assert(blocks.drop_last().drop_first() == blocks.drop_first().drop_last());
        assert(blocks_bytes(blocks) == block_bytes(blocks[0]) + blocks_bytes(
            blocks.drop_first().drop_last(),
        ) + block_bytes(blocks.last()));
        assert(blocks_bytes(blocks.drop_first()) == blocks_bytes(blocks.drop_first().drop_last())
            + block_bytes(blocks.last()));
    } else {
        assert(blocks_bytes(blocks.drop_last()) == Seq::<u8>::empty());
        assert(blocks_bytes(blocks.drop_first()) == Seq::<u8>::empty());
    }
}

/// The events of a partition's records.
pub open spec fn record_events(records: Seq<RecordView>) -> Seq<EventView> {
    records.map_values(|record: RecordView| EventView::Record(record))
}

/// The events of a partition: its start, its records, its end.
pub open spec fn partition_events(partition: i32, records: Seq<RecordView>) -> Seq<EventView> {
    seq![EventView::PartitionStart(partition)] + record_events(records)
        + seq![EventView::PartitionEnd(partition)]
}

/// The events of an archive, partition after partition.
pub open spec fn archive_events(partitions: Seq<i32>, blocks: Seq<Seq<RecordView>>) -> Seq<
    EventView,
>
    decreases blocks.len(),
{
    if blocks.len() == 0 {
        Seq::empty()
    } else {
        partition_events(partitions[0], blocks[0]) + archive_events(
            partitions.drop_first(),
            blocks.drop_first(),
        )
    }
}

proof fn lemma_step_over_record(
    partitions: Seq<i32>,
    done: int,
    record: RecordView,
    rest: Seq<u8>,
)
    requires
        record_fits(record),
    ensures
        step(
            (ReaderState { partitions, done, open: true, rest: record_bytes(record) + rest }),
        ) == Step::Event(
            EventView::Record(record),
            (ReaderState { partitions, done, open: true, rest }),
        ),
{
    assert(record_bytes(record) + rest == seq![1u8] + (fields_bytes(record) + rest));
    wire::lemma_parse_u8(1, fields_bytes(record) + rest);
    law_record_reads_back(record, rest);
}

proof fn lemma_step_over_end(partitions: Seq<i32>, done: int, rest: Seq<u8>)
    ensures
        step(
            (ReaderState { partitions, done, open: true, rest: seq![0u8] + rest }),
        ) == Step::Event(
            EventView::PartitionEnd(partitions[done]),
            (ReaderState { partitions, done: done + 1, open: false, rest }),
        ),
{
    wire::lemma_parse_u8(0, rest);
}

proof fn lemma_events_from_step(state: ReaderState, event: EventView, next: ReaderState)
    requires
        state.done < state.partitions.len(),
        step(state) == Step::Event(event, next),
    ensures
        events(state) == (seq![event] + events(next).0, events(next).1),
{
}

#[verifier::spinoff_prover]
#[verifier::rlimit(60)]
proof fn lemma_records_read_back(
    partitions: Seq<i32>,
    done: int,
    records: Seq<RecordView>,
    rest: Seq<u8>,
)
    requires
        0 <= done < partitions.len(),
        records_fit(records),
    ensures
        ({
            let inside = ReaderState {
                partitions,
                done,
                open: true,
                rest: records_bytes(records) + (seq![0u8] + rest),
            };
            let behind = ReaderState { partitions, done: done + 1, open: false, rest };
            events(inside) == (
                record_events(records) + seq![EventView::PartitionEnd(partitions[done])] + events(
                    behind,
                ).0,
                events(behind).1,
            )
        }),
    decreases records.len(),
{
    let tail = seq![0u8] + rest;
    let inside = ReaderState {
        partitions,
        done,
        open: true,
        rest: records_bytes(records) + tail,
    };
    let behind = ReaderState { partitions, done: done + 1, open: false, rest };
    let end = seq![EventView::PartitionEnd(partitions[done])];
    if records.len() == 0 {
        assert(inside.rest == tail);
        lemma_step_over_end(partitions, done, rest);
        lemma_events_from_step(inside, end[0], behind);
        assert(record_events(records) == Seq::<EventView>::empty());
        assert(record_events(records) + end + events(behind).0 == end + events(behind).0);
    } else {
        let later = records.drop_first();
        assert forall|i: int| 0 <= i < later.len() implies record_fits(#[trigger] later[i]) by {
            assert(later[i] == records[i + 1]);
        }
        lemma_records_from_front(records);
        let next_rest = records_bytes(later) + tail;
        assert(inside.rest == record_bytes(records[0]) + next_rest);
        lemma_step_over_record(partitions, done, records[0], next_rest);
        let next = ReaderState { partitions, done, open: true, rest: next_rest };
        lemma_events_from_step(inside, EventView::Record(records[0]), next);
        lemma_records_read_back(partitions, done, later, rest);
        assert(record_events(records) == seq![EventView::Record(records[0])] + record_events(
            later,
        ));
        assert(events(inside).0 == record_events(records) + end + events(behind).0);
    }
}

proof fn lemma_blocks_read_back(
    partitions: Seq<i32>,
    done: int,
    blocks: Seq<Seq<RecordView>>,
)
    requires
        0 <= done <= partitions.len(),
        blocks.len() == partitions.len() - done,
        blocks_fit(blocks),
    ensures
        events(
            (ReaderState { partitions, done, open: false, rest: blocks_bytes(blocks) }),
        ) == (archive_events(partitions.skip(done), blocks), None::<ArchiveFault>),
    decreases blocks.len(),
{
    let start = ReaderState { partitions, done, open: false, rest: blocks_bytes(blocks) };
    if blocks.len() > 0 {
        let later = blocks.drop_first();
        assert forall|i: int| 0 <= i < later.len() implies records_fit(#[trigger] later[i]) by {
            assert(later[i] == blocks[i + 1]);
        }
        lemma_blocks_from_front(blocks);
        let rest = blocks_bytes(later);
        assert(blocks_bytes(blocks) == records_bytes(blocks[0]) + (seq![0u8] + rest));
        lemma_records_read_back(partitions, done, blocks[0], rest);
        lemma_blocks_read_back(partitions, done + 1, later);
        assert(partitions.skip(done).drop_first() == partitions.skip(done + 1));
        let inside = ReaderState { open: true, ..start };
        assert(step(start) == Step::Event(EventView::PartitionStart(partitions[done]), inside));
        assert(events(start).0 == archive_events(partitions.skip(done), blocks));
    }
}

/// An archive is read back: its preamble is accepted, its compressed part
/// decodes to a content that declares its partitions, and reading on from there
/// comes across each partition in turn with all its records in order, up to the
/// end of the archive.
pub proof fn law_archive_reads_back(
    archive: Seq<u8>,
    partitions: Seq<i32>,
    blocks: Seq<Seq<RecordView>>,
)
    requires
        archive_of(archive, partitions, blocks),
        contiguous(partitions),
        blocks.len() == partitions.len(),
        blocks_fit(blocks),
    ensures
        parse_preamble(archive) == Parsed::Value((), archive.skip(10)),
        ({
            let content = compression::zstd_content(archive.skip(10))->0;
            &&& compression::zstd_content(archive.skip(10)) == Some(content)
            &&& parse_declaration(content) == Parsed::Value(partitions, blocks_bytes(blocks))
        }),
        events(
            (ReaderState { partitions, done: 0, open: false, rest: blocks_bytes(blocks) }),
        ) == (archive_events(partitions, blocks), None::<ArchiveFault>),
{
    let stream = compression::zstd_stream(content_bytes(partitions, blocks), ZSTD_LEVEL, true);
    wire::lemma_le_round_trip(VERSION as nat, 2);
    assert(preamble_bytes().len() == 10);
    assert(archive.skip(10) == stream);
    assert(archive.take(8) == magic());
    assert(archive.skip(8) == wire::le_bytes(VERSION as nat, 2) + stream);
    reveal_with_fuel(wire::byte_range, 3);
    wire::lemma_parse_number(VERSION as nat, 2, stream);
    law_declaration_reads_back(partitions, blocks_bytes(blocks));
    lemma_blocks_read_back(partitions, 0, blocks);
    assert(partitions.skip(0) == partitions);
}

/// Equal partitions with equal records make byte-identical archives.
pub proof fn law_archives_are_deterministic(
    first: Seq<u8>,
    second: Seq<u8>,
    partitions: Seq<i32>,
    blocks: Seq<Seq<RecordView>>,
)
    requires
        archive_of(first, partitions, blocks),
        archive_of(second, partitions, blocks),
    ensures
        first == second,
{
}

/// Partitions are accepted exactly where they count up from zero, each one the next
/// number.
pub proof fn law_partitions_count_up(partitions: Seq<i32>)
    ensures
        partitions_fault(partitions) is None <==> {
            &&& partitions.len() <= 0x8000_0000
            &&& forall|i: int| 0 <= i < partitions.len() ==> #[trigger] partitions[i] == i
        },
{
    lemma_contiguous(partitions);
}

/// A preamble is accepted exactly where the bytes start with the eight letters of
/// the name and the version in two bytes; what is behind them is compressed.
pub proof fn law_preambles_are_checked(bytes: Seq<u8>)
    ensures
        parse_preamble(bytes) is Value <==> {
            &&& bytes.len() >= 10
            &&& bytes.take(8) == seq![
                0x46u8,
                0x52u8,
                0x41u8,
                0x4eu8,
                0x53u8,
                0x53u8,
                0x4fu8,
                0x4eu8,
            ]
            &&& bytes[8] == 2 && bytes[9] == 0
        },
        parse_preamble(bytes) matches Parsed::Value(_, rest) ==> rest == bytes.skip(10),
{
    if bytes.len() >= 8 {
        let behind = bytes.skip(8);
        wire::law_numbers_are_read_as_written(behind, 2);
        if bytes.len() >= 10 {
            reveal_with_fuel(wire::le_value, 4);
            let taken = behind.take(2);
            assert(taken.drop_first().drop_first() =~= Seq::<u8>::empty());
            assert(wire::le_value(taken) == bytes[8] as nat + 256 * (bytes[9] as nat));
            assert(behind.skip(2) =~= bytes.skip(10));
        }
    }
}

/// The form of a record: a marker, its timestamp, its key, its payload, the number
/// of its headers in four bytes, and each header's key and value in order. A
/// partition ends in a marker of its own.
pub proof fn law_records_have_their_form(record: RecordView, records: Seq<RecordView>)
    ensures
        record_bytes(record) == seq![1u8] + (wire::optional_i64_bytes(record.timestamp)
            + wire::optional_bytes(record.key) + wire::optional_bytes(record.payload)
            + wire::le_bytes(record.headers.len(), 4) + record.headers.flat_map(
            |header: HeaderView|
                wire::sized_bytes(encode_utf8(header.key)) + wire::optional_bytes(header.value),
        )),
        block_bytes(records) == records.flat_map(|record: RecordView| record_bytes(record))
            + seq![0u8],
{
    lemma_headers_form(record.headers);
    lemma_records_form(records);
}

proof fn lemma_headers_form(headers: Seq<HeaderView>)
    ensures
        headers_bytes(headers) == headers.flat_map(
            |header: HeaderView|
                wire::sized_bytes(encode_utf8(header.key)) + wire::optional_bytes(header.value),
        ),
    decreases headers.len(),
{
    let form = |header: HeaderView|
        wire::sized_bytes(encode_utf8(header.key)) + wire::optional_bytes(header.value);
    if headers.len() > 0 {
        let front = headers.drop_last();
        lemma_headers_form(front);
        assert(headers.map_values(form) =~= front.map_values(form).push(form(headers.last())));
        front.map_values(form).lemma_flatten_push(form(headers.last()));
        assert(headers_bytes(headers) =~= headers.flat_map(form));
    } else {
        assert(headers.map_values(form) =~= Seq::empty());
        assert(headers_bytes(headers) =~= headers.flat_map(form));
    }
}

proof fn lemma_records_form(records: Seq<RecordView>)
    ensures
        records_bytes(records) == records.flat_map(|record: RecordView| record_bytes(record)),
    decreases records.len(),
{
    let form = |record: RecordView| record_bytes(record);
    if records.len() > 0 {
        let front = records.drop_last();
        lemma_records_form(front);
        assert(records.map_values(form) =~= front.map_values(form).push(form(records.last())));
        front.map_values(form).lemma_flatten_push(form(records.last()));
        assert(records_bytes(records) =~= records.flat_map(form));
    } else {
        assert(records.map_values(form) =~= Seq::empty());
        assert(records_bytes(records) =~= records.flat_map(form));
    }
}

/// The form of an archive: the eight letters of the name, the version in two bytes,
/// and the compressed content with a checksum. The content declares how many
/// partitions there are and their numbers, and then holds each of them in order.
pub proof fn law_archives_have_their_form(
    archive: Seq<u8>,
    partitions: Seq<i32>,
    blocks: Seq<Seq<RecordView>>,
)
    requires
        archive_of(archive, partitions, blocks),
    ensures
        ({
            let content = wire::le_bytes(partitions.len(), 4) + partitions.flat_map(
                |partition: i32| wire::le_bytes(wire::unsigned_32(partition), 4),
            ) + blocks.flat_map(|records: Seq<RecordView>| block_bytes(records));
            &&& archive == magic() + seq![2u8, 0u8] + compression::zstd_stream(content, 3, true)
            &&& compression::zstd_content(archive.skip(10)) == Some(content)
        }),
{
    lemma_numbers_form(partitions);
    lemma_blocks_form(blocks);
    reveal_with_fuel(wire::le_bytes, 3);
    assert(wire::le_bytes(2, 2) =~= seq![2u8, 0u8]);
    assert(content_bytes(partitions, blocks) =~= wire::le_bytes(partitions.len(), 4)
        + partitions.flat_map(|partition: i32| wire::le_bytes(wire::unsigned_32(partition), 4))
        + blocks.flat_map(|records: Seq<RecordView>| block_bytes(records)));
}

proof fn lemma_numbers_form(partitions: Seq<i32>)
    ensures
        numbers_bytes(partitions) == partitions.flat_map(
            |partition: i32| wire::le_bytes(wire::unsigned_32(partition), 4),
        ),
    decreases partitions.len(),
{
    let form = |partition: i32| wire::le_bytes(wire::unsigned_32(partition), 4);
    if partitions.len() > 0 {
        let front = partitions.drop_last();
        lemma_numbers_form(front);
        assert(partitions.map_values(form) =~= front.map_values(form).push(
            form(partitions.last()),
        ));
        front.map_values(form).lemma_flatten_push(form(partitions.last()));
        assert(numbers_bytes(partitions) =~= partitions.flat_map(form));
    } else {
        assert(partitions.map_values(form) =~= Seq::empty());
        assert(numbers_bytes(partitions) =~= partitions.flat_map(form));
    }
}

proof fn lemma_blocks_form(blocks: Seq<Seq<RecordView>>)
    ensures
        blocks_bytes(blocks) == blocks.flat_map(|records: Seq<RecordView>| block_bytes(records)),
    decreases blocks.len(),
{
    let form = |records: Seq<RecordView>| block_bytes(records);
    if blocks.len() > 0 {
        let front = blocks.drop_last();
        lemma_blocks_form(front);
        assert(blocks.map_values(form) =~= front.map_values(form).push(form(blocks.last())));
        front.map_values(form).lemma_flatten_push(form(blocks.last()));
        assert(blocks_bytes(blocks) =~= blocks.flat_map(form));
    } else {
        assert(blocks.map_values(form) =~= Seq::empty());
        assert(blocks_bytes(blocks) =~= blocks.flat_map(form));
    }
}

proof fn lemma_header_as_written(bytes: Seq<u8>)
    ensures
        parse_header(bytes) matches Parsed::Value(header, rest) ==> bytes == header_bytes(header)
            + rest,
{
    wire::law_byte_strings_are_read_as_written(bytes);
    if let Parsed::Value(key, rest) = wire::parse_bytes(bytes) {
        wire::law_optional_bytes_are_read_as_written(rest);
        if let Parsed::Value(header, behind) = parse_header(bytes) {
            decode_utf8_encode_utf8(key);
            assert(bytes =~= wire::sized_bytes(key) + wire::optional_bytes(header.value) + behind);
        }
    }
}

proof fn lemma_headers_as_written(bytes: Seq<u8>, count: nat)
    ensures
        parse_headers(bytes, count) matches Parsed::Value(headers, rest) ==> headers.len() == count
            && bytes == headers_bytes(headers) + rest,
    decreases count,
{
    if count == 0 {
        assert(bytes =~= Seq::<u8>::empty() + bytes);
    } else {
        lemma_headers_as_written(bytes, (count - 1) as nat);
        if let Parsed::Value(earlier, rest) = parse_headers(bytes, (count - 1) as nat) {
            lemma_header_as_written(rest);
            if let Parsed::Value(header, behind) = parse_header(rest) {
                let headers = earlier.push(header);
                assert(headers.drop_last() =~= earlier);
                assert(bytes =~= headers_bytes(earlier) + header_bytes(header) + behind);
            }
        }
    }
}

/// What is read as a record is the bytes that the record is written as: nothing is
/// skipped, and nothing else is accepted for it.
pub proof fn law_records_are_read_as_written(bytes: Seq<u8>)
    ensures
        parse_record(bytes) matches Parsed::Value(record, rest) ==> bytes == fields_bytes(record)
            + rest,
{
    wire::law_timestamps_are_read_as_written(bytes);
    if let Parsed::Value(timestamp, from_key) = wire::parse_optional_i64(bytes) {
        wire::law_optional_bytes_are_read_as_written(from_key);
        if let Parsed::Value(key, from_payload) = wire::parse_optional_bytes(from_key) {
            wire::law_optional_bytes_are_read_as_written(from_payload);
            if let Parsed::Value(payload, from_count) = wire::parse_optional_bytes(from_payload) {
                wire::law_numbers_are_read_as_written(from_count, 4);
                if let Parsed::Value(count, from_headers) = wire::parse_number(from_count, 4) {
                    lemma_headers_as_written(from_headers, count);
                    if let Parsed::Value(headers, rest) = parse_headers(from_headers, count) {
                        lemma_regroup(
                            wire::optional_i64_bytes(timestamp),
                            wire::optional_bytes(key),
                            wire::optional_bytes(payload),
                            wire::le_bytes(count, 4),
                            headers_bytes(headers),
                            rest,
                        );
                    }
                }
            }
        }
    }
}

proof fn lemma_numbers_as_written(bytes: Seq<u8>, count: nat)
    ensures
        parse_numbers(bytes, count) matches Parsed::Value(numbers, rest) ==> numbers.len() == count
            && bytes == numbers_bytes(numbers) + rest,
    decreases count,
{
    if count == 0 {
        assert(bytes =~= Seq::<u8>::empty() + bytes);
    } else {
        lemma_numbers_as_written(bytes, (count - 1) as nat);
        if let Parsed::Value(earlier, rest) = parse_numbers(bytes, (count - 1) as nat) {
            wire::law_signed_numbers_are_read_as_written(rest);
            if let Parsed::Value(number, behind) = wire::parse_i32(rest) {
                let numbers = earlier.push(number);
                assert(numbers.drop_last() =~= earlier);
                assert(bytes =~= numbers_bytes(earlier) + wire::le_bytes(
                    wire::unsigned_32(number),
                    4,
                ) + behind);
            }
        }
    }
}

/// What is read as a declaration is the bytes that the partitions are written as,
/// and they count up from zero.
pub proof fn law_declarations_are_read_as_written(bytes: Seq<u8>)
    ensures
        parse_declaration(bytes) matches Parsed::Value(partitions, rest) ==> bytes
            == declaration_bytes(partitions) + rest && (forall|i: int|
            0 <= i < partitions.len() ==> #[trigger] partitions[i] == i),
{
    wire::law_numbers_are_read_as_written(bytes, 4);
    if let Parsed::Value(count, rest) = wire::parse_number(bytes, 4) {
        lemma_numbers_as_written(rest, count);
        if let Parsed::Value(partitions, behind) = parse_declaration(bytes) {
            law_partitions_count_up(partitions);
            assert(bytes =~= wire::le_bytes(count, 4) + numbers_bytes(partitions) + behind);
        }
    }
}

/// Reading moves through the content without skipping anything: the start of a
/// partition takes no bytes, a record takes just its own, the end of a partition
/// takes its marker, and the end of the archive comes only behind the last
/// partition with nothing left.
pub proof fn law_readers_skip_nothing(state: ReaderState)
    ensures
        match step(state) {
            Step::Event(EventView::PartitionStart(partition), next) => {
                &&& !state.open && next.open
                &&& state.done < state.partitions.len() && partition
                    == state.partitions[state.done]
                &&& next.done == state.done && next.partitions == state.partitions
                &&& next.rest == state.rest
            },
            Step::Event(EventView::Record(record), next) => {
                &&& state.open && next.open
                &&& next.done == state.done && next.partitions == state.partitions
                &&& state.rest == seq![1u8] + fields_bytes(record) + next.rest
            },
            Step::Event(EventView::PartitionEnd(partition), next) => {
                &&& state.open && !next.open
                &&& partition == state.partitions[state.done]
                &&& next.done == state.done + 1 && next.partitions == state.partitions
                &&& state.rest == seq![0u8] + next.rest
            },
            Step::End => !state.open && state.done >= state.partitions.len() && state.rest.len()
                == 0,
            Step::Fault(_) => state.open || state.rest.len() > 0,
        },
{
    if state.open && state.rest.len() > 0 {
        let first = state.rest[0];
        let rest = state.rest.skip(1);
        assert(state.rest =~= seq![first] + rest);
        assert(state.rest.take(1)[0] == first);
        law_records_are_read_as_written(rest);
        if let Parsed::Value(record, behind) = parse_record(rest) {
            assert(seq![1u8] + (fields_bytes(record) + behind) =~= seq![1u8] + fields_bytes(record)
                + behind);
        }
    }
}

/// What a reader comes across is each step in turn, up to the end of the archive or
/// the first fault.
pub proof fn law_events_follow_the_steps(state: ReaderState)
    requires
        state.done < state.partitions.len() || (!state.open && state.done
            == state.partitions.len()),
    ensures
        match step(state) {
            Step::Event(event, next) => events(state) == (
                seq![event] + events(next).0,
                events(next).1,
            ),
            Step::End => events(state) == (Seq::<EventView>::empty(), None::<ArchiveFault>),
            Step::Fault(fault) => events(state) == (Seq::<EventView>::empty(), Some(fault)),
        },
{
}

/// The events of an archive are, for each partition in order, its start, each of
/// its records, and its end.
pub proof fn law_archives_hold_every_record(partitions: Seq<i32>, blocks: Seq<Seq<RecordView>>)
    requires
        partitions.len() == blocks.len(),
    ensures
        archive_events(partitions, blocks) == Seq::new(
            blocks.len(),
            |i: int|
                seq![EventView::PartitionStart(partitions[i])] + blocks[i].map_values(
                    |record: RecordView| EventView::Record(record),
                ) + seq![EventView::PartitionEnd(partitions[i])],
        ).flatten(),
    decreases blocks.len(),
{
    let held = Seq::new(
        blocks.len(),
        |i: int|
            seq![EventView::PartitionStart(partitions[i])] + blocks[i].map_values(
                |record: RecordView| EventView::Record(record),
            ) + seq![EventView::PartitionEnd(partitions[i])],
    );
    if blocks.len() > 0 {
        let rest = partitions.drop_first();
        let later = blocks.drop_first();
        law_archives_hold_every_record(rest, later);
        let behind = Seq::new(
            later.len(),
            |i: int|
                seq![EventView::PartitionStart(rest[i])] + later[i].map_values(
                    |record: RecordView| EventView::Record(record),
                ) + seq![EventView::PartitionEnd(rest[i])],
        );
        assert(held.drop_first() =~= behind) by {
            assert forall|i: int| 0 <= i < behind.len() implies held.drop_first()[i]
                == behind[i] by {
                assert(rest[i] == partitions[i + 1]);
                assert(later[i] == blocks[i + 1]);
            }
        }
        assert(held.first() == partition_events(partitions[0], blocks[0]));
    }
}

} // verus!
