//! Records on their way from a source topic or an archive to a destination
//! topic, and from a source topic into an archive.

use crate::archive;
use crate::archive::{ArchiveHeader, ArchiveRecord};
use crate::layout::{HeaderView, RecordView};
use crate::text;
use crate::topics::{TransferKind, TransferPlan};
use crate::wire;
use vstd::prelude::*;

verus! {

/// A record as it is read from a source topic. A record without headers may
/// have none at all, or an empty list of them.
#[derive(Debug)]
pub struct SourceMessage {
    pub topic: String,
    pub partition: i32,
    pub offset: i64,
    pub timestamp: Option<i64>,
    pub key: Option<Vec<u8>>,
    pub payload: Option<Vec<u8>>,
    pub headers: Option<Vec<ArchiveHeader>>,
}

/// A record as it is written to a destination topic.
#[derive(Debug)]
pub struct OutgoingRecord {
    pub topic: String,
    pub partition: i32,
    pub timestamp: Option<i64>,
    pub key: Option<Vec<u8>>,
    pub payload: Option<Vec<u8>>,
    pub headers: Option<Vec<ArchiveHeader>>,
}

/// The headers of an optional list.
pub open spec fn headers_of(headers: Option<Vec<ArchiveHeader>>) -> Seq<HeaderView> {
    match headers {
        Some(headers) => archive::header_views(headers@),
        None => Seq::empty(),
    }
}

impl SourceMessage {
    /// What the message carries.
    pub open spec fn carries(&self) -> RecordView {
        RecordView {
            timestamp: self.timestamp,
            key: wire::option_view(self.key),
            payload: wire::option_view(self.payload),
            headers: headers_of(self.headers),
        }
    }
}

impl OutgoingRecord {
    /// What the record carries.
    pub open spec fn carries(&self) -> RecordView {
        RecordView {
            timestamp: self.timestamp,
            key: wire::option_view(self.key),
            payload: wire::option_view(self.payload),
            headers: headers_of(self.headers),
        }
    }
}

/// A record that is to be sent, where it came from, and the source offset behind
/// it.
#[derive(Debug)]
pub struct Forwarded {
    pub record: OutgoingRecord,
    pub source_topic: String,
    pub next_offset: i64,
}

/// Makes a source record into the record that is sent: the destination topic is
/// the transfer's, the partition and everything that the record carries stay.
pub fn forward_message(plan: &TransferPlan, message: SourceMessage) -> (r: Forwarded)
    requires
        message.offset < i64::MAX,
    ensures
        r.record.topic@ == plan.destination_topic@,
        r.record.partition == message.partition,
        r.record.timestamp == message.timestamp,
        r.record.key == message.key,
        r.record.payload == message.payload,
        r.record.headers == message.headers,
        r.record.carries() == message.carries(),
        r.source_topic@ == message.topic@,
        r.next_offset == message.offset + 1,
{
    Forwarded {
        record: OutgoingRecord {
            topic: plan.destination_topic.clone(),
            partition: message.partition,
            timestamp: message.timestamp,
            key: message.key,
            payload: message.payload,
            headers: message.headers,
        },
        source_topic: message.topic,
        next_offset: message.offset + 1,
    }
}

/// How long the delivery of a record may take.
#[derive(Debug, Clone, Copy, PartialEq, Eq, Structural)]
pub enum SendTimeout {
    Seconds(u64),
    Never,
}

/// A clone's delivery fails after half a minute, a stream's never times out.
pub fn send_timeout(kind: TransferKind) -> (r: SendTimeout)
    ensures
        r == (match kind {
            TransferKind::Clone => SendTimeout::Seconds(30),
            TransferKind::Stream => SendTimeout::Never,
        }),
{
    match kind {
        TransferKind::Clone => SendTimeout::Seconds(30),
        TransferKind::Stream => SendTimeout::Never,
    }
}

/// Makes a source record into the record that an archive holds. Its topic and
/// its offset are left out.
pub fn archive_record_from_message(message: SourceMessage) -> (r: ArchiveRecord)
    ensures
        r@ == message.carries(),
        r.timestamp == message.timestamp,
        r.key == message.key,
        r.payload == message.payload,
        match message.headers {
            Some(headers) => r.headers == headers,
            None => r.headers@.len() == 0,
        },
{
    let headers: Vec<ArchiveHeader> = match message.headers {
        Some(headers) => headers,
        None => Vec::new(),
    };
    let r = ArchiveRecord {
        timestamp: message.timestamp,
        key: message.key,
        payload: message.payload,
        headers,
    };
    assert(r@.headers =~= message.carries().headers);
    r
}

/// Makes an archived record into the record that is sent to a partition of a
/// topic. A record without headers is sent without a list of them.
pub fn restore_record(topic: &str, partition: i32, record: ArchiveRecord) -> (r: OutgoingRecord)
    ensures
        r.topic@ == topic@,
        r.partition == partition,
        r.carries() == record@,
        r.headers is None <==> record.headers@.len() == 0,
        r.timestamp == record.timestamp,
        r.key == record.key,
        r.payload == record.payload,
        r.headers matches Some(headers) ==> headers == record.headers,
{
    let ghost views = record@.headers;
    let headers = if record.headers.len() == 0 {
        assert(views =~= Seq::<HeaderView>::empty());
        None
    } else {
        Some(record.headers)
    };
    OutgoingRecord {
        topic: topic.to_owned(),
        partition,
        timestamp: record.timestamp,
        key: record.key,
        payload: record.payload,
        headers,
    }
}

/// What is said of a record that could not be restored.
pub fn restore_failure(topic: &str, partition: i32, error: &str) -> (r: String)
    ensures
        r@ == "restore delivery failed for "@ + topic@ + " partition "@ + text::decimal(
            partition as int,
        ) + ": "@ + error@,
{
    let number = text::decimal_i64(partition as i64);
    let mut message = text::join5(
        "restore delivery failed for ",
        topic,
        " partition ",
        number.as_str(),
        ": ",
    );
    message.append(error);
    message
}

/// A record that is restored and read back carries what the archive holds, and
/// so is dumped as the same record again.
pub proof fn law_restored_records_dump_alike(
    archived: RecordView,
    sent: OutgoingRecord,
    read: SourceMessage,
)
    requires
        sent.carries() == archived,
        read.timestamp == sent.timestamp,
        read.key == sent.key,
        read.payload == sent.payload,
        headers_of(read.headers) == headers_of(sent.headers),
    ensures
        read.carries() == archived,
{
}

/// What a record carries is its timestamp, its key, its payload and all its headers
/// in order, with nothing left out.
pub proof fn law_records_carry_everything(message: SourceMessage, record: OutgoingRecord)
    ensures
        message.carries().timestamp == message.timestamp,
        message.carries().key == (match message.key {
            Some(key) => Some(key@),
            None => None,
        }),
        message.carries().payload == (match message.payload {
            Some(payload) => Some(payload@),
            None => None,
        }),
        message.carries().headers == (match message.headers {
            Some(headers) => headers@.map_values(|header: ArchiveHeader| header@),
            None => Seq::empty(),
        }),
        record.carries().timestamp == record.timestamp,
        record.carries().key == (match record.key {
            Some(key) => Some(key@),
            None => None,
        }),
        record.carries().payload == (match record.payload {
            Some(payload) => Some(payload@),
            None => None,
        }),
        record.carries().headers == (match record.headers {
            Some(headers) => headers@.map_values(|header: ArchiveHeader| header@),
            None => Seq::empty(),
        }),
{
}

/// A header carries its key and its value.
pub proof fn law_headers_carry_everything(header: ArchiveHeader)
    ensures
        header@.key == header.key@,
        header@.value == (match header.value {
            Some(value) => Some(value@),
            None => None,
        }),
{
}

/// An archived record holds its timestamp, its key, its payload and all its headers
/// in order.
pub proof fn law_archived_records_hold_everything(record: ArchiveRecord)
    ensures
        record@.timestamp == record.timestamp,
        record@.key == (match record.key {
            Some(key) => Some(key@),
            None => None,
        }),
        record@.payload == (match record.payload {
            Some(payload) => Some(payload@),
            None => None,
        }),
        record@.headers == record.headers@.map_values(|header: ArchiveHeader| header@),
{
}

} // verus!
