//! The state ledger: how far each clone has come, and which archives have been
//! restored.

use crate::archive;
use crate::failure;
use crate::failure::{fail, Failure, FailureView};
use crate::layout;
use crate::text;
use crate::text_map::TextMap;
use crate::topics;
use crate::topics::{ManagedTopic, ReferenceView, SourceTopicRef, TransferKind, TopicView};
use std::collections::HashMap;
use vstd::prelude::*;
use vstd::std_specs::hash::*;

verus! {

/// The format version of the ledger.
pub const STATE_FORMAT_VERSION: u16 = 1;

/// The ledger, keyed by destination topic.
#[derive(Debug, Clone)]
pub struct OffsetState {
    pub format_version: u16,
    pub clones: TextMap<CloneState>,
    pub restores: TextMap<RestoreMarker>,
}

/// How far a clone has come: the source it copies, and the next source offset
/// of each partition.
#[derive(Debug, Clone)]
pub struct CloneState {
    pub source: String,
    pub next_offsets: HashMap<i32, i64>,
}

/// The archive that a topic has been filled from.
#[derive(Debug, Clone)]
pub struct RestoreMarker {
    pub archive_sha256: String,
    pub archive_format_version: u16,
}

/// A clone's source and next offsets.
#[verifier::ext_equal]
pub struct CloneView {
    pub source: Seq<char>,
    pub next_offsets: Map<i32, i64>,
}

/// A restored archive's fingerprint and format version.
#[verifier::ext_equal]
pub struct MarkerView {
    pub archive_sha256: Seq<char>,
    pub archive_format_version: u16,
}

impl View for CloneState {
    type V = CloneView;

    open spec fn view(&self) -> CloneView {
        CloneView { source: self.source@, next_offsets: self.next_offsets@ }
    }
}

impl View for RestoreMarker {
    type V = MarkerView;

    open spec fn view(&self) -> MarkerView {
        MarkerView {
            archive_sha256: self.archive_sha256@,
            archive_format_version: self.archive_format_version,
        }
    }
}

impl OffsetState {
    /// The clone of a destination topic, if there is one.
    pub open spec fn clone_of(&self, topic: Seq<char>) -> Option<CloneView> {
        if self.clones@.contains_key(topic) {
            Some(self.clones@[topic]@)
        } else {
            None
        }
    }

    /// The archive that a destination topic has been filled from, if there is
    /// one.
    pub open spec fn marker_of(&self, topic: Seq<char>) -> Option<MarkerView> {
        if self.restores@.contains_key(topic) {
            Some(self.restores@[topic]@)
        } else {
            None
        }
    }

    /// The next source offset of a destination topic's partition, if it is
    /// recorded.
    pub open spec fn offset_of(&self, topic: Seq<char>, partition: i32) -> Option<i64> {
        match self.clone_of(topic) {
            Some(clone) => if clone.next_offsets.contains_key(partition) {
                Some(clone.next_offsets[partition])
            } else {
                None
            },
            None => None,
        }
    }

    /// Two ledgers agree on everything but one destination topic.
    pub open spec fn same_but(&self, other: OffsetState, topic: Seq<char>) -> bool {
        &&& self.format_version == other.format_version
        &&& forall|t: Seq<char>|
            t != topic ==> #[trigger] self.clone_of(t) == other.clone_of(t)
        &&& forall|t: Seq<char>|
            t != topic ==> #[trigger] self.marker_of(t) == other.marker_of(t)
    }
}

impl Default for OffsetState {
    fn default() -> (r: OffsetState)
        ensures
            r.format_version == STATE_FORMAT_VERSION,
            forall|t: Seq<char>| #[trigger] r.clone_of(t) is None,
            forall|t: Seq<char>| #[trigger] r.marker_of(t) is None,
    {
        OffsetState {
            format_version: STATE_FORMAT_VERSION,
            clones: TextMap::new(),
            restores: TextMap::new(),
        }
    }
}

/// What is wrong with a ledger read from a file.
pub open spec fn version_fault(version: u16, path: Seq<char>) -> Option<FailureView> {
    if version != STATE_FORMAT_VERSION {
        Some(
            failure::failed(
                "unsupported state format version "@ + text::decimal(version as int) + " in "@
                    + path,
            ),
        )
    } else {
        None
    }
}

/// Checks the format version of a ledger read from a file.
pub fn check_version(version: u16, path: &str) -> (r: Result<(), Failure>)
    ensures
        failure::tells(r, version_fault(version, path@)),
{
    if version != STATE_FORMAT_VERSION {
        let mut message = text::join3(
            "unsupported state format version ",
            text::decimal_u64(version as u64).as_str(),
            " in ",
        );
        message.append(path);
        return Err(fail(message));
    }
    Ok(())
}

impl OffsetState {
    /// The ledger to start with: what the file holds, or an empty one where
    /// there is no file.
    pub fn load(stored: Option<OffsetState>, path: &str) -> (r: Result<OffsetState, Failure>)
        ensures
            match stored {
                Some(state) => failure::tells(r, version_fault(state.format_version, path@)) && (
                r matches Ok(loaded) ==> loaded == state),
                None => r matches Ok(loaded) && loaded.format_version == STATE_FORMAT_VERSION && (
                forall|t: Seq<char>|
                    #[trigger] loaded.clone_of(t) is None && loaded.marker_of(t) is None),
            },
    {
        match stored {
            Some(state) => {
                if let Err(failure) = check_version(state.format_version, path) {
                    return Err(failure);
                }
                Ok(state)
            },
            None => {
                let state = OffsetState::default();
                assert forall|t: Seq<char>| #[trigger] state.clone_of(t) is None && state.marker_of(
                    t,
                ) is None by {
                    assert(state.marker_of(t) is None);
                }
                Ok(state)
            },
        }
    }

    /// The next source offset of a destination topic's partition, if it is
    /// recorded.
    pub fn next_offset(&self, destination_topic: &str, partition: i32) -> (r: Option<i64>)
        ensures
            r == self.offset_of(destination_topic@, partition),
    {
        broadcast use group_hash_axioms;

        match self.clones.get(destination_topic) {
            Some(clone) => match clone.next_offsets.get(&partition) {
                Some(offset) => Some(*offset),
                None => None,
            },
            None => None,
        }
    }

    /// Records the next source offset of a destination topic's partition. A
    /// topic that is new to the ledger is bound to its source.
    pub fn update_next_offset(
        &mut self,
        destination_topic: &str,
        source: &SourceTopicRef,
        partition: i32,
        next_offset: i64,
    )
        ensures
            final(self).same_but(*old(self), destination_topic@),
            final(self).marker_of(destination_topic@) == old(self).marker_of(destination_topic@),
            final(self).clone_of(destination_topic@) == Some(
                match old(self).clone_of(destination_topic@) {
                    Some(clone) => CloneView {
                        source: clone.source,
                        next_offsets: clone.next_offsets.insert(partition, next_offset),
                    },
                    None => CloneView {
                        source: topics::reference_text(source@),
                        next_offsets: Map::<i32, i64>::empty().insert(partition, next_offset),
                    },
                },
            ),
    {
        broadcast use group_hash_axioms;

        let mut clone = match self.clones.remove(destination_topic) {
            Some(clone) => clone,
            None => CloneState { source: source.display(), next_offsets: HashMap::new() },
        };
        clone.next_offsets.insert(partition, next_offset);
        self.clones.insert(destination_topic.to_owned(), clone);
    }

    /// Binds a destination topic that has just been created to the source it
    /// clones, with no offset recorded.
    pub fn begin_clone(&mut self, destination_topic: &str, source: &SourceTopicRef)
        ensures
            final(self).same_but(*old(self), destination_topic@),
            final(self).marker_of(destination_topic@) == old(self).marker_of(destination_topic@),
            final(self).clone_of(destination_topic@) == Some(
                CloneView {
                    source: topics::reference_text(source@),
                    next_offsets: Map::<i32, i64>::empty(),
                },
            ),
    {
        broadcast use group_hash_axioms;

        let clone = CloneState { source: source.display(), next_offsets: HashMap::new() };
        self.clones.insert(destination_topic.to_owned(), clone);
    }

    /// Forgets a destination topic, and says whether anything was recorded of
    /// it.
    pub fn clear_topic(&mut self, destination_topic: &str) -> (r: bool)
        ensures
            r == (old(self).clone_of(destination_topic@) is Some || old(self).marker_of(
                destination_topic@,
            ) is Some),
            final(self).same_but(*old(self), destination_topic@),
            final(self).clone_of(destination_topic@) is None,
            final(self).marker_of(destination_topic@) is None,
    {
        let removed_offsets = self.clones.remove(destination_topic).is_some();
        let removed_restore = self.restores.remove(destination_topic).is_some();
        removed_offsets || removed_restore
    }

    /// Whether a destination topic has been filled from the archive with the
    /// fingerprint.
    pub fn restore_matches(&self, destination_topic: &str, fingerprint: &str) -> (r: bool)
        ensures
            r == (self.marker_of(destination_topic@) == Some(
                MarkerView {
                    archive_sha256: fingerprint@,
                    archive_format_version: layout::VERSION,
                },
            )),
    {
        match self.restores.get(destination_topic) {
            Some(marker) => text::same(marker.archive_sha256.as_str(), fingerprint)
                && marker.archive_format_version == archive::format_version(),
            None => false,
        }
    }

    /// Records that a destination topic has been filled from the archive with
    /// the fingerprint.
    pub fn mark_restored(&mut self, destination_topic: &str, fingerprint: String)
        ensures
            final(self).same_but(*old(self), destination_topic@),
            final(self).clone_of(destination_topic@) == old(self).clone_of(destination_topic@),
            final(self).marker_of(destination_topic@) == Some(
                MarkerView {
                    archive_sha256: fingerprint@,
                    archive_format_version: layout::VERSION,
                },
            ),
    {
        let marker = RestoreMarker {
            archive_sha256: fingerprint,
            archive_format_version: archive::format_version(),
        };
        self.restores.insert(destination_topic.to_owned(), marker);
    }
}

/// A topic's clone source, if it is a clone.
pub open spec fn clone_source(topic: TopicView) -> Option<ReferenceView> {
    match topic.transfer {
        Some(transfer) => if transfer.kind == TransferKind::Clone {
            Some(transfer.source)
        } else {
            None
        },
        None => None,
    }
}

/// What is wrong with a ledger's record of a topic.
pub open spec fn state_fault(state: OffsetState, topic: TopicView) -> Option<FailureView> {
    match clone_source(topic) {
        Some(source) => match state.clone_of(topic.name) {
            Some(clone) => if clone.source != topics::reference_text(source) {
                Some(
                    failure::failed(
                        "state for destination topic "@ + topic.name + " belongs to source "@
                            + clone.source + " but config uses "@ + topics::reference_text(source),
                    ),
                )
            } else {
                None
            },
            None => None,
        },
        None => None,
    }
}

/// The first thing wrong with a ledger's records of some topics.
pub open spec fn states_fault(state: OffsetState, topics: Seq<ManagedTopic>) -> Option<FailureView>
    decreases topics.len(),
{
    if topics.len() == 0 {
        None
    } else {
        failure::first(
            states_fault(state, topics.drop_last()),
            state_fault(state, topics.last()@),
        )
    }
}

proof fn lemma_states_fault_stays(state: OffsetState, topics: Seq<ManagedTopic>, count: int)
    requires
        0 <= count <= topics.len(),
        states_fault(state, topics.take(count)) is Some,
    ensures
        states_fault(state, topics) == states_fault(state, topics.take(count)),
    decreases topics.len(),
{
    if count < topics.len() {
        assert(topics.drop_last().take(count) == topics.take(count));
        lemma_states_fault_stays(state, topics.drop_last(), count);
    } else {
        assert(topics.take(count) == topics);
    }
}

fn validate_state_source(state: &OffsetState, topic: &ManagedTopic) -> (r: Result<(), Failure>)
    ensures
        failure::tells(r, state_fault(*state, topic@)),
{
    if let Some(transfer) = &topic.transfer {
        if transfer.kind == TransferKind::Clone {
            if let Some(clone) = state.clones.get(topic.name.as_str()) {
                let configured = transfer.source.display();
                if !text::same(clone.source.as_str(), configured.as_str()) {
                    let mut message = text::join5(
                        "state for destination topic ",
                        topic.name.as_str(),
                        " belongs to source ",
                        clone.source.as_str(),
                        " but config uses ",
                    );
                    message.append(configured.as_str());
                    return Err(fail(message));
                }
            }
        }
    }
    Ok(())
}

/// Checks that every clone that the ledger knows still copies the source it is
/// bound to.
pub fn validate_state_sources(state: &OffsetState, topics: &[ManagedTopic]) -> (r: Result<
    (),
    Failure,
>)
    ensures
        failure::tells(r, states_fault(*state, topics@)),
{
    let mut i: usize = 0;
    while i < topics.len()
        invariant
            i <= topics@.len(),
            states_fault(*state, topics@.take(i as int)) is None,
        decreases topics@.len() - i,
    {
        proof {
            assert(topics@.take(i + 1).drop_last() == topics@.take(i as int));
            if states_fault(*state, topics@.take(i + 1)) is Some {
                lemma_states_fault_stays(*state, topics@, i + 1);
            }
        }
        if let Err(failure) = validate_state_source(state, &topics[i]) {
            return Err(failure);
        }
        i = i + 1;
    }
    assert(topics@.take(i as int) == topics@);
    Ok(())
}

/// A stream of the name stands among some topics.
pub open spec fn streams_into(topics: Seq<ManagedTopic>, name: Seq<char>) -> bool {
    exists|i: int|
        0 <= i < topics.len() && is_stream((#[trigger] topics[i])@) && topics[i].name@ == name
}

/// A topic is a stream.
pub open spec fn is_stream(topic: TopicView) -> bool {
    topic.transfer is Some && topic.transfer->0.kind == TransferKind::Stream
}

/// Forgets every stream topic, and says whether anything was recorded of any.
pub fn clear_stream_topics(state: &mut OffsetState, topics: &[ManagedTopic]) -> (r: bool)
    ensures
        final(state).format_version == old(state).format_version,
        forall|t: Seq<char>|
            #[trigger] final(state).clone_of(t) == (if streams_into(topics@, t) {
                None
            } else {
                old(state).clone_of(t)
            }),
        forall|t: Seq<char>|
            #[trigger] final(state).marker_of(t) == (if streams_into(topics@, t) {
                None
            } else {
                old(state).marker_of(t)
            }),
        r == exists|t: Seq<char>| #[trigger]
            streams_into(topics@, t) && (old(state).clone_of(t) is Some || old(state).marker_of(
                t,
            ) is Some),
{
    let mut changed = false;
    let mut i: usize = 0;
    while i < topics.len()
        invariant
            i <= topics@.len(),
            state.format_version == old(state).format_version,
            forall|t: Seq<char>|
                #[trigger] state.clone_of(t) == (if streams_into(topics@.take(i as int), t) {
                    None
                } else {
                    old(state).clone_of(t)
                }),
            forall|t: Seq<char>|
                #[trigger] state.marker_of(t) == (if streams_into(topics@.take(i as int), t) {
                    None
                } else {
                    old(state).marker_of(t)
                }),
            changed == exists|t: Seq<char>| #[trigger]
                streams_into(topics@.take(i as int), t) && (old(state).clone_of(t) is Some || old(
                    state,
                ).marker_of(t) is Some),
        decreases topics@.len() - i,
    {
        let ghost front = topics@.take(i as int);
        let ghost more = topics@.take(i + 1);
        let ghost name = topics@[i as int].name@;
        let ghost before = *state;
        let stream = match &topics[i].transfer {
            Some(transfer) => transfer.kind == TransferKind::Stream,
            None => false,
        };
        if stream {
            let removed = state.clear_topic(topics[i].name.as_str());
            changed = changed || removed;
        }
        proof {
            assert forall|t: Seq<char>| #[trigger] streams_into(more, t) == (streams_into(front, t)
                || (stream && t == name)) by {
                lemma_streams_into_more(topics@, i as int, t);
            }
            if stream {
                assert(before.clone_of(name) == (if streams_into(front, name) {
                    None
                } else {
                    old(state).clone_of(name)
                }));
                assert(before.marker_of(name) == (if streams_into(front, name) {
                    None
                } else {
                    old(state).marker_of(name)
                }));
                assert(streams_into(more, name));
            }
            assert(changed == exists|t: Seq<char>| #[trigger]
                streams_into(more, t) && (old(state).clone_of(t) is Some || old(state).marker_of(
                    t,
                ) is Some)) by {
                if exists|t: Seq<char>| #[trigger]
                    streams_into(front, t) && (old(state).clone_of(t) is Some || old(
                        state,
                    ).marker_of(t) is Some) {
                    let t = choose|t: Seq<char>| #[trigger]
                        streams_into(front, t) && (old(state).clone_of(t) is Some || old(
                            state,
                        ).marker_of(t) is Some);
                    assert(streams_into(more, t));
                }
                if exists|t: Seq<char>| #[trigger]
                    streams_into(more, t) && (old(state).clone_of(t) is Some || old(
                        state,
                    ).marker_of(t) is Some) {
                    let t = choose|t: Seq<char>| #[trigger]
                        streams_into(more, t) && (old(state).clone_of(t) is Some || old(
                            state,
                        ).marker_of(t) is Some);
                    assert(streams_into(front, t) || (stream && t == name));
                }
            }
        }
        i = i + 1;
    }
    assert(topics@.take(i as int) == topics@);
    changed
}

proof fn lemma_streams_into_more(topics: Seq<ManagedTopic>, at: int, name: Seq<char>)
    requires
        0 <= at < topics.len(),
    ensures
        streams_into(topics.take(at + 1), name) == (streams_into(topics.take(at), name) || (
        is_stream(topics[at]@) && topics[at].name@ == name)),
{
    let front = topics.take(at);
    let more = topics.take(at + 1);
    if streams_into(front, name) {
        let i = choose|i: int|
            0 <= i < front.len() && is_stream((#[trigger] front[i])@) && front[i].name@ == name;
        assert(more[i] == front[i]);
    }
    if streams_into(more, name) {
        let i = choose|i: int|
            0 <= i < more.len() && is_stream((#[trigger] more[i])@) && more[i].name@ == name;
        if i < at {
            assert(front[i] == more[i]);
        }
    }
    assert(more[at] == topics[at]);
}

/// Whether the ledger is to be written out: always when that is asked for,
/// otherwise only when it has changed since it was last written.
pub fn flush_due(force: bool, changed: bool) -> (r: bool)
    ensures
        r == (force || changed),
{
    force || changed
}

/// A recorded offset is the one in the clone of its destination topic.
pub proof fn law_offsets_are_of_their_clone(state: OffsetState, topic: Seq<char>, partition: i32)
    ensures
        state.offset_of(topic, partition) == (if state.clones@.contains_key(topic)
            && state.clones@[topic].next_offsets@.contains_key(partition) {
            Some(state.clones@[topic].next_offsets@[partition])
        } else {
            None
        }),
        state.clone_of(topic) == (if state.clones@.contains_key(topic) {
            Some(
                CloneView {
                    source: state.clones@[topic].source@,
                    next_offsets: state.clones@[topic].next_offsets@,
                },
            )
        } else {
            None
        }),
        state.marker_of(topic) == (if state.restores@.contains_key(topic) {
            Some(
                MarkerView {
                    archive_sha256: state.restores@[topic].archive_sha256@,
                    archive_format_version: state.restores@[topic].archive_format_version,
                },
            )
        } else {
            None
        }),
{
}

/// A ledger is accepted exactly where every clone that it knows is still
/// configured with the source that it is bound to.
pub proof fn law_clones_keep_their_source(state: OffsetState, topics: Seq<ManagedTopic>)
    ensures
        states_fault(state, topics) is None <==> forall|i: int|
            0 <= i < topics.len() ==> ((#[trigger] topics[i]).transfer matches Some(transfer) ==> (
            transfer.kind == TransferKind::Clone && state.clones@.contains_key(topics[i].name@)
                ==> state.clones@[topics[i].name@].source@ == transfer.source.instance@ + ":"@
                + transfer.source.topic@)),
    decreases topics.len(),
{
    if topics.len() > 0 {
        let front = topics.drop_last();
        law_clones_keep_their_source(state, front);
        assert(forall|i: int| 0 <= i < front.len() ==> topics[i] == #[trigger] front[i]);
        if states_fault(state, topics) is None {
            assert forall|i: int| 0 <= i < topics.len() implies ((
            #[trigger] topics[i]).transfer matches Some(transfer) ==> (transfer.kind
                == TransferKind::Clone && state.clones@.contains_key(topics[i].name@)
                ==> state.clones@[topics[i].name@].source@ == transfer.source.instance@ + ":"@
                + transfer.source.topic@)) by {
                if i < front.len() {
                    assert(front[i] == topics[i]);
                }
            }
        } else if states_fault(state, front) is None {
            assert(topics[topics.len() - 1] == topics.last());
        }
    }
}

/// Ledgers that agree on everything but one topic agree on the offsets and the
/// markers of every other.
pub proof fn law_other_topics_stay(
    state: OffsetState,
    other: OffsetState,
    topic: Seq<char>,
    another: Seq<char>,
    partition: i32,
)
    requires
        state.same_but(other, topic),
        another != topic,
    ensures
        state.clones@.contains_key(another) == other.clones@.contains_key(another),
        state.clones@.contains_key(another) ==> state.clones@[another]@ == other.clones@[another]@,
        state.restores@.contains_key(another) == other.restores@.contains_key(another),
        state.restores@.contains_key(another) ==> state.restores@[another]@
            == other.restores@[another]@,
        state.offset_of(another, partition) == other.offset_of(another, partition),
        state.format_version == other.format_version,
{
    assert(state.clone_of(another) == other.clone_of(another));
    assert(state.marker_of(another) == other.marker_of(another));
}

/// Streams are the topics with a stream of their own.
pub proof fn law_streams_are_told_apart(topics: Seq<ManagedTopic>, name: Seq<char>)
    ensures
        streams_into(topics, name) <==> exists|i: int|
            0 <= i < topics.len() && (#[trigger] topics[i]).name@ == name
                && topics[i].transfer is Some && topics[i].transfer->0.kind
                == TransferKind::Stream,
{
    if streams_into(topics, name) {
        let i = choose|i: int|
            0 <= i < topics.len() && is_stream((#[trigger] topics[i])@) && topics[i].name@ == name;
        assert(topics[i].name@ == name && topics[i].transfer is Some);
    }
    if exists|i: int|
        0 <= i < topics.len() && (#[trigger] topics[i]).name@ == name && topics[i].transfer is Some
            && topics[i].transfer->0.kind == TransferKind::Stream {
        let i = choose|i: int|
            0 <= i < topics.len() && (#[trigger] topics[i]).name@ == name
                && topics[i].transfer is Some && topics[i].transfer->0.kind
                == TransferKind::Stream;
        assert(is_stream(topics[i]@));
    }
}

/// A ledger is read exactly where it is of the format version that is written.
pub proof fn law_ledgers_are_of_this_version(version: u16, path: Seq<char>)
    ensures
        version_fault(version, path) is None <==> version == 1,
{
}

/// Of the clones that are configured with another source, the first is told.
pub proof fn law_first_rebound_clone_is_told(
    state: OffsetState,
    topics: Seq<ManagedTopic>,
    at: int,
)
    requires
        0 <= at < topics.len(),
        states_fault(state, topics.take(at)) is None,
        state_fault(state, topics[at]@) is Some,
    ensures
        states_fault(state, topics) == state_fault(state, topics[at]@),
{
    assert(topics.take(at + 1).drop_last() =~= topics.take(at));
    assert(topics.take(at + 1).last() == topics[at]);
    lemma_states_fault_stays(state, topics, at + 1);
}

} // verus!
