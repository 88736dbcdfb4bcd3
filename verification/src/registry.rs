//! The state registry: what is recorded of the destination topics of each
//! cluster, and the identities that fence each record.

use crate::failure;
use crate::failure::{fail, Failure, FailureView};
use crate::state;
use crate::state::{check_version, CloneView, MarkerView, OffsetState};
use crate::text;
use crate::text_map::TextMap;
use crate::topics::{ManagedTopic, TopicView, TransferKind};
use vstd::prelude::*;

verus! {

/// A source topic's identity: its cluster's ID, and its UUID.
#[derive(Debug, Clone)]
pub struct SourceIdentity {
    pub cluster_id: String,
    pub topic_id: String,
}

/// The identities that a record is made under: the destination topic's UUID,
/// and of a clone the identity of its source.
#[derive(Debug, Clone)]
pub struct Fence {
    pub topic_id: String,
    pub source: Option<SourceIdentity>,
}

/// A source topic's identity.
#[verifier::ext_equal]
pub struct SourceIdentityView {
    pub cluster_id: Seq<char>,
    pub topic_id: Seq<char>,
}

/// The identities that a record is made under.
#[verifier::ext_equal]
pub struct FenceView {
    pub topic_id: Seq<char>,
    pub source: Option<SourceIdentityView>,
}

/// Everything that is recorded of a destination topic.
#[verifier::ext_equal]
pub struct EntryView {
    pub progress: Option<CloneView>,
    pub marker: Option<MarkerView>,
    pub fence: Option<FenceView>,
}

impl View for SourceIdentity {
    type V = SourceIdentityView;

    open spec fn view(&self) -> SourceIdentityView {
        SourceIdentityView { cluster_id: self.cluster_id@, topic_id: self.topic_id@ }
    }
}

/// An optional source identity.
pub open spec fn source_view(source: Option<SourceIdentity>) -> Option<SourceIdentityView> {
    match source {
        Some(source) => Some(source@),
        None => None,
    }
}

impl View for Fence {
    type V = FenceView;

    open spec fn view(&self) -> FenceView {
        FenceView { topic_id: self.topic_id@, source: source_view(self.source) }
    }
}

/// What is recorded of the destination topics of one cluster. A topic that an
/// archive is restored into has a fence from before the first record is copied,
/// and a marker only when the last one has been acknowledged.
#[derive(Debug, Clone)]
pub struct ClusterState {
    pub ledger: OffsetState,
    pub fences: TextMap<Fence>,
}

/// Nothing recorded of a topic.
pub open spec fn nothing() -> EntryView {
    EntryView { progress: None, marker: None, fence: None }
}

/// How the identities that a record is made under differ from those of the live
/// topics.
pub open spec fn fence_gap(saved: Option<FenceView>, live: FenceView) -> Option<Seq<char>> {
    match saved {
        None => Some("no topic identity is saved"@),
        Some(saved) => if saved.topic_id != live.topic_id {
            Some("saved topic UUID is "@ + saved.topic_id + " but the topic has "@ + live.topic_id)
        } else if saved.source != live.source {
            Some("saved source identity is not that of the source topic"@)
        } else {
            None
        },
    }
}

/// A topic whose record depends on which topic it is.
pub open spec fn is_fenced(topic: TopicView) -> bool {
    state::clone_source(topic) is Some || topic.restore is Some
}

/// How an existing topic differs from the one that is recorded: only clones and
/// topics with an archive are fenced.
pub open spec fn identity_drift_of(
    saved: Option<FenceView>,
    topic: TopicView,
    live: FenceView,
) -> Option<Seq<char>> {
    if is_fenced(topic) {
        fence_gap(saved, live)
    } else {
        None
    }
}

/// A topic's identities, as the clusters tell them.
#[derive(Debug)]
pub struct LiveTopic {
    pub topic: String,
    pub identity: Fence,
}

/// What is wrong with recording something of a live topic.
pub open spec fn live_fault(cluster: ClusterState, live: LiveTopic) -> Option<FailureView> {
    match fence_gap(cluster.fence_of(live.topic@), live.identity@) {
        Some(gap) => Some(
            failure::failed(
                "destination topic "@ + live.topic@ + " is not the one that is recorded: "@ + gap,
            ),
        ),
        None => None,
    }
}

/// The first thing wrong with recording something of some live topics.
pub open spec fn lives_fault(cluster: ClusterState, lives: Seq<LiveTopic>) -> Option<FailureView>
    decreases lives.len(),
{
    if lives.len() == 0 {
        None
    } else {
        failure::first(
            lives_fault(cluster, lives.drop_last()),
            live_fault(cluster, lives.last()),
        )
    }
}

proof fn lemma_lives_fault_stays(cluster: ClusterState, lives: Seq<LiveTopic>, count: int)
    requires
        0 <= count <= lives.len(),
        lives_fault(cluster, lives.take(count)) is Some,
    ensures
        lives_fault(cluster, lives) == lives_fault(cluster, lives.take(count)),
    decreases lives.len(),
{
    if count < lives.len() {
        assert(lives.drop_last().take(count) == lives.take(count));
        lemma_lives_fault_stays(cluster, lives.drop_last(), count);
    } else {
        assert(lives.take(count) == lives);
    }
}

fn same_source(a: &Option<SourceIdentity>, b: &Option<SourceIdentity>) -> (r: bool)
    ensures
        r == (source_view(*a) == source_view(*b)),
{
    match a {
        Some(a) => match b {
            Some(b) => text::same(a.cluster_id.as_str(), b.cluster_id.as_str()) && text::same(
                a.topic_id.as_str(),
                b.topic_id.as_str(),
            ),
            None => false,
        },
        None => b.is_none(),
    }
}

/// A destination topic of the name is configured.
pub open spec fn is_configured(topics: Seq<ManagedTopic>, name: Seq<char>) -> bool {
    exists|i: int| 0 <= i < topics.len() && (#[trigger] topics[i]).name@ == name
}

/// What is wrong with resetting a topic.
pub open spec fn reset_fault(topics: Seq<ManagedTopic>, name: Option<&str>) -> Option<FailureView> {
    match name {
        Some(name) => if !is_configured(topics, name@) {
            Some(failure::failed("destination topic "@ + name@ + " is not configured"@))
        } else {
            None
        },
        None => None,
    }
}

/// A topic is reset: it is configured, and it is the one that is asked for
/// where one is.
pub open spec fn is_reset(
    topics: Seq<ManagedTopic>,
    name: Option<&str>,
    topic: Seq<char>,
) -> bool {
    is_configured(topics, topic) && (name matches Some(name) ==> name@ == topic)
}

fn configures(topics: &[ManagedTopic], name: &str) -> (r: bool)
    ensures
        r == is_configured(topics@, name@),
{
    let mut i: usize = 0;
    while i < topics.len()
        invariant
            i <= topics@.len(),
            forall|j: int| 0 <= j < i ==> (#[trigger] topics@[j]).name@ != name@,
        decreases topics@.len() - i,
    {
        if text::same(topics[i].name.as_str(), name) {
            return true;
        }
        i = i + 1;
    }
    false
}

impl ClusterState {
    /// The identities that a destination topic's record is made under.
    pub open spec fn fence_of(&self, topic: Seq<char>) -> Option<FenceView> {
        if self.fences@.contains_key(topic) {
            Some(self.fences@[topic]@)
        } else {
            None
        }
    }

    /// Everything that is recorded of a destination topic.
    pub open spec fn entry(&self, topic: Seq<char>) -> EntryView {
        EntryView {
            progress: self.ledger.clone_of(topic),
            marker: self.ledger.marker_of(topic),
            fence: self.fence_of(topic),
        }
    }

    /// Two records agree on everything but one destination topic.
    pub open spec fn same_but(&self, other: ClusterState, topic: Seq<char>) -> bool {
        &&& self.ledger.format_version == other.ledger.format_version
        &&& forall|t: Seq<char>| t != topic ==> #[trigger] self.entry(t) == other.entry(t)
    }

    /// A record of no topics.
    pub fn new() -> (r: ClusterState)
        ensures
            r.ledger.format_version == state::STATE_FORMAT_VERSION,
            forall|t: Seq<char>| #[trigger] r.entry(t) == nothing(),
    {
        let r = ClusterState { ledger: OffsetState::default(), fences: TextMap::new() };
        assert forall|t: Seq<char>| #[trigger] r.entry(t) == nothing() by {
            assert(r.ledger.clone_of(t) is None);
            assert(r.ledger.marker_of(t) is None);
        }
        r
    }

    /// Records the identities of a destination topic that has just been created.
    pub fn record_identity(&mut self, topic: &str, identity: Fence)
        ensures
            final(self).same_but(*old(self), topic@),
            final(self).entry(topic@) == (EntryView {
                fence: Some(identity@),
                ..old(self).entry(topic@)
            }),
    {
        self.fences.insert(topic.to_owned(), identity);
    }

    /// Forgets a destination topic, and says whether anything was recorded of
    /// it.
    pub fn clear_topic(&mut self, topic: &str) -> (r: bool)
        ensures
            r == (old(self).entry(topic@) != nothing()),
            final(self).same_but(*old(self), topic@),
            final(self).entry(topic@) == nothing(),
    {
        let fenced = self.fences.remove(topic).is_some();
        let cleared = self.ledger.clear_topic(topic);
        proof {
            assert forall|t: Seq<char>| t != topic@ implies #[trigger] self.entry(t) == old(
                self,
            ).entry(t) by {
                assert(self.ledger.clone_of(t) == old(self).ledger.clone_of(t));
                assert(self.ledger.marker_of(t) == old(self).ledger.marker_of(t));
            }
        }
        fenced || cleared
    }

    /// Forgets one configured destination topic, or all of them where none is
    /// named.
    pub fn reset_topics(&mut self, topics: &[ManagedTopic], name: Option<&str>) -> (r: Result<
        (),
        Failure,
    >)
        ensures
            failure::tells(r, reset_fault(topics@, name)),
            final(self).ledger.format_version == old(self).ledger.format_version,
            forall|t: Seq<char>|
                #[trigger] final(self).entry(t) == (if is_reset(topics@, name, t) {
                    nothing()
                } else {
                    old(self).entry(t)
                }),
    {
        if let Some(name) = name {
            if !configures(topics, name) {
                return Err(
                    fail(text::join3("destination topic ", name, " is not configured")),
                );
            }
            self.clear_topic(name);
            return Ok(());
        }
        let mut i: usize = 0;
        while i < topics.len()
            invariant
                i <= topics@.len(),
                name is None,
                self.ledger.format_version == old(self).ledger.format_version,
                forall|t: Seq<char>|
                    #[trigger] self.entry(t) == (if is_configured(topics@.take(i as int), t) {
                        nothing()
                    } else {
                        old(self).entry(t)
                    }),
            decreases topics@.len() - i,
        {
            let ghost before = *self;
            self.clear_topic(topics[i].name.as_str());
            proof {
                assert forall|t: Seq<char>| #[trigger] self.entry(t) == (if is_configured(
                    topics@.take(i + 1),
                    t,
                ) {
                    nothing()
                } else {
                    old(self).entry(t)
                }) by {
                    lemma_configured_more(topics@, i as int, t);
                    if t != topics@[i as int].name@ {
                        assert(self.entry(t) == before.entry(t));
                    }
                }
            }
            i = i + 1;
        }
        assert(topics@.take(i as int) == topics@);
        Ok(())
    }

    fn gap(&self, topic: &str, live: &Fence) -> (r: Option<String>)
        ensures
            (match r {
                Some(gap) => Some(gap@),
                None => None,
            }) == fence_gap(self.fence_of(topic@), live@),
    {
        match self.fences.get(topic) {
            None => Some("no topic identity is saved".to_owned()),
            Some(saved) => {
                if !text::same(saved.topic_id.as_str(), live.topic_id.as_str()) {
                    let mut gap = text::join3(
                        "saved topic UUID is ",
                        saved.topic_id.as_str(),
                        " but the topic has ",
                    );
                    gap.append(live.topic_id.as_str());
                    return Some(gap);
                }
                if !same_source(&saved.source, &live.source) {
                    return Some("saved source identity is not that of the source topic".to_owned());
                }
                None
            },
        }
    }

    /// How an existing topic differs from the one that is recorded, if it is
    /// fenced and does.
    pub fn identity_drift(&self, topic: &ManagedTopic, live: &Fence) -> (r: Option<String>)
        ensures
            (match r {
                Some(reason) => Some(reason@),
                None => None,
            }) == identity_drift_of(self.fence_of(topic.name@), topic@, live@),
    {
        let clone = match &topic.transfer {
            Some(transfer) => transfer.kind == TransferKind::Clone,
            None => false,
        };
        if clone || topic.restore.is_some() {
            self.gap(topic.name.as_str(), live)
        } else {
            None
        }
    }

    /// Checks that some live topics are still those that are recorded, before
    /// anything more is recorded of them.
    pub fn revalidate(&self, lives: &[LiveTopic]) -> (r: Result<(), Failure>)
        ensures
            failure::tells(r, lives_fault(*self, lives@)),
    {
        let mut i: usize = 0;
        while i < lives.len()
            invariant
                i <= lives@.len(),
                lives_fault(*self, lives@.take(i as int)) is None,
            decreases lives@.len() - i,
        {
            let live = &lives[i];
            proof {
                assert(lives@.take(i + 1).drop_last() == lives@.take(i as int));
                if lives_fault(*self, lives@.take(i + 1)) is Some {
                    lemma_lives_fault_stays(*self, lives@, i + 1);
                }
            }
            if let Some(gap) = self.gap(live.topic.as_str(), &live.identity) {
                let mut message = text::join3(
                    "destination topic ",
                    live.topic.as_str(),
                    " is not the one that is recorded: ",
                );
                message.append(gap.as_str());
                return Err(fail(message));
            }
            i = i + 1;
        }
        assert(lives@.take(i as int) == lives@);
        Ok(())
    }
}

proof fn lemma_configured_more(topics: Seq<ManagedTopic>, at: int, name: Seq<char>)
    requires
        0 <= at < topics.len(),
    ensures
        is_configured(topics.take(at + 1), name) == (is_configured(topics.take(at), name)
            || topics[at].name@ == name),
{
    let front = topics.take(at);
    let more = topics.take(at + 1);
    if is_configured(front, name) {
        let i = choose|i: int| 0 <= i < front.len() && (#[trigger] front[i]).name@ == name;
        assert(more[i] == front[i]);
    }
    if is_configured(more, name) {
        let i = choose|i: int| 0 <= i < more.len() && (#[trigger] more[i]).name@ == name;
        if i < at {
            assert(front[i] == more[i]);
        }
    }
    assert(more[at] == topics[at]);
}

/// The records of every destination cluster, by the cluster's ID.
#[derive(Debug, Clone)]
pub struct Registry {
    pub clusters: TextMap<ClusterState>,
}

/// The first of some clusters whose record has another format.
pub open spec fn versions_fault(
    ids: Seq<Seq<char>>,
    clusters: Map<Seq<char>, ClusterState>,
    path: Seq<char>,
) -> Option<FailureView>
    decreases ids.len(),
{
    if ids.len() == 0 {
        None
    } else {
        failure::first(
            versions_fault(ids.drop_last(), clusters, path),
            state::version_fault(clusters[ids.last()].ledger.format_version, path),
        )
    }
}

proof fn lemma_versions_fault_stays(
    ids: Seq<Seq<char>>,
    clusters: Map<Seq<char>, ClusterState>,
    path: Seq<char>,
    count: int,
)
    requires
        0 <= count <= ids.len(),
        versions_fault(ids.take(count), clusters, path) is Some,
    ensures
        versions_fault(ids, clusters, path) == versions_fault(ids.take(count), clusters, path),
    decreases ids.len(),
{
    if count < ids.len() {
        assert(ids.drop_last().take(count) == ids.take(count));
        lemma_versions_fault_stays(ids.drop_last(), clusters, path, count);
    } else {
        assert(ids.take(count) == ids);
    }
}

fn check_versions(clusters: &TextMap<ClusterState>, path: &str) -> (r: Result<(), Failure>)
    ensures
        failure::tells(r, versions_fault(clusters.keys(), clusters@, path@)),
{
    let ghost ids = clusters.keys();
    let mut i: usize = 0;
    assert(ids.take(0) == Seq::<Seq<char>>::empty());
    while i < clusters.len()
        invariant
            i <= ids.len(),
            ids == clusters.keys(),
            versions_fault(ids.take(i as int), clusters@, path@) is None,
        decreases ids.len() - i,
    {
        proof {
            assert(ids.take(i + 1).drop_last() == ids.take(i as int));
            if versions_fault(ids.take(i + 1), clusters@, path@) is Some {
                lemma_versions_fault_stays(ids, clusters@, path@, i + 1);
            }
        }
        if let Err(failure) = check_version(clusters.value_at(i).ledger.format_version, path) {
            return Err(failure);
        }
        i = i + 1;
    }
    assert(ids.take(i as int) == ids);
    Ok(())
}

impl Registry {
    /// The registry to start with: what the file holds, or an empty one where
    /// there is no file.
    pub fn load(stored: Option<Registry>, path: &str) -> (r: Result<Registry, Failure>)
        ensures
            match stored {
                Some(registry) => failure::tells(
                    r,
                    versions_fault(registry.clusters.keys(), registry.clusters@, path@),
                ) && (r matches Ok(loaded) ==> loaded == registry),
                None => r matches Ok(loaded) && loaded.clusters@ == Map::<
                    Seq<char>,
                    ClusterState,
                >::empty(),
            },
    {
        match stored {
            Some(registry) => {
                if let Err(failure) = check_versions(&registry.clusters, path) {
                    return Err(failure);
                }
                Ok(registry)
            },
            None => Ok(Registry { clusters: TextMap::new() }),
        }
    }

    /// Takes a cluster's record out of the registry to work on it. Nothing is
    /// recorded of a cluster that is new to it.
    pub fn take_cluster(&mut self, id: &str) -> (r: ClusterState)
        ensures
            final(self).clusters@ == old(self).clusters@.remove(id@),
            if old(self).clusters@.contains_key(id@) {
                r == old(self).clusters@[id@]
            } else {
                &&& r.ledger.format_version == state::STATE_FORMAT_VERSION
                &&& forall|t: Seq<char>| #[trigger] r.entry(t) == nothing()
            },
    {
        match self.clusters.remove(id) {
            Some(cluster) => cluster,
            None => ClusterState::new(),
        }
    }

    /// Puts a cluster's record into the registry.
    pub fn put_cluster(&mut self, id: String, cluster: ClusterState)
        ensures
            final(self).clusters@ == old(self).clusters@.insert(id@, cluster),
    {
        self.clusters.insert(id, cluster);
    }
}

/// What is recorded of one cluster is never taken for another: a cluster's
/// record comes back as it was put, and no other cluster's record changes.
pub proof fn law_records_stay_in_their_cluster(
    clusters: Map<Seq<char>, ClusterState>,
    id: Seq<char>,
    cluster: ClusterState,
    other: Seq<char>,
)
    ensures
        clusters.insert(id, cluster)[id] == cluster,
        other != id ==> clusters.insert(id, cluster).contains_key(other) == clusters.contains_key(
            other,
        ),
        other != id && clusters.contains_key(other) ==> clusters.insert(id, cluster)[other]
            == clusters[other],
{
}

/// A fenced topic is recognized exactly where its record was made under the
/// identities that it and its source have now.
pub proof fn law_recorded_topics_are_recognized(
    saved: Option<FenceView>,
    topic: TopicView,
    live: FenceView,
)
    requires
        is_fenced(topic),
    ensures
        identity_drift_of(saved, topic, live) is None <==> saved == Some(live),
{
}

proof fn lemma_live_checked(cluster: ClusterState, lives: Seq<LiveTopic>, i: int)
    requires
        lives_fault(cluster, lives) is None,
        0 <= i < lives.len(),
    ensures
        cluster.fence_of(lives[i].topic@) == Some(lives[i].identity@),
    decreases lives.len(),
{
    if i < lives.len() - 1 {
        assert(lives.drop_last()[i] == lives[i]);
        lemma_live_checked(cluster, lives.drop_last(), i);
    }
}

/// Nothing is recorded against a replacement: live topics pass only where each
/// of them, and its source, is the one that is recorded.
pub proof fn law_replacements_are_refused(cluster: ClusterState, lives: Seq<LiveTopic>)
    ensures
        lives_fault(cluster, lives) is None <==> forall|i: int|
            0 <= i < lives.len() ==> cluster.fence_of((#[trigger] lives[i]).topic@) == Some(
                lives[i].identity@,
            ),
    decreases lives.len(),
{
    if lives_fault(cluster, lives) is None {
        assert forall|i: int| 0 <= i < lives.len() implies cluster.fence_of(
            (#[trigger] lives[i]).topic@,
        ) == Some(lives[i].identity@) by {
            lemma_live_checked(cluster, lives, i);
        }
    }
    if forall|i: int|
        0 <= i < lives.len() ==> cluster.fence_of((#[trigger] lives[i]).topic@) == Some(
            lives[i].identity@,
        ) {
        if lives.len() > 0 {
            let front = lives.drop_last();
            assert forall|i: int| 0 <= i < front.len() implies cluster.fence_of(
                (#[trigger] front[i]).topic@,
            ) == Some(front[i].identity@) by {
                assert(front[i] == lives[i]);
            }
            law_replacements_are_refused(cluster, front);
            assert(lives[lives.len() - 1] == lives.last());
        }
    }
}

/// Clones and topics with an archive are bound to their identities, and nothing
/// else is: one of them passes exactly where it has been recorded under the
/// topic's own UUID and the identity of its source.
pub proof fn law_clones_and_archives_are_fenced(
    saved: Option<FenceView>,
    topic: TopicView,
    live: FenceView,
)
    ensures
        ({
            let bound = topic.restore is Some || (topic.transfer matches Some(transfer)
                && transfer.kind == TransferKind::Clone);
            &&& !bound ==> identity_drift_of(saved, topic, live) is None
            &&& bound ==> (identity_drift_of(saved, topic, live) is None <==> (
            saved matches Some(saved) && saved.topic_id == live.topic_id && saved.source
                == live.source))
        }),
{
}

/// What is recorded of a topic is what the ledger and the fences hold under its
/// name.
pub proof fn law_entries_are_of_their_topic(cluster: ClusterState, topic: Seq<char>)
    ensures
        cluster.entry(topic) == (EntryView {
            progress: cluster.ledger.clone_of(topic),
            marker: cluster.ledger.marker_of(topic),
            fence: if cluster.fences@.contains_key(topic) {
                Some(cluster.fences@[topic]@)
            } else {
                None
            },
        }),
        nothing() == (EntryView { progress: None, marker: None, fence: None }),
{
}

/// Records that agree on everything but one topic agree on every other.
pub proof fn law_other_entries_stay(
    cluster: ClusterState,
    other: ClusterState,
    topic: Seq<char>,
    another: Seq<char>,
)
    requires
        cluster.same_but(other, topic),
        another != topic,
    ensures
        cluster.ledger.clone_of(another) == other.ledger.clone_of(another),
        cluster.ledger.marker_of(another) == other.ledger.marker_of(another),
        cluster.fence_of(another) == other.fence_of(another),
        cluster.ledger.format_version == other.ledger.format_version,
{
    assert(cluster.entry(another) == other.entry(another));
}

/// A reset forgets the topic that is asked for, or every configured one where none
/// is, and no other; a topic that is not configured is refused.
pub proof fn law_resets_are_of_configured_topics(
    topics: Seq<ManagedTopic>,
    name: Option<&str>,
    topic: Seq<char>,
)
    ensures
        ({
            let configured = exists|i: int|
                0 <= i < topics.len() && (#[trigger] topics[i]).name@ == topic;
            &&& name is None ==> (is_reset(topics, name, topic) <==> configured)
            &&& name matches Some(name) ==> (is_reset(topics, Some(name), topic) <==> configured
                && name@ == topic)
        }),
        reset_fault(topics, name) is None <==> (name matches Some(name) ==> exists|i: int|
            0 <= i < topics.len() && (#[trigger] topics[i]).name@ == name@),
{
}

/// A registry is read exactly where the record of each of its clusters is of the
/// format version that is written.
pub proof fn law_registries_are_of_this_version(registry: Registry, path: Seq<char>)
    ensures
        versions_fault(registry.clusters.keys(), registry.clusters@, path) is None <==> forall|
            id: Seq<char>,
        | #[trigger]
            registry.clusters@.contains_key(id) ==> registry.clusters@[id].ledger.format_version
                == 1,
{
    let ids = registry.clusters.keys();
    lemma_versions(ids, registry.clusters@, path);
    if versions_fault(ids, registry.clusters@, path) is None {
        assert forall|id: Seq<char>| #[trigger]
            registry.clusters@.contains_key(
                id,
            ) implies registry.clusters@[id].ledger.format_version == 1 by {
            let i = choose|i: int| 0 <= i < ids.len() && ids[i] == id;
            assert(registry.clusters@[ids[i]].ledger.format_version == 1);
        }
    } else {
        let i = choose|i: int|
            0 <= i < ids.len() && registry.clusters@[#[trigger] ids[i]].ledger.format_version
                != 1;
        assert(ids.contains(ids[i]));
        assert(registry.clusters@.contains_key(ids[i]));
    }
}

proof fn lemma_versions(
    ids: Seq<Seq<char>>,
    clusters: Map<Seq<char>, ClusterState>,
    path: Seq<char>,
)
    ensures
        versions_fault(ids, clusters, path) is None <==> forall|i: int|
            0 <= i < ids.len() ==> clusters[#[trigger] ids[i]].ledger.format_version == 1,
    decreases ids.len(),
{
    if ids.len() > 0 {
        let front = ids.drop_last();
        lemma_versions(front, clusters, path);
        if versions_fault(ids, clusters, path) is None {
            assert forall|i: int| 0 <= i < ids.len() implies clusters[
            #[trigger] ids[i]].ledger.format_version == 1 by {
                if i < front.len() {
                    assert(front[i] == ids[i]);
                }
            }
        } else if versions_fault(front, clusters, path) is None {
            assert(ids[ids.len() - 1] == ids.last());
        } else {
            let i = choose|i: int|
                0 <= i < front.len() && clusters[#[trigger] front[i]].ledger.format_version != 1;
            assert(ids[i] == front[i]);
        }
    }
}

/// Of the live topics that are not those that are recorded, the first is told.
pub proof fn law_first_replacement_is_told(
    cluster: ClusterState,
    lives: Seq<LiveTopic>,
    at: int,
)
    requires
        0 <= at < lives.len(),
        lives_fault(cluster, lives.take(at)) is None,
        live_fault(cluster, lives[at]) is Some,
    ensures
        lives_fault(cluster, lives) == live_fault(cluster, lives[at]),
{
    assert(lives.take(at + 1).drop_last() =~= lives.take(at));
    assert(lives.take(at + 1).last() == lives[at]);
    lemma_lives_fault_stays(cluster, lives, at + 1);
}

} // verus!
