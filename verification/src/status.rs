//! The status board: a line for each partition of each transfer.

use crate::assignment;
use crate::failure;
use crate::failure::{fail, Failure, FailureView};
use crate::metadata;
use crate::metadata::{Metadata, MetadataPartition};
use crate::state::OffsetState;
use crate::text;
use crate::text_map::TextMap;
use crate::topics::{TransferKind, TransferPlan};
use vstd::prelude::*;

verus! {

/// How a partition of a transfer is doing, and which source it is read from.
#[derive(Debug)]
pub struct StatusLine {
    pub source: String,
    pub destination_topic: String,
    pub partition: i32,
    pub next_offset: Option<i64>,
    pub last_error: Option<String>,
}

/// How a partition of a transfer is doing.
#[verifier::ext_equal]
pub struct LineView {
    pub source: Seq<char>,
    pub destination_topic: Seq<char>,
    pub partition: i32,
    pub next_offset: Option<i64>,
    pub last_error: Option<Seq<char>>,
}

impl View for StatusLine {
    type V = LineView;

    open spec fn view(&self) -> LineView {
        LineView {
            source: self.source@,
            destination_topic: self.destination_topic@,
            partition: self.partition,
            next_offset: self.next_offset,
            last_error: match self.last_error {
                Some(error) => Some(error@),
                None => None,
            },
        }
    }
}

/// The lines of all partitions. They are kept, and shown, in the order of their
/// keys.
#[derive(Debug)]
pub struct StatusBoard {
    lines: TextMap<StatusLine>,
}

impl View for StatusBoard {
    type V = Map<Seq<char>, LineView>;

    closed spec fn view(&self) -> Map<Seq<char>, LineView> {
        self.lines@.map_values(|line: StatusLine| line@)
    }
}

/// The key of a partition's line.
pub open spec fn line_key(destination_topic: Seq<char>, partition: i32) -> Seq<char> {
    destination_topic + ":"@ + text::decimal(partition as int)
}

/// The key of a partition's line.
pub fn status_key(destination_topic: &str, partition: i32) -> (r: String)
    ensures
        r@ == line_key(destination_topic@, partition),
{
    let number = text::decimal_i64(partition as i64);
    text::join3(destination_topic, ":", number.as_str())
}

/// Different partitions have different lines.
pub proof fn law_line_keys_differ(
    topic: Seq<char>,
    partition: i32,
    other_topic: Seq<char>,
    other_partition: i32,
)
    requires
        line_key(topic, partition) == line_key(other_topic, other_partition),
    ensures
        topic == other_topic,
        partition == other_partition,
{
    text::lemma_numbered_differ(topic, partition as int, other_topic, other_partition as int);
}

/// Some lines and, unless there is one already, the starting line of a
/// partition.
pub open spec fn with_line(
    lines: Map<Seq<char>, LineView>,
    plan: TransferPlan,
    state: OffsetState,
    partition: i32,
) -> Map<Seq<char>, LineView> {
    let key = line_key(plan.destination_topic@, partition);
    if lines.contains_key(key) {
        lines
    } else {
        lines.insert(
            key,
            LineView {
                source: plan.source.instance@,
                destination_topic: plan.destination_topic@,
                partition,
                next_offset: assignment::saved_offset(plan, state, partition),
                last_error: None,
            },
        )
    }
}

/// Some lines and the starting lines of a transfer's partitions.
pub open spec fn with_plan_lines(
    lines: Map<Seq<char>, LineView>,
    plan: TransferPlan,
    state: OffsetState,
    partitions: Seq<MetadataPartition>,
) -> Map<Seq<char>, LineView>
    decreases partitions.len(),
{
    if partitions.len() == 0 {
        lines
    } else {
        with_line(
            with_plan_lines(lines, plan, state, partitions.drop_last()),
            plan,
            state,
            partitions.last().id,
        )
    }
}

/// Some lines and the starting lines of the partitions of some transfers, up to
/// the first transfer whose source topic the metadata lacks.
pub open spec fn with_lines(
    lines: Map<Seq<char>, LineView>,
    metadata: Metadata,
    plans: Seq<TransferPlan>,
    state: OffsetState,
) -> Map<Seq<char>, LineView>
    decreases plans.len(),
{
    if plans.len() == 0 {
        lines
    } else {
        let earlier = with_lines(lines, metadata, plans.drop_last(), state);
        if lines_fault(metadata, plans) is Some {
            earlier
        } else {
            with_plan_lines(
                earlier,
                plans.last(),
                state,
                metadata::topic_of(metadata, plans.last().source.topic@)->0.partitions@,
            )
        }
    }
}

/// The first source topic of some transfers that the metadata lacks.
pub open spec fn lines_fault(metadata: Metadata, plans: Seq<TransferPlan>) -> Option<FailureView>
    decreases plans.len(),
{
    if plans.len() == 0 {
        None
    } else {
        failure::first(
            lines_fault(metadata, plans.drop_last()),
            if metadata::topic_of(metadata, plans.last().source.topic@) is None {
                Some(assignment::missing_topic(plans.last().source.topic@))
            } else {
                None
            },
        )
    }
}

proof fn lemma_lines_fault_stays(
    lines: Map<Seq<char>, LineView>,
    metadata: Metadata,
    plans: Seq<TransferPlan>,
    state: OffsetState,
    count: int,
)
    requires
        0 <= count <= plans.len(),
        lines_fault(metadata, plans.take(count)) is Some,
    ensures
        lines_fault(metadata, plans) == lines_fault(metadata, plans.take(count)),
        with_lines(lines, metadata, plans, state) == with_lines(
            lines,
            metadata,
            plans.take(count),
            state,
        ),
    decreases plans.len(),
{
    if count < plans.len() {
        assert(plans.drop_last().take(count) == plans.take(count));
        lemma_lines_fault_stays(lines, metadata, plans.drop_last(), state, count);
    } else {
        assert(plans.take(count) == plans);
    }
}

/// Some lines, with a partition's next offset shown in place of any error.
pub open spec fn with_offset(
    lines: Map<Seq<char>, LineView>,
    destination_topic: Seq<char>,
    partition: i32,
    next_offset: i64,
) -> Map<Seq<char>, LineView> {
    let key = line_key(destination_topic, partition);
    if lines.contains_key(key) {
        lines.insert(
            key,
            LineView { next_offset: Some(next_offset), last_error: None, ..lines[key] },
        )
    } else {
        lines
    }
}

/// Some lines, with a partition's error shown.
pub open spec fn with_error(
    lines: Map<Seq<char>, LineView>,
    destination_topic: Seq<char>,
    partition: i32,
    error: Seq<char>,
) -> Map<Seq<char>, LineView> {
    let key = line_key(destination_topic, partition);
    if lines.contains_key(key) {
        lines.insert(key, LineView { last_error: Some(error), ..lines[key] })
    } else {
        lines
    }
}

/// Some lines, with a source's error shown on each line it is shown on.
pub open spec fn with_source_errors(
    lines: Map<Seq<char>, LineView>,
    source: Seq<char>,
    error: Seq<char>,
) -> Map<Seq<char>, LineView> {
    lines.map_values(|line: LineView| with_source_error(line, source, error))
}

/// A line that a source's error is shown on: one of that source, without an
/// error or with one that names the source. The lines of other sources stay as
/// they are.
pub open spec fn with_source_error(line: LineView, source: Seq<char>, error: Seq<char>) -> LineView {
    if line.source == source && (line.last_error is None || text::contains_text(
        line.last_error->0,
        source,
    )) {
        LineView { last_error: Some(error), ..line }
    } else {
        line
    }
}

/// A source's error changes no line of another source.
pub proof fn law_source_errors_are_isolated(
    lines: Map<Seq<char>, LineView>,
    source: Seq<char>,
    error: Seq<char>,
    key: Seq<char>,
)
    requires
        lines.contains_key(key),
        lines[key].source != source,
    ensures
        with_source_errors(lines, source, error).contains_key(key),
        with_source_errors(lines, source, error)[key] == lines[key],
{
}

impl StatusBoard {
    /// A board without lines.
    pub fn new() -> (r: StatusBoard)
        ensures
            r@ == Map::<Seq<char>, LineView>::empty(),
    {
        let r = StatusBoard { lines: TextMap::new() };
        assert(r@ =~= Map::<Seq<char>, LineView>::empty());
        r
    }

    fn put(&mut self, key: String, line: StatusLine)
        ensures
            final(self)@ == old(self)@.insert(key@, line@),
    {
        self.lines.insert(key, line);
        assert(self@ =~= old(self)@.insert(key@, line@));
    }

    fn take(&mut self, key: &str) -> (r: Option<StatusLine>)
        ensures
            final(self)@ == old(self)@.remove(key@),
            match r {
                Some(line) => old(self)@.contains_key(key@) && old(self)@[key@] == line@,
                None => !old(self)@.contains_key(key@),
            },
    {
        let r = self.lines.remove(key);
        assert(self@ =~= old(self)@.remove(key@));
        r
    }

    fn add_plan(
        &mut self,
        plan: &TransferPlan,
        partitions: &Vec<MetadataPartition>,
        state: &OffsetState,
    )
        ensures
            final(self)@ == with_plan_lines(old(self)@, *plan, *state, partitions@),
    {
        let mut i: usize = 0;
        assert(partitions@.take(0) == Seq::<MetadataPartition>::empty());
        while i < partitions.len()
            invariant
                i <= partitions@.len(),
                self@ == with_plan_lines(old(self)@, *plan, *state, partitions@.take(i as int)),
            decreases partitions@.len() - i,
        {
            let id: i32 = partitions[i].id;
            let key = status_key(plan.destination_topic.as_str(), id);
            assert(partitions@.take(i + 1).drop_last() == partitions@.take(i as int));
            if !self.lines.contains_key(key.as_str()) {
                let line = StatusLine {
                    source: plan.source.instance.clone(),
                    destination_topic: plan.destination_topic.clone(),
                    partition: id,
                    next_offset: assignment::saved_for(plan, state, id),
                    last_error: None,
                };
                self.put(key, line);
            }
            i = i + 1;
        }
        assert(partitions@.take(i as int) == partitions@);
    }

    /// Adds the starting lines of the partitions of some transfers. Lines that
    /// are there already stay as they are.
    pub fn initialize_status_lines(
        &mut self,
        metadata: &Metadata,
        plans: &[TransferPlan],
        state: &OffsetState,
    ) -> (r: Result<(), Failure>)
        ensures
            failure::tells(r, lines_fault(*metadata, plans@)),
            final(self)@ == with_lines(old(self)@, *metadata, plans@, *state),
    {
        let mut i: usize = 0;
        assert(plans@.take(0) == Seq::<TransferPlan>::empty());
        while i < plans.len()
            invariant
                i <= plans@.len(),
                lines_fault(*metadata, plans@.take(i as int)) is None,
                self@ == with_lines(old(self)@, *metadata, plans@.take(i as int), *state),
            decreases plans@.len() - i,
        {
            let plan = &plans[i];
            proof {
                assert(plans@.take(i + 1).drop_last() == plans@.take(i as int));
                if lines_fault(*metadata, plans@.take(i + 1)) is Some {
                    lemma_lines_fault_stays(old(self)@, *metadata, plans@, *state, i + 1);
                }
            }
            match metadata.find(plan.source.topic.as_str()) {
                Some(topic) => {
                    self.add_plan(plan, &topic.partitions, state);
                },
                None => {
                    return Err(
                        fail(
                            text::join2(
                                "missing metadata for source topic ",
                                plan.source.topic.as_str(),
                            ),
                        ),
                    );
                },
            }
            i = i + 1;
        }
        assert(plans@.take(i as int) == plans@);
        Ok(())
    }

    /// Shows a partition's next offset, and takes its error off.
    pub fn update_partition_offset(
        &mut self,
        destination_topic: &str,
        partition: i32,
        next_offset: i64,
    )
        ensures
            final(self)@ == with_offset(old(self)@, destination_topic@, partition, next_offset),
    {
        let key = status_key(destination_topic, partition);
        match self.take(key.as_str()) {
            Some(line) => {
                let line = StatusLine {
                    source: line.source,
                    destination_topic: line.destination_topic,
                    partition: line.partition,
                    next_offset: Some(next_offset),
                    last_error: None,
                };
                let ghost name = key@;
                self.put(key, line);
                assert(self@ =~= old(self)@.insert(name, line@));
            },
            None => {
                assert(self@ =~= old(self)@);
            },
        }
    }

    /// Shows a partition's error.
    pub fn set_partition_error(&mut self, destination_topic: &str, partition: i32, error: String)
        ensures
            final(self)@ == with_error(old(self)@, destination_topic@, partition, error@),
    {
        let key = status_key(destination_topic, partition);
        match self.take(key.as_str()) {
            Some(line) => {
                let line = StatusLine {
                    source: line.source,
                    destination_topic: line.destination_topic,
                    partition: line.partition,
                    next_offset: line.next_offset,
                    last_error: Some(error),
                };
                let ghost name = key@;
                self.put(key, line);
                assert(self@ =~= old(self)@.insert(name, line@));
            },
            None => {
                assert(self@ =~= old(self)@);
            },
        }
    }
}

fn line_with_source_error(line: &StatusLine, source: &str, error: &str) -> (r: StatusLine)
    ensures
        r@ == with_source_error(line@, source@, error@),
{
    let shown = text::same(line.source.as_str(), source) && match &line.last_error {
        Some(existing) => text::contains(existing.as_str(), source),
        None => true,
    };
    let last_error = if shown {
        Some(error.to_owned())
    } else {
        match &line.last_error {
            Some(existing) => Some(existing.clone()),
            None => None,
        }
    };
    StatusLine {
        source: line.source.clone(),
        destination_topic: line.destination_topic.clone(),
        partition: line.partition,
        next_offset: line.next_offset,
        last_error,
    }
}

impl StatusBoard {
    /// Shows a source's error on every line of that source without an error, and
    /// on every line of it whose error names the source.
    pub fn set_source_error(&mut self, source_name: &str, error: &str)
        ensures
            final(self)@ == with_source_errors(old(self)@, source_name@, error@),
    {
        let ghost before = self@;
        let mut lines: TextMap<StatusLine> = TextMap::new();
        let mut i: usize = 0;
        while i < self.lines.len()
            invariant
                i <= self.lines.keys().len(),
                *self == *old(self),
                before == self@,
                forall|key: Seq<char>| #[trigger]
                    lines@.contains_key(key) == self.lines.keys().take(i as int).contains(key),
                forall|key: Seq<char>|
                    lines@.contains_key(key) ==> (#[trigger] lines@[key])@ == with_source_error(
                        self.lines@[key]@,
                        source_name@,
                        error@,
                    ),
            decreases self.lines.keys().len() - i,
        {
            let ghost front = self.lines.keys().take(i as int);
            let ghost more = self.lines.keys().take(i + 1);
            let ghost so_far = lines@;
            let key = self.lines.key_at(i);
            let line = line_with_source_error(self.lines.value_at(i), source_name, error);
            lines.insert(key.to_owned(), line);
            assert forall|k: Seq<char>| #[trigger] lines@.contains_key(k) == more.contains(k) by {
                assert(so_far.contains_key(k) == front.contains(k));
                assert(more == front.push(key@));
                if front.contains(k) {
                    let j = choose|j: int| 0 <= j < front.len() && front[j] == k;
                    assert(more[j] == k);
                }
                if k == key@ {
                    assert(more[i as int] == k);
                }
            }
            i = i + 1;
        }
        assert(self.lines.keys().take(i as int) == self.lines.keys());
        self.lines = lines;
        proof {
            assert forall|k: Seq<char>| #[trigger] self@.contains_key(k) == before.contains_key(
                k,
            ) by {
                assert(lines@.contains_key(k) == old(self).lines.keys().contains(k));
            }
            assert(self@ =~= with_source_errors(before, source_name@, error@));
        }
    }
}

/// What the status column shows of a line: a label, its colour, and a detail.
pub open spec fn line_status(line: LineView) -> (Seq<char>, Seq<char>, Seq<char>) {
    match line.last_error {
        Some(error) => ("error"@, "\x1b[31m"@, error),
        None => if line.next_offset is Some {
            ("ok"@, "\x1b[32m"@, Seq::empty())
        } else {
            ("starting"@, "\x1b[33m"@, Seq::empty())
        },
    }
}

/// A line as it is shown.
pub open spec fn line_text(line: LineView) -> Seq<char> {
    let offset = match line.next_offset {
        Some(offset) => text::decimal(offset as int),
        None => "-"@,
    };
    let destination = line.destination_topic + " - "@ + text::decimal(line.partition as int);
    let (label, colour, detail) = line_status(line);
    destination + text::fill(destination, 56) + " "@ + (text::fill(offset, 12) + offset) + "  "@
        + colour + (label + text::fill(label, 8)) + "\x1b[0m"@ + (if detail.len() > 0 {
        "  \x1b[2m"@ + detail + "\x1b[0m"@
    } else {
        Seq::empty()
    }) + "\n"@
}

/// The head of the board.
pub open spec fn head_text() -> Seq<char> {
    let first = "DESTINATION TOPIC - PARTITION"@;
    let second = "NEXT OFFSET"@;
    "\x1b[1mfransson status\x1b[0m\n\x1b[2m"@ + (first + text::fill(first, 56)) + " "@ + (text::fill(
        second,
        12,
    ) + second) + "  STATUS\x1b[0m\n"@
}

/// Some lines as they are shown, one under the other.
pub open spec fn lines_text(lines: Map<Seq<char>, LineView>, keys: Seq<Seq<char>>) -> Seq<char>
    decreases keys.len(),
{
    if keys.len() == 0 {
        Seq::empty()
    } else {
        lines_text(lines, keys.drop_last()) + line_text(lines[keys.last()])
    }
}

impl StatusBoard {
    /// The keys of the lines, in order.
    pub closed spec fn keys(&self) -> Seq<Seq<char>> {
        self.lines.keys()
    }
}

fn render_line(line: &StatusLine) -> (r: String)
    ensures
        r@ == line_text(line@),
{
    let offset = match line.next_offset {
        Some(offset) => text::decimal_i64(offset),
        None => "-".to_owned(),
    };
    let number = text::decimal_i64(line.partition as i64);
    let destination = text::join3(line.destination_topic.as_str(), " - ", number.as_str());
    let (label, colour, detail) = match &line.last_error {
        Some(error) => ("error", "\x1b[31m", error.as_str()),
        None => if line.next_offset.is_some() {
            ("ok", "\x1b[32m", "")
        } else {
            ("starting", "\x1b[33m", "")
        },
    };
    proof {
        reveal_strlit("");
        assert(""@ =~= Seq::<char>::empty());
    }
    let mut output = text::pad_right(destination.as_str(), 56);
    output.append(" ");
    output.append(text::pad_left(offset.as_str(), 12).as_str());
    output.append("  ");
    output.append(colour);
    output.append(text::pad_right(label, 8).as_str());
    output.append("\x1b[0m");
    let ghost so_far = output@;
    if detail.unicode_len() > 0 {
        output.append(text::join3("  \x1b[2m", detail, "\x1b[0m").as_str());
    }
    assert(output@ == so_far + (if detail@.len() > 0 {
        "  \x1b[2m"@ + detail@ + "\x1b[0m"@
    } else {
        Seq::empty()
    }));
    output.append("\n");
    output
}

/// The board as it is shown: a head, and a line for each partition in the order
/// of their keys.
pub fn render_status_board(status: &StatusBoard) -> (r: String)
    ensures
        r@ == head_text() + lines_text(status@, status.keys()),
        status.keys().to_set() == status@.dom(),
        crate::text_map::increasing(status.keys()),
{
    let mut output = "\x1b[1mfransson status\x1b[0m\n\x1b[2m".to_owned();
    output.append(text::pad_right("DESTINATION TOPIC - PARTITION", 56).as_str());
    output.append(" ");
    output.append(text::pad_left("NEXT OFFSET", 12).as_str());
    output.append("  STATUS\x1b[0m\n");
    let ghost keys = status.keys();
    let mut i: usize = 0;
    assert(keys.take(0) == Seq::<Seq<char>>::empty());
    assert(output@ == head_text() + lines_text(status@, keys.take(0)));
    while i < status.lines.len()
        invariant
            i <= keys.len(),
            keys == status.keys(),
            output@ == head_text() + lines_text(status@, keys.take(i as int)),
        decreases keys.len() - i,
    {
        let line = status.lines.value_at(i);
        output.append(render_line(line).as_str());
        proof {
            assert(keys.take(i + 1).drop_last() == keys.take(i as int));
            assert(status@[keys[i as int]] == line@);
            assert(output@ == head_text() + lines_text(status@, keys.take(i + 1)));
        }
        i = i + 1;
    }
    assert(keys.take(i as int) == keys);
    assert(status.keys().to_set() =~= status@.dom());
    output
}

proof fn lemma_plan_lines(
    lines: Map<Seq<char>, LineView>,
    plan: TransferPlan,
    state: OffsetState,
    partitions: Seq<MetadataPartition>,
)
    ensures
        forall|key: Seq<char>| #[trigger]
            lines.contains_key(key) ==> with_plan_lines(
                lines,
                plan,
                state,
                partitions,
            ).contains_key(key) && with_plan_lines(lines, plan, state, partitions)[key]
                == lines[key],
        forall|i: int|
            0 <= i < partitions.len() ==> with_plan_lines(
                lines,
                plan,
                state,
                partitions,
            ).contains_key(line_key(plan.destination_topic@, (#[trigger] partitions[i]).id)),
        forall|key: Seq<char>| #[trigger]
            with_plan_lines(lines, plan, state, partitions).contains_key(key)
                && !lines.contains_key(key) ==> exists|i: int|
                0 <= i < partitions.len() && key == line_key(
                    plan.destination_topic@,
                    (#[trigger] partitions[i]).id,
                ) && with_plan_lines(lines, plan, state, partitions)[key] == (LineView {
                    source: plan.source.instance@,
                    destination_topic: plan.destination_topic@,
                    partition: partitions[i].id,
                    next_offset: if plan.kind == TransferKind::Clone {
                        state.offset_of(plan.destination_topic@, partitions[i].id)
                    } else {
                        None
                    },
                    last_error: None,
                }),
    decreases partitions.len(),
{
    if partitions.len() > 0 {
        let front = partitions.drop_last();
        let last = partitions.last().id;
        let earlier = with_plan_lines(lines, plan, state, front);
        let all = with_plan_lines(lines, plan, state, partitions);
        lemma_plan_lines(lines, plan, state, front);
        assert forall|i: int| 0 <= i < partitions.len() implies all.contains_key(
            line_key(plan.destination_topic@, (#[trigger] partitions[i]).id),
        ) by {
            if i < front.len() {
                assert(front[i] == partitions[i]);
            }
        }
        assert forall|key: Seq<char>| #[trigger]
            all.contains_key(key) && !lines.contains_key(key) implies exists|i: int|
            0 <= i < partitions.len() && key == line_key(
                plan.destination_topic@,
                (#[trigger] partitions[i]).id,
            ) && all[key] == (LineView {
                source: plan.source.instance@,
                destination_topic: plan.destination_topic@,
                partition: partitions[i].id,
                next_offset: if plan.kind == TransferKind::Clone {
                    state.offset_of(plan.destination_topic@, partitions[i].id)
                } else {
                    None
                },
                last_error: None,
            }) by {
            if earlier.contains_key(key) {
                let i = choose|i: int|
                    0 <= i < front.len() && key == line_key(
                        plan.destination_topic@,
                        (#[trigger] front[i]).id,
                    ) && earlier[key] == (LineView {
                        source: plan.source.instance@,
                        destination_topic: plan.destination_topic@,
                        partition: front[i].id,
                        next_offset: if plan.kind == TransferKind::Clone {
                            state.offset_of(plan.destination_topic@, front[i].id)
                        } else {
                            None
                        },
                        last_error: None,
                    });
                assert(partitions[i] == front[i]);
            } else {
                assert(partitions[partitions.len() - 1].id == last);
            }
        }
    }
}

/// Every partition of every transfer has a line on the board, and lines that are
/// there already stay as they are.
pub proof fn law_every_partition_has_a_line(
    lines: Map<Seq<char>, LineView>,
    metadata: Metadata,
    plans: Seq<TransferPlan>,
    state: OffsetState,
)
    requires
        forall|at: int|
            0 <= at < plans.len() ==> metadata::topic_of(
                metadata,
                (#[trigger] plans[at]).source.topic@,
            ) is Some,
    ensures
        lines_fault(metadata, plans) is None,
        forall|key: Seq<char>| #[trigger]
            lines.contains_key(key) ==> with_lines(lines, metadata, plans, state).contains_key(key)
                && with_lines(lines, metadata, plans, state)[key] == lines[key],
        forall|at: int, i: int|
            0 <= at < plans.len() && 0 <= i < metadata::topic_of(
                metadata,
                plans[at].source.topic@,
            )->0.partitions@.len() ==> with_lines(lines, metadata, plans, state).contains_key(
                line_key(
                    (#[trigger] plans[at]).destination_topic@,
                    (#[trigger] metadata::topic_of(
                        metadata,
                        plans[at].source.topic@,
                    )->0.partitions@[i]).id,
                ),
            ),
    decreases plans.len(),
{
    if plans.len() > 0 {
        let front = plans.drop_last();
        let last = plans.last();
        assert forall|at: int| 0 <= at < front.len() implies metadata::topic_of(
            metadata,
            (#[trigger] front[at]).source.topic@,
        ) is Some by {
            assert(front[at] == plans[at]);
        }
        law_every_partition_has_a_line(lines, metadata, front, state);
        assert(plans[plans.len() - 1] == last);
        let earlier = with_lines(lines, metadata, front, state);
        let partitions = metadata::topic_of(metadata, last.source.topic@)->0.partitions@;
        lemma_plan_lines(earlier, last, state, partitions);
        let all = with_lines(lines, metadata, plans, state);
        assert(all == with_plan_lines(earlier, last, state, partitions));
        assert forall|key: Seq<char>| #[trigger]
            lines.contains_key(key) implies all.contains_key(key) && all[key] == lines[key] by {
            assert(earlier.contains_key(key));
        }
        assert forall|at: int, i: int|
            0 <= at < plans.len() && 0 <= i < metadata::topic_of(
                metadata,
                plans[at].source.topic@,
            )->0.partitions@.len() implies all.contains_key(
            line_key(
                (#[trigger] plans[at]).destination_topic@,
                (#[trigger] metadata::topic_of(
                    metadata,
                    plans[at].source.topic@,
                )->0.partitions@[i]).id,
            ),
        ) by {
            if at < front.len() {
                assert(front[at] == plans[at]);
                let key = line_key(
                    plans[at].destination_topic@,
                    metadata::topic_of(metadata, plans[at].source.topic@)->0.partitions@[i].id,
                );
                assert(earlier.contains_key(key));
            }
        }
    }
}

/// A fresh line shows the partition of a transfer: its source and topic, and for a
/// clone the offset it left off at, without an error.
pub proof fn law_lines_show_their_partition(
    plan: TransferPlan,
    state: OffsetState,
    partition: i32,
)
    ensures
        ({
            let key = line_key(plan.destination_topic@, partition);
            let lines = with_line(Map::empty(), plan, state, partition);
            &&& lines.contains_key(key)
            &&& lines[key] == (LineView {
                source: plan.source.instance@,
                destination_topic: plan.destination_topic@,
                partition,
                next_offset: if plan.kind == TransferKind::Clone {
                    state.offset_of(plan.destination_topic@, partition)
                } else {
                    None
                },
                last_error: None,
            })
        }),
{
}

/// Progress shows the new offset and takes the error off; an error is shown and the
/// offset stays. Either changes the line of its own partition and no other.
pub proof fn law_updates_are_of_their_line(
    lines: Map<Seq<char>, LineView>,
    topic: Seq<char>,
    partition: i32,
    next_offset: i64,
    error: Seq<char>,
    key: Seq<char>,
)
    requires
        lines.contains_key(key),
    ensures
        with_offset(lines, topic, partition, next_offset).dom() == lines.dom(),
        with_error(lines, topic, partition, error).dom() == lines.dom(),
        key != line_key(topic, partition) ==> {
            &&& with_offset(lines, topic, partition, next_offset)[key] == lines[key]
            &&& with_error(lines, topic, partition, error)[key] == lines[key]
        },
        key == line_key(topic, partition) ==> {
            let shown = with_offset(lines, topic, partition, next_offset)[key];
            let failed = with_error(lines, topic, partition, error)[key];
            &&& shown.next_offset == Some(next_offset)
            &&& shown.last_error is None
            &&& failed.next_offset == lines[key].next_offset
            &&& failed.last_error == Some(error)
            &&& shown.source == lines[key].source && failed.source == lines[key].source
            &&& shown.destination_topic == lines[key].destination_topic
            &&& failed.destination_topic == lines[key].destination_topic
            &&& shown.partition == lines[key].partition
            &&& failed.partition == lines[key].partition
        },
{
    assert(with_offset(lines, topic, partition, next_offset).dom() =~= lines.dom());
    assert(with_error(lines, topic, partition, error).dom() =~= lines.dom());
}

/// A source's error is shown on every line of that source that shows no error, or
/// one that names the source; every other line stays as it is.
pub proof fn law_source_errors_are_shown(
    lines: Map<Seq<char>, LineView>,
    source: Seq<char>,
    error: Seq<char>,
    key: Seq<char>,
)
    requires
        lines.contains_key(key),
    ensures
        with_source_errors(lines, source, error).dom() == lines.dom(),
        ({
            let shown = lines[key].source == source && (lines[key].last_error matches Some(found)
                ==> exists|at: int|
                0 <= at <= found.len() - source.len() && #[trigger] found.subrange(
                    at,
                    at + source.len(),
                ) == source);
            let line = with_source_errors(lines, source, error)[key];
            &&& shown ==> line.last_error == Some(error) && line.next_offset
                == lines[key].next_offset
            &&& !shown ==> line == lines[key]
        }),
{
    assert(with_source_errors(lines, source, error).dom() =~= lines.dom());
}

/// A line shows an error with its text, a partition with an offset as doing well,
/// and any other as starting.
pub proof fn law_lines_show_how_it_goes(line: LineView)
    ensures
        line.last_error matches Some(error) ==> line_status(line).0 == "error"@ && line_status(
            line,
        ).2 == error,
        line.last_error is None && line.next_offset is Some ==> line_status(line).0 == "ok"@,
        line.last_error is None && line.next_offset is None ==> line_status(line).0
            == "starting"@,
        line.last_error is None ==> line_status(line).2 == Seq::<char>::empty(),
{
}

/// The board shows every line that is there, each once, in the order of the keys.
pub proof fn law_every_line_is_shown(lines: Map<Seq<char>, LineView>, keys: Seq<Seq<char>>)
    ensures
        lines_text(lines, keys) == keys.flat_map(|key: Seq<char>| line_text(lines[key])),
    decreases keys.len(),
{
    let show = |key: Seq<char>| line_text(lines[key]);
    if keys.len() > 0 {
        let front = keys.drop_last();
        law_every_line_is_shown(lines, front);
        assert(keys.map_values(show) =~= front.map_values(show).push(show(keys.last())));
        front.map_values(show).lemma_flatten_push(show(keys.last()));
        assert(lines_text(lines, keys) =~= keys.flat_map(show));
    } else {
        assert(keys.map_values(show) =~= Seq::empty());
        assert(lines_text(lines, keys) =~= keys.flat_map(show));
    }
}

/// A line starts with its topic and partition, shows the next offset in a column of
/// its own, or a dash where there is none, and has its error, if it shows one, at
/// the end.
pub proof fn law_lines_are_shown_in_full(line: LineView)
    ensures
        ({
            let text = line_text(line);
            let name = line.destination_topic + " - "@ + text::decimal(line.partition as int);
            let column = if name.len() < 56 {
                56int
            } else {
                name.len() as int
            };
            let offset = match line.next_offset {
                Some(offset) => text::decimal(offset as int),
                None => "-"@,
            };
            let width = if offset.len() < 12 {
                12int
            } else {
                offset.len() as int
            };
            &&& text.take(name.len() as int) == name
            &&& text.subrange(column + 1 + width - offset.len(), column + 1 + width) == offset
            &&& text.last() == '\n'
            &&& line.last_error matches Some(error) ==> text.subrange(
                text.len() - 5 - error.len(),
                text.len() - 5,
            ) == error || error.len() == 0
        }),
{
    let text = line_text(line);
    let name = line.destination_topic + " - "@ + text::decimal(line.partition as int);
    let offset = match line.next_offset {
        Some(offset) => text::decimal(offset as int),
        None => "-"@,
    };
    text::law_texts_are_filled_up(name, 56);
    text::law_texts_are_filled_up(offset, 12);
    reveal_strlit(" ");
    reveal_strlit("\n");
    reveal_strlit("\x1b[0m");
    let gap = text::fill(name, 56);
    let lead = text::fill(offset, 12);
    let front = name + gap + " "@ + (lead + offset);
    let (label, colour, detail) = line_status(line);
    let tail = "  "@ + colour + (label + text::fill(label, 8)) + "\x1b[0m"@ + (if detail.len()
        > 0 {
        "  \x1b[2m"@ + detail + "\x1b[0m"@
    } else {
        Seq::empty()
    }) + "\n"@;
    assert(text =~= front + tail);
    assert(text.take(name.len() as int) =~= name);
    let from = (name + gap + " "@ + lead).len() as int;
    assert(text.subrange(from, from + offset.len()) =~= offset);
    if line.last_error is Some && line.last_error->0.len() > 0 {
        let error = line.last_error->0;
        let ahead = front + ("  "@ + colour + (label + text::fill(label, 8)) + "\x1b[0m"@
            + "  \x1b[2m"@);
        assert(text =~= ahead + error + ("\x1b[0m"@ + "\n"@));
        assert(text.subrange(ahead.len() as int, (ahead.len() + error.len()) as int) =~= error);
    }
}

/// Lines are missing exactly where a transfer's source topic is not in the metadata.
pub proof fn law_lines_need_their_topics(metadata: Metadata, plans: Seq<TransferPlan>)
    ensures
        lines_fault(metadata, plans) is None <==> forall|at: int|
            0 <= at < plans.len() ==> metadata::topic_of(
                metadata,
                (#[trigger] plans[at]).source.topic@,
            ) is Some,
    decreases plans.len(),
{
    if plans.len() > 0 {
        let front = plans.drop_last();
        law_lines_need_their_topics(metadata, front);
        assert(plans[plans.len() - 1] == plans.last());
        if lines_fault(metadata, plans) is None {
            assert forall|at: int| 0 <= at < plans.len() implies metadata::topic_of(
                metadata,
                (#[trigger] plans[at]).source.topic@,
            ) is Some by {
                if at < front.len() {
                    assert(front[at] == plans[at]);
                }
            }
        } else if lines_fault(metadata, front) is Some {
            let at = choose|at: int|
                0 <= at < front.len() && metadata::topic_of(
                    metadata,
                    (#[trigger] front[at]).source.topic@,
                ) is None;
            assert(plans[at] == front[at]);
        }
    }
}

/// Of the source topics that the metadata lacks, the first is told.
pub proof fn law_first_lineless_topic_is_told(
    metadata: Metadata,
    plans: Seq<TransferPlan>,
    at: int,
)
    requires
        0 <= at < plans.len(),
        lines_fault(metadata, plans.take(at)) is None,
        metadata::topic_of(metadata, plans[at].source.topic@) is None,
    ensures
        lines_fault(metadata, plans) == Some(
            failure::failed("missing metadata for source topic "@ + plans[at].source.topic@),
        ),
    decreases plans.len(),
{
    let front = plans.drop_last();
    if at < front.len() {
        assert(front.take(at) =~= plans.take(at));
        law_first_lineless_topic_is_told(metadata, front, at);
    } else {
        assert(plans.take(at) =~= front);
    }
}

/// Every line that is added to the board is that of a partition of a transfer, with
/// what is known of it.
pub proof fn law_added_lines_are_of_partitions(
    lines: Map<Seq<char>, LineView>,
    metadata: Metadata,
    plans: Seq<TransferPlan>,
    state: OffsetState,
    key: Seq<char>,
)
    requires
        with_lines(lines, metadata, plans, state).contains_key(key),
        !lines.contains_key(key),
    ensures
        exists|at: int, partition: i32|
            0 <= at < plans.len() && key == line_key(
                (#[trigger] plans[at]).destination_topic@,
                partition,
            ) && #[trigger] with_line(
                Map::empty(),
                plans[at],
                state,
                partition,
            ).contains_key(key) && with_lines(lines, metadata, plans, state)[key] == (LineView {
                source: plans[at].source.instance@,
                destination_topic: plans[at].destination_topic@,
                partition,
                next_offset: if plans[at].kind == TransferKind::Clone {
                    state.offset_of(plans[at].destination_topic@, partition)
                } else {
                    None
                },
                last_error: None,
            }),
    decreases plans.len(),
{
    if plans.len() > 0 {
        let front = plans.drop_last();
        let last = plans.last();
        let earlier = with_lines(lines, metadata, front, state);
        let all = with_lines(lines, metadata, plans, state);
        let partitions = metadata::topic_of(metadata, last.source.topic@)->0.partitions@;
        if lines_fault(metadata, plans) is None {
            lemma_plan_lines(earlier, last, state, partitions);
        }
        if earlier.contains_key(key) {
            law_added_lines_are_of_partitions(lines, metadata, front, state, key);
            let (at, partition) = choose|at: int, partition: i32|
                0 <= at < front.len() && key == line_key(
                    (#[trigger] front[at]).destination_topic@,
                    partition,
                ) && #[trigger] with_line(
                    Map::empty(),
                    front[at],
                    state,
                    partition,
                ).contains_key(key) && earlier[key] == (LineView {
                    source: front[at].source.instance@,
                    destination_topic: front[at].destination_topic@,
                    partition,
                    next_offset: if front[at].kind == TransferKind::Clone {
                        state.offset_of(front[at].destination_topic@, partition)
                    } else {
                        None
                    },
                    last_error: None,
                });
            assert(plans[at] == front[at]);
            assert(all[key] == earlier[key]);
            assert(with_line(Map::empty(), plans[at], state, partition).contains_key(key));
        } else {
            assert(all == with_plan_lines(earlier, last, state, partitions));
            let i = choose|i: int|
                0 <= i < partitions.len() && key == line_key(
                    last.destination_topic@,
                    (#[trigger] partitions[i]).id,
                ) && all[key] == (LineView {
                    source: last.source.instance@,
                    destination_topic: last.destination_topic@,
                    partition: partitions[i].id,
                    next_offset: if last.kind == TransferKind::Clone {
                        state.offset_of(last.destination_topic@, partitions[i].id)
                    } else {
                        None
                    },
                    last_error: None,
                });
            assert(plans[plans.len() - 1] == last);
            assert(with_line(
                Map::empty(),
                plans[plans.len() - 1],
                state,
                partitions[i].id,
            ).contains_key(key));
        }
    }
}

} // verus!
