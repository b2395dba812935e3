//! Writing distilled memories to disk, step by step.
//!
//! What to do next is decided here; the caller reads and writes the files. It
//! asks a [`DistillWrite`] for its [`WriteAction`], performs it, and hands back
//! what came of it. Where a read or write fails, the caller drops the
//! `DistillWrite`: then nothing more is written.

use crate::calendar::JournalDate;
use crate::distill::{memory_views, DistilledMemory};
use crate::memory::{
    INDEX_HEAD, distinct_slugs, entry_views, first_of_slug, has_slug, index_text, index_update,
    law_entries_come_from_first_memories, law_index_links_to_every_entry,
    law_index_links_where_the_link_stands, law_index_only_grows, law_merge_has_each_slug_once, link,
    links_to, memory_index_path, merge_by_slug, merged, option_view, topic_contents, topic_path,
    topic_path_for, topic_text, update_memory_index, with_pointers,
};
use crate::slug::{safe_name, slug};
use crate::store::{held, StorePath};
use crate::text::{contains, starts_with, string_views};
use vstd::prelude::*;

verus! {

/// Where a [`DistillWrite`] stands.
#[derive(Debug)]
pub enum WritePhase {
    /// The file of the next topic is to be read.
    ReadTopic,
    /// The file of the next topic is to be written, with this text.
    WriteTopic(String),
    /// The index is to be read.
    ReadIndex,
    /// The index is to be written, with this text.
    WriteIndex(String),
    /// Everything is written.
    Done,
}

/// The writing of distilled memories, begun by [`write_distilled`].
#[derive(Debug)]
pub struct DistillWrite {
    as_of: JournalDate,
    entries: Vec<(String, DistilledMemory)>,
    files: Vec<StorePath>,
    phase: WritePhase,
}

/// What a [`WritePhase`] holds.
pub enum WritePhaseView {
    ReadTopic,
    WriteTopic(Seq<char>),
    ReadIndex,
    WriteIndex(Seq<char>),
    Done,
}

/// What a [`DistillWrite`] holds. As many topics are written as there are
/// files.
#[verifier::ext_equal]
pub struct WriteView {
    pub as_of: JournalDate,
    pub entries: Seq<(Seq<char>, (Seq<char>, Seq<char>))>,
    pub files: Seq<Seq<Seq<char>>>,
    pub phase: WritePhaseView,
}

/// What a [`DistillWrite`] asks for.
#[derive(Debug, Clone, PartialEq, Eq)]
pub enum WriteAction {
    /// Read this file.
    ReadFile(StorePath),
    /// Replace this file as a whole, or create it, with this text.
    WriteFile(StorePath, String),
    /// Nothing is left to do.
    Finish,
}

/// What a [`WriteAction`] holds.
pub enum WriteActionView {
    ReadFile(Seq<Seq<char>>),
    WriteFile(Seq<Seq<char>>, Seq<char>),
    Finish,
}

/// What came of a [`WriteAction`].
#[derive(Debug, Clone, PartialEq, Eq)]
pub enum WriteEvent {
    /// The file holds this text; `None`: it does not exist.
    FileRead(Option<String>),
    /// The file was written.
    FileWritten,
}

/// What a [`WriteEvent`] holds.
pub enum WriteEventView {
    FileRead(Option<Seq<char>>),
    FileWritten,
}

impl View for WriteAction {
    type V = WriteActionView;

    open spec fn view(&self) -> WriteActionView {
        match self {
            WriteAction::ReadFile(path) => WriteActionView::ReadFile(path@),
            WriteAction::WriteFile(path, text) => WriteActionView::WriteFile(path@, text@),
            WriteAction::Finish => WriteActionView::Finish,
        }
    }
}

impl View for WriteEvent {
    type V = WriteEventView;

    open spec fn view(&self) -> WriteEventView {
        match self {
            WriteEvent::FileRead(text) => WriteEventView::FileRead(option_view(*text)),
            WriteEvent::FileWritten => WriteEventView::FileWritten,
        }
    }
}

impl View for WritePhase {
    type V = WritePhaseView;

    open spec fn view(&self) -> WritePhaseView {
        match self {
            WritePhase::ReadTopic => WritePhaseView::ReadTopic,
            WritePhase::WriteTopic(text) => WritePhaseView::WriteTopic(text@),
            WritePhase::ReadIndex => WritePhaseView::ReadIndex,
            WritePhase::WriteIndex(text) => WritePhaseView::WriteIndex(text@),
            WritePhase::Done => WritePhaseView::Done,
        }
    }
}

/// The paths that `files` hold.
pub open spec fn path_views(files: Seq<StorePath>) -> Seq<Seq<Seq<char>>> {
    files.map_values(|path: StorePath| path@)
}

impl View for DistillWrite {
    type V = WriteView;

    closed spec fn view(&self) -> WriteView {
        WriteView {
            as_of: self.as_of,
            entries: entry_views(self.entries@),
            files: path_views(self.files@),
            phase: self.phase@,
        }
    }
}

/// Where the index of the memories lies.
pub open spec fn index_path() -> Seq<Seq<char>> {
    seq!["MEMORY.md"@]
}

impl WriteView {
    /// The entry whose topic is written next.
    pub open spec fn next_entry(self) -> (Seq<char>, (Seq<char>, Seq<char>)) {
        self.entries[self.files.len() as int]
    }

    /// While topics are read and written, one is left.
    pub open spec fn well_formed(self) -> bool {
        match self.phase {
            WritePhaseView::ReadTopic => self.files.len() < self.entries.len(),
            WritePhaseView::WriteTopic(_) => self.files.len() < self.entries.len(),
            _ => self.files.len() == self.entries.len(),
        }
    }

    /// What is to be done next.
    pub open spec fn action(self) -> WriteActionView {
        match self.phase {
            WritePhaseView::ReadTopic => WriteActionView::ReadFile(topic_path(self.next_entry().0)),
            WritePhaseView::WriteTopic(text) => WriteActionView::WriteFile(
                topic_path(self.next_entry().0),
                text,
            ),
            WritePhaseView::ReadIndex => WriteActionView::ReadFile(index_path()),
            WritePhaseView::WriteIndex(text) => WriteActionView::WriteFile(index_path(), text),
            WritePhaseView::Done => WriteActionView::Finish,
        }
    }

    /// Where the writing stands after `event`. An event that does not answer
    /// the action changes nothing.
    pub open spec fn step(self, event: WriteEventView) -> WriteView {
        match (self.phase, event) {
            (WritePhaseView::ReadTopic, WriteEventView::FileRead(existing)) => WriteView {
                phase: WritePhaseView::WriteTopic(
                    topic_text(existing, self.as_of, self.next_entry().1),
                ),
                ..self
            },
            (WritePhaseView::WriteTopic(_), WriteEventView::FileWritten) => WriteView {
                files: self.files.push(topic_path(self.next_entry().0)),
                phase: if self.files.len() + 1 < self.entries.len() {
                    WritePhaseView::ReadTopic
                } else {
                    WritePhaseView::ReadIndex
                },
                ..self
            },
            (WritePhaseView::ReadIndex, WriteEventView::FileRead(existing)) => WriteView {
                phase: match index_update(existing, self.entries) {
                    Some(text) => WritePhaseView::WriteIndex(text),
                    None => WritePhaseView::Done,
                },
                ..self
            },
            (WritePhaseView::WriteIndex(_), WriteEventView::FileWritten) => WriteView {
                phase: WritePhaseView::Done,
                ..self
            },
            _ => self,
        }
    }
}

/// Where the writing of `memories` begins.
pub open spec fn write_start(
    as_of: JournalDate,
    memories: Seq<(Seq<char>, Seq<char>)>,
) -> WriteView {
    WriteView {
        as_of,
        entries: merged(memories),
        files: Seq::empty(),
        phase: if merged(memories).len() > 0 {
            WritePhaseView::ReadTopic
        } else {
            WritePhaseView::ReadIndex
        },
    }
}

/// Begins to write distilled memories. Each topic becomes `memory/<slug>.md`;
/// if the file already exists (a prior dream), the new body is appended under a
/// dated section so that chronology is preserved. `MEMORY.md` gains one
/// idempotent pointer line per slug.
pub fn write_distilled(as_of: JournalDate, memories: &[DistilledMemory]) -> (r: DistillWrite)
    ensures
        r@ == write_start(as_of, memory_views(memories@)),
        r@.well_formed(),
{
    let entries = merge_by_slug(memories);
    let files: Vec<StorePath> = Vec::new();
    assert(path_views(files@) =~= Seq::empty());
    let phase = if entries.len() > 0 {
        WritePhase::ReadTopic
    } else {
        WritePhase::ReadIndex
    };
    assert(entry_views(entries@).len() == entries@.len());
    DistillWrite { as_of, entries, files, phase }
}

impl DistillWrite {
    #[verifier::type_invariant]
    spec fn holds_together(self) -> bool {
        self@.well_formed()
    }

    /// What is to be done next.
    pub fn action(&self) -> (action: WriteAction)
        ensures
            action@ == self@.action(),
    {
        proof {
            use_type_invariant(self);
        }
        match &self.phase {
            WritePhase::ReadTopic => WriteAction::ReadFile(
                topic_path_for(&self.entries[self.files.len()].0),
            ),
            WritePhase::WriteTopic(text) => WriteAction::WriteFile(
                topic_path_for(&self.entries[self.files.len()].0),
                text.clone(),
            ),
            WritePhase::ReadIndex => WriteAction::ReadFile(memory_index_path()),
            WritePhase::WriteIndex(text) => WriteAction::WriteFile(
                memory_index_path(),
                text.clone(),
            ),
            WritePhase::Done => WriteAction::Finish,
        }
    }

    /// Where the writing stands after `event`. An event that does not answer
    /// the action changes nothing.
    pub fn step(self, event: WriteEvent) -> (r: DistillWrite)
        ensures
            r@ == self@.step(event@),
            r@.well_formed(),
    {
        proof {
            use_type_invariant(&self);
        }
        let DistillWrite { as_of, entries, mut files, phase } = self;
        match (phase, event) {
            (WritePhase::ReadTopic, WriteEvent::FileRead(existing)) => {
                let text = topic_contents(&existing, as_of, &entries[files.len()].1);
                DistillWrite { as_of, entries, files, phase: WritePhase::WriteTopic(text) }
            },
            (WritePhase::WriteTopic(_), WriteEvent::FileWritten) => {
                let ghost before = files@;
                let path = topic_path_for(&entries[files.len()].0);
                files.push(path);
                assert(path_views(files@) =~= path_views(before).push(path@));
                let phase = if files.len() < entries.len() {
                    WritePhase::ReadTopic
                } else {
                    WritePhase::ReadIndex
                };
                DistillWrite { as_of, entries, files, phase }
            },
            (WritePhase::ReadIndex, WriteEvent::FileRead(existing)) => {
                let phase = match update_memory_index(&existing, &entries) {
                    Some(text) => WritePhase::WriteIndex(text),
                    None => WritePhase::Done,
                };
                DistillWrite { as_of, entries, files, phase }
            },
            (WritePhase::WriteIndex(_), WriteEvent::FileWritten) => DistillWrite {
                as_of,
                entries,
                files,
                phase: WritePhase::Done,
            },
            (phase, _) => DistillWrite { as_of, entries, files, phase },
        }
    }

    /// Tells whether nothing is left to do.
    pub fn is_done(&self) -> (r: bool)
        ensures
            r == (self@.phase is Done),
    {
        matches!(self.phase, WritePhase::Done)
    }

    /// The topic files that were written.
    pub fn into_files(self) -> (files: Vec<StorePath>)
        ensures
            path_views(files@) == self@.files,
    {
        self.files
    }
}

/// The writing and the store after its next action was performed.
pub open spec fn write_performed(
    write: WriteView,
    store: Map<Seq<Seq<char>>, Seq<char>>,
) -> (WriteView, Map<Seq<Seq<char>>, Seq<char>>) {
    match write.action() {
        WriteActionView::ReadFile(path) => (
            write.step(WriteEventView::FileRead(held(store, path))),
            store,
        ),
        WriteActionView::WriteFile(path, text) => (
            write.step(WriteEventView::FileWritten),
            store.insert(path, text),
        ),
        WriteActionView::Finish => (write, store),
    }
}

/// The writing and the store after so many actions were performed.
pub open spec fn write_driven(
    write: WriteView,
    store: Map<Seq<Seq<char>>, Seq<char>>,
    actions: nat,
) -> (WriteView, Map<Seq<Seq<char>>, Seq<char>>)
    decreases actions,
{
    if actions == 0 {
        (write, store)
    } else {
        let (before, held) = write_driven(write, store, (actions - 1) as nat);
        write_performed(before, held)
    }
}

/// The `store` once the topics of the `entries` are written.
pub open spec fn topics_written(
    store: Map<Seq<Seq<char>>, Seq<char>>,
    as_of: JournalDate,
    entries: Seq<(Seq<char>, (Seq<char>, Seq<char>))>,
) -> Map<Seq<Seq<char>>, Seq<char>>
    decreases entries.len(),
{
    if entries.len() == 0 {
        store
    } else {
        let path = topic_path(entries.last().0);
        topics_written(store, as_of, entries.drop_last()).insert(
            path,
            topic_text(held(store, path), as_of, entries.last().1),
        )
    }
}

/// The `store` once the `entries` are written: each topic's file by what it held, and
/// the index by what it held.
pub open spec fn memories_written(
    store: Map<Seq<Seq<char>>, Seq<char>>,
    as_of: JournalDate,
    entries: Seq<(Seq<char>, (Seq<char>, Seq<char>))>,
) -> Map<Seq<Seq<char>>, Seq<char>> {
    let topics = topics_written(store, as_of, entries);
    match index_update(held(store, index_path()), entries) {
        Some(text) => topics.insert(index_path(), text),
        None => topics,
    }
}

/// The files of the topics of the `entries`.
pub open spec fn topic_paths(entries: Seq<(Seq<char>, (Seq<char>, Seq<char>))>) -> Seq<
    Seq<Seq<char>>,
> {
    entries.map_values(|entry: (Seq<char>, (Seq<char>, Seq<char>))| topic_path(entry.0))
}

/// Different slugs have different files, and none has that of the index.
proof fn lemma_paths_differ(a: Seq<char>, b: Seq<char>)
    ensures
        topic_path(a) == topic_path(b) ==> a == b,
        topic_path(a) != index_path(),
{
    assert(topic_path(a).len() == 2);
    assert(index_path().len() == 1);
    if topic_path(a) == topic_path(b) {
        let x = topic_path(a)[1];
        let y = topic_path(b)[1];
        assert(x == y);
        assert(x.take(a.len() as int) =~= a);
        assert(y.take(b.len() as int) =~= b);
        assert(a.len() + ".md"@.len() == x.len());
        assert(b.len() + ".md"@.len() == y.len());
    }
}

/// Writing topics leaves every other file as it was.
proof fn lemma_other_files_stay(
    store: Map<Seq<Seq<char>>, Seq<char>>,
    as_of: JournalDate,
    entries: Seq<(Seq<char>, (Seq<char>, Seq<char>))>,
    path: Seq<Seq<char>>,
)
    requires
        forall|i: int| 0 <= i < entries.len() ==> topic_path((#[trigger] entries[i]).0) != path,
    ensures
        held(topics_written(store, as_of, entries), path) == held(store, path),
    decreases entries.len(),
{
    if entries.len() > 0 {
        assert(topic_path(entries[entries.len() - 1].0) != path);
        lemma_other_files_stay(store, as_of, entries.drop_last(), path);
    }
}

/// The writing with the first `count` topics written.
pub open spec fn topics_done(
    as_of: JournalDate,
    entries: Seq<(Seq<char>, (Seq<char>, Seq<char>))>,
    count: nat,
) -> WriteView {
    WriteView {
        as_of,
        entries,
        files: topic_paths(entries.take(count as int)),
        phase: if count < entries.len() {
            WritePhaseView::ReadTopic
        } else {
            WritePhaseView::ReadIndex
        },
    }
}

/// Two actions write one topic.
proof fn lemma_topics_are_written(
    store: Map<Seq<Seq<char>>, Seq<char>>,
    as_of: JournalDate,
    entries: Seq<(Seq<char>, (Seq<char>, Seq<char>))>,
    count: nat,
)
    requires
        distinct_slugs(entries),
        count <= entries.len(),
    ensures
        write_driven(topics_done(as_of, entries, 0), store, 2 * count) == (
            topics_done(as_of, entries, count),
            topics_written(store, as_of, entries.take(count as int)),
        ),
    decreases count,
{
    if count == 0 {
        assert(entries.take(0) =~= Seq::empty());
    } else {
        let start = topics_done(as_of, entries, 0);
        let less = (count - 1) as nat;
        lemma_topics_are_written(store, as_of, entries, less);
        let entry = entries[less as int];
        let path = topic_path(entry.0);
        let before = topics_written(store, as_of, entries.take(less as int));
        assert forall|i: int| 0 <= i < less implies topic_path(
            (#[trigger] entries.take(less as int)[i]).0,
        ) != path by {
            lemma_paths_differ(entries[i].0, entry.0);
            assert(entries[i].0 != entries[less as int].0);
        }
        lemma_other_files_stay(store, as_of, entries.take(less as int), path);
        assert(entries.take(count as int).drop_last() =~= entries.take(less as int));
        assert(topic_paths(entries.take(count as int)) =~= topic_paths(
            entries.take(less as int),
        ).push(path));
        let text = topic_text(held(store, path), as_of, entry.1);
        let middle = WriteView {
            phase: WritePhaseView::WriteTopic(text),
            ..topics_done(as_of, entries, less)
        };
        assert(write_driven(start, store, (2 * less + 1) as nat) == (middle, before)) by {
            assert((2 * less + 1) as nat - 1 == 2 * less);
        }
        assert((2 * count) as nat - 1 == 2 * less + 1);
        assert(write_performed(middle, before) == (
            topics_done(as_of, entries, count),
            before.insert(path, text),
        ));
    }
}

/// Written out to the end, the memories are in the store: every topic's file
/// and the index, each by what it held before, and every other file as it was.
/// The last action is what completes the writing.
pub proof fn law_memories_are_written(
    as_of: JournalDate,
    memories: Seq<(Seq<char>, Seq<char>)>,
    store: Map<Seq<Seq<char>>, Seq<char>>,
) -> (actions: nat)
    ensures
        write_driven(write_start(as_of, memories), store, actions) == (
            WriteView {
                as_of,
                entries: merged(memories),
                files: topic_paths(merged(memories)),
                phase: WritePhaseView::Done,
            },
            memories_written(store, as_of, merged(memories)),
        ),
        actions > 0,
        !(write_driven(write_start(as_of, memories), store, (actions - 1) as nat).0.phase is Done),
{
    let entries = merged(memories);
    let start = write_start(as_of, memories);
    let n = entries.len();
    law_merge_has_each_slug_once(memories);
    lemma_topics_are_written(store, as_of, entries, n);
    assert(entries.take(n as int) =~= entries);
    assert(topic_paths(entries.take(0)) =~= Seq::empty());
    assert(start == topics_done(as_of, entries, 0));
    let topics = topics_written(store, as_of, entries);
    assert forall|i: int| 0 <= i < entries.len() implies topic_path((#[trigger] entries[i]).0)
        != index_path() by {
        lemma_paths_differ(entries[i].0, entries[i].0);
    }
    lemma_other_files_stay(store, as_of, entries, index_path());
    let read = (2 * n + 1) as nat;
    let written = (2 * n + 2) as nat;
    assert(write_driven(start, store, read) == write_performed(
        topics_done(as_of, entries, n),
        topics,
    ));
    match index_update(held(store, index_path()), entries) {
        Some(text) => {
            assert(write_driven(start, store, written) == write_performed(
                write_driven(start, store, read).0,
                write_driven(start, store, read).1,
            ));
            written
        },
        None => read,
    }
}

/// Once memories are written, the file of each topic holds what it held with
/// the memory of its slug added, and the index links to it.
pub proof fn law_every_topic_is_kept(
    store: Map<Seq<Seq<char>>, Seq<char>>,
    as_of: JournalDate,
    memories: Seq<(Seq<char>, Seq<char>)>,
    i: int,
)
    requires
        0 <= i < merged(memories).len(),
    ensures
        ({
            let (name, memory) = merged(memories)[i];
            let then = memories_written(store, as_of, merged(memories));
            &&& held(then, topic_path(name)) == Some(
                topic_text(held(store, topic_path(name)), as_of, memory),
            )
            &&& links_to(index_text(held(then, index_path())), name)
        }),
{
    let entries = merged(memories);
    let name = entries[i].0;
    law_merge_has_each_slug_once(memories);
    lemma_paths_differ(name, name);
    lemma_topic_is_written(store, as_of, entries, i);
    law_index_links_to_every_entry(index_text(held(store, index_path())), entries, i);
    assert forall|k: int| 0 <= k < entries.len() implies topic_path((#[trigger] entries[k]).0)
        != index_path() by {
        lemma_paths_differ(entries[k].0, entries[k].0);
    }
    lemma_other_files_stay(store, as_of, entries, index_path());
}

/// Of the topics that are written, each one's file holds its memory.
proof fn lemma_topic_is_written(
    store: Map<Seq<Seq<char>>, Seq<char>>,
    as_of: JournalDate,
    entries: Seq<(Seq<char>, (Seq<char>, Seq<char>))>,
    i: int,
)
    requires
        distinct_slugs(entries),
        0 <= i < entries.len(),
    ensures
        held(topics_written(store, as_of, entries), topic_path(entries[i].0)) == Some(
            topic_text(held(store, topic_path(entries[i].0)), as_of, entries[i].1),
        ),
    decreases entries.len(),
{
    if i < entries.len() - 1 {
        lemma_topic_is_written(store, as_of, entries.drop_last(), i);
        assert(entries[i].0 != entries[entries.len() - 1].0);
        lemma_paths_differ(entries[i].0, entries.last().0);
    }
}

/// Writing memories leaves every file as it was but the index and the files of
/// their topics.
pub proof fn law_writing_leaves_other_files(
    store: Map<Seq<Seq<char>>, Seq<char>>,
    as_of: JournalDate,
    memories: Seq<(Seq<char>, Seq<char>)>,
    path: Seq<Seq<char>>,
)
    requires
        path != seq!["MEMORY.md"@],
        forall|k: int|
            0 <= k < memories.len() ==> topic_path(slug((#[trigger] memories[k]).0)) != path,
    ensures
        held(memories_written(store, as_of, merged(memories)), path) == held(store, path),
{
    let entries = merged(memories);
    let firsts = law_entries_come_from_first_memories(memories);
    assert forall|i: int| 0 <= i < entries.len() implies topic_path((#[trigger] entries[i]).0)
        != path by {
        assert(first_of_slug(memories, entries[i].0, firsts[i]));
        assert(topic_path(slug(memories[firsts[i]].0)) != path);
    }
    lemma_other_files_stay(store, as_of, entries, path);
}

/// Writing memories makes of the index what it held, or its head where there was
/// none, with a pointer to every topic. What it held is not changed.
pub proof fn law_index_gains_the_pointers(
    store: Map<Seq<Seq<char>>, Seq<char>>,
    as_of: JournalDate,
    memories: Seq<(Seq<char>, Seq<char>)>,
    k: int,
)
    requires
        0 <= k < memories.len(),
    ensures
        ({
            let before = held(store, seq!["MEMORY.md"@]);
            let after = held(
                memories_written(store, as_of, merged(memories)),
                seq!["MEMORY.md"@],
            );
            let begun = match before {
                Some(text) => text,
                None => INDEX_HEAD@,
            };
            &&& after == if with_pointers(begun, merged(memories)) == begun {
                before
            } else {
                Some(with_pointers(begun, merged(memories)))
            }
            &&& before is Some ==> after is Some
            &&& after matches Some(text) ==> starts_with(text, begun) && contains(
                text,
                link(slug(memories[k].0)),
            )
        }),
{
    let entries = merged(memories);
    let begun = index_text(held(store, index_path()));
    let grown = with_pointers(begun, entries);
    assert forall|i: int| 0 <= i < entries.len() implies topic_path((#[trigger] entries[i]).0)
        != index_path() by {
        lemma_paths_differ(entries[i].0, entries[i].0);
    }
    lemma_other_files_stay(store, as_of, entries, index_path());
    law_merge_has_each_slug_once(memories);
    law_index_only_grows(begun, entries);
    assert(grown.subrange(0, begun.len() as int) =~= begun);
    assert(has_slug(entries, slug(memories[k].0)));
    let i = choose|i: int|
        0 <= i < entries.len() && (#[trigger] entries[i]).0 == slug(memories[k].0);
    law_index_links_to_every_entry(begun, entries, i);
    assert(safe_name(entries[i].0));
    law_index_links_where_the_link_stands(grown, entries[i].0);
}

/// The files that are reported are those of the topics, in order.
pub proof fn law_files_are_those_of_the_topics(
    entries: Seq<(Seq<char>, (Seq<char>, Seq<char>))>,
    files: Seq<StorePath>,
    i: int,
)
    ensures
        topic_paths(entries).len() == entries.len(),
        0 <= i < entries.len() ==> topic_paths(entries)[i] == seq![
            "memory"@,
            entries[i].0 + ".md"@,
        ],
        path_views(files).len() == files.len(),
        0 <= i < files.len() ==> path_views(files)[i] == string_views(files[i].components@),
{
}

/// However far the writing has come, the index is what it was, unless the
/// writing is done: it never names a file that is not written.
pub proof fn law_index_is_written_last(
    as_of: JournalDate,
    memories: Seq<(Seq<char>, Seq<char>)>,
    store: Map<Seq<Seq<char>>, Seq<char>>,
    actions: nat,
)
    ensures
        ({
            let (write, now) = write_driven(write_start(as_of, memories), store, actions);
            !(write.phase is Done) ==> held(now, index_path()) == held(store, index_path())
        }),
    decreases actions,
{
    if actions > 0 {
        let begun = write_start(as_of, memories);
        law_index_is_written_last(as_of, memories, store, (actions - 1) as nat);
        let (write, now) = write_driven(begun, store, (actions - 1) as nat);
        lemma_paths_differ(write.next_entry().0, write.next_entry().0);
        assert(write_driven(begun, store, actions) == write_performed(write, now));
    }
}

/// An event that does not answer what was asked for changes nothing.
pub proof fn law_unasked_write_events_change_nothing(write: WriteView, event: WriteEventView)
    requires
        match write.action() {
            WriteActionView::ReadFile(_) => !(event is FileRead),
            WriteActionView::WriteFile(_, _) => !(event is FileWritten),
            WriteActionView::Finish => true,
        },
    ensures
        write.step(event) == write,
{
}

/// What is asked for and what came of it are seen whole.
pub proof fn law_write_actions_are_seen_whole(path: StorePath, text: String)
    ensures
        WriteAction::ReadFile(path)@ == WriteActionView::ReadFile(string_views(path.components@)),
        WriteAction::WriteFile(path, text)@ == WriteActionView::WriteFile(
            string_views(path.components@),
            text@,
        ),
        WriteEvent::FileRead(Some(text))@ == WriteEventView::FileRead(Some(text@)),
        WriteEvent::FileRead(None)@ == WriteEventView::FileRead(None),
        WriteEvent::FileWritten@ == WriteEventView::FileWritten,
{
}

} // verus!
