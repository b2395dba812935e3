//! What a dream pass comes to: the effect of a [`DreamRun`](crate::dream::DreamRun)
//! whose actions are performed on a store of files.
//!
//! The listing of the journal's directories is given, as is what the model replies
//! to a prompt. Both stay what they are while a pass runs.

use crate::calendar::JournalDate;
use crate::distill::{memories_in, prompt, DreamOptions};
use crate::dream::{
    dream_is_due, eligible, is_eligible, last_dream, law_eligible_days, law_marker_round_trip,
    marker_path, memories_kept, most_recent, nothing_written, DreamActionView, DreamEventView,
    DreamPhaseView, DreamView, DreamWriteView, OutcomeView,
};
use crate::journal::{
    after, ascending, date_text, days_of_listing, in_order, journal_path, law_days_in_order,
    law_listed_days_are_legible,
};
use crate::memory::{
    index_text, law_merge_loses_no_memory, links_to, merged, topic_path, topic_text,
};
use crate::slug::slug;
use crate::store::held;
use crate::text::contains;
use crate::writing::{
    index_path, law_every_topic_is_kept, law_memories_are_written, memories_written, topic_paths,
    write_driven, write_performed, write_start, WritePhaseView, WriteView,
};
use vstd::prelude::*;

verus! {

/// What a pass finds around it: the day, its bounds, the listing of the journal's
/// directories, and what the model replies to a prompt.
pub struct Setting {
    pub as_of: JournalDate,
    pub opts: DreamOptions,
    pub listing: Seq<(Seq<char>, Seq<Seq<char>>)>,
    pub model: spec_fn(Seq<char>) -> Seq<char>,
}

impl Setting {
    /// A pass that has not done anything yet.
    pub open spec fn start(self) -> DreamView {
        DreamView { as_of: self.as_of, opts: self.opts, phase: DreamPhaseView::ReadMarker }
    }

    /// The days that a pass may dream, in a `store`.
    pub open spec fn fresh(self, store: Map<Seq<Seq<char>>, Seq<char>>) -> Seq<JournalDate> {
        eligible(
            in_order(days_of_listing(self.listing)),
            last_dream(held(store, marker_path())),
            self.as_of,
        )
    }

    /// The days that a pass dreams, in a `store`.
    pub open spec fn days(self, store: Map<Seq<Seq<char>>, Seq<char>>) -> Seq<JournalDate> {
        most_recent(self.fresh(store), self.opts.max_days as nat)
    }

    /// Where days are eligible, the pass may keep at least one of them.
    pub open spec fn admits(self, store: Map<Seq<Seq<char>>, Seq<char>>) -> bool {
        self.opts.max_days > 0 || self.fresh(store).len() == 0
    }

    /// What the model is asked, in a `store`.
    pub open spec fn prompt(self, store: Map<Seq<Seq<char>>, Seq<char>>) -> Seq<char> {
        prompt(journals(store, self.days(store)), self.opts)
    }

    /// The memories of the model's reply, and how many blocks in it are skipped.
    pub open spec fn distilled(self, store: Map<Seq<Seq<char>>, Seq<char>>) -> (
        Seq<(Seq<char>, Seq<char>)>,
        nat,
    ) {
        memories_in((self.model)(self.prompt(store)))
    }

    /// What a pass knows while it writes.
    pub open spec fn known(self, store: Map<Seq<Seq<char>>, Seq<char>>) -> DreamWriteView {
        DreamWriteView {
            days_considered: self.days(store).len(),
            latest: self.days(store).last(),
            memories_written: self.distilled(store).0.len(),
            skipped_blocks: self.distilled(store).1,
        }
    }

    /// The outcome of a pass over a `store`, and the store after it.
    pub open spec fn dreamed(self, store: Map<Seq<Seq<char>>, Seq<char>>) -> (
        OutcomeView,
        Map<Seq<Seq<char>>, Seq<char>>,
    ) {
        let days = self.days(store);
        let (memories, skipped) = self.distilled(store);
        if self.fresh(store).len() == 0 {
            (nothing_written(0, 0, "no new journal days to distill"@), store)
        } else if journals(store, days).len() == 0 {
            (nothing_written(days.len(), 0, "journal days were empty"@), store)
        } else if memories.len() == 0 {
            (nothing_written(days.len(), skipped, "model returned no valid memories"@), store)
        } else {
            (
                memories_kept(self.known(store), topic_paths(merged(memories))),
                memories_written(store, self.as_of, merged(memories)).insert(
                    marker_path(),
                    date_text(days.last()),
                ),
            )
        }
    }

    /// A pass and the store after its next action was performed.
    pub open spec fn performed(self, run: DreamView, store: Map<Seq<Seq<char>>, Seq<char>>) -> (
        DreamView,
        Map<Seq<Seq<char>>, Seq<char>>,
    ) {
        match run.action() {
            DreamActionView::ReadFile(path) => (
                run.step(DreamEventView::FileRead(held(store, path))),
                store,
            ),
            DreamActionView::ListJournal => (
                run.step(DreamEventView::JournalListed(self.listing)),
                store,
            ),
            DreamActionView::AskModel(prompt) => (
                run.step(DreamEventView::ModelReplied((self.model)(prompt))),
                store,
            ),
            DreamActionView::WriteFile(path, text) => (
                run.step(DreamEventView::FileWritten),
                store.insert(path, text),
            ),
            DreamActionView::Finish => (run, store),
        }
    }

    /// A pass over a `store`, and the store, after so many actions were performed.
    pub open spec fn driven(self, store: Map<Seq<Seq<char>>, Seq<char>>, actions: nat) -> (
        DreamView,
        Map<Seq<Seq<char>>, Seq<char>>,
    )
        decreases actions,
    {
        if actions == 0 {
            (self.start(), store)
        } else {
            let (run, now) = self.driven(store, (actions - 1) as nat);
            self.performed(run, now)
        }
    }
}

/// The `days` that have a journal in a `store`, each with it.
pub open spec fn journals(store: Map<Seq<Seq<char>>, Seq<char>>, days: Seq<JournalDate>) -> Seq<
    (JournalDate, Seq<char>),
>
    decreases days.len(),
{
    if days.len() == 0 {
        Seq::empty()
    } else {
        let init = journals(store, days.drop_last());
        match held(store, journal_path(days.last())) {
            Some(text) => init.push((days.last(), text)),
            None => init,
        }
    }
}

/// What holds of a pass over `store` and of what the store has become, after
/// every action.
spec fn on_course(
    setting: Setting,
    store: Map<Seq<Seq<char>>, Seq<char>>,
    run: DreamView,
    now: Map<Seq<Seq<char>>, Seq<char>>,
) -> bool {
    let days = setting.days(store);
    &&& run.as_of == setting.as_of
    &&& run.opts == setting.opts
    &&& match run.phase {
        DreamPhaseView::ReadMarker => now == store,
        DreamPhaseView::ListJournal(marker) => {
            &&& now == store
            &&& marker == last_dream(held(store, marker_path()))
        },
        DreamPhaseView::ReadDay { days: chosen, next, loaded } => {
            &&& now == store
            &&& setting.fresh(store).len() > 0
            &&& chosen == days
            &&& next < days.len()
            &&& loaded == journals(store, days.take(next as int))
        },
        DreamPhaseView::AskModel { days_considered, latest, prompt } => {
            &&& now == store
            &&& setting.fresh(store).len() > 0
            &&& journals(store, days).len() > 0
            &&& days_considered == days.len()
            &&& latest == days.last()
            &&& prompt == setting.prompt(store)
        },
        DreamPhaseView::Write(known, write) => {
            &&& has_memories(setting, store)
            &&& known == setting.known(store)
            &&& write.well_formed()
            &&& !(write.phase is Done)
            &&& exists|actions: nat|
                (write, now) == #[trigger] write_driven(
                    write_start(setting.as_of, setting.distilled(store).0),
                    store,
                    actions,
                )
        },
        DreamPhaseView::WriteMarker(known, files) => {
            &&& has_memories(setting, store)
            &&& known == setting.known(store)
            &&& files == topic_paths(merged(setting.distilled(store).0))
            &&& now == memories_written(store, setting.as_of, merged(setting.distilled(store).0))
        },
        DreamPhaseView::Finished(outcome) => (outcome, now) == setting.dreamed(store),
    }
}

/// A pass over `store` gets memories from the model.
pub open spec fn has_memories(setting: Setting, store: Map<Seq<Seq<char>>, Seq<char>>) -> bool {
    &&& setting.fresh(store).len() > 0
    &&& journals(store, setting.days(store)).len() > 0
    &&& setting.distilled(store).0.len() > 0
}

/// Once the writing of memories is done, it stays as it is.
proof fn lemma_done_stays(
    write: WriteView,
    store: Map<Seq<Seq<char>>, Seq<char>>,
    done: nat,
    actions: nat,
)
    requires
        done <= actions,
        write_driven(write, store, done).0.phase is Done,
    ensures
        write_driven(write, store, actions) == write_driven(write, store, done),
    decreases actions,
{
    if done < actions {
        lemma_done_stays(write, store, done, (actions - 1) as nat);
    }
}

/// Every action keeps a pass on its course.
proof fn lemma_stays_on_course(
    setting: Setting,
    store: Map<Seq<Seq<char>>, Seq<char>>,
    run: DreamView,
    now: Map<Seq<Seq<char>>, Seq<char>>,
)
    requires
        setting.admits(store),
        on_course(setting, store, run, now),
    ensures
        on_course(
            setting,
            store,
            setting.performed(run, now).0,
            setting.performed(run, now).1,
        ),
{
    let (after, then) = setting.performed(run, now);
    let days = setting.days(store);
    match run.phase {
        DreamPhaseView::ListJournal(marker) => {
            if setting.fresh(store).len() > 0 {
                assert(days.take(0) =~= Seq::empty());
                assert(journals(store, days.take(0)) =~= Seq::empty());
            }
        },
        DreamPhaseView::ReadDay { days: chosen, next, loaded } => {
            let more = days.take(next as int + 1);
            assert(more.drop_last() =~= days.take(next as int));
            assert(more.last() == days[next as int]);
            if next + 1 == days.len() {
                assert(more =~= days);
            }
        },
        DreamPhaseView::AskModel { days_considered, latest, prompt } => {
            let begun = write_start(setting.as_of, setting.distilled(store).0);
            assert(write_driven(begun, store, 0) == (begun, store));
        },
        DreamPhaseView::Write(known, write) => {
            let memories = setting.distilled(store).0;
            let begun = write_start(setting.as_of, memories);
            let actions = choose|actions: nat|
                (write, now) == #[trigger] write_driven(begun, store, actions);
            let next = write_performed(write, now);
            assert(write_driven(begun, store, actions + 1) == next);
            assert(then == next.1);
            if next.0.phase is Done {
                let all = law_memories_are_written(setting.as_of, memories, store);
                if actions + 1 <= all {
                    lemma_done_stays(begun, store, actions + 1, all);
                } else {
                    lemma_done_stays(begun, store, all, actions + 1);
                }
            }
        },
        _ => {},
    }
}

/// A pass is on its course after any number of actions.
proof fn lemma_is_on_course(
    setting: Setting,
    store: Map<Seq<Seq<char>>, Seq<char>>,
    actions: nat,
)
    requires
        setting.admits(store),
    ensures
        on_course(
            setting,
            store,
            setting.driven(store, actions).0,
            setting.driven(store, actions).1,
        ),
    decreases actions,
{
    if actions > 0 {
        let (run, now) = setting.driven(store, (actions - 1) as nat);
        lemma_is_on_course(setting, store, (actions - 1) as nat);
        lemma_stays_on_course(setting, store, run, now);
    }
}

/// How far a pass has come.
pub open spec fn progress(phase: DreamPhaseView) -> nat {
    match phase {
        DreamPhaseView::ReadMarker => 0,
        DreamPhaseView::ListJournal(_) => 1,
        DreamPhaseView::ReadDay { days, next, loaded } => 2,
        DreamPhaseView::AskModel { days_considered, latest, prompt } => 3,
        DreamPhaseView::Write(_, _) => 4,
        DreamPhaseView::WriteMarker(_, _) => 5,
        DreamPhaseView::Finished(_) => 6,
    }
}

/// How many actions a phase that reads or writes several files can still take.
spec fn actions_left(phase: DreamPhaseView) -> int {
    match phase {
        DreamPhaseView::ReadDay { days, next, loaded } => days.len() - next,
        DreamPhaseView::Write(_, write) => 2 * (write.entries.len() - write.files.len())
            + match write.phase {
            WritePhaseView::ReadTopic => 2int,
            WritePhaseView::WriteTopic(_) => 1,
            WritePhaseView::ReadIndex => 2,
            WritePhaseView::WriteIndex(_) => 1,
            WritePhaseView::Done => 0,
        },
        _ => 0,
    }
}

/// Driven on from where it stands, a pass finishes.
proof fn lemma_pass_finishes(
    setting: Setting,
    store: Map<Seq<Seq<char>>, Seq<char>>,
    actions: nat,
) -> (all: nat)
    requires
        setting.admits(store),
    ensures
        setting.driven(store, all).0.phase is Finished,
    decreases
            6 - progress(setting.driven(store, actions).0.phase),
            actions_left(setting.driven(store, actions).0.phase),
{
    let (run, now) = setting.driven(store, actions);
    lemma_is_on_course(setting, store, actions);
    if run.phase is Finished {
        actions
    } else {
        assert(setting.driven(store, actions + 1) == setting.performed(run, now));
        lemma_is_on_course(setting, store, actions + 1);
        lemma_pass_finishes(setting, store, actions + 1)
    }
}

/// A pass whose actions are performed comes to an end. Then its outcome and the
/// store are those that its setting determines.
pub proof fn law_pass_runs_to_its_end(
    setting: Setting,
    store: Map<Seq<Seq<char>>, Seq<char>>,
) -> (actions: nat)
    requires
        setting.admits(store),
    ensures
        setting.driven(store, actions) == (
            DreamView {
                as_of: setting.as_of,
                opts: setting.opts,
                phase: DreamPhaseView::Finished(setting.dreamed(store).0),
            },
            setting.dreamed(store).1,
        ),
{
    let actions = lemma_pass_finishes(setting, store, 0);
    lemma_is_on_course(setting, store, actions);
    actions
}

/// The writing of memories leaves a file as it is that is neither the index nor
/// that of a topic.
proof fn lemma_writing_keeps(
    write: WriteView,
    store: Map<Seq<Seq<char>>, Seq<char>>,
    actions: nat,
    path: Seq<Seq<char>>,
)
    requires
        path != index_path(),
        forall|slug: Seq<char>| path != #[trigger] topic_path(slug),
    ensures
        held(write_driven(write, store, actions).1, path) == held(store, path),
    decreases actions,
{
    if actions > 0 {
        lemma_writing_keeps(write, store, (actions - 1) as nat, path);
    }
}

/// Whatever a pass has done so far, it has written nothing but the index, topics
/// and the marker, and the marker only at its end.
proof fn lemma_pass_keeps(
    setting: Setting,
    store: Map<Seq<Seq<char>>, Seq<char>>,
    actions: nat,
    path: Seq<Seq<char>>,
)
    requires
        setting.admits(store),
        path != index_path(),
        forall|slug: Seq<char>| path != #[trigger] topic_path(slug),
        path != marker_path() || !(setting.driven(store, actions).0.phase is Finished),
    ensures
        held(setting.driven(store, actions).1, path) == held(store, path),
{
    let (run, now) = setting.driven(store, actions);
    lemma_is_on_course(setting, store, actions);
    let memories = setting.distilled(store).0;
    let begun = write_start(setting.as_of, memories);
    match run.phase {
        DreamPhaseView::Write(known, write) => {
            let k = choose|k: nat| (write, now) == #[trigger] write_driven(begun, store, k);
            lemma_writing_keeps(begun, store, k, path);
        },
        DreamPhaseView::WriteMarker(_, _) => {
            let all = law_memories_are_written(setting.as_of, memories, store);
            lemma_writing_keeps(begun, store, all, path);
        },
        DreamPhaseView::Finished(_) => {
            let all = law_memories_are_written(setting.as_of, memories, store);
            lemma_writing_keeps(begun, store, all, path);
        },
        _ => {},
    }
}

/// The marker lies apart from the index and from every topic.
proof fn lemma_marker_lies_apart()
    ensures
        marker_path() != index_path(),
        forall|slug: Seq<char>| marker_path() != #[trigger] topic_path(slug),
{
    reveal_strlit("last-dream");
    reveal_strlit("MEMORY.md");
    assert(marker_path()[0].len() == 10);
    assert(index_path()[0].len() == 9);
    assert(marker_path().len() == 1);
}

/// However far a pass has come, the marker is what it was, unless the pass has
/// finished. So a pass that stops half-way leaves its days to be dreamed again.
pub proof fn law_marker_is_written_last(
    setting: Setting,
    store: Map<Seq<Seq<char>>, Seq<char>>,
    actions: nat,
)
    requires
        setting.admits(store),
        !(setting.driven(store, actions).0.phase is Finished),
    ensures
        held(setting.driven(store, actions).1, marker_path()) == held(store, marker_path()),
        setting.fresh(setting.driven(store, actions).1) == setting.fresh(store),
{
    lemma_marker_lies_apart();
    lemma_pass_keeps(setting, store, actions, marker_path());
}

/// However far a pass has come, the files besides the marker, the index and the
/// topics are what they were.
pub proof fn law_other_files_are_kept(
    setting: Setting,
    store: Map<Seq<Seq<char>>, Seq<char>>,
    actions: nat,
    path: Seq<Seq<char>>,
)
    requires
        setting.admits(store),
        path != marker_path(),
        path != index_path(),
        forall|slug: Seq<char>| path != #[trigger] topic_path(slug),
    ensures
        held(setting.driven(store, actions).1, path) == held(store, path),
{
    lemma_pass_keeps(setting, store, actions, path);
}

/// However far a pass has come, the journal of every day is what it was.
pub proof fn law_journal_is_kept(
    setting: Setting,
    store: Map<Seq<Seq<char>>, Seq<char>>,
    actions: nat,
    date: JournalDate,
)
    requires
        setting.admits(store),
    ensures
        held(setting.driven(store, actions).1, journal_path(date)) == held(
            store,
            journal_path(date),
        ),
{
    assert(journal_path(date).len() == 4);
    assert(marker_path().len() == 1);
    assert(index_path().len() == 1);
    law_other_files_are_kept(setting, store, actions, journal_path(date));
}

/// The model is asked only where there are days to dream, and about those that
/// have a journal.
pub proof fn law_model_is_asked_about_new_days(
    setting: Setting,
    store: Map<Seq<Seq<char>>, Seq<char>>,
    actions: nat,
)
    requires
        setting.admits(store),
    ensures
        setting.driven(store, actions).0.action() matches DreamActionView::AskModel(prompt) ==> {
            &&& setting.fresh(store).len() > 0
            &&& journals(store, setting.days(store)).len() > 0
            &&& prompt == setting.prompt(store)
        },
{
    lemma_is_on_course(setting, store, actions);
}

/// A pass only ever goes on.
proof fn lemma_pass_goes_on(
    setting: Setting,
    store: Map<Seq<Seq<char>>, Seq<char>>,
    from: nat,
    to: nat,
)
    requires
        from < to,
    ensures
        progress(setting.driven(store, from).0.phase) <= progress(
            setting.driven(store, to).0.phase,
        ),
        setting.driven(store, from).0.phase is AskModel ==> !(setting.driven(
            store,
            to,
        ).0.phase is AskModel),
    decreases to - from,
{
    if to > from + 1 {
        lemma_pass_goes_on(setting, store, from, (to - 1) as nat);
    }
    let (run, now) = setting.driven(store, (to - 1) as nat);
    assert(setting.driven(store, to) == setting.performed(run, now));
    assert(progress(run.phase) <= progress(setting.performed(run, now).0.phase));
    assert(run.phase is AskModel ==> progress(setting.performed(run, now).0.phase) > 3);
}

/// A pass asks the model at most once.
pub proof fn law_model_is_asked_at_most_once(
    setting: Setting,
    store: Map<Seq<Seq<char>>, Seq<char>>,
    first: nat,
    second: nat,
)
    requires
        setting.driven(store, first).0.action() is AskModel,
        setting.driven(store, second).0.action() is AskModel,
    ensures
        first == second,
{
    if first < second {
        lemma_pass_goes_on(setting, store, first, second);
    } else if second < first {
        lemma_pass_goes_on(setting, store, second, first);
    }
}

/// The days that may be dreamed are those of the listing that are not in the
/// future and after the marker. They stand in ascending order, each once.
pub proof fn law_fresh_days(setting: Setting, store: Map<Seq<Seq<char>>, Seq<char>>)
    ensures
        ascending(setting.fresh(store)),
        forall|day: JournalDate| #[trigger]
            setting.fresh(store).contains(day) <==> days_of_listing(setting.listing).contains(day)
                && is_eligible(day, last_dream(held(store, marker_path())), setting.as_of),
{
    law_days_in_order(days_of_listing(setting.listing));
    law_eligible_days(
        in_order(days_of_listing(setting.listing)),
        last_dream(held(store, marker_path())),
        setting.as_of,
    );
}

/// A pass dreams the most recent of the days that may be dreamed: no more than
/// its bound allows, and each of them lies after every other.
pub proof fn law_most_recent_days_are_dreamed(
    setting: Setting,
    store: Map<Seq<Seq<char>>, Seq<char>>,
)
    ensures
        ({
            let fresh = setting.fresh(store);
            let days = setting.days(store);
            &&& days.len() <= setting.opts.max_days
            &&& days.len() < setting.opts.max_days ==> days == fresh
            &&& days == fresh.skip(fresh.len() - days.len())
            &&& ascending(days)
            &&& forall|i: int, j: int|
                0 <= i < fresh.len() - days.len() && 0 <= j < days.len() ==> after(
                    #[trigger] days[j],
                    #[trigger] fresh[i],
                )
        }),
{
    law_fresh_days(setting, store);
    let fresh = setting.fresh(store);
    let days = setting.days(store);
    let cut = fresh.len() - days.len();
    assert(days =~= fresh.skip(cut));
    assert forall|j: int| 0 <= j < days.len() implies #[trigger] days[j] == fresh[cut + j] by {}
}

/// A pass that gets memories leaves the marker at the latest day that may be
/// dreamed. A pass that gets none leaves every file as it was.
pub proof fn law_marker_advances_with_memories(
    setting: Setting,
    store: Map<Seq<Seq<char>>, Seq<char>>,
)
    requires
        setting.admits(store),
    ensures
        setting.dreamed(store).0.marker_advanced <==> has_memories(setting, store),
        has_memories(setting, store) ==> last_dream(
            held(setting.dreamed(store).1, marker_path()),
        ) == Some(setting.fresh(store).last()),
        !has_memories(setting, store) ==> setting.dreamed(store).1 == store,
        !has_memories(setting, store) ==> setting.dreamed(store).0.note is Some,
{
    if has_memories(setting, store) {
        let fresh = setting.fresh(store);
        let latest = fresh.last();
        assert(setting.days(store).last() == latest);
        assert(fresh.contains(fresh[fresh.len() - 1]));
        law_fresh_days(setting, store);
        law_listed_days_are_legible(setting.listing, latest);
        law_marker_round_trip(latest);
    }
}

/// What a pass has dreamed stays dreamed: another pass over the same listing,
/// as of the same day or an earlier one, finds no new days and changes nothing,
/// whatever its bounds and its model.
pub proof fn law_dreamed_days_stay_dreamed(
    setting: Setting,
    again: Setting,
    store: Map<Seq<Seq<char>>, Seq<char>>,
)
    requires
        setting.admits(store),
        has_memories(setting, store),
        again.listing == setting.listing,
        !after(again.as_of, setting.as_of),
    ensures
        again.dreamed(setting.dreamed(store).1) == (
            nothing_written(0, 0, "no new journal days to distill"@),
            setting.dreamed(store).1,
        ),
{
    let then = setting.dreamed(store).1;
    law_marker_advances_with_memories(setting, store);
    law_fresh_days(setting, store);
    law_fresh_days(again, then);
    if again.fresh(then).len() > 0 {
        let fresh = setting.fresh(store);
        let latest = fresh.last();
        let day = again.fresh(then)[0];
        assert(again.fresh(then).contains(day));
        assert(fresh.contains(fresh[fresh.len() - 1]));
        assert(fresh.contains(day));
        let k = choose|k: int| 0 <= k < fresh.len() && fresh[k] == day;
        assert(k < fresh.len() - 1 ==> after(fresh[fresh.len() - 1], fresh[k]));
    }
}

/// Where a pass has left the marker at today, or at a later day, no further
/// dream is due today.
pub proof fn law_restart_on_the_same_day_is_skipped(
    setting: Setting,
    store: Map<Seq<Seq<char>>, Seq<char>>,
    today: JournalDate,
)
    requires
        setting.admits(store),
        has_memories(setting, store),
        !after(today, setting.fresh(store).last()),
    ensures
        !dream_is_due(last_dream(held(setting.dreamed(store).1, marker_path())), today),
{
    law_marker_advances_with_memories(setting, store);
}

/// A dream that is not due would find no new days.
pub proof fn law_skipped_dream_has_no_days(
    setting: Setting,
    store: Map<Seq<Seq<char>>, Seq<char>>,
)
    requires
        !dream_is_due(last_dream(held(store, marker_path())), setting.as_of),
    ensures
        setting.dreamed(store) == (
            nothing_written(0, 0, "no new journal days to distill"@),
            store,
        ),
{
    law_fresh_days(setting, store);
    if setting.fresh(store).len() > 0 {
        assert(setting.fresh(store).contains(setting.fresh(store)[0]));
    }
}

/// The journals of days are found day by day: a day with a file has what the file
/// holds, and a day without one has none.
pub proof fn law_journals_are_found_day_by_day(
    store: Map<Seq<Seq<char>>, Seq<char>>,
    days: Seq<JournalDate>,
    day: JournalDate,
)
    ensures
        journals(store, Seq::empty()) == Seq::<(JournalDate, Seq<char>)>::empty(),
        store.contains_key(journal_path(day)) ==> journals(store, days.push(day)) == journals(
            store,
            days,
        ).push((day, store[journal_path(day)])),
        !store.contains_key(journal_path(day)) ==> journals(store, days.push(day)) == journals(
            store,
            days,
        ),
{
    assert(days.push(day).drop_last() =~= days);
}

/// What a pass asks the model, at every moment at which it does, is the prompt
/// made of the journals of all the days that it dreams.
pub proof fn law_model_sees_the_journals_of_the_days(
    setting: Setting,
    store: Map<Seq<Seq<char>>, Seq<char>>,
    actions: nat,
)
    requires
        setting.admits(store),
    ensures
        setting.driven(store, actions).0.action() matches DreamActionView::AskModel(asked)
            ==> asked == prompt(journals(store, setting.days(store)), setting.opts),
{
    lemma_is_on_course(setting, store, actions);
}

/// What a pass comes to, in every case. Without new days, without a journal of
/// one, or without a memory in the reply it writes nothing and says why. Else it
/// reports as many memories as the reply holds, its skipped blocks and the topics'
/// files, and leaves the marker at the latest day.
pub proof fn law_outcome_of_a_pass(setting: Setting, store: Map<Seq<Seq<char>>, Seq<char>>)
    requires
        setting.admits(store),
    ensures
        ({
            let fresh = setting.fresh(store);
            let days = setting.days(store);
            let found = journals(store, days);
            let (memories, skipped) = memories_in((setting.model)(prompt(found, setting.opts)));
            let (outcome, then) = setting.dreamed(store);
            if fresh.len() == 0 || found.len() == 0 || memories.len() == 0 {
                &&& then == store
                &&& !outcome.marker_advanced
                &&& outcome.memories_written == 0
                &&& outcome.files.len() == 0
                &&& fresh.len() == 0 ==> outcome.days_considered == 0 && outcome.skipped_blocks == 0
                    && outcome.note == Some("no new journal days to distill"@)
                &&& fresh.len() > 0 ==> outcome.days_considered == days.len()
                &&& fresh.len() > 0 && found.len() == 0 ==> outcome.skipped_blocks == 0
                    && outcome.note == Some("journal days were empty"@)
                &&& fresh.len() > 0 && found.len() > 0 ==> outcome.skipped_blocks == skipped
                    && outcome.note == Some("model returned no valid memories"@)
            } else {
                &&& outcome.marker_advanced
                &&& outcome.days_considered == days.len()
                &&& outcome.memories_written == memories.len()
                &&& outcome.skipped_blocks == skipped
                &&& outcome.files == topic_paths(merged(memories))
                &&& outcome.note is None
                &&& held(then, marker_path()) == Some(date_text(fresh.last()))
                &&& forall|path: Seq<Seq<char>>|
                    path != marker_path() ==> #[trigger] held(then, path) == held(
                        memories_written(store, setting.as_of, merged(memories)),
                        path,
                    )
            }
        }),
{
    assert(setting.fresh(store).len() > 0 ==> setting.days(store).last() == setting.fresh(
        store,
    ).last());
}

/// After a pass, every memory of the reply is kept: the file of its topic holds
/// what it held with the memory added, and the index holds the link to it.
pub proof fn law_every_memory_of_the_reply_is_kept(
    setting: Setting,
    store: Map<Seq<Seq<char>>, Seq<char>>,
    k: int,
) -> (i: int)
    requires
        setting.admits(store),
        has_memories(setting, store),
        0 <= k < setting.distilled(store).0.len(),
    ensures
        ({
            let memories = setting.distilled(store).0;
            let then = setting.dreamed(store).1;
            let (name, memory) = merged(memories)[i];
            &&& 0 <= i < merged(memories).len()
            &&& name == slug(memories[k].0)
            &&& contains(memory.1, memories[k].1)
            &&& held(then, topic_path(name)) == Some(
                topic_text(held(store, topic_path(name)), setting.as_of, memory),
            )
            &&& links_to(index_text(held(then, index_path())), name)
        }),
{
    let memories = setting.distilled(store).0;
    let i = law_merge_loses_no_memory(memories, k);
    law_every_topic_is_kept(store, setting.as_of, memories, i);
    lemma_marker_lies_apart();
    assert(marker_path() != topic_path(merged(memories)[i].0));
    i
}

} // verus!
