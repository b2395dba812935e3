//! Dream distillation: the autonomous consolidation pass that turns the raw
//! journal into durable, reusable memories.
//!
//! A pass is a [`DreamRun`]. It decides; the caller reads and writes the files
//! and asks the model. It takes the run's [`DreamAction`], performs it, and
//! hands back what came of it. Where an action fails, the caller drops the run.
//!
//! Durability rules:
//! - a reply with no valid block is a handled no-op: nothing is written;
//! - the last-dream marker is advanced only after every other write, so that a
//!   failure dreams the same days again next time instead of skipping them.

pub use crate::distill::{
    build_distill_prompt, parse_distilled, DistilledMemory, DreamOptions, ParseResult,
};
pub use crate::memory::memory_root;
pub use crate::slug::slugify;
pub use crate::writing::write_distilled;

use crate::calendar::JournalDate;
use crate::distill::{day_views, memories_in, memory_views, prompt};
use crate::journal::{
    after, ascending, date_from, date_text, date_text_of, day_is_after, days_of_listing, in_order,
    journal_path, journal_path_for, law_date_round_trip, legible, list_journal_days, listing_view,
    parse_date, YearListing,
};
use crate::memory::option_view;
use crate::numeral::{is_digit, lemma_padded_value, padded, padded_signed};
use crate::store::StorePath;
use crate::text::{
    all_white, chars_of, lemma_trim_between_white, string_of, string_views, trim, trim_of,
    white_space,
};
use crate::writing::{
    law_unasked_write_events_change_nothing, path_views, write_start, DistillWrite, WriteAction,
    WriteActionView, WriteEvent, WriteEventView, WriteView,
};
use vstd::prelude::*;

verus! {

/// Where the last-dream marker lies.
pub open spec fn marker_path() -> Seq<Seq<char>> {
    seq!["last-dream"@]
}

/// The last-dream marker.
pub fn last_dream_marker_path() -> (path: StorePath)
    ensures
        path@ == marker_path(),
{
    let path = StorePath::root().join("last-dream".to_string());
    assert(path@ =~= marker_path());
    path
}

/// The day that the text of a marker names.
pub fn parse_marker(text: &str) -> (date: Option<JournalDate>)
    ensures
        date == date_from(text@),
{
    let chars = chars_of(text);
    parse_date(chars.as_slice())
}

/// The text of a marker that names the day `date`.
pub fn format_marker(date: JournalDate) -> (text: String)
    ensures
        text@ == date_text(date),
{
    let chars = date_text_of(date);
    string_of(chars.as_slice())
}

/// The last processed journal day, from what the marker's file holds, if it is
/// there.
pub open spec fn last_dream(contents: Option<Seq<char>>) -> Option<JournalDate> {
    match contents {
        Some(text) => date_from(trim(text)),
        None => None,
    }
}

/// The last processed journal day, or `None` if no dream has run yet (the
/// marker has no file, or names no day).
pub fn read_last_dream(contents: &Option<String>) -> (date: Option<JournalDate>)
    ensures
        date == last_dream(option_view(*contents)),
{
    match contents {
        Some(text) => {
            let chars = chars_of(text.as_str());
            let trimmed = string_of(trim_of(chars.as_slice()));
            parse_marker(trimmed.as_str())
        },
        None => None,
    }
}

/// A marker that names a legible date is read back as that date.
pub proof fn law_marker_round_trip(date: JournalDate)
    requires
        legible(date),
    ensures
        last_dream(Some(date_text(date))) == Some(date),
{
    let text = date_text(date);
    let year = padded_signed(date.year as int, 4);
    let day = padded(date.day as nat, 2);
    law_date_round_trip(date);
    lemma_padded_value(date.year as nat, 4);
    lemma_padded_value(date.day as nat, 2);
    assert(text[0] == year[0]);
    assert(text.last() == day.last());
    assert(is_digit(year[0]));
    assert(is_digit(day[day.len() - 1]));
    assert(trim(text) == text);
}

/// Whether a dream is due when the agent starts up, given the last-dream marker
/// and today's date. See [`dream_on_start_decision`].
#[derive(Debug, Clone, Copy, PartialEq, Eq, Structural)]
pub enum DreamOnStartDecision {
    /// No dream has yet processed a day on or after `today`: a dream is due.
    Run,
    /// A dream has already covered `today` (marker == today), or the marker is
    /// dated in the future (clock skew / hand-edited marker): nothing to do.
    SkipUpToDate,
}

/// No dream has yet processed a day on or after `today`.
pub open spec fn dream_is_due(last_dream: Option<JournalDate>, today: JournalDate) -> bool {
    last_dream matches Some(marker) ==> after(today, marker)
}

/// Dream-on-start scheduling decision: `Run` iff no dream has yet processed a
/// day on or after `today`.
#[must_use]
pub fn dream_on_start_decision(last_dream: Option<JournalDate>, today: JournalDate) -> (r:
    DreamOnStartDecision)
    ensures
        r == if dream_is_due(last_dream, today) {
            DreamOnStartDecision::Run
        } else {
            DreamOnStartDecision::SkipUpToDate
        },
{
    match last_dream {
        Some(marker) => if day_is_after(today, marker) {
            DreamOnStartDecision::Run
        } else {
            DreamOnStartDecision::SkipUpToDate
        },
        None => DreamOnStartDecision::Run,
    }
}

/// Result summary of a dream pass, surfaced for user-visible output.
#[derive(Debug, Clone, PartialEq, Eq)]
pub struct DreamOutcome {
    pub days_considered: usize,
    pub memories_written: usize,
    pub skipped_blocks: usize,
    pub files: Vec<StorePath>,
    pub marker_advanced: bool,
    /// Set when the pass was a no-op (no new days, or no valid memories).
    pub note: Option<String>,
}

/// What a [`DreamOutcome`] holds.
#[verifier::ext_equal]
pub struct OutcomeView {
    pub days_considered: nat,
    pub memories_written: nat,
    pub skipped_blocks: nat,
    pub files: Seq<Seq<Seq<char>>>,
    pub marker_advanced: bool,
    pub note: Option<Seq<char>>,
}

impl View for DreamOutcome {
    type V = OutcomeView;

    open spec fn view(&self) -> OutcomeView {
        OutcomeView {
            days_considered: self.days_considered as nat,
            memories_written: self.memories_written as nat,
            skipped_blocks: self.skipped_blocks as nat,
            files: path_views(self.files@),
            marker_advanced: self.marker_advanced,
            note: option_view(self.note),
        }
    }
}

/// The outcome of a pass that wrote nothing.
pub open spec fn nothing_written(days: nat, skipped: nat, note: Seq<char>) -> OutcomeView {
    OutcomeView {
        days_considered: days,
        memories_written: 0,
        skipped_blocks: skipped,
        files: Seq::empty(),
        marker_advanced: false,
        note: Some(note),
    }
}

impl DreamOutcome {
    /// The outcome of a pass that wrote nothing.
    pub fn noop(days_considered: usize, note: &str) -> (r: Self)
        ensures
            r@ == nothing_written(days_considered as nat, 0, note@),
    {
        let r = DreamOutcome {
            days_considered,
            memories_written: 0,
            skipped_blocks: 0,
            files: Vec::new(),
            marker_advanced: false,
            note: Some(note.to_string()),
        };
        assert(r@ =~= nothing_written(days_considered as nat, 0, note@));
        r
    }
}

/// `day` may be dreamed as of `as_of`: it is not in the future, and after the
/// marker.
pub open spec fn is_eligible(
    day: JournalDate,
    marker: Option<JournalDate>,
    as_of: JournalDate,
) -> bool {
    !after(day, as_of) && (marker matches Some(last) ==> after(day, last))
}

/// The days that may be dreamed, in their order.
pub open spec fn eligible(
    days: Seq<JournalDate>,
    marker: Option<JournalDate>,
    as_of: JournalDate,
) -> Seq<JournalDate>
    decreases days.len(),
{
    if days.len() == 0 {
        Seq::empty()
    } else {
        let init = eligible(days.drop_last(), marker, as_of);
        if is_eligible(days.last(), marker, as_of) {
            init.push(days.last())
        } else {
            init
        }
    }
}

/// The last `max` of the `days`, or all of them.
pub open spec fn most_recent(days: Seq<JournalDate>, max: nat) -> Seq<JournalDate> {
    if days.len() > max {
        days.subrange(days.len() - max, days.len() as int)
    } else {
        days
    }
}

/// The days that may be dreamed: not in the future, and after the marker.
pub fn eligible_days(
    days: &Vec<JournalDate>,
    marker: Option<JournalDate>,
    as_of: JournalDate,
) -> (r: Vec<JournalDate>)
    ensures
        r@ == eligible(days@, marker, as_of),
{
    let mut out: Vec<JournalDate> = Vec::new();
    let mut i: usize = 0;
    while i < days.len()
        invariant
            i <= days@.len(),
            out@ == eligible(days@.take(i as int), marker, as_of),
        decreases days@.len() - i,
    {
        let day = days[i];
        assert(days@.take(i + 1).drop_last() =~= days@.take(i as int));
        let fresh = match marker {
            Some(last) => day_is_after(day, last),
            None => true,
        };
        if fresh && !day_is_after(day, as_of) {
            out.push(day);
        }
        i = i + 1;
    }
    assert(days@.take(i as int) =~= days@);
    out
}

/// The eligible days are those of the days that may be dreamed, and stay in
/// ascending order.
pub proof fn law_eligible_days(
    days: Seq<JournalDate>,
    marker: Option<JournalDate>,
    as_of: JournalDate,
)
    ensures
        forall|day: JournalDate| #[trigger]
            eligible(days, marker, as_of).contains(day) <==> days.contains(day) && is_eligible(
                day,
                marker,
                as_of,
            ),
        ascending(days) ==> ascending(eligible(days, marker, as_of)),
    decreases days.len(),
{
    let fresh = eligible(days, marker, as_of);
    if days.len() > 0 {
        let init = eligible(days.drop_last(), marker, as_of);
        law_eligible_days(days.drop_last(), marker, as_of);
        assert forall|day: JournalDate| #[trigger] fresh.contains(day) <==> days.contains(day)
            && is_eligible(day, marker, as_of) by {
            assert(days == days.drop_last().push(days.last()));
            if fresh.contains(day) {
                let k = choose|k: int| 0 <= k < fresh.len() && fresh[k] == day;
                if k < init.len() {
                    assert(init[k] == day);
                    assert(init.contains(day));
                    let j = choose|j: int|
                        0 <= j < days.drop_last().len() && days.drop_last()[j] == day;
                    assert(days[j] == day);
                } else {
                    assert(days[days.len() - 1] == day);
                }
            }
            if days.contains(day) && is_eligible(day, marker, as_of) {
                let j = choose|j: int| 0 <= j < days.len() && days[j] == day;
                if j < days.len() - 1 {
                    assert(days.drop_last()[j] == day);
                    assert(init.contains(day));
                    let k = choose|k: int| 0 <= k < init.len() && init[k] == day;
                    assert(fresh[k] == day);
                } else {
                    assert(fresh[fresh.len() - 1] == day);
                }
            }
        }
        if ascending(days) {
            assert(ascending(days.drop_last()));
            assert forall|i: int, j: int| 0 <= i < j < fresh.len() implies after(
                #[trigger] fresh[j],
                #[trigger] fresh[i],
            ) by {
                assert(fresh[i] == init[i]);
                if j < init.len() {
                    assert(fresh[j] == init[j]);
                } else {
                    assert(init.contains(init[i]));
                    let k = choose|k: int|
                        0 <= k < days.drop_last().len() && days.drop_last()[k] == init[i];
                    assert(days[k] == fresh[i]);
                    assert(after(days[days.len() - 1], days[k]));
                }
            }
        }
    }
}

/// Keeps the most recent `max` days.
pub fn keep_most_recent(days: Vec<JournalDate>, max: usize) -> (r: Vec<JournalDate>)
    ensures
        r@ == most_recent(days@, max as nat),
{
    let mut days = days;
    if days.len() > max {
        let cut: usize = days.len() - max;
        days.split_off(cut)
    } else {
        days
    }
}

/// Where a [`DreamRun`] stands.
#[derive(Debug)]
pub enum DreamPhase {
    /// The marker is to be read.
    ReadMarker,
    /// The journal is to be listed; the marker named this day.
    ListJournal(Option<JournalDate>),
    /// The next of these days is to be read. As many were read as `next` says;
    /// those with a journal are `loaded`.
    ReadDay { days: Vec<JournalDate>, next: usize, loaded: Vec<(JournalDate, String)> },
    /// The model is to be asked.
    AskModel { days_considered: usize, latest: JournalDate, prompt: String },
    /// The memories are being written.
    Write(DreamWrite, DistillWrite),
    /// The marker is to be written; these files are.
    WriteMarker(DreamWrite, Vec<StorePath>),
    /// The pass is over.
    Finished(DreamOutcome),
}

/// What a pass knows while it writes.
#[derive(Debug, Clone, Copy)]
pub struct DreamWrite {
    pub days_considered: usize,
    pub latest: JournalDate,
    pub memories_written: usize,
    pub skipped_blocks: usize,
}

/// What a [`DreamWrite`] holds.
pub struct DreamWriteView {
    pub days_considered: nat,
    pub latest: JournalDate,
    pub memories_written: nat,
    pub skipped_blocks: nat,
}

impl View for DreamWrite {
    type V = DreamWriteView;

    open spec fn view(&self) -> DreamWriteView {
        DreamWriteView {
            days_considered: self.days_considered as nat,
            latest: self.latest,
            memories_written: self.memories_written as nat,
            skipped_blocks: self.skipped_blocks as nat,
        }
    }
}

/// One dream pass, begun by [`run_dream`].
#[derive(Debug)]
pub struct DreamRun {
    as_of: JournalDate,
    opts: DreamOptions,
    phase: DreamPhase,
}

/// What a [`DreamPhase`] holds.
pub enum DreamPhaseView {
    ReadMarker,
    ListJournal(Option<JournalDate>),
    ReadDay { days: Seq<JournalDate>, next: nat, loaded: Seq<(JournalDate, Seq<char>)> },
    AskModel { days_considered: nat, latest: JournalDate, prompt: Seq<char> },
    Write(DreamWriteView, WriteView),
    WriteMarker(DreamWriteView, Seq<Seq<Seq<char>>>),
    Finished(OutcomeView),
}

/// What a [`DreamRun`] holds.
pub struct DreamView {
    pub as_of: JournalDate,
    pub opts: DreamOptions,
    pub phase: DreamPhaseView,
}

/// What a [`DreamRun`] asks for.
#[derive(Debug, Clone, PartialEq, Eq)]
pub enum DreamAction {
    /// Read this file.
    ReadFile(StorePath),
    /// List the directories and files of the journal.
    ListJournal,
    /// Send this prompt to the model.
    AskModel(String),
    /// Replace this file as a whole, or create it, with this text.
    WriteFile(StorePath, String),
    /// Nothing is left to do.
    Finish,
}

/// What a [`DreamAction`] holds.
pub enum DreamActionView {
    ReadFile(Seq<Seq<char>>),
    ListJournal,
    AskModel(Seq<char>),
    WriteFile(Seq<Seq<char>>, Seq<char>),
    Finish,
}

/// What came of a [`DreamAction`].
#[derive(Debug, Clone, PartialEq, Eq)]
pub enum DreamEvent {
    /// The file holds this text; `None`: it does not exist.
    FileRead(Option<String>),
    /// The journal's directories hold this.
    JournalListed(Vec<YearListing>),
    /// The model's reply.
    ModelReplied(String),
    /// The file was written.
    FileWritten,
}

/// What a [`DreamEvent`] holds.
pub enum DreamEventView {
    FileRead(Option<Seq<char>>),
    JournalListed(Seq<(Seq<char>, Seq<Seq<char>>)>),
    ModelReplied(Seq<char>),
    FileWritten,
}

impl View for DreamAction {
    type V = DreamActionView;

    open spec fn view(&self) -> DreamActionView {
        match self {
            DreamAction::ReadFile(path) => DreamActionView::ReadFile(path@),
            DreamAction::ListJournal => DreamActionView::ListJournal,
            DreamAction::AskModel(prompt) => DreamActionView::AskModel(prompt@),
            DreamAction::WriteFile(path, text) => DreamActionView::WriteFile(path@, text@),
            DreamAction::Finish => DreamActionView::Finish,
        }
    }
}

impl View for DreamEvent {
    type V = DreamEventView;

    open spec fn view(&self) -> DreamEventView {
        match self {
            DreamEvent::FileRead(text) => DreamEventView::FileRead(option_view(*text)),
            DreamEvent::JournalListed(years) => DreamEventView::JournalListed(listing_view(years@)),
            DreamEvent::ModelReplied(reply) => DreamEventView::ModelReplied(reply@),
            DreamEvent::FileWritten => DreamEventView::FileWritten,
        }
    }
}

impl View for DreamPhase {
    type V = DreamPhaseView;

    open spec fn view(&self) -> DreamPhaseView {
        match self {
            DreamPhase::ReadMarker => DreamPhaseView::ReadMarker,
            DreamPhase::ListJournal(marker) => DreamPhaseView::ListJournal(*marker),
            DreamPhase::ReadDay { days, next, loaded } => DreamPhaseView::ReadDay {
                days: days@,
                next: *next as nat,
                loaded: day_views(loaded@),
            },
            DreamPhase::AskModel { days_considered, latest, prompt } => DreamPhaseView::AskModel {
                days_considered: *days_considered as nat,
                latest: *latest,
                prompt: prompt@,
            },
            DreamPhase::Write(known, write) => DreamPhaseView::Write(known@, write@),
            DreamPhase::WriteMarker(known, files) => DreamPhaseView::WriteMarker(
                known@,
                path_views(files@),
            ),
            DreamPhase::Finished(outcome) => DreamPhaseView::Finished(outcome@),
        }
    }
}

impl View for DreamRun {
    type V = DreamView;

    closed spec fn view(&self) -> DreamView {
        DreamView { as_of: self.as_of, opts: self.opts, phase: self.phase@ }
    }
}

/// Where a pass stands once its journal was listed.
pub open spec fn phase_after_listing(
    days: Seq<JournalDate>,
    marker: Option<JournalDate>,
    as_of: JournalDate,
    opts: DreamOptions,
) -> DreamPhaseView {
    let fresh = eligible(days, marker, as_of);
    if fresh.len() == 0 {
        DreamPhaseView::Finished(nothing_written(0, 0, "no new journal days to distill"@))
    } else {
        DreamPhaseView::ReadDay {
            days: most_recent(fresh, opts.max_days as nat),
            next: 0,
            loaded: Seq::empty(),
        }
    }
}

/// Where a pass stands once a day was read.
pub open spec fn phase_after_day(
    days: Seq<JournalDate>,
    next: nat,
    loaded: Seq<(JournalDate, Seq<char>)>,
    contents: Option<Seq<char>>,
    opts: DreamOptions,
) -> DreamPhaseView {
    let loaded = match contents {
        Some(text) => loaded.push((days[next as int], text)),
        None => loaded,
    };
    if next + 1 < days.len() {
        DreamPhaseView::ReadDay { days, next: next + 1, loaded }
    } else if loaded.len() == 0 {
        DreamPhaseView::Finished(nothing_written(days.len(), 0, "journal days were empty"@))
    } else {
        DreamPhaseView::AskModel {
            days_considered: days.len(),
            latest: days.last(),
            prompt: prompt(loaded, opts),
        }
    }
}

/// Where a pass stands once the model replied.
pub open spec fn phase_after_reply(
    days_considered: nat,
    latest: JournalDate,
    reply: Seq<char>,
    as_of: JournalDate,
) -> DreamPhaseView {
    let (memories, skipped) = memories_in(reply);
    if memories.len() == 0 {
        DreamPhaseView::Finished(
            nothing_written(days_considered, skipped, "model returned no valid memories"@),
        )
    } else {
        DreamPhaseView::Write(
            DreamWriteView {
                days_considered,
                latest,
                memories_written: memories.len(),
                skipped_blocks: skipped,
            },
            write_start(as_of, memories),
        )
    }
}

/// Where a pass stands once the writing of its memories has come to `write`.
pub open spec fn phase_after_write(known: DreamWriteView, write: WriteView) -> DreamPhaseView {
    if write.phase is Done {
        DreamPhaseView::WriteMarker(known, write.files)
    } else {
        DreamPhaseView::Write(known, write)
    }
}

/// The outcome of a pass that wrote memories and advanced the marker.
pub open spec fn memories_kept(known: DreamWriteView, files: Seq<Seq<Seq<char>>>) -> OutcomeView {
    OutcomeView {
        days_considered: known.days_considered,
        memories_written: known.memories_written,
        skipped_blocks: known.skipped_blocks,
        files,
        marker_advanced: true,
        note: None,
    }
}

/// What a pass asks for while it writes.
pub open spec fn writing_action(action: WriteActionView) -> DreamActionView {
    match action {
        WriteActionView::ReadFile(path) => DreamActionView::ReadFile(path),
        WriteActionView::WriteFile(path, text) => DreamActionView::WriteFile(path, text),
        WriteActionView::Finish => DreamActionView::Finish,
    }
}

impl DreamView {
    /// While days are read, one is left; while memories are written, the
    /// writing is well-formed and not done.
    pub open spec fn well_formed(self) -> bool {
        match self.phase {
            DreamPhaseView::ReadDay { days, next, loaded } => next < days.len(),
            DreamPhaseView::Write(_, write) => write.well_formed() && !(write.phase is Done),
            _ => true,
        }
    }

    /// What is to be done next.
    pub open spec fn action(self) -> DreamActionView {
        match self.phase {
            DreamPhaseView::ReadMarker => DreamActionView::ReadFile(marker_path()),
            DreamPhaseView::ListJournal(_) => DreamActionView::ListJournal,
            DreamPhaseView::ReadDay { days, next, loaded } => DreamActionView::ReadFile(
                journal_path(days[next as int]),
            ),
            DreamPhaseView::AskModel { days_considered, latest, prompt } => {
                DreamActionView::AskModel(prompt)
            },
            DreamPhaseView::Write(_, write) => writing_action(write.action()),
            DreamPhaseView::WriteMarker(known, _) => DreamActionView::WriteFile(
                marker_path(),
                date_text(known.latest),
            ),
            DreamPhaseView::Finished(_) => DreamActionView::Finish,
        }
    }

    /// Where days are eligible, the pass may keep at least one of them.
    pub open spec fn accepts(self, event: DreamEventView) -> bool {
        match (self.phase, event) {
            (
                DreamPhaseView::ListJournal(marker),
                DreamEventView::JournalListed(years),
            ) => self.opts.max_days > 0 || eligible(
                in_order(days_of_listing(years)),
                marker,
                self.as_of,
            ).len() == 0,
            _ => true,
        }
    }

    /// Where the pass stands after `event`. An event that does not answer the
    /// action changes nothing.
    pub open spec fn step(self, event: DreamEventView) -> DreamView {
        let phase = match (self.phase, event) {
            (DreamPhaseView::ReadMarker, DreamEventView::FileRead(contents)) => {
                DreamPhaseView::ListJournal(last_dream(contents))
            },
            (DreamPhaseView::ListJournal(marker), DreamEventView::JournalListed(years)) => {
                phase_after_listing(
                    in_order(days_of_listing(years)),
                    marker,
                    self.as_of,
                    self.opts,
                )
            },
            (DreamPhaseView::ReadDay { days, next, loaded }, DreamEventView::FileRead(contents)) => {
                phase_after_day(days, next, loaded, contents, self.opts)
            },
            (
                DreamPhaseView::AskModel { days_considered, latest, prompt },
                DreamEventView::ModelReplied(reply),
            ) => phase_after_reply(days_considered, latest, reply, self.as_of),
            (DreamPhaseView::Write(known, write), DreamEventView::FileRead(contents)) => {
                phase_after_write(known, write.step(WriteEventView::FileRead(contents)))
            },
            (DreamPhaseView::Write(known, write), DreamEventView::FileWritten) => {
                phase_after_write(known, write.step(WriteEventView::FileWritten))
            },
            (DreamPhaseView::WriteMarker(known, files), DreamEventView::FileWritten) => {
                DreamPhaseView::Finished(memories_kept(known, files))
            },
            (phase, _) => phase,
        };
        DreamView { phase, ..self }
    }
}

/// Begins one dream pass as of `as_of` (UTC day). The pass reads the journal days
/// strictly after the last-dream marker, asks the model to distill them,
/// writes the memories of its reply, and advances the marker, but only when at least one
/// valid memory was written.
pub fn run_dream(as_of: JournalDate, opts: &DreamOptions) -> (run: DreamRun)
    ensures
        run@ == (DreamView { as_of, opts: *opts, phase: DreamPhaseView::ReadMarker }),
        run@.well_formed(),
{
    DreamRun { as_of, opts: *opts, phase: DreamPhase::ReadMarker }
}

/// Where a pass stands once its journal was listed.
fn listed(
    years: &Vec<YearListing>,
    marker: Option<JournalDate>,
    as_of: JournalDate,
    opts: &DreamOptions,
) -> (phase: DreamPhase)
    requires
        opts.max_days > 0 || eligible(
            in_order(days_of_listing(listing_view(years@))),
            marker,
            as_of,
        ).len() == 0,
    ensures
        phase@ == phase_after_listing(
            in_order(days_of_listing(listing_view(years@))),
            marker,
            as_of,
            *opts,
        ),
        phase@ matches DreamPhaseView::ReadDay { days, next, loaded } ==> next < days.len(),
{
    let all = list_journal_days(years);
    let fresh = eligible_days(&all, marker, as_of);
    if fresh.len() == 0 {
        return DreamPhase::Finished(DreamOutcome::noop(0, "no new journal days to distill"));
    }
    let days = keep_most_recent(fresh, opts.max_days);
    let loaded: Vec<(JournalDate, String)> = Vec::new();
    assert(day_views(loaded@) =~= Seq::empty());
    DreamPhase::ReadDay { days, next: 0, loaded }
}

/// Where a pass stands once a day was read.
fn day_read(
    days: Vec<JournalDate>,
    next: usize,
    loaded: Vec<(JournalDate, String)>,
    contents: Option<String>,
    opts: &DreamOptions,
) -> (phase: DreamPhase)
    requires
        next < days@.len(),
    ensures
        phase@ == phase_after_day(
            days@,
            next as nat,
            day_views(loaded@),
            option_view(contents),
            *opts,
        ),
{
    let ghost before = day_views(loaded@);
    let mut loaded = loaded;
    if let Some(text) = contents {
        loaded.push((days[next], text));
        assert(day_views(loaded@) =~= before.push((days@[next as int], text@)));
    }
    assert(day_views(loaded@).len() == loaded@.len());
    if next < days.len() - 1 {
        DreamPhase::ReadDay { days, next: next + 1, loaded }
    } else if loaded.len() == 0 {
        DreamPhase::Finished(DreamOutcome::noop(days.len(), "journal days were empty"))
    } else {
        DreamPhase::AskModel {
            days_considered: days.len(),
            latest: days[days.len() - 1],
            prompt: build_distill_prompt(loaded.as_slice(), opts),
        }
    }
}

/// Where a pass stands once the model replied.
fn replied(
    days_considered: usize,
    latest: JournalDate,
    reply: &String,
    as_of: JournalDate,
) -> (phase: DreamPhase)
    ensures
        phase@ == phase_after_reply(days_considered as nat, latest, reply@, as_of),
        phase@ matches DreamPhaseView::Write(_, write) ==> write.well_formed() && !(
        write.phase is Done),
{
    let ParseResult { memories, skipped } = parse_distilled(reply.as_str());
    assert(memory_views(memories@).len() == memories@.len());
    if memories.len() == 0 {
        let outcome = DreamOutcome {
            skipped_blocks: skipped,
            ..DreamOutcome::noop(days_considered, "model returned no valid memories")
        };
        return DreamPhase::Finished(outcome);
    }
    let known = DreamWrite {
        days_considered,
        latest,
        memories_written: memories.len(),
        skipped_blocks: skipped,
    };
    DreamPhase::Write(known, write_distilled(as_of, memories.as_slice()))
}

/// Where a pass stands once the writing of its memories has come to `write`.
fn written(known: DreamWrite, write: DistillWrite) -> (phase: DreamPhase)
    ensures
        phase@ == phase_after_write(known@, write@),
{
    if write.is_done() {
        DreamPhase::WriteMarker(known, write.into_files())
    } else {
        DreamPhase::Write(known, write)
    }
}

impl DreamRun {
    #[verifier::type_invariant]
    spec fn holds_together(self) -> bool {
        self@.well_formed()
    }

    /// What is to be done next.
    pub fn action(&self) -> (action: DreamAction)
        ensures
            action@ == self@.action(),
    {
        proof {
            use_type_invariant(self);
        }
        match &self.phase {
            DreamPhase::ReadMarker => DreamAction::ReadFile(last_dream_marker_path()),
            DreamPhase::ListJournal(_) => DreamAction::ListJournal,
            DreamPhase::ReadDay { days, next, loaded } => DreamAction::ReadFile(
                journal_path_for(days[*next]),
            ),
            DreamPhase::AskModel { days_considered, latest, prompt } => DreamAction::AskModel(
                prompt.clone(),
            ),
            DreamPhase::Write(_, write) => match write.action() {
                WriteAction::ReadFile(path) => DreamAction::ReadFile(path),
                WriteAction::WriteFile(path, text) => DreamAction::WriteFile(path, text),
                WriteAction::Finish => DreamAction::Finish,
            },
            DreamPhase::WriteMarker(known, _) => DreamAction::WriteFile(
                last_dream_marker_path(),
                format_marker(known.latest),
            ),
            DreamPhase::Finished(_) => DreamAction::Finish,
        }
    }

    /// Tells whether the pass can take `event`: where days are eligible, it
    /// must be allowed to keep at least one of them.
    pub fn accepts(&self, event: &DreamEvent) -> (r: bool)
        ensures
            r == self@.accepts(event@),
    {
        match (&self.phase, event) {
            (DreamPhase::ListJournal(marker), DreamEvent::JournalListed(years)) => {
                let all = list_journal_days(years);
                let fresh = eligible_days(&all, *marker, self.as_of);
                self.opts.max_days > 0 || fresh.len() == 0
            },
            _ => true,
        }
    }

    /// Where the pass stands after `event`. An event that does not answer the
    /// action changes nothing.
    pub fn step(self, event: DreamEvent) -> (r: DreamRun)
        requires
            self@.accepts(event@),
        ensures
            r@ == self@.step(event@),
            r@.well_formed(),
    {
        proof {
            use_type_invariant(&self);
        }
        let DreamRun { as_of, opts, phase } = self;
        let phase = match (phase, event) {
            (DreamPhase::ReadMarker, DreamEvent::FileRead(contents)) => {
                DreamPhase::ListJournal(read_last_dream(&contents))
            },
            (DreamPhase::ListJournal(marker), DreamEvent::JournalListed(years)) => {
                listed(&years, marker, as_of, &opts)
            },
            (DreamPhase::ReadDay { days, next, loaded }, DreamEvent::FileRead(contents)) => {
                day_read(days, next, loaded, contents, &opts)
            },
            (
                DreamPhase::AskModel { days_considered, latest, prompt },
                DreamEvent::ModelReplied(reply),
            ) => replied(days_considered, latest, &reply, as_of),
            (DreamPhase::Write(known, write), DreamEvent::FileRead(contents)) => {
                written(known, write.step(WriteEvent::FileRead(contents)))
            },
            (DreamPhase::Write(known, write), DreamEvent::FileWritten) => {
                written(known, write.step(WriteEvent::FileWritten))
            },
            (DreamPhase::WriteMarker(known, files), DreamEvent::FileWritten) => {
                DreamPhase::Finished(DreamOutcome {
                    days_considered: known.days_considered,
                    memories_written: known.memories_written,
                    skipped_blocks: known.skipped_blocks,
                    files,
                    marker_advanced: true,
                    note: None,
                })
            },
            (phase, _) => phase,
        };
        DreamRun { as_of, opts, phase }
    }

    /// The outcome of a pass that is over.
    pub fn into_outcome(self) -> (outcome: Option<DreamOutcome>)
        ensures
            match self@.phase {
                DreamPhaseView::Finished(view) => outcome matches Some(outcome) && outcome@ == view,
                _ => outcome is None,
            },
    {
        match self.phase {
            DreamPhase::Finished(outcome) => Some(outcome),
            _ => None,
        }
    }
}

/// A marker is read without the white space around it. Without a marker, no
/// day was dreamed.
pub proof fn law_marker_is_read_without_white_ends(
    front: Seq<char>,
    text: Seq<char>,
    back: Seq<char>,
)
    requires
        all_white(front),
        all_white(back),
        text.len() > 0 ==> !white_space(text[0]) && !white_space(text.last()),
    ensures
        last_dream(Some(front + text + back)) == date_from(text),
        last_dream(None) is None,
{
    lemma_trim_between_white(front, text, back);
}

/// A day may be dreamed if and only if it is not later than today, and later
/// than the marker, if there is one. A dream is due if and only if today is later than
/// the marker, or there is none.
pub proof fn law_days_after_the_marker_are_due(
    day: JournalDate,
    marker: JournalDate,
    today: JournalDate,
)
    ensures
        is_eligible(day, None, today) <==> day == today || after(today, day),
        is_eligible(day, Some(marker), today) <==> (day == today || after(today, day)) && after(
            day,
            marker,
        ),
        dream_is_due(None, today),
        dream_is_due(Some(marker), today) <==> after(today, marker),
{
}

/// A pass with room for a day takes every event.
pub proof fn law_pass_with_room_takes_every_event(run: DreamView, event: DreamEventView)
    requires
        run.opts.max_days > 0,
    ensures
        run.accepts(event),
{
}

/// An event that does not answer what was asked for changes nothing.
pub proof fn law_unasked_events_change_nothing(run: DreamView, event: DreamEventView)
    requires
        match run.action() {
            DreamActionView::ReadFile(_) => !(event is FileRead),
            DreamActionView::ListJournal => !(event is JournalListed),
            DreamActionView::AskModel(_) => !(event is ModelReplied),
            DreamActionView::WriteFile(_, _) => !(event is FileWritten),
            DreamActionView::Finish => true,
        },
        run.well_formed(),
    ensures
        run.step(event) == run,
{
    if let DreamPhaseView::Write(known, write) = run.phase {
        match event {
            DreamEventView::FileRead(contents) => {
                law_unasked_write_events_change_nothing(write, WriteEventView::FileRead(contents));
            },
            DreamEventView::FileWritten => {
                law_unasked_write_events_change_nothing(write, WriteEventView::FileWritten);
            },
            _ => {},
        }
    }
}

/// What is asked for and what came of it are seen whole.
pub proof fn law_actions_and_events_are_seen_whole(
    path: StorePath,
    text: String,
    years: Vec<YearListing>,
)
    ensures
        DreamAction::ReadFile(path)@ == DreamActionView::ReadFile(string_views(path.components@)),
        DreamAction::AskModel(text)@ == DreamActionView::AskModel(text@),
        DreamAction::WriteFile(path, text)@ == DreamActionView::WriteFile(
            string_views(path.components@),
            text@,
        ),
        DreamEvent::FileRead(Some(text))@ == DreamEventView::FileRead(Some(text@)),
        DreamEvent::FileRead(None)@ == DreamEventView::FileRead(None),
        DreamEvent::JournalListed(years)@ == DreamEventView::JournalListed(listing_view(years@)),
        DreamEvent::ModelReplied(text)@ == DreamEventView::ModelReplied(text@),
{
}

/// An outcome is seen whole.
pub proof fn law_outcome_is_seen_whole(outcome: DreamOutcome, i: int)
    ensures
        outcome@.days_considered == outcome.days_considered,
        outcome@.memories_written == outcome.memories_written,
        outcome@.skipped_blocks == outcome.skipped_blocks,
        outcome@.marker_advanced == outcome.marker_advanced,
        outcome@.files.len() == outcome.files@.len(),
        0 <= i < outcome.files@.len() ==> outcome@.files[i] == string_views(
            outcome.files@[i].components@,
        ),
        outcome.note matches Some(note) ==> outcome@.note == Some(note@),
        outcome.note is None ==> outcome@.note is None,
{
}

} // verus!
