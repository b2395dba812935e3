//! Distillation: the prompt that asks for memories, and the reading of the
//! reply.
//!
//! - Per-day truncation is applied before the total cap, so that one runaway
//!   day cannot starve the others out of the prompt.
//! - The parser is tolerant: prose around the blocks is ignored, and only
//!   complete `<<<MEMORY>>> ... <<<END>>>` blocks with a non-empty `topic:`
//!   count.

use crate::calendar::JournalDate;
use crate::journal::{date_text, date_text_of};
use crate::text::{
    all_white, append, append_str, blank, chars_of, contains, find, is_at, join, join_of,
    law_white_trims_to_nothing, lemma_blank_is_white, lemma_find_is_first, lemma_join_first,
    lemma_join_of_split, lemma_split_concat, lemma_split_on_nonempty, lemma_split_without,
    lemma_trim_between_white, lemma_trim_length, lemma_trim_white_back, lemma_trim_white_front,
    occurs_at, position_of, split_at_each, split_on, starts_with, string_of, strip_carriage_return,
    to_chars, trim, trim_of, trim_start, views, white_space,
};
use vstd::prelude::*;
use vstd::slice::slice_subrange;

verus! {

/// What a memory block begins with.
pub const BLOCK_OPEN: &'static str = "<<<MEMORY>>>";

/// What a memory block ends with.
pub const BLOCK_CLOSE: &'static str = "<<<END>>>";

/// The prompt up to the journal.
pub const PROMPT_HEAD: &'static str = "You are the dream/distillation process of an autonomous coding agent. \
Below are raw, append-only journal entries from recent days. Consolidate them \
into a small set of durable, reusable memories worth recalling in future \
sessions — decisions, conventions, gotchas, architecture facts. Skip transient \
noise and anything that will not matter tomorrow.\n\n\
For EACH memory, emit exactly one block in this format and nothing else:\n\
<<<MEMORY>>>\n\
topic: <a short title, a few words>\n\
<1-5 sentences: the durable fact and why it matters>\n\
<<<END>>>\n\n\
Do not emit any text outside these blocks. If nothing is worth keeping, emit no \
blocks.\n\n\
--- JOURNAL ---\n";

/// The prompt behind the journal.
pub const PROMPT_TAIL: &'static str = "\n--- END JOURNAL ---\n";

/// Tunable bounds for a dream pass.
#[derive(Debug, Clone, Copy)]
pub struct DreamOptions {
    /// Most-recent eligible journal days to include (older ones are dropped).
    pub max_days: usize,
    /// Hard cap on characters taken from any single day.
    pub max_chars_per_day: usize,
    /// Hard cap on the assembled prompt's journal payload.
    pub max_total_chars: usize,
}

impl Default for DreamOptions {
    fn default() -> (opts: Self)
        ensures
            opts.max_days == 7,
            opts.max_chars_per_day == 8_000,
            opts.max_total_chars == 24_000,
    {
        DreamOptions { max_days: 7, max_chars_per_day: 8_000, max_total_chars: 24_000 }
    }
}

/// A single durable memory distilled out of the raw journal.
#[derive(Debug, Clone, PartialEq, Eq)]
pub struct DistilledMemory {
    pub topic: String,
    pub body: String,
}

impl View for DistilledMemory {
    type V = (Seq<char>, Seq<char>);

    open spec fn view(&self) -> (Seq<char>, Seq<char>) {
        (self.topic@, self.body@)
    }
}

/// Parsed result: the valid memories plus how many malformed blocks were
/// skipped.
#[derive(Debug, Clone, PartialEq, Eq)]
pub struct ParseResult {
    pub memories: Vec<DistilledMemory>,
    pub skipped: usize,
}

/// The topics and bodies of `memories`.
pub open spec fn memory_views(memories: Seq<DistilledMemory>) -> Seq<(Seq<char>, Seq<char>)> {
    memories.map_values(|memory: DistilledMemory| memory@)
}

/// `text` if it has at most `max` characters, else its first `max - 1` and an
/// ellipsis (nothing, where `max` is zero).
pub open spec fn truncated(text: Seq<char>, max: nat) -> Seq<char> {
    if text.len() <= max {
        text
    } else if max == 0 {
        Seq::empty()
    } else {
        text.take(max - 1).push('…')
    }
}

/// What a sequence of journal days holds.
pub open spec fn day_views(days: Seq<(JournalDate, String)>) -> Seq<(JournalDate, Seq<char>)> {
    days.map_values(|day: (JournalDate, String)| (day.0, day.1@))
}

/// The part of the payload that one day makes up.
pub open spec fn section(day: (JournalDate, Seq<char>), max_chars: nat) -> Seq<char> {
    "### "@ + date_text(day.0) + "\n"@ + truncated(trim(day.1), max_chars)
}

/// The parts of the payload that the `days` make up.
pub open spec fn sections(days: Seq<(JournalDate, Seq<char>)>, max_chars: nat) -> Seq<Seq<char>> {
    days.map_values(|day: (JournalDate, Seq<char>)| section(day, max_chars))
}

/// The `parts` without as many of the first as must go for the others, set off
/// by empty lines, to have at most `max` characters in all. The last part stays.
pub open spec fn freshest(parts: Seq<Seq<char>>, max: nat) -> Seq<Seq<char>>
    decreases parts.len(),
{
    if join(parts, "\n\n"@).len() > max && parts.len() > 1 {
        freshest(parts.subrange(1, parts.len() as int), max)
    } else {
        parts
    }
}

/// The journal as it stands in the prompt.
pub open spec fn payload(days: Seq<(JournalDate, Seq<char>)>, opts: DreamOptions) -> Seq<char> {
    let parts = sections(days, opts.max_chars_per_day as nat);
    truncated(
        join(freshest(parts, opts.max_total_chars as nat), "\n\n"@),
        opts.max_total_chars as nat,
    )
}

/// The distillation prompt.
pub open spec fn prompt(days: Seq<(JournalDate, Seq<char>)>, opts: DreamOptions) -> Seq<char> {
    PROMPT_HEAD@ + payload(days, opts) + PROMPT_TAIL@
}

/// The `parts` from the first on that is not blank.
pub open spec fn without_blank_front(parts: Seq<Seq<char>>) -> Seq<Seq<char>>
    decreases parts.len(),
{
    if parts.len() > 0 && blank(parts[0]) {
        without_blank_front(parts.subrange(1, parts.len() as int))
    } else {
        parts
    }
}

/// The `parts` up to the last that is not blank.
pub open spec fn without_blank_back(parts: Seq<Seq<char>>) -> Seq<Seq<char>>
    decreases parts.len(),
{
    if parts.len() > 0 && blank(parts.last()) {
        without_blank_back(parts.drop_last())
    } else {
        parts
    }
}

/// The body that the text behind a topic line holds, given by the pieces between
/// its line feeds: the text as it stands, without whole blank lines at its ends
/// and without the terminator of its last line.
pub open spec fn body_in(rest: Seq<Seq<char>>) -> Seq<char> {
    let from = without_blank_front(rest);
    let kept = without_blank_back(from);
    let text = join(kept, "\n"@);
    if kept.len() < from.len() {
        strip_carriage_return(text)
    } else {
        text
    }
}

/// The topic and body that a block holds, given by the pieces between its line
/// feeds. The first line that is not blank gives the topic behind `topic:`, the
/// text after it gives the body. Neither may be blank.
pub open spec fn memory_in(block: Seq<Seq<char>>) -> Option<(Seq<char>, Seq<char>)>
    decreases block.len(),
{
    if block.len() == 0 {
        None
    } else {
        let head = trim(block[0]);
        let rest = block.subrange(1, block.len() as int);
        if head.len() == 0 {
            memory_in(rest)
        } else if !starts_with(head, "topic:"@) {
            None
        } else {
            let topic = trim(head.subrange("topic:"@.len() as int, head.len() as int));
            let body = body_in(rest);
            if topic.len() == 0 || body.len() == 0 {
                None
            } else {
                Some((topic, body))
            }
        }
    }
}

/// The memories in the blocks of a reply, and how many blocks hold none. A
/// block reaches from the first opening mark to the first closing mark behind
/// it; an opening mark with none behind it counts as a block that holds none,
/// and ends the reading.
pub open spec fn memories_in(reply: Seq<char>) -> (Seq<(Seq<char>, Seq<char>)>, nat)
    decreases reply.len(),
{
    match find(reply, BLOCK_OPEN@) {
        None => (Seq::empty(), 0),
        Some(open) => {
            let inside = behind(reply, open + BLOCK_OPEN@.len());
            match find(inside, BLOCK_CLOSE@) {
                None => (Seq::empty(), 1),
                Some(close) => {
                    let rest = behind(inside, close + BLOCK_CLOSE@.len());
                    proof {
                        lemma_find_is_first(reply, BLOCK_OPEN@, 0);
                        lemma_find_is_first(inside, BLOCK_CLOSE@, 0);
                        reveal_strlit("<<<MEMORY>>>");
                    }
                    let (memories, skipped) = memories_in(rest);
                    match memory_in(split_on(inside.take(close as int), '\n')) {
                        Some(memory) => (seq![memory] + memories, skipped),
                        None => (memories, skipped + 1),
                    }
                },
            }
        },
    }
}

/// `s` from the position `at` on.
pub open spec fn behind(s: Seq<char>, at: nat) -> Seq<char> {
    s.subrange(at as int, s.len() as int)
}

/// Cuts `text` to `max` characters, the last of which, if there is one, is then
/// an ellipsis.
pub fn truncate_chars(text: &[char], max: usize) -> (r: Vec<char>)
    ensures
        r@ == truncated(text@, max as nat),
{
    if text.len() <= max {
        return to_chars(text);
    }
    if max == 0 {
        return Vec::new();
    }
    let mut out = to_chars(slice_subrange(text, 0, max - 1));
    out.push('…');
    assert(out@ =~= truncated(text@, max as nat));
    out
}

/// Builds the distillation prompt from the supplied journal days (already
/// filtered to the eligible set). Each day is truncated to `max_chars_per_day`
/// first, then the whole payload to `max_total_chars`, whole oldest days
/// dropped first.
#[must_use]
pub fn build_distill_prompt(days: &[(JournalDate, String)], opts: &DreamOptions) -> (r: String)
    ensures
        r@ == prompt(day_views(days@), *opts),
{
    let ghost max_chars = opts.max_chars_per_day as nat;
    let ghost all = sections(day_views(days@), max_chars);
    let mut parts: Vec<Vec<char>> = Vec::new();
    let mut i: usize = 0;
    while i < days.len()
        invariant
            i <= days@.len(),
            max_chars == opts.max_chars_per_day as nat,
            all == sections(day_views(days@), max_chars),
            views(parts@) == all.take(i as int),
        decreases days@.len() - i,
    {
        let mut part = chars_of("### ");
        let date = date_text_of(days[i].0);
        append(&mut part, date.as_slice());
        append_str(&mut part, "\n");
        let contents = chars_of(days[i].1.as_str());
        let body = truncate_chars(trim_of(contents.as_slice()), opts.max_chars_per_day);
        append(&mut part, body.as_slice());
        let ghost before = parts@;
        parts.push(part);
        i = i + 1;
        assert(views(parts@) =~= views(before).push(part@));
        assert(all.take(i as int) =~= all.take(i - 1).push(all[i - 1]));
    }
    assert(all.take(i as int) =~= all);
    // Keep the freshest days when the total cap bites: drop whole oldest
    // sections until the payload fits.
    let gap = chars_of("\n\n");
    let mut joined = join_of(parts.as_slice(), gap.as_slice());
    while joined.len() > opts.max_total_chars && parts.len() > 1
        invariant
            gap@ == "\n\n"@,
            joined@ == join(views(parts@), gap@),
            freshest(views(parts@), opts.max_total_chars as nat) == freshest(
                all,
                opts.max_total_chars as nat,
            ),
        decreases parts@.len(),
    {
        let ghost before = views(parts@);
        parts.remove(0);
        assert(views(parts@) =~= before.subrange(1, before.len() as int));
        joined = join_of(parts.as_slice(), gap.as_slice());
    }
    let cut = truncate_chars(joined.as_slice(), opts.max_total_chars);
    let mut out = chars_of(PROMPT_HEAD);
    append(&mut out, cut.as_slice());
    append_str(&mut out, PROMPT_TAIL);
    string_of(out.as_slice())
}

/// Reads the body that the text behind a topic line holds.
fn parse_body(rest: &[Vec<char>]) -> (body: Vec<char>)
    ensures
        body@ == body_in(views(rest@)),
{
    let ghost all = views(rest@);
    let ghost front = without_blank_front(all);
    let mut from: usize = 0;
    assert(all.subrange(0, all.len() as int) =~= all);
    while from < rest.len() && trim_of(rest[from].as_slice()).len() == 0
        invariant
            from <= rest@.len(),
            all == views(rest@),
            front == without_blank_front(all.subrange(from as int, all.len() as int)),
        decreases rest@.len() - from,
    {
        let ghost here = all.subrange(from as int, all.len() as int);
        assert(here[0] == rest@[from as int]@);
        assert(here.subrange(1, here.len() as int) =~= all.subrange(from + 1, all.len() as int));
        from = from + 1;
    }
    proof {
        let here = all.subrange(from as int, all.len() as int);
        if from < rest@.len() {
            assert(here[0] == rest@[from as int]@);
        }
        assert(front == here);
    }
    let mut to: usize = rest.len();
    assert(front.take(front.len() as int) =~= front);
    while to > from && trim_of(rest[to - 1].as_slice()).len() == 0
        invariant
            from <= to <= rest@.len(),
            all == views(rest@),
            front == all.subrange(from as int, all.len() as int),
            without_blank_back(front) == without_blank_back(front.take(to - from)),
        decreases to,
    {
        assert(front.take(to - from).last() == rest@[to - 1]@);
        assert(front.take(to - from).drop_last() =~= front.take(to - from - 1));
        to = to - 1;
    }
    proof {
        if to > from {
            assert(front.take(to - from).last() == rest@[to - 1]@);
        }
        assert(without_blank_back(front) == front.take(to - from));
    }
    let kept = slice_subrange(rest, from, to);
    assert(views(kept@) =~= front.take(to - from));
    let newline = chars_of("\n");
    let mut body = join_of(kept, newline.as_slice());
    if to < rest.len() && body.len() > 0 && body[body.len() - 1] == '\r' {
        body.pop();
    }
    body
}

/// Reads the memory that a block holds.
pub fn parse_block(block: &[char]) -> (memory: Option<DistilledMemory>)
    ensures
        match memory {
            Some(memory) => memory_in(split_on(block@, '\n')) == Some(memory@),
            None => memory_in(split_on(block@, '\n')) is None,
        },
{
    let all = split_at_each(block, '\n');
    let mark = chars_of("topic:");
    let mut i: usize = 0;
    let ghost whole = views(all@);
    assert(whole.subrange(0, whole.len() as int) =~= whole);
    while i < all.len()
        invariant
            i <= all@.len(),
            mark@ == "topic:"@,
            whole == views(all@),
            whole == split_on(block@, '\n'),
            memory_in(whole) == memory_in(whole.subrange(i as int, whole.len() as int)),
        decreases all@.len() - i,
    {
        let ghost here = whole.subrange(i as int, whole.len() as int);
        assert(here.subrange(1, here.len() as int) =~= whole.subrange(i + 1, whole.len() as int));
        assert(here[0] == all@[i as int]@);
        let head = trim_of(all[i].as_slice());
        if head.len() > 0 {
            if !is_at(head, mark.as_slice(), 0) {
                return None;
            }
            let topic = trim_of(slice_subrange(head, mark.len(), head.len()));
            if topic.len() == 0 {
                return None;
            }
            let rest = slice_subrange(all.as_slice(), i + 1, all.len());
            assert(views(rest@) =~= whole.subrange(i + 1, whole.len() as int));
            let body = parse_body(rest);
            if body.len() == 0 {
                return None;
            }
            return Some(
                DistilledMemory { topic: string_of(topic), body: string_of(body.as_slice()) },
            );
        }
        i = i + 1;
    }
    None
}

/// Tolerant parser: ignores prose around the blocks, accepts only complete
/// `<<<MEMORY>>> ... <<<END>>>` blocks that carry a non-empty `topic:` line and
/// a body that is not blank, and preserves the body verbatim, but for whole
/// blank lines at its ends and the terminator of its last line. An unterminated
/// trailing open block is counted as skipped.
#[must_use]
pub fn parse_distilled(model_output: &str) -> (r: ParseResult)
    ensures
        memory_views(r.memories@) == memories_in(model_output@).0,
        r.skipped == memories_in(model_output@).1,
{
    let text = chars_of(model_output);
    let open = chars_of(BLOCK_OPEN);
    let close = chars_of(BLOCK_CLOSE);
    let mut memories: Vec<DistilledMemory> = Vec::new();
    let mut skipped: usize = 0;
    let mut at: usize = 0;
    proof {
        reveal_strlit("<<<MEMORY>>>");
        reveal_strlit("<<<END>>>");
        assert(behind(text@, 0) =~= text@);
        assert(memory_views(memories@) + memories_in(text@).0 =~= memories_in(text@).0);
    }
    loop
        invariant_except_break
            at <= text@.len(),
            skipped <= at,
            open@ == BLOCK_OPEN@,
            close@ == BLOCK_CLOSE@,
            open@.len() == 12,
            close@.len() == 9,
            memory_views(memories@) + memories_in(behind(text@, at as nat)).0 == memories_in(
                text@,
            ).0,
            skipped + memories_in(behind(text@, at as nat)).1 == memories_in(text@).1,
        ensures
            memory_views(memories@) == memories_in(text@).0,
            skipped == memories_in(text@).1,
        decreases text@.len() - at,
    {
        let ghost rest = behind(text@, at as nat);
        let ghost before = memory_views(memories@);
        let left = slice_subrange(text.as_slice(), at, text.len());
        match position_of(left, open.as_slice()) {
            None => {
                assert(before + Seq::empty() =~= before);
                break;
            },
            Some(opened) => {
                let inside = slice_subrange(left, opened + open.len(), left.len());
                match position_of(inside, close.as_slice()) {
                    None => {
                        assert(before + Seq::empty() =~= before);
                        skipped = skipped + 1;
                        break;
                    },
                    Some(closed) => {
                        let ghost next = behind(inside@, (closed + close@.len()) as nat);
                        let block = slice_subrange(inside, 0, closed);
                        assert(block@ =~= inside@.take(closed as int));
                        at = at + opened + open.len() + closed + close.len();
                        assert(next =~= behind(text@, at as nat));
                        match parse_block(block) {
                            Some(memory) => {
                                memories.push(memory);
                                assert(memory_views(memories@) =~= before.push(memory@));
                                assert(before.push(memory@) + memories_in(next).0 =~= before + (seq![
                                    memory@,
                                ] + memories_in(next).0));
                            },
                            None => {
                                skipped = skipped + 1;
                            },
                        }
                    },
                }
            },
        }
    }
    ParseResult { memories, skipped }
}

/// The caps are hard: what a day contributes behind its heading is no longer
/// than the one, and the payload is no longer than the other.
pub proof fn law_caps_are_kept(
    days: Seq<(JournalDate, Seq<char>)>,
    opts: DreamOptions,
    text: Seq<char>,
)
    ensures
        truncated(text, opts.max_chars_per_day as nat).len() <= opts.max_chars_per_day,
        payload(days, opts).len() <= opts.max_total_chars,
{
}

/// Of the parts, only first ones are dropped, and no more than must be: those
/// that stay are the parts from some place on, and with one part more they
/// would not fit.
pub proof fn law_only_the_oldest_are_dropped(parts: Seq<Seq<char>>, max: nat) -> (from: int)
    ensures
        parts.len() == 0 ==> from == 0,
        parts.len() > 0 ==> 0 <= from < parts.len(),
        freshest(parts, max) == parts.subrange(from, parts.len() as int),
        from > 0 ==> join(parts.subrange(from - 1, parts.len() as int), "\n\n"@).len() > max,
        from < parts.len() - 1 ==> join(parts.subrange(from, parts.len() as int), "\n\n"@).len()
            <= max,
    decreases parts.len(),
{
    assert(parts.subrange(0, parts.len() as int) =~= parts);
    if join(parts, "\n\n"@).len() > max && parts.len() > 1 {
        let rest = parts.subrange(1, parts.len() as int);
        let from = law_only_the_oldest_are_dropped(rest, max);
        assert(rest.subrange(from, rest.len() as int) =~= parts.subrange(
            from + 1,
            parts.len() as int,
        ));
        if from > 0 {
            assert(rest.subrange(from - 1, rest.len() as int) =~= parts.subrange(
                from,
                parts.len() as int,
            ));
        }
        from + 1
    } else {
        0
    }
}

/// Parts of at most `most` characters each do not join to much more than that
/// many for each of them.
proof fn lemma_join_length(parts: Seq<Seq<char>>, sep: Seq<char>, most: nat)
    requires
        forall|i: int| 0 <= i < parts.len() ==> (#[trigger] parts[i]).len() <= most,
    ensures
        join(parts, sep).len() <= parts.len() * (most + sep.len()),
    decreases parts.len(),
{
    if parts.len() > 1 {
        let n = parts.len();
        lemma_join_length(parts.drop_last(), sep, most);
        assert(parts[n - 1].len() <= most);
        assert((n - 1) * (most + sep.len()) + (most + sep.len()) == n * (most + sep.len()))
            by (nonlinear_arith)
            requires
                n > 1,
        ;
    } else if parts.len() == 1 {
        assert(parts[0].len() <= most);
    }
}

/// One runaway day starves no other out of the prompt: however long the
/// journals are, every day is there, if the total cap has room for as many days
/// of the length to which a day is cut, each with its heading.
pub proof fn law_runaway_day_starves_no_other(
    days: Seq<(JournalDate, Seq<char>)>,
    opts: DreamOptions,
)
    requires
        forall|i: int| 0 <= i < days.len() ==> date_text((#[trigger] days[i]).0).len() <= 10,
        days.len() * (17 + opts.max_chars_per_day) <= opts.max_total_chars,
    ensures
        payload(days, opts) == join(sections(days, opts.max_chars_per_day as nat), "\n\n"@),
{
    let cap = opts.max_chars_per_day as nat;
    let parts = sections(days, cap);
    reveal_strlit("### ");
    reveal_strlit("\n");
    reveal_strlit("\n\n");
    assert forall|i: int| 0 <= i < parts.len() implies (#[trigger] parts[i]).len() <= 15 + cap by {
        assert(parts[i] == section(days[i], cap));
        assert(date_text(days[i].0).len() <= 10);
    }
    lemma_join_length(parts, "\n\n"@, 15 + cap);
    assert(parts.len() == days.len());
}

/// The freshest day survives: if its part of the payload fits under the cap at
/// all, the payload ends with the whole of it.
pub proof fn law_freshest_day_survives(days: Seq<(JournalDate, Seq<char>)>, opts: DreamOptions)
    requires
        days.len() > 0,
        section(days.last(), opts.max_chars_per_day as nat).len() <= opts.max_total_chars,
    ensures
        ({
            let last = section(days.last(), opts.max_chars_per_day as nat);
            let whole = payload(days, opts);
            &&& last.len() <= whole.len()
            &&& whole.subrange(whole.len() - last.len(), whole.len() as int) == last
        }),
{
    let max = opts.max_total_chars as nat;
    let parts = sections(days, opts.max_chars_per_day as nat);
    let last = section(days.last(), opts.max_chars_per_day as nat);
    let from = law_only_the_oldest_are_dropped(parts, max);
    let kept = freshest(parts, max);
    assert(kept.last() == last);
    let whole = join(kept, "\n\n"@);
    if kept.len() == 1 {
        assert(whole == last);
    } else {
        assert(whole == join(kept.drop_last(), "\n\n"@) + "\n\n"@ + last);
    }
    assert(whole.len() <= max);
    assert(whole.subrange(whole.len() - last.len(), whole.len() as int) =~= last);
}

/// A reply without an opening mark holds no memory and no block to skip.
pub proof fn law_no_block_no_memory(reply: Seq<char>)
    requires
        !contains(reply, BLOCK_OPEN@),
    ensures
        memories_in(reply).0.len() == 0,
        memories_in(reply).1 == 0,
{
    lemma_find_is_first(reply, BLOCK_OPEN@, 0);
}

/// An opening mark with no closing mark behind it counts as one skipped block,
/// and nothing behind it is read.
pub proof fn law_unterminated_block_is_skipped(prose: Seq<char>, rest: Seq<char>)
    requires
        forall|i: int|
            0 <= i < prose.len() ==> !occurs_at(prose + (BLOCK_OPEN@ + rest), BLOCK_OPEN@, i),
        !contains(rest, BLOCK_CLOSE@),
    ensures
        memories_in(prose + (BLOCK_OPEN@ + rest)).0.len() == 0,
        memories_in(prose + (BLOCK_OPEN@ + rest)).1 == 1,
{
    let reply = BLOCK_OPEN@ + rest;
    law_prose_is_ignored(prose, reply);
    assert(reply.subrange(0, BLOCK_OPEN@.len() as int) =~= BLOCK_OPEN@);
    lemma_first_position(reply, BLOCK_OPEN@, 0);
    assert(behind(reply, BLOCK_OPEN@.len()) =~= rest);
    lemma_find_is_first(rest, BLOCK_CLOSE@, 0);
}

/// Every memory that is read has a topic and a body.
pub proof fn law_memories_are_not_empty(reply: Seq<char>, i: int)
    requires
        0 <= i < memories_in(reply).0.len(),
    ensures
        memories_in(reply).0[i].0.len() > 0,
        memories_in(reply).0[i].1.len() > 0,
    decreases reply.len(),
{
    if let Some(open) = find(reply, BLOCK_OPEN@) {
        let inside = behind(reply, open + BLOCK_OPEN@.len());
        if let Some(close) = find(inside, BLOCK_CLOSE@) {
            let rest = behind(inside, close + BLOCK_CLOSE@.len());
            lemma_find_is_first(reply, BLOCK_OPEN@, 0);
            lemma_find_is_first(inside, BLOCK_CLOSE@, 0);
            reveal_strlit("<<<MEMORY>>>");
            let block = split_on(inside.take(close as int), '\n');
            if let Some(memory) = memory_in(block) {
                lemma_memory_is_not_empty(block);
                if i > 0 {
                    law_memories_are_not_empty(rest, i - 1);
                }
            } else {
                law_memories_are_not_empty(rest, i);
            }
        }
    }
}

proof fn lemma_memory_is_not_empty(block: Seq<Seq<char>>)
    ensures
        memory_in(block) matches Some(memory) ==> memory.0.len() > 0 && memory.1.len() > 0,
    decreases block.len(),
{
    if block.len() > 0 {
        lemma_memory_is_not_empty(block.subrange(1, block.len() as int));
    }
}

/// The first position of a text is the one at which it stands and before which
/// it does not.
proof fn lemma_first_position(s: Seq<char>, pat: Seq<char>, at: nat)
    requires
        occurs_at(s, pat, at as int),
        forall|i: int| 0 <= i < at ==> !occurs_at(s, pat, i),
    ensures
        find(s, pat) == Some(at),
{
    lemma_find_is_first(s, pat, 0);
}

/// Prose in front of a reply is ignored, as long as no opening mark begins in
/// it.
pub proof fn law_prose_is_ignored(prose: Seq<char>, reply: Seq<char>)
    requires
        forall|i: int| 0 <= i < prose.len() ==> !occurs_at(prose + reply, BLOCK_OPEN@, i),
    ensures
        memories_in(prose + reply) == memories_in(reply),
{
    let whole = prose + reply;
    let n = prose.len();
    lemma_find_is_first(whole, BLOCK_OPEN@, 0);
    lemma_find_is_first(reply, BLOCK_OPEN@, 0);
    assert forall|i: int| 0 <= i implies occurs_at(whole, BLOCK_OPEN@, n + i) == occurs_at(
        reply,
        BLOCK_OPEN@,
        i,
    ) by {
        if i + BLOCK_OPEN@.len() <= reply.len() {
            assert(whole.subrange(n + i, n + i + BLOCK_OPEN@.len()) =~= reply.subrange(
                i,
                i + BLOCK_OPEN@.len(),
            ));
        }
    }
    match find(reply, BLOCK_OPEN@) {
        Some(open) => {
            assert(occurs_at(whole, BLOCK_OPEN@, n + open as int));
            assert forall|i: int| 0 <= i < n + open implies !occurs_at(whole, BLOCK_OPEN@, i) by {
                if i >= n {
                    assert(!occurs_at(reply, BLOCK_OPEN@, i - n));
                    assert(occurs_at(whole, BLOCK_OPEN@, n + (i - n)) == occurs_at(
                        reply,
                        BLOCK_OPEN@,
                        i - n,
                    ));
                }
            }
            lemma_first_position(whole, BLOCK_OPEN@, n + open);
            assert(behind(whole, n + open + BLOCK_OPEN@.len()) =~= behind(
                reply,
                open + BLOCK_OPEN@.len(),
            ));
        },
        None => {
            if let Some(open) = find(whole, BLOCK_OPEN@) {
                assert(occurs_at(reply, BLOCK_OPEN@, open - n) == occurs_at(
                    whole,
                    BLOCK_OPEN@,
                    n + (open - n),
                ));
            }
        },
    }
}

/// What stands between the marks of a block that is written as the prompt asks
/// for it, with or without a line feed behind the body.
pub open spec fn block_inside(topic: Seq<char>, body: Seq<char>, ended: bool) -> Seq<char> {
    let text = seq!['\n'] + ("topic:"@ + seq![' '] + topic) + seq!['\n'] + body;
    if ended {
        text.push('\n')
    } else {
        text
    }
}

/// A block as the prompt asks for it: its topic is read as it was written, and
/// its body character for character, with or without a line feed behind it.
/// The reading goes on behind the block.
pub proof fn law_block_is_read(
    topic: Seq<char>,
    body: Seq<char>,
    ended: bool,
    rest: Seq<char>,
)
    requires
        topic.len() > 0,
        trim(topic) == topic,
        !topic.contains('\n'),
        !blank(split_on(body, '\n').first()),
        !blank(split_on(body, '\n').last()),
        ended ==> body.last() != '\r',
        forall|i: int|
            0 <= i < block_inside(topic, body, ended).len() ==> !occurs_at(
                block_inside(topic, body, ended) + BLOCK_CLOSE@ + rest,
                BLOCK_CLOSE@,
                i,
            ),
    ensures
        memories_in(BLOCK_OPEN@ + block_inside(topic, body, ended) + BLOCK_CLOSE@ + rest) == (
            seq![(topic, body)] + memories_in(rest).0,
            memories_in(rest).1,
        ),
{
    let text = block_inside(topic, body, ended);
    let inside = text + BLOCK_CLOSE@ + rest;
    let reply = BLOCK_OPEN@ + text + BLOCK_CLOSE@ + rest;
    assert(reply.subrange(0, BLOCK_OPEN@.len() as int) =~= BLOCK_OPEN@);
    lemma_first_position(reply, BLOCK_OPEN@, 0);
    assert(behind(reply, BLOCK_OPEN@.len()) =~= inside);
    assert(inside.subrange(text.len() as int, (text.len() + BLOCK_CLOSE@.len()) as int)
        =~= BLOCK_CLOSE@);
    lemma_first_position(inside, BLOCK_CLOSE@, text.len());
    assert(behind(inside, text.len() + BLOCK_CLOSE@.len()) =~= rest);
    assert(inside.take(text.len() as int) =~= text);
    lemma_block_pieces(topic, body, ended);
}

/// The pieces of such a block, and the memory that they hold.
proof fn lemma_block_pieces(topic: Seq<char>, body: Seq<char>, ended: bool)
    requires
        topic.len() > 0,
        trim(topic) == topic,
        !topic.contains('\n'),
        !blank(split_on(body, '\n').first()),
        !blank(split_on(body, '\n').last()),
        ended ==> body.last() != '\r',
    ensures
        memory_in(split_on(block_inside(topic, body, ended), '\n')) == Some((topic, body)),
{
    let head = "topic:"@ + seq![' '] + topic;
    reveal_strlit("topic:");
    reveal_strlit("\n");
    lemma_trim_length(topic);
    // The pieces between the line feeds.
    assert forall|i: int| 0 <= i < head.len() implies head[i] != '\n' by {
        if i >= 7 {
            assert(head[i] == topic[i - 7]);
            assert(topic.contains(topic[i - 7]));
        }
    }
    let empty = Seq::<char>::empty();
    lemma_split_without(empty, '\n');
    lemma_split_without(head, '\n');
    lemma_split_concat(empty, head, '\n');
    lemma_split_concat(empty + seq!['\n'] + head, body, '\n');
    let plain = empty + seq!['\n'] + head + seq!['\n'] + body;
    lemma_split_concat(plain, empty, '\n');
    let bodies = split_on(body, '\n');
    lemma_split_on_nonempty(body, '\n');
    let behind_head = if ended {
        bodies.push(empty)
    } else {
        bodies
    };
    let text = block_inside(topic, body, ended);
    if ended {
        assert(plain + seq!['\n'] + empty =~= text);
    } else {
        assert(plain =~= text);
    }
    let pieces = split_on(text, '\n');
    assert(pieces =~= seq![empty, head] + behind_head);
    // What they hold.
    assert(trim(empty) =~= empty);
    let after = pieces.subrange(1, pieces.len() as int);
    assert(after[0] == head);
    assert(trim(head) == head) by {
        assert(head[0] == 't');
        assert(head.last() == topic.last());
    }
    assert(head.subrange(0, 6) =~= "topic:"@);
    let value = head.subrange(6, head.len() as int);
    assert(value.subrange(1, value.len() as int) =~= topic);
    assert(trim_start(value) == trim_start(topic));
    assert(trim(value) == topic);
    assert(after.subrange(1, after.len() as int) =~= behind_head);
    lemma_join_of_split(body, '\n');
    assert("\n"@ =~= seq!['\n']);
    assert(body_in(behind_head) == body) by {
        assert(behind_head[0] == bodies[0]);
        assert(without_blank_front(behind_head) == behind_head);
        if ended {
            assert(behind_head.drop_last() =~= bodies);
            assert(behind_head.last() == empty);
        }
        assert(without_blank_back(bodies) == bodies);
        assert(without_blank_back(behind_head) == bodies);
    }
    assert(body.len() > 0) by {
        if body.len() == 0 {
            assert(body =~= empty);
        }
    }
    assert(memory_in(after) == Some((topic, body)));
    assert(pieces[0] == empty);
}

/// Behind the parts that are kept, only white space is joined.
proof fn lemma_blank_back(parts: Seq<Seq<char>>)
    requires
        without_blank_back(parts).len() > 0,
    ensures
        ({
            let kept = without_blank_back(parts);
            let text = join(kept, "\n"@);
            let whole = join(parts, "\n"@);
            &&& kept.len() <= parts.len()
            &&& kept == parts.take(kept.len() as int)
            &&& !blank(kept.last())
            &&& text.len() <= whole.len()
            &&& whole.take(text.len() as int) == text
            &&& all_white(whole.skip(text.len() as int))
        }),
    decreases parts.len(),
{
    let kept = without_blank_back(parts);
    let text = join(kept, "\n"@);
    let whole = join(parts, "\n"@);
    if blank(parts.last()) {
        let short = parts.drop_last();
        lemma_blank_back(short);
        lemma_blank_is_white(parts.last());
        reveal_strlit("\n");
        let before = join(short, "\n"@);
        assert(whole == before + "\n"@ + parts.last());
        assert(whole.take(text.len() as int) =~= before.take(text.len() as int));
        assert(short.take(kept.len() as int) =~= parts.take(kept.len() as int));
        let n = text.len() as int;
        assert forall|i: int| 0 <= i < whole.skip(n).len() implies white_space(
            #[trigger] whole.skip(n)[i],
        ) by {
            if n + i < before.len() {
                assert(whole.skip(n)[i] == before.skip(n)[i]);
            } else if n + i > before.len() {
                assert(whole[n + i] == parts.last()[n + i - before.len() - 1]);
            }
        }
    } else {
        assert(parts.take(parts.len() as int) =~= parts);
        assert(whole.take(text.len() as int) =~= text);
    }
}

/// The body stands in the text behind a topic line as it is. It begins where a
/// line does, and only white space stands around it.
proof fn lemma_body_is_verbatim(rest: Seq<Seq<char>>) -> (at: int)
    requires
        body_in(rest).len() > 0,
    ensures
        ({
            let body = body_in(rest);
            let text = join(rest, "\n"@);
            &&& rest.len() > 0
            &&& occurs_at(text, body, at)
            &&& !blank(body)
            &&& all_white(text.take(at))
            &&& at > 0 ==> text[at - 1] == '\n'
            &&& all_white(text.skip(at + body.len()))
        }),
    decreases rest.len(),
{
    reveal_strlit("\n");
    let body = body_in(rest);
    let text = join(rest, "\n"@);
    if rest.len() > 0 && blank(rest[0]) {
        let less = rest.subrange(1, rest.len() as int);
        let before = lemma_body_is_verbatim(less);
        lemma_join_first(rest, "\n"@);
        lemma_blank_is_white(rest[0]);
        let inner = join(less, "\n"@);
        let shift = rest[0].len() as int + 1;
        let at = before + shift;
        assert(text == rest[0] + "\n"@ + inner);
        assert(text.subrange(at, at + body.len()) =~= inner.subrange(
            before,
            before + body.len(),
        ));
        assert forall|i: int| 0 <= i < at implies white_space(#[trigger] text.take(at)[i]) by {
            if i >= shift {
                assert(text[i] == inner.take(before)[i - shift]);
            }
        }
        assert(text.skip(at + body.len()) =~= inner.skip(before + body.len()));
        at
    } else {
        let kept = without_blank_back(rest);
        assert(kept.len() > 0) by {
            if kept.len() == 0 {
                assert(join(kept, "\n"@).len() == 0);
            }
        }
        lemma_blank_back(rest);
        let whole = join(kept, "\n"@);
        assert(text.subrange(0, body.len() as int) =~= body) by {
            assert(whole.take(body.len() as int) =~= body);
            assert(text.take(whole.len() as int).take(body.len() as int) =~= text.subrange(
                0,
                body.len() as int,
            ));
        }
        let n = body.len() as int;
        assert forall|i: int| 0 <= i < text.skip(n).len() implies white_space(
            #[trigger] text.skip(n)[i],
        ) by {
            if n + i >= whole.len() {
                assert(text.skip(n)[i] == text.skip(whole.len() as int)[n + i - whole.len()]);
            } else {
                assert(text[n + i] == text.take(whole.len() as int)[n + i]);
            }
        }
        lemma_kept_is_not_blank(kept, body);
        0
    }
}

/// What is kept of a text is not blank.
proof fn lemma_kept_is_not_blank(kept: Seq<Seq<char>>, body: Seq<char>)
    requires
        kept.len() > 0,
        !blank(kept[0]),
        body == join(kept, "\n"@) || body == strip_carriage_return(join(kept, "\n"@)),
    ensures
        !blank(body),
{
    let whole = join(kept, "\n"@);
    if blank(body) {
        lemma_blank_is_white(body);
        let first = kept[0];
        if kept.len() > 1 {
            lemma_join_first(kept, "\n"@);
        }
        assert forall|i: int| 0 <= i < first.len() implies white_space(#[trigger] first[i]) by {
            assert(whole[i] == first[i]);
            if i < body.len() {
                assert(body[i] == whole[i]);
            }
        }
        lemma_trim_white_front(first, Seq::empty());
        assert(first + Seq::empty() =~= first);
        assert(trim(Seq::<char>::empty()) =~= Seq::<char>::empty());
    }
}

/// The body of a memory is preserved verbatim: it stands in its block as it is,
/// from the beginning of a line on. Behind it there is only white space; in
/// front of it, but for white space, only the topic line.
pub proof fn law_body_is_verbatim(block: Seq<char>) -> (at: int)
    requires
        memory_in(split_on(block, '\n')) is Some,
    ensures
        ({
            let (topic, body) = memory_in(split_on(block, '\n'))->0;
            let head = trim(block.take(at));
            &&& !blank(body)
            &&& occurs_at(block, body, at)
            &&& at > 0
            &&& block[at - 1] == '\n'
            &&& all_white(block.skip(at + body.len()))
            &&& starts_with(head, "topic:"@)
            &&& topic == trim(head.skip("topic:"@.len() as int))
        }),
{
    lemma_join_of_split(block, '\n');
    reveal_strlit("\n");
    assert("\n"@ =~= seq!['\n']);
    lemma_memory_is_verbatim(split_on(block, '\n'))
}

/// The same of the pieces of a block.
proof fn lemma_memory_is_verbatim(pieces: Seq<Seq<char>>) -> (at: int)
    requires
        memory_in(pieces) is Some,
    ensures
        ({
            let (topic, body) = memory_in(pieces)->0;
            let text = join(pieces, "\n"@);
            let head = trim(text.take(at));
            &&& !blank(body)
            &&& occurs_at(text, body, at)
            &&& at > 0
            &&& text[at - 1] == '\n'
            &&& all_white(text.skip(at + body.len()))
            &&& starts_with(head, "topic:"@)
            &&& topic == trim(head.skip("topic:"@.len() as int))
        }),
    decreases pieces.len(),
{
    reveal_strlit("\n");
    let (topic, body) = memory_in(pieces)->0;
    let text = join(pieces, "\n"@);
    let first = pieces[0];
    let rest = pieces.subrange(1, pieces.len() as int);
    let shift = first.len() as int + 1;
    let inner = join(rest, "\n"@);
    if blank(first) {
        let before = lemma_memory_is_verbatim(rest);
        lemma_join_first(pieces, "\n"@);
        lemma_blank_is_white(first);
        let at = before + shift;
        let white = first + "\n"@;
        assert(all_white(white));
        assert(text.take(at) =~= white + inner.take(before));
        lemma_trim_white_front(white, inner.take(before));
        assert(text.subrange(at, at + body.len()) =~= inner.subrange(
            before,
            before + body.len(),
        ));
        assert(text.skip(at + body.len()) =~= inner.skip(before + body.len()));
        at
    } else {
        let before = lemma_body_is_verbatim(rest);
        lemma_join_first(pieces, "\n"@);
        let at = before + shift;
        let white = "\n"@ + inner.take(before);
        assert(all_white(white)) by {
            assert forall|i: int| 0 <= i < white.len() implies white_space(#[trigger] white[i]) by {
                if i > 0 {
                    assert(white[i] == inner.take(before)[i - 1]);
                }
            }
        }
        assert(text.take(at) =~= first + white);
        lemma_trim_white_back(first, white);
        assert(text.subrange(at, at + body.len()) =~= inner.subrange(
            before,
            before + body.len(),
        ));
        assert(text.skip(at + body.len()) =~= inner.skip(before + body.len()));
        let head = trim(first);
        assert(head.skip("topic:"@.len() as int) =~= head.subrange(
            "topic:"@.len() as int,
            head.len() as int,
        ));
        at
    }
}

/// `front` is nothing, or whole blank lines.
pub open spec fn blank_lines(front: Seq<char>) -> bool {
    all_white(front) && (front.len() > 0 ==> front.last() == '\n')
}

/// The pieces of white space are blank.
proof fn lemma_white_pieces(s: Seq<char>)
    requires
        all_white(s),
    ensures
        forall|i: int|
            0 <= i < split_on(s, '\n').len() ==> blank(#[trigger] split_on(s, '\n')[i]),
        split_on(s, '\n').len() > 0,
    decreases s.len(),
{
    let pieces = split_on(s, '\n');
    lemma_split_on_nonempty(s, '\n');
    law_white_trims_to_nothing(Seq::empty());
    if s.len() > 0 {
        let short = s.drop_last();
        let init = split_on(short, '\n');
        assert forall|i: int| 0 <= i < short.len() implies white_space(#[trigger] short[i]) by {
            assert(short[i] == s[i]);
        }
        lemma_white_pieces(short);
        assert forall|i: int| 0 <= i < pieces.len() implies blank(#[trigger] pieces[i]) by {
            if i < init.len() - 1 || s.last() == '\n' && i < init.len() {
                assert(pieces[i] == init[i]);
            } else if s.last() != '\n' {
                let last = init[init.len() - 1];
                assert(blank(last));
                lemma_blank_is_white(last);
                assert(white_space(s[s.len() - 1]));
                assert(pieces[i] == last.push(s.last()));
                assert(all_white(last.push(s.last())));
                law_white_trims_to_nothing(pieces[i]);
            }
        }
    }
}

/// Blank pieces in front of a block do not count.
proof fn lemma_memory_behind_blanks(blanks: Seq<Seq<char>>, block: Seq<Seq<char>>)
    requires
        forall|i: int| 0 <= i < blanks.len() ==> blank(#[trigger] blanks[i]),
    ensures
        memory_in(blanks + block) == memory_in(block),
        without_blank_front(blanks + block) == without_blank_front(block),
    decreases blanks.len(),
{
    let all = blanks + block;
    if blanks.len() == 0 {
        assert(all =~= block);
    } else {
        let less = blanks.subrange(1, blanks.len() as int);
        assert(all[0] == blanks[0]);
        assert(blank(blanks[0]));
        assert(all.subrange(1, all.len() as int) =~= less + block);
        assert forall|i: int| 0 <= i < less.len() implies blank(#[trigger] less[i]) by {
            assert(less[i] == blanks[i + 1]);
        }
        lemma_memory_behind_blanks(less, block);
    }
}

/// Blank parts behind others do not count.
proof fn lemma_blanks_behind(parts: Seq<Seq<char>>, blanks: Seq<Seq<char>>)
    requires
        forall|i: int| 0 <= i < blanks.len() ==> blank(#[trigger] blanks[i]),
    ensures
        without_blank_back(parts + blanks) == without_blank_back(parts),
    decreases blanks.len(),
{
    let all = parts + blanks;
    if blanks.len() == 0 {
        assert(all =~= parts);
    } else {
        assert(blank(blanks[blanks.len() - 1]));
        assert(all.drop_last() =~= parts + blanks.drop_last());
        lemma_blanks_behind(parts, blanks.drop_last());
    }
}

/// Whole blank lines in front of a block do not count.
proof fn lemma_pieces_behind_blank_lines(front: Seq<char>, text: Seq<char>)
    requires
        blank_lines(front),
    ensures
        memory_in(split_on(front + text, '\n')) == memory_in(split_on(text, '\n')),
        without_blank_front(split_on(front + text, '\n')) == without_blank_front(
            split_on(text, '\n'),
        ),
{
    if front.len() == 0 {
        assert(front + text =~= text);
    } else {
        let short = front.drop_last();
        assert forall|i: int| 0 <= i < short.len() implies white_space(#[trigger] short[i]) by {
            assert(short[i] == front[i]);
        }
        lemma_white_pieces(short);
        lemma_split_concat(short, text, '\n');
        assert(short + seq!['\n'] + text =~= front + text);
        lemma_memory_behind_blanks(split_on(short, '\n'), split_on(text, '\n'));
    }
}

/// One character more, which is no line feed, belongs to the last piece.
proof fn lemma_pieces_with_one_more(s: Seq<char>, c: char)
    requires
        c != '\n',
    ensures
        split_on(s.push(c), '\n') == split_on(s, '\n').drop_last().push(
            split_on(s, '\n').last().push(c),
        ),
{
    assert(s.push(c).drop_last() =~= s);
}

/// The body of a block is all that stands between whole blank lines: from the
/// first line that is not blank to the last, without what ends the last.
proof fn lemma_body_between_blank_lines(before: Seq<char>, body: Seq<char>, behind: Seq<char>)
    requires
        blank_lines(before),
        !blank(split_on(body, '\n').first()),
        !blank(split_on(body, '\n').last()),
        ends_last_line(body, behind),
    ensures
        body_in(split_on(before + body + behind, '\n')) == body,
        body.len() > 0,
{
    let bodies = split_on(body, '\n');
    let rest = body + behind;
    let pieces = split_on(rest, '\n');
    reveal_strlit("\n");
    assert("\n"@ =~= seq!['\n']);
    lemma_split_on_nonempty(body, '\n');
    lemma_join_of_split(body, '\n');
    law_white_trims_to_nothing(Seq::empty());
    assert(body.len() > 0) by {
        if body.len() == 0 {
            lemma_split_without(body, '\n');
            assert(body =~= Seq::empty());
        }
    }
    assert(before + body + behind =~= before + rest);
    lemma_pieces_behind_blank_lines(before, rest);
    assert(without_blank_back(bodies) == bodies);
    if behind.len() == 0 {
        assert(rest =~= body);
        assert(without_blank_front(bodies) == bodies);
    } else if behind[0] == '\n' {
        let white = behind.subrange(1, behind.len() as int);
        assert forall|i: int| 0 <= i < white.len() implies white_space(#[trigger] white[i]) by {
            assert(white[i] == behind[i + 1]);
        }
        lemma_white_pieces(white);
        lemma_split_concat(body, white, '\n');
        assert(body + seq!['\n'] + white =~= rest);
        lemma_blanks_behind(bodies, split_on(white, '\n'));
        assert(pieces[0] == bodies[0]);
        assert(without_blank_front(pieces) == pieces);
    } else {
        let white = behind.subrange(2, behind.len() as int);
        let longer = body.push('\r');
        let lines = split_on(longer, '\n');
        assert forall|i: int| 0 <= i < white.len() implies white_space(#[trigger] white[i]) by {
            assert(white[i] == behind[i + 2]);
        }
        lemma_white_pieces(white);
        lemma_split_concat(longer, white, '\n');
        assert(longer + seq!['\n'] + white =~= rest);
        lemma_pieces_with_one_more(body, '\r');
        lemma_join_of_split(longer, '\n');
        assert(!blank(lines.last())) by {
            assert(lines.last() =~= bodies.last() + seq!['\r']);
            assert(all_white(seq!['\r']));
            lemma_trim_white_back(bodies.last(), seq!['\r']);
        }
        assert(lines[0] == bodies[0] || lines.len() == 1);
        assert(!blank(lines[0]));
        lemma_blanks_behind(lines, split_on(white, '\n'));
        assert(without_blank_back(lines) == lines);
        assert(pieces[0] == lines[0]);
        assert(without_blank_front(pieces) == pieces);
        assert(longer.drop_last() =~= body);
    }
}

/// `behind` is nothing, or ends the last line of `body` and then holds nothing
/// but white space.
pub open spec fn ends_last_line(body: Seq<char>, behind: Seq<char>) -> bool {
    &&& all_white(behind)
    &&& behind.len() > 0 ==> {
        ||| behind[0] == '\n' && body.last() != '\r'
        ||| behind.len() > 1 && behind[0] == '\r' && behind[1] == '\n'
    }
}

/// What a block holds, for every block that holds a memory: its topic is what
/// stands behind `topic:` on its first line that is not blank, and its body is
/// everything from the next line that is not blank to the last one.
pub proof fn law_memory_of_a_block(
    front: Seq<char>,
    line: Seq<char>,
    before: Seq<char>,
    body: Seq<char>,
    behind: Seq<char>,
)
    requires
        blank_lines(front),
        !line.contains('\n'),
        starts_with(trim(line), "topic:"@),
        !blank(trim(line).skip(6)),
        blank_lines(before),
        !blank(split_on(body, '\n').first()),
        !blank(split_on(body, '\n').last()),
        ends_last_line(body, behind),
    ensures
        memory_in(
            split_on(front + line + seq!['\n'] + (before + body + behind), '\n'),
        ) == Some((trim(trim(line).skip(6)), body)),
{
    let tail = before + body + behind;
    let text = line + seq!['\n'] + tail;
    reveal_strlit("topic:");
    lemma_body_between_blank_lines(before, body, behind);
    lemma_split_without(line, '\n');
    lemma_split_concat(line, tail, '\n');
    let pieces = split_on(text, '\n');
    assert(pieces =~= seq![line] + split_on(tail, '\n'));
    assert(pieces.subrange(1, pieces.len() as int) =~= split_on(tail, '\n'));
    assert(trim(line).skip(6) =~= trim(line).subrange(6, trim(line).len() as int));
    assert(memory_in(pieces) == Some((trim(trim(line).skip(6)), body)));
    lemma_pieces_behind_blank_lines(front, text);
    assert(front + line + seq!['\n'] + tail =~= front + text);
}

/// A block holds no memory if its first line that is not blank gives no topic,
/// if nothing but white space stands behind that line, or if it is blank
/// throughout.
pub proof fn law_block_without_memory(front: Seq<char>, line: Seq<char>, tail: Seq<char>)
    requires
        blank_lines(front),
        !line.contains('\n'),
        !blank(line),
    ensures
        memory_in(split_on(front, '\n')) is None,
        memory_in(split_on(front + line, '\n')) is None,
        all_white(tail) ==> memory_in(
            split_on(front + line + seq!['\n'] + tail, '\n'),
        ) is None,
        !starts_with(trim(line), "topic:"@) ==> memory_in(
            split_on(front + line + seq!['\n'] + tail, '\n'),
        ) is None,
        blank(trim(line).skip(6)) ==> memory_in(
            split_on(front + line + seq!['\n'] + tail, '\n'),
        ) is None,
{
    let text = line + seq!['\n'] + tail;
    let none = Seq::<Seq<char>>::empty();
    reveal_strlit("topic:");
    lemma_white_pieces(front);
    lemma_memory_behind_blanks(split_on(front, '\n'), none);
    assert(split_on(front, '\n') + none =~= split_on(front, '\n'));
    lemma_split_without(line, '\n');
    lemma_split_concat(line, tail, '\n');
    lemma_pieces_behind_blank_lines(front, line);
    lemma_pieces_behind_blank_lines(front, text);
    assert(front + line + seq!['\n'] + tail =~= front + text);
    let alone = split_on(line, '\n');
    assert(alone =~= seq![line]);
    assert(alone.subrange(1, 1) =~= none);
    assert(body_in(none).len() == 0);
    assert(memory_in(alone) is None);
    let pieces = split_on(text, '\n');
    let rest = split_on(tail, '\n');
    assert(pieces =~= seq![line] + rest);
    assert(pieces.subrange(1, pieces.len() as int) =~= rest);
    if starts_with(trim(line), "topic:"@) {
        assert(trim(line).skip(6) =~= trim(line).subrange(6, trim(line).len() as int));
        assert(trim(trim(line).skip(6)).len() == 0 <==> blank(trim(line).skip(6)));
    }
    if all_white(tail) {
        lemma_white_pieces(tail);
        lemma_memory_behind_blanks(rest, none);
        assert(rest + none =~= rest);
        assert(body_in(rest).len() == 0);
    }
}

/// Blocks are read one by one: what the text between an opening mark and the
/// first closing mark behind it holds is one memory or one skipped block, and
/// what is read behind the closing mark is the same in either case.
pub proof fn law_blocks_are_read_one_by_one(text: Seq<char>, rest: Seq<char>)
    requires
        forall|i: int|
            0 <= i < text.len() ==> !occurs_at(text + BLOCK_CLOSE@ + rest, BLOCK_CLOSE@, i),
    ensures
        memories_in(BLOCK_OPEN@ + text + BLOCK_CLOSE@ + rest) == match memory_in(
            split_on(text, '\n'),
        ) {
            Some(memory) => (seq![memory] + memories_in(rest).0, memories_in(rest).1),
            None => (memories_in(rest).0, memories_in(rest).1 + 1),
        },
{
    let inside = text + BLOCK_CLOSE@ + rest;
    let reply = BLOCK_OPEN@ + text + BLOCK_CLOSE@ + rest;
    assert(reply.subrange(0, BLOCK_OPEN@.len() as int) =~= BLOCK_OPEN@);
    lemma_first_position(reply, BLOCK_OPEN@, 0);
    assert(behind(reply, BLOCK_OPEN@.len()) =~= inside);
    assert(inside.subrange(text.len() as int, (text.len() + BLOCK_CLOSE@.len()) as int)
        =~= BLOCK_CLOSE@);
    lemma_first_position(inside, BLOCK_CLOSE@, text.len());
    assert(behind(inside, text.len() + BLOCK_CLOSE@.len()) =~= rest);
    assert(inside.take(text.len() as int) =~= text);
}

/// A complete block that holds no memory adds one to the skipped blocks, and
/// changes nothing about what is read behind it.
pub proof fn law_malformed_block_is_passed_over(text: Seq<char>, rest: Seq<char>)
    requires
        forall|i: int|
            0 <= i < text.len() ==> !occurs_at(text + BLOCK_CLOSE@ + rest, BLOCK_CLOSE@, i),
        memory_in(split_on(text, '\n')) is None,
    ensures
        memories_in(BLOCK_OPEN@ + text + BLOCK_CLOSE@ + rest).0 == memories_in(rest).0,
        memories_in(BLOCK_OPEN@ + text + BLOCK_CLOSE@ + rest).1 == memories_in(rest).1 + 1,
{
    law_blocks_are_read_one_by_one(text, rest);
}

/// Truncation keeps a text that fits. Of one that does not, it keeps the
/// beginning and sets one ellipsis behind it, so that it has exactly as many
/// characters as it may.
pub proof fn law_truncation_keeps_the_beginning(text: Seq<char>, max: nat)
    ensures
        text.len() <= max ==> truncated(text, max) == text,
        text.len() > max ==> truncated(text, max).len() == max,
        text.len() > max && max > 0 ==> {
            &&& truncated(text, max).last() == '…'
            &&& truncated(text, max).drop_last() == text.subrange(0, max - 1)
        },
{
    if text.len() > max && max > 0 {
        assert(truncated(text, max).drop_last() =~= text.subrange(0, max - 1));
    }
}

/// The section of a day is its date under `### `, and then its whole journal
/// without white space at its ends, if that fits; else as many of its first
/// characters as fit with an ellipsis.
pub proof fn law_section_holds_the_whole_day(
    date: JournalDate,
    front: Seq<char>,
    journal: Seq<char>,
    back: Seq<char>,
    max: nat,
)
    requires
        all_white(front),
        all_white(back),
        journal.len() > 0 ==> !white_space(journal[0]) && !white_space(journal.last()),
    ensures
        ({
            let heading = seq!['#', '#', '#', ' '] + date_text(date) + seq!['\n'];
            let day = section((date, front + journal + back), max);
            &&& journal.len() <= max ==> day == heading + journal
            &&& journal.len() > max && max > 0 ==> day == heading + journal.subrange(
                0,
                max - 1,
            ) + seq!['…']
            &&& max == 0 ==> day == heading
        }),
{
    reveal_strlit("### ");
    reveal_strlit("\n");
    lemma_trim_between_white(front, journal, back);
    law_truncation_keeps_the_beginning(journal, max);
    let heading = seq!['#', '#', '#', ' '] + date_text(date) + seq!['\n'];
    let day = section((date, front + journal + back), max);
    assert("### "@ =~= seq!['#', '#', '#', ' ']);
    assert("\n"@ =~= seq!['\n']);
    if max == 0 {
        assert(day =~= heading);
    } else if journal.len() > max {
        let cut = truncated(journal, max);
        assert(cut =~= cut.drop_last() + seq!['…']);
        assert(day =~= heading + journal.subrange(0, max - 1) + seq!['…']);
    }
}

/// The sections of the days from `from` on, with an empty line between each two.
pub open spec fn sections_from(
    days: Seq<(JournalDate, Seq<char>)>,
    max: nat,
    from: int,
) -> Seq<char> {
    join(
        Seq::new((days.len() - from) as nat, |i: int| section(days[from + i], max)),
        seq!['\n', '\n'],
    )
}

/// The prompt holds the sections of the most recent days, as many as fit under
/// the total cap but at least one: with one day more they would not fit. Only where
/// one day alone does not fit, it is cut.
pub proof fn law_prompt_holds_the_most_recent_days(
    days: Seq<(JournalDate, Seq<char>)>,
    opts: DreamOptions,
) -> (from: int)
    requires
        days.len() > 0,
    ensures
        0 <= from < days.len(),
        ({
            let most = opts.max_chars_per_day as nat;
            let total = opts.max_total_chars as nat;
            let kept = sections_from(days, most, from);
            &&& prompt(days, opts) == PROMPT_HEAD@ + truncated(kept, total) + PROMPT_TAIL@
            &&& from > 0 ==> sections_from(days, most, from - 1).len() > total
            &&& from < days.len() - 1 ==> kept.len() <= total
        }),
{
    let most = opts.max_chars_per_day as nat;
    let total = opts.max_total_chars as nat;
    let parts = sections(days, most);
    reveal_strlit("\n\n");
    assert("\n\n"@ =~= seq!['\n', '\n']);
    let from = law_only_the_oldest_are_dropped(parts, total);
    assert forall|k: int| 0 <= k < days.len() implies join(
        #[trigger] parts.subrange(k, parts.len() as int),
        "\n\n"@,
    ) == sections_from(days, most, k) by {
        assert(parts.subrange(k, parts.len() as int) =~= Seq::new(
            (days.len() - k) as nat,
            |i: int| section(days[k + i], most),
        ));
    }
    let kept = parts.subrange(from, parts.len() as int);
    assert(join(kept, "\n\n"@) == sections_from(days, most, from));
    if from > 0 {
        let more = parts.subrange(from - 1, parts.len() as int);
        assert(join(more, "\n\n"@) == sections_from(days, most, from - 1));
    }
    from
}

/// Where nothing must be cut, the prompt holds the whole journal of every day
/// under its date, character for character.
pub proof fn law_every_journal_reaches_the_model(
    days: Seq<(JournalDate, Seq<char>)>,
    opts: DreamOptions,
    i: int,
)
    requires
        0 <= i < days.len(),
        trim(days[i].1).len() <= opts.max_chars_per_day,
        sections_from(days, opts.max_chars_per_day as nat, 0).len() <= opts.max_total_chars,
    ensures
        contains(
            prompt(days, opts),
            seq!['#', '#', '#', ' '] + date_text(days[i].0) + seq!['\n'] + trim(days[i].1),
        ),
{
    let most = opts.max_chars_per_day as nat;
    let whole = sections_from(days, most, 0);
    let wanted = seq!['#', '#', '#', ' '] + date_text(days[i].0) + seq!['\n'] + trim(days[i].1);
    reveal_strlit("### ");
    reveal_strlit("\n");
    assert(wanted =~= section(days[i], most)) by {
        assert("### "@ =~= seq!['#', '#', '#', ' ']);
        assert("\n"@ =~= seq!['\n']);
    }
    let parts = Seq::new((days.len() - 0) as nat, |k: int| section(days[0 + k], most));
    lemma_part_stands_in_joined(parts, seq!['\n', '\n'], i);
    let from = law_prompt_holds_the_most_recent_days(days, opts);
    lemma_fewer_sections_are_shorter(days, most, from);
    let at = choose|at: int| occurs_at(whole, wanted, at);
    let text = prompt(days, opts);
    assert(text == PROMPT_HEAD@ + whole + PROMPT_TAIL@);
    let start = PROMPT_HEAD@.len() + at;
    assert(text.subrange(start, start + wanted.len()) =~= whole.subrange(at, at + wanted.len()));
    assert(occurs_at(text, wanted, start));
}

/// A day more makes the sections longer, so that where all fit, all are kept.
proof fn lemma_fewer_sections_are_shorter(
    days: Seq<(JournalDate, Seq<char>)>,
    most: nat,
    from: int,
)
    requires
        0 <= from < days.len(),
    ensures
        from > 0 ==> sections_from(days, most, from - 1).len() <= sections_from(
            days,
            most,
            0,
        ).len(),
    decreases from,
{
    if from > 1 {
        lemma_fewer_sections_are_shorter(days, most, from - 1);
        let k = from - 2;
        let parts = Seq::new((days.len() - k) as nat, |i: int| section(days[k + i], most));
        let fewer = Seq::new(
            (days.len() - (k + 1)) as nat,
            |i: int| section(days[(k + 1) + i], most),
        );
        lemma_join_first(parts, seq!['\n', '\n']);
        assert(parts.subrange(1, parts.len() as int) =~= fewer);
    }
}

/// Each part stands in what is joined.
proof fn lemma_part_stands_in_joined(parts: Seq<Seq<char>>, sep: Seq<char>, i: int)
    requires
        0 <= i < parts.len(),
    ensures
        contains(join(parts, sep), parts[i]),
    decreases parts.len(),
{
    let whole = join(parts, sep);
    let n = parts.len() - 1;
    if parts.len() == 1 {
        assert(whole.subrange(0, whole.len() as int) =~= parts[0]);
        assert(occurs_at(whole, parts[0], 0));
    } else if i == n {
        let at = whole.len() - parts[n].len();
        assert(whole.subrange(at, whole.len() as int) =~= parts[n]);
        assert(occurs_at(whole, parts[n], at));
    } else {
        let init = join(parts.drop_last(), sep);
        lemma_part_stands_in_joined(parts.drop_last(), sep, i);
        let at = choose|at: int| occurs_at(init, parts[i], at);
        assert(whole.subrange(at, at + parts[i].len()) =~= init.subrange(
            at,
            at + parts[i].len(),
        ));
        assert(occurs_at(whole, parts[i], at));
    }
}

/// Days and memories are seen whole, one by one.
pub proof fn law_days_and_memories_are_seen_whole(
    days: Seq<(JournalDate, String)>,
    memories: Seq<DistilledMemory>,
    i: int,
)
    ensures
        day_views(days).len() == days.len(),
        0 <= i < days.len() ==> day_views(days)[i] == (days[i].0, days[i].1@),
        memory_views(memories).len() == memories.len(),
        0 <= i < memories.len() ==> memory_views(memories)[i] == (
            memories[i].topic@,
            memories[i].body@,
        ),
{
}

/// Without days there is no payload.
pub proof fn law_no_days_no_payload(opts: DreamOptions)
    ensures
        prompt(Seq::empty(), opts) == PROMPT_HEAD@ + PROMPT_TAIL@,
{
    let parts = sections(Seq::empty(), opts.max_chars_per_day as nat);
    assert(parts =~= Seq::<Seq<char>>::empty());
    assert(payload(Seq::empty(), opts) =~= Seq::<char>::empty());
    assert(PROMPT_HEAD@ + Seq::<char>::empty() + PROMPT_TAIL@ =~= PROMPT_HEAD@ + PROMPT_TAIL@);
}

} // verus!
