use std::collections::BTreeMap;

use runtime::distill::parse_block;
use runtime::dream::{
    build_distill_prompt, dream_on_start_decision, eligible_days, format_marker, keep_most_recent,
    last_dream_marker_path, memory_root, parse_distilled, parse_marker, read_last_dream, run_dream,
    slugify, write_distilled, DistilledMemory, DreamAction, DreamEvent, DreamOnStartDecision,
    DreamOptions, DreamOutcome,
};
use runtime::journal::{append_entry_on, JournalDate, YearListing};
use runtime::memory::{
    memory_index_path, merge_by_slug, topic_contents, topic_path_for, update_memory_index,
};
use runtime::store::StorePath;
use runtime::writing::{WriteAction, WriteEvent};

fn day(year: i32, month: u32, day: u32) -> JournalDate {
    JournalDate { year, month, day }
}

fn memory(topic: &str, body: &str) -> DistilledMemory {
    DistilledMemory { topic: topic.to_string(), body: body.to_string() }
}

fn slashed(path: &StorePath) -> String {
    path.components.join("/")
}

fn occurrences(text: &str, wanted: &str) -> usize {
    text.matches(wanted).count()
}

/// Files in memory, by path.
#[derive(Debug, Clone, Default, PartialEq, Eq)]
struct Disk {
    files: BTreeMap<String, String>,
}

impl Disk {
    fn read(&self, path: &str) -> Option<String> {
        self.files.get(path).cloned()
    }

    fn journal(&mut self, date: JournalDate, time_label: &str, text: &str) {
        let append = append_entry_on(date, time_label, text);
        self.files.entry(slashed(&append.path)).or_default().push_str(&append.text);
    }

    fn listing(&self) -> Vec<YearListing> {
        let mut years: BTreeMap<String, Vec<String>> = BTreeMap::new();
        for path in self.files.keys() {
            let names: Vec<&str> = path.split('/').collect();
            if names.len() == 4 && names[0] == "logs" {
                years.entry(names[1].to_string()).or_default().push(names[3].to_string());
            }
        }
        years.into_iter().map(|(name, files)| YearListing { name, files }).collect()
    }

    fn last_dream(&self) -> Option<JournalDate> {
        read_last_dream(&self.read("last-dream"))
    }

    /// Runs a pass for at most so many actions. `None`: it did not finish.
    fn dream_for(
        &mut self,
        actions: usize,
        as_of: JournalDate,
        opts: &DreamOptions,
        model: &mut dyn FnMut(&str) -> String,
    ) -> Option<DreamOutcome> {
        let mut run = run_dream(as_of, opts);
        for _ in 0..actions {
            let event = match run.action() {
                DreamAction::ReadFile(path) => DreamEvent::FileRead(self.read(&slashed(&path))),
                DreamAction::ListJournal => DreamEvent::JournalListed(self.listing()),
                DreamAction::AskModel(prompt) => DreamEvent::ModelReplied(model(&prompt)),
                DreamAction::WriteFile(path, text) => {
                    self.files.insert(slashed(&path), text);
                    DreamEvent::FileWritten
                }
                DreamAction::Finish => return run.into_outcome(),
            };
            assert!(run.accepts(&event));
            run = run.step(event);
        }
        run.into_outcome()
    }

    fn dream(&mut self, as_of: JournalDate, opts: &DreamOptions, reply: &str) -> DreamOutcome {
        self.dream_for(1_000, as_of, opts, &mut |_prompt| reply.to_string()).expect("dream")
    }

    fn write(&mut self, as_of: JournalDate, memories: &[DistilledMemory]) -> Vec<String> {
        let mut write = write_distilled(as_of, memories);
        loop {
            let event = match write.action() {
                WriteAction::ReadFile(path) => WriteEvent::FileRead(self.read(&slashed(&path))),
                WriteAction::WriteFile(path, text) => {
                    self.files.insert(slashed(&path), text);
                    WriteEvent::FileWritten
                }
                WriteAction::Finish => break,
            };
            write = write.step(event);
        }
        assert!(write.is_done());
        write.into_files().iter().map(slashed).collect()
    }
}

const CANNED: &str = "\
<<<MEMORY>>>\n\
topic: Dream seam\n\
runtime stays model-agnostic; CLI injects the completer.\n\
<<<END>>>\n";

#[test]
fn slugify_normalizes_and_handles_empty() {
    assert_eq!(slugify("Hello, World!"), "hello-world");
    assert_eq!(slugify("  multi   space "), "multi-space");
    assert_eq!(slugify("***"), "untitled");
}

#[test]
fn slugs_are_safe_and_stable() {
    for topic in ["", "-", "a", "A--b", "Ünïcode Wörds", "../../etc/passwd", "x\u{0}y", "42nd Street"] {
        let slug = slugify(topic);
        assert!(!slug.is_empty());
        assert!(!slug.starts_with('-') && !slug.ends_with('-') && !slug.contains("--"), "{slug}");
        assert!(slug.chars().all(|c| c == '-' || c.is_ascii_lowercase() || c.is_ascii_digit()));
        assert_eq!(slugify(&slug), slug);
    }
    assert_eq!(slugify("../../etc/passwd"), "etc-passwd");
    assert_eq!(slugify("Ünïcode Wörds"), "n-code-w-rds");
}

#[test]
fn parse_distilled_is_tolerant_and_counts_skips() {
    let output = "\
preamble prose that should be ignored\n\
<<<MEMORY>>>\n\
topic: Build command\n\
Run scripts/fmt.sh from root, not cargo fmt.\n\
<<<END>>>\n\
some noise\n\
<<<MEMORY>>>\n\
no topic line here\n\
<<<END>>>\n\
<<<MEMORY>>>\n\
topic: Auth\n\
Subscription uses claw login OAuth.\n\
<<<END>>>\n";
    let result = parse_distilled(output);
    assert_eq!(result.memories.len(), 2, "two valid blocks");
    assert_eq!(result.skipped, 1, "the topic-less block is skipped");
    assert_eq!(result.memories[0].topic, "Build command");
    assert!(result.memories[1].body.contains("claw login"));
}

#[test]
fn parse_distilled_empty_on_garbage() {
    let result = parse_distilled("the model just chatted with no blocks");
    assert!(result.memories.is_empty());
    assert_eq!(result.skipped, 0);
}

#[test]
fn parse_distilled_skips_an_unterminated_block() {
    let result = parse_distilled(&format!("{CANNED}<<<MEMORY>>>\ntopic: Lost\nbody\n<<<END>>"));
    assert_eq!(result.memories.len(), 1);
    assert_eq!(result.skipped, 1);
    let result = parse_distilled("<<<MEMORY>>>");
    assert!(result.memories.is_empty());
    assert_eq!(result.skipped, 1);
}

#[test]
fn parse_distilled_reads_marks_wherever_they_stand() {
    // An opening mark within a block belongs to the block.
    let nested = "<<<MEMORY>>>topic: a\nb <<<MEMORY>>> c<<<END>>><<<END>>><<<MEMORY>>>topic:d\ne<<<END>>>";
    let result = parse_distilled(nested);
    assert_eq!(result.memories, vec![memory("a", "b <<<MEMORY>>> c"), memory("d", "e")]);
    assert_eq!(result.skipped, 0);
    // A mark that begins twice.
    let result = parse_distilled("<<<<MEMORY>>>>\ntopic: x\ny\n<<<<END>>>>");
    assert!(result.memories.is_empty());
    assert_eq!(result.skipped, 1);
}

#[test]
fn blocks_need_a_topic_and_a_body() {
    let block = |text: &str| parse_block(&text.chars().collect::<Vec<char>>());
    assert_eq!(block("\n \n\t topic:  The title \nfirst\n\nsecond\n\n"), Some(memory("The title", "first\n\nsecond")));
    assert_eq!(block("topic:t\r\n  kept\r\nlast \r\n"), Some(memory("t", "  kept\r\nlast ")));
    assert_eq!(block("topic: t\ntopic: u\n"), Some(memory("t", "topic: u")));
    assert_eq!(block(""), None);
    assert_eq!(block("\n\n"), None);
    assert_eq!(block("topic:\nbody"), None);
    assert_eq!(block("topic: t"), None);
    assert_eq!(block("topic: t\n \n\t\n"), None);
    assert_eq!(block("Topic: t\nbody"), None);
    assert_eq!(block("body first\ntopic: t"), None);
}

#[test]
fn bodies_are_preserved_verbatim() {
    let result = parse_distilled("<<<MEMORY>>>\ntopic: T\n  a\r\nb<<<END>>>");
    assert_eq!(result.memories, vec![memory("T", "  a\r\nb")]);
    assert_eq!(result.skipped, 0);
    for body in ["a", "\ta  ", "  a\r\nb", "a\n\n  b\n\r\nc", "a\r", "- x\n    - y \u{a0}", "topic: a"] {
        let result = parse_distilled(&format!("<<<MEMORY>>>\ntopic: T\n{body}<<<END>>>"));
        assert_eq!(result.memories, vec![memory("T", body)]);
        if !body.ends_with('\r') {
            // The last line's terminator and whole blank lines do not belong to the body.
            for (front, back) in [("", "\n"), ("\n", "\r\n"), (" \r\n\n", "\n\n \t"), ("", "\n ")] {
                let reply = format!("<<<MEMORY>>>\ntopic: T\r\n{front}{body}{back}<<<END>>>");
                assert_eq!(parse_distilled(&reply).memories, vec![memory("T", body)], "{reply:?}");
            }
        }
    }
}

#[test]
fn blocks_are_read_as_they_were_written() {
    let topics = ["One", "two words", "tricky: colons", "– dash –"];
    let mut reply = "prose\n".to_string();
    for topic in topics {
        reply.push_str(&format!("<<<MEMORY>>>\ntopic: {topic}\nbody of\n{topic}\n<<<END>>>\nchatter"));
    }
    let result = parse_distilled(&reply);
    assert_eq!(result.skipped, 0);
    let expected: Vec<DistilledMemory> =
        topics.iter().map(|topic| memory(topic, &format!("body of\n{topic}"))).collect();
    assert_eq!(result.memories, expected);
}

#[test]
fn build_distill_prompt_caps_total_and_keeps_freshest() {
    let opts = DreamOptions {
        max_days: 7,
        max_chars_per_day: 50,
        max_total_chars: 80,
    };
    let days = vec![
        (day(2026, 5, 30), "old ".repeat(40)),
        (day(2026, 5, 31), "new fresh content".to_string()),
    ];
    let prompt = build_distill_prompt(&days, &opts);
    // Freshest day survives; oldest section is dropped under the total cap.
    assert!(prompt.contains("new fresh content"), "prompt: {prompt}");
    assert!(prompt.contains("--- JOURNAL ---"));
}

fn payload(days: &[(JournalDate, String)], opts: &DreamOptions) -> String {
    let prompt = build_distill_prompt(days, opts);
    let (_, behind) = prompt.split_once("--- JOURNAL ---\n").expect("head");
    behind.strip_suffix("\n--- END JOURNAL ---\n").expect("tail").to_string()
}

#[test]
fn prompts_carry_every_day_under_its_date() {
    let days = vec![
        (day(2026, 5, 30), "  first day\n".to_string()),
        (day(2026, 5, 31), "second day".to_string()),
    ];
    assert_eq!(
        build_distill_prompt(&days, &DreamOptions::default()),
        "You are the dream/distillation process of an autonomous coding agent. \
Below are raw, append-only journal entries from recent days. Consolidate them \
into a small set of durable, reusable memories worth recalling in future \
sessions — decisions, conventions, gotchas, architecture facts. Skip transient \
noise and anything that will not matter tomorrow.\n\n\
For EACH memory, emit exactly one block in this format and nothing else:\n\
<<<MEMORY>>>\n\
topic: <a short title, a few words>\n\
<1-5 sentences: the durable fact and why it matters>\n\
<<<END>>>\n\n\
Do not emit any text outside these blocks. If nothing is worth keeping, emit no \
blocks.\n\n\
--- JOURNAL ---\n### 2026-05-30\nfirst day\n\n### 2026-05-31\nsecond day\n--- END JOURNAL ---\n"
    );
    assert_eq!(payload(&[], &DreamOptions::default()), "");
}

#[test]
fn caps_count_characters_of_days_and_payload() {
    let days = vec![
        (day(2026, 5, 29), "é".repeat(20)),
        (day(2026, 5, 30), "b".repeat(20)),
        (day(2026, 5, 31), "c".repeat(20)),
    ];
    // A section has 15 characters in front of its text.
    let opts = |per_day: usize, total: usize| DreamOptions {
        max_days: 7,
        max_chars_per_day: per_day,
        max_total_chars: total,
    };
    let whole = payload(&days, &opts(10, 79));
    assert_eq!(
        whole,
        "### 2026-05-29\nééééééééé…\n\n### 2026-05-30\nbbbbbbbbb…\n\n### 2026-05-31\nccccccccc…"
    );
    assert_eq!(whole.chars().count(), 79);
    // One character less, and the oldest day goes as a whole.
    assert_eq!(
        payload(&days, &opts(10, 78)),
        "### 2026-05-30\nbbbbbbbbb…\n\n### 2026-05-31\nccccccccc…"
    );
    // The last day stays, cut where it must be.
    assert_eq!(payload(&days, &opts(10, 17)), "### 2026-05-31\nc…");
    assert_eq!(payload(&days, &opts(10, 1)), "…");
    assert_eq!(payload(&days, &opts(10, 0)), "");
    assert_eq!(
        payload(&days, &opts(0, 79)),
        "### 2026-05-29\n\n\n### 2026-05-30\n\n\n### 2026-05-31\n"
    );
    for total in 0..90 {
        for per_day in 0..25 {
            assert!(payload(&days, &opts(per_day, total)).chars().count() <= total);
        }
    }
}

#[test]
fn one_runaway_day_starves_no_other() {
    let opts = DreamOptions { max_days: 7, max_chars_per_day: 10, max_total_chars: 81 };
    let days = vec![
        (day(2026, 5, 29), "first".to_string()),
        (day(2026, 5, 30), "runaway ".repeat(10_000)),
        (day(2026, 5, 31), "third".to_string()),
    ];
    assert_eq!(
        payload(&days, &opts),
        "### 2026-05-29\nfirst\n\n### 2026-05-30\nrunaway r…\n\n### 2026-05-31\nthird"
    );
}

#[test]
fn default_options_are_a_week_of_bounded_days() {
    let opts = DreamOptions::default();
    assert_eq!(opts.max_days, 7);
    assert_eq!(opts.max_chars_per_day, 8_000);
    assert_eq!(opts.max_total_chars, 24_000);
}

#[test]
fn run_dream_writes_memories_and_advances_marker() {
    let mut home = Disk::default();
    home.journal(day(2026, 6, 1), "09:00:00Z", "decided to use closure seam");

    let canned = "\
<<<MEMORY>>>\n\
topic: Dream seam\n\
runtime stays model-agnostic; CLI injects the AnthropicClient completer.\n\
<<<END>>>\n";
    let outcome = home
        .dream_for(1_000, day(2026, 6, 1), &DreamOptions::default(), &mut |prompt| {
            assert!(prompt.contains("closure seam"), "journal fed into prompt");
            canned.to_string()
        })
        .expect("dream");

    assert_eq!(outcome.memories_written, 1);
    assert!(outcome.marker_advanced);
    assert_eq!(outcome.files.len(), 1);

    let topic_file = home.read("memory/dream-seam.md").expect("file");
    assert!(topic_file.contains("model-agnostic"));
    let index = home.read("MEMORY.md").expect("index");
    assert!(index.contains("(memory/dream-seam.md)"));
    assert_eq!(
        home.last_dream(),
        Some(day(2026, 6, 1)),
        "marker advances to latest day"
    );
    assert_eq!(slashed(&outcome.files[0]), "memory/dream-seam.md");
    assert_eq!(outcome.days_considered, 1);
    assert_eq!(outcome.skipped_blocks, 0);
    assert_eq!(outcome.note, None);
    assert_eq!(
        topic_file,
        "# Dream seam\n\n## 2026-06-01\n\nruntime stays model-agnostic; CLI injects the AnthropicClient completer.\n"
    );
    assert_eq!(
        index,
        "# MEMORY index\n\nDistilled memories. One line per topic.\n\n- [Dream seam](memory/dream-seam.md)\n"
    );
    assert_eq!(home.read("last-dream").expect("marker"), "2026-06-01");
}

#[test]
fn run_dream_no_valid_memories_does_not_advance_marker() {
    let mut home = Disk::default();
    home.journal(day(2026, 6, 1), "09:00:00Z", "some raw entry");
    let before = home.clone();

    let outcome = home.dream(
        day(2026, 6, 1),
        &DreamOptions::default(),
        "model produced only chatter, no blocks",
    );

    assert_eq!(outcome.memories_written, 0);
    assert!(!outcome.marker_advanced, "marker must not advance on no-op");
    assert_eq!(
        home.last_dream(),
        None,
        "days remain eligible for a future dream"
    );
    assert_eq!(outcome.note.as_deref(), Some("model returned no valid memories"));
    assert_eq!(outcome.days_considered, 1);
    assert_eq!(home, before);

    let outcome = home.dream(day(2026, 6, 1), &DreamOptions::default(), "<<<MEMORY>>><<<END>>><<<MEMORY>>>");
    assert_eq!(outcome.skipped_blocks, 2);
    assert_eq!(home, before);
}

#[test]
fn run_dream_no_new_days_is_noop() {
    let mut home = Disk::default();

    // No journal at all.
    let mut called = false;
    let outcome = home
        .dream_for(1_000, day(2026, 6, 1), &DreamOptions::default(), &mut |_prompt| {
            called = true;
            String::new()
        })
        .expect("dream");
    assert_eq!(outcome.memories_written, 0);
    assert!(outcome.note.is_some());
    assert!(!called, "completer must not be called with no journal days");
    assert_eq!(outcome, DreamOutcome::noop(0, "no new journal days to distill"));
}

#[test]
fn second_dream_appends_section_and_keeps_one_pointer() {
    let mut home = Disk::default();
    home.journal(day(2026, 6, 1), "09:00:00Z", "entry one");
    home.dream(day(2026, 6, 1), &DreamOptions::default(), CANNED);

    // A new day with the SAME distilled topic must append, not overwrite,
    // and must not add a second pointer for the same slug.
    home.journal(day(2026, 6, 2), "09:00:00Z", "entry two");
    let outcome = home.dream(day(2026, 6, 2), &DreamOptions::default(), CANNED);
    assert!(outcome.marker_advanced);

    let topic_file = home.read("memory/dream-seam.md").expect("file");
    assert!(
        topic_file.contains("## 2026-06-01") && topic_file.contains("## 2026-06-02 (update)"),
        "both dated sections present: {topic_file}"
    );
    let index = home.read("MEMORY.md").expect("index");
    let pointer_count = index
        .lines()
        .filter(|line| line.contains("(memory/dream-seam.md)"))
        .count();
    assert_eq!(pointer_count, 1, "pointer is idempotent across dreams");
    assert_eq!(home.last_dream(), Some(day(2026, 6, 2)));
}

#[test]
fn dreamed_days_stay_dreamed() {
    let mut home = Disk::default();
    home.journal(day(2026, 6, 1), "09:00:00Z", "entry");
    home.dream(day(2026, 6, 3), &DreamOptions::default(), CANNED);
    let after = home.clone();
    let outcome = home
        .dream_for(1_000, day(2026, 6, 3), &DreamOptions::default(), &mut |_| unreachable!())
        .expect("dream");
    assert_eq!(outcome, DreamOutcome::noop(0, "no new journal days to distill"));
    assert_eq!(home, after);
    assert_eq!(
        dream_on_start_decision(home.last_dream(), day(2026, 6, 1)),
        DreamOnStartDecision::SkipUpToDate
    );
}

#[test]
fn dreams_that_are_not_due_find_no_days() {
    for marker in ["2026-06-01", "2026-06-09"] {
        let mut home = Disk::default();
        home.files.insert("last-dream".to_string(), marker.to_string());
        home.journal(day(2026, 6, 1), "09:00:00Z", "entry");
        home.journal(day(2026, 6, 9), "09:00:00Z", "entry");
        let before = home.clone();
        assert_eq!(
            dream_on_start_decision(home.last_dream(), day(2026, 6, 1)),
            DreamOnStartDecision::SkipUpToDate
        );
        let outcome = home.dream(day(2026, 6, 1), &DreamOptions::default(), CANNED);
        assert_eq!(outcome, DreamOutcome::noop(0, "no new journal days to distill"));
        assert_eq!(home, before);
    }
}

#[test]
fn a_pass_that_stops_half_way_leaves_the_marker() {
    let mut full = Disk::default();
    full.files.insert("last-dream".to_string(), "2026-05-30\n".to_string());
    full.journal(day(2026, 5, 31), "09:00:00Z", "entry one");
    full.journal(day(2026, 6, 1), "09:00:00Z", "entry two");
    let reply = format!("{CANNED}<<<MEMORY>>>\ntopic: Other\nthing\n<<<END>>>");
    let mut finished = 0;
    for actions in 0..40 {
        let mut home = full.clone();
        let mut asked = 0;
        let outcome =
            home.dream_for(actions, day(2026, 6, 1), &DreamOptions::default(), &mut |_prompt| {
                asked += 1;
                reply.clone()
            });
        assert!(asked <= 1);
        for (path, text) in &full.files {
            if path.starts_with("logs/") {
                assert_eq!(home.read(path).as_ref(), Some(text));
            }
        }
        match outcome {
            None => assert_eq!(home.last_dream(), Some(day(2026, 5, 30))),
            Some(outcome) => {
                finished += 1;
                assert_eq!(outcome.memories_written, 2);
                assert_eq!(home.last_dream(), Some(day(2026, 6, 1)));
                assert!(home.read("memory/other.md").is_some());
                assert_eq!(occurrences(&home.read("MEMORY.md").expect("index"), "](memory/"), 2);
            }
        }
    }
    // Marker, listing, two days, model, four for two topics, two for the index, marker.
    assert_eq!(finished, 40 - 12);
}

#[test]
fn only_days_after_the_marker_and_not_in_the_future_are_dreamed() {
    let mut home = Disk::default();
    for date in 1..=6 {
        home.journal(day(2026, 6, date), "09:00:00Z", &format!("entry of day {date}."));
    }
    home.files.insert("last-dream".to_string(), " 2026-06-01 ".to_string());
    let opts = DreamOptions { max_days: 2, ..DreamOptions::default() };
    let mut seen = String::new();
    let outcome = home
        .dream_for(1_000, day(2026, 6, 5), &opts, &mut |prompt| {
            seen = prompt.to_string();
            CANNED.to_string()
        })
        .expect("dream");
    assert_eq!(outcome.days_considered, 2);
    for (date, dreamed) in [(1, false), (2, false), (3, false), (4, true), (5, true), (6, false)] {
        assert_eq!(seen.contains(&format!("entry of day {date}.")), dreamed, "{date}");
    }
    assert_eq!(home.last_dream(), Some(day(2026, 6, 5)));
}

#[test]
fn a_day_whose_file_occurs_twice_is_dreamed_once() {
    let mut run = run_dream(day(2026, 7, 1), &DreamOptions::default());
    run = run.step(DreamEvent::FileRead(None));
    run = run.step(DreamEvent::JournalListed(vec![YearListing {
        name: "2026".to_string(),
        files: vec!["2026-06-01.md".to_string(), "2026-06-01.md".to_string()],
    }]));
    run = run.step(DreamEvent::FileRead(Some("an entry".to_string())));
    match run.action() {
        DreamAction::AskModel(prompt) => assert_eq!(occurrences(&prompt, "an entry"), 1),
        action => panic!("{action:?}"),
    }
    run = run.step(DreamEvent::ModelReplied(String::new()));
    assert_eq!(run.into_outcome().expect("over").days_considered, 1);
}

#[test]
fn days_without_a_readable_journal_are_considered_but_not_loaded() {
    let mut run = run_dream(day(2026, 6, 1), &DreamOptions::default());
    assert_eq!(run.action(), DreamAction::ReadFile(last_dream_marker_path()));
    run = run.step(DreamEvent::FileRead(None));
    assert_eq!(run.action(), DreamAction::ListJournal);
    run = run.step(DreamEvent::JournalListed(vec![YearListing {
        name: "2026".to_string(),
        files: vec!["2026-05-31.md".to_string(), "2026-06-01.md".to_string()],
    }]));
    run = run.step(DreamEvent::FileRead(None));
    run = run.step(DreamEvent::FileRead(None));
    assert_eq!(run.action(), DreamAction::Finish);
    assert_eq!(run.into_outcome(), Some(DreamOutcome::noop(2, "journal days were empty")));
}

#[test]
fn events_that_answer_nothing_are_passed_over() {
    let mut run = run_dream(day(2026, 6, 1), &DreamOptions::default());
    for event in [
        DreamEvent::FileWritten,
        DreamEvent::ModelReplied(CANNED.to_string()),
        DreamEvent::JournalListed(Vec::new()),
    ] {
        run = run.step(event);
        assert_eq!(run.action(), DreamAction::ReadFile(last_dream_marker_path()));
    }
    assert_eq!(run.into_outcome(), None);
}

#[test]
fn a_pass_that_may_keep_no_day_takes_no_listing_with_new_days() {
    let opts = DreamOptions { max_days: 0, ..DreamOptions::default() };
    let run = run_dream(day(2026, 6, 1), &opts).step(DreamEvent::FileRead(None));
    let listed = |name: &str| {
        DreamEvent::JournalListed(vec![YearListing {
            name: "2026".to_string(),
            files: vec![name.to_string()],
        }])
    };
    assert!(!run.accepts(&listed("2026-06-01.md")));
    assert!(run.accepts(&listed("2026-06-02.md")));
    assert!(run.accepts(&DreamEvent::FileWritten));
    let run = run.step(listed("2026-06-02.md"));
    assert_eq!(
        run.into_outcome(),
        Some(DreamOutcome::noop(0, "no new journal days to distill"))
    );
}

#[test]
fn colliding_slugs_are_merged_in_order() {
    let merged = merge_by_slug(&[
        memory("Build Command", "first"),
        memory("Auth", "token"),
        memory("build command!", "second"),
        memory("???", "nameless"),
        memory("BUILD, command", "third"),
    ]);
    assert_eq!(
        merged,
        vec![
            ("build-command".to_string(), memory("Build Command", "first\n\nsecond\n\nthird")),
            ("auth".to_string(), memory("Auth", "token")),
            ("untitled".to_string(), memory("???", "nameless")),
        ]
    );
    assert!(merge_by_slug(&[]).is_empty());
}

#[test]
fn topic_files_keep_what_they_held() {
    let fresh = topic_contents(&None, day(2026, 6, 1), &memory("A", " body \n"));
    assert_eq!(fresh, "# A\n\n## 2026-06-01\n\nbody\n");
    let grown = topic_contents(&Some(fresh), day(2026, 6, 2), &memory("A again", "more"));
    assert_eq!(grown, "# A\n\n## 2026-06-01\n\nbody\n\n## 2026-06-02 (update)\n\nmore\n");
    let emptied = topic_contents(&Some(" \n".to_string()), day(2026, 6, 2), &memory("A", "more"));
    assert_eq!(emptied, "\n\n## 2026-06-02 (update)\n\nmore\n");
}

#[test]
fn the_index_grows_by_missing_pointers_only() {
    let entries = vec![
        ("a".to_string(), memory("Topic A", "x")),
        ("b-c".to_string(), memory("Topic B", "y")),
    ];
    let index = update_memory_index(&Some("kept".to_string()), &entries).expect("changed");
    assert_eq!(index, "kept\n- [Topic A](memory/a.md)\n- [Topic B](memory/b-c.md)\n");
    assert_eq!(update_memory_index(&Some(index.clone()), &entries), None);
    let again = vec![("a".to_string(), memory("Renamed", "z")), ("b".to_string(), memory("New", "w"))];
    let grown = update_memory_index(&Some(index.clone()), &again).expect("changed");
    assert_eq!(grown, format!("{index}- [New](memory/b.md)\n"));
    assert_eq!(
        update_memory_index(&Some(String::new()), &entries[..1].to_vec()).expect("changed"),
        "\n- [Topic A](memory/a.md)\n"
    );
    assert_eq!(update_memory_index(&None, &Vec::new()), None);
    // A link that is broken over two lines is none.
    let broken = Some("(memory/\na.md)".to_string());
    assert!(update_memory_index(&broken, &entries).is_some());
}

#[test]
fn memories_are_written_topic_by_topic() {
    let mut home = Disk::default();
    home.files.insert("memory/auth.md".to_string(), "# Auth\n\nold\n\n".to_string());
    home.files.insert("untouched".to_string(), "as it was".to_string());
    let files = home.write(
        day(2026, 6, 1),
        &[memory("Auth", "new"), memory("Build", "fmt"), memory("auth", "newer")],
    );
    assert_eq!(files, vec!["memory/auth.md", "memory/build.md"]);
    assert_eq!(
        home.read("memory/auth.md").expect("auth"),
        "# Auth\n\nold\n\n## 2026-06-01 (update)\n\nnew\n\nnewer\n"
    );
    assert_eq!(home.read("memory/build.md").expect("build"), "# Build\n\n## 2026-06-01\n\nfmt\n");
    assert_eq!(home.read("untouched").expect("untouched"), "as it was");
    assert_eq!(home.files.len(), 4);
    // Without memories there is nothing to write, not even an index.
    let mut bare = Disk::default();
    assert!(bare.write(day(2026, 6, 1), &[]).is_empty());
    assert!(bare.files.is_empty());
}

#[test]
fn markers_are_read_back() {
    assert_eq!(format_marker(day(2026, 6, 1)), "2026-06-01");
    assert_eq!(parse_marker("2026-06-01"), Some(day(2026, 6, 1)));
    assert_eq!(parse_marker("2026-06-01\n"), None);
    assert_eq!(read_last_dream(&Some(" 2026-06-01\n".to_string())), Some(day(2026, 6, 1)));
    assert_eq!(read_last_dream(&Some("yesterday".to_string())), None);
    assert_eq!(read_last_dream(&Some("2026-13-01".to_string())), None);
    assert_eq!(read_last_dream(&None), None);
}

#[test]
fn dreams_are_due_after_the_marker() {
    let today = day(2026, 6, 1);
    assert_eq!(dream_on_start_decision(None, today), DreamOnStartDecision::Run);
    assert_eq!(
        dream_on_start_decision(Some(day(2026, 5, 31)), today),
        DreamOnStartDecision::Run
    );
    assert_eq!(
        dream_on_start_decision(Some(today), today),
        DreamOnStartDecision::SkipUpToDate
    );
    assert_eq!(
        dream_on_start_decision(Some(day(2027, 1, 1)), today),
        DreamOnStartDecision::SkipUpToDate
    );
}

#[test]
fn eligible_days_lie_between_marker_and_today() {
    let days: Vec<JournalDate> = (1..=6).map(|date| day(2026, 6, date)).collect();
    let fresh = eligible_days(&days, Some(day(2026, 6, 2)), day(2026, 6, 5));
    assert_eq!(fresh, vec![day(2026, 6, 3), day(2026, 6, 4), day(2026, 6, 5)]);
    assert_eq!(eligible_days(&days, None, day(2026, 6, 2)), days[..2].to_vec());
    assert!(eligible_days(&days, Some(day(2026, 6, 6)), day(2026, 6, 6)).is_empty());
    assert_eq!(keep_most_recent(fresh.clone(), 2), vec![day(2026, 6, 4), day(2026, 6, 5)]);
    assert_eq!(keep_most_recent(fresh.clone(), 3), fresh);
    assert!(keep_most_recent(fresh, 0).is_empty());
}

#[test]
fn files_lie_where_they_belong() {
    assert_eq!(slashed(&memory_root()), "memory");
    assert_eq!(slashed(&memory_index_path()), "MEMORY.md");
    assert_eq!(slashed(&last_dream_marker_path()), "last-dream");
    assert_eq!(slashed(&topic_path_for(&"dream-seam".to_string())), "memory/dream-seam.md");
}
