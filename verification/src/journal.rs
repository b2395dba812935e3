//! Append-only daily memory journal: the raw stream that a dream later
//! consolidates into durable memories.
//!
//! Layout: `logs/YYYY/MM/YYYY-MM-DD.md` below the configuration directory, one
//! file per UTC day.

pub use crate::calendar::JournalDate;

use crate::calendar::{date_of_timestamp, earlier, parts, SECONDS_PER_DAY};
use crate::clock::{clock_shows, unix_seconds_now};
use crate::numeral::{
    all_digits, as_i32, as_u32, decimal, is_digit, law_signed_round_trip, law_unsigned_round_trip,
    lemma_padded_value, padded, padded_of, padded_signed, padded_signed_of, parse_i32, parse_u32,
    signed, unsigned, value,
};
use crate::store::{held, StorePath};
use crate::text::{
    all_white, append, append_str, chars_of, contains, ends_with, is_at, join,
    law_join_is_undone_by_split, lemma_end_trims_white_back, lemma_piece_begins, lemma_split_concat,
    lemma_split_without, occurs_at, split_at_each, split_on, starts_with, string_of, string_views,
    trim_end, trim_end_of, views, white_space,
};
use vstd::prelude::*;
use vstd::slice::slice_subrange;

verus! {

/// `date` as `YYYY-MM-DD`.
pub open spec fn date_text(date: JournalDate) -> Seq<char> {
    padded_signed(date.year as int, 4) + seq!['-'] + padded(date.month as nat, 2) + seq!['-']
        + padded(date.day as nat, 2)
}

/// The date that `text` writes as year, month and day with a `-` between each
/// two. The month is from 1 to 12 and the day from 1 to 31, whatever the month.
pub open spec fn date_from(text: Seq<char>) -> Option<JournalDate> {
    let pieces = split_on(text, '-');
    if pieces.len() != 3 {
        None
    } else {
        match (as_i32(pieces[0]), as_u32(pieces[1]), as_u32(pieces[2])) {
            (Some(year), Some(month), Some(day)) => if 1 <= month <= 12 && 1 <= day <= 31 {
                Some(JournalDate { year, month, day })
            } else {
                None
            },
            _ => None,
        }
    }
}

/// `date` is of the years from zero on, with a month from 1 to 12 and a day from
/// 1 to 31.
pub open spec fn legible(date: JournalDate) -> bool {
    date.year >= 0 && 1 <= date.month <= 12 && 1 <= date.day <= 31
}

/// The name of the file that holds the journal of `date`.
pub open spec fn day_file_name(date: JournalDate) -> Seq<char> {
    date_text(date) + ".md"@
}

/// The day whose journal the file `name` holds, in a directory for `year`.
pub open spec fn day_of_file(year: i32, name: Seq<char>) -> Option<JournalDate> {
    if !ends_with(name, ".md"@) {
        None
    } else {
        match date_from(name.subrange(0, name.len() - ".md"@.len())) {
            Some(date) => if date.year == year {
                Some(date)
            } else {
                None
            },
            None => None,
        }
    }
}

/// Where the journal of `date` lies.
pub open spec fn journal_path(date: JournalDate) -> Seq<Seq<char>> {
    seq![
        "logs"@,
        padded_signed(date.year as int, 4),
        padded(date.month as nat, 2),
        day_file_name(date),
    ]
}

/// The time of day of a number of seconds since the Unix epoch, as `HH:MM:SSZ`.
pub open spec fn time_label(secs: u64) -> Seq<char> {
    let time = secs % SECONDS_PER_DAY;
    padded((time / 3600) as nat, 2) + seq![':'] + padded(((time % 3600) / 60) as nat, 2) + seq![
        ':',
    ] + padded((time % 60) as nat, 2) + seq!['Z']
}

/// An entry as it stands in a journal file.
pub open spec fn entry_text(label: Seq<char>, text: Seq<char>) -> Seq<char> {
    "## "@ + label + "\n\n"@ + trim_end(text) + "\n\n"@
}

/// The days whose journals the files of one year's directory hold, in the order of the files.
pub open spec fn days_of_files(year: i32, names: Seq<Seq<char>>) -> Seq<JournalDate>
    decreases names.len(),
{
    if names.len() == 0 {
        Seq::empty()
    } else {
        let init = days_of_files(year, names.drop_last());
        match day_of_file(year, names.last()) {
            Some(date) => init.push(date),
            None => init,
        }
    }
}

/// The days that a listing of the journal's directories holds, in its order. A directory whose
/// name is no year holds none.
pub open spec fn days_of_listing(years: Seq<(Seq<char>, Seq<Seq<char>>)>) -> Seq<JournalDate>
    decreases years.len(),
{
    if years.len() == 0 {
        Seq::empty()
    } else {
        let init = days_of_listing(years.drop_last());
        match as_i32(years.last().0) {
            Some(year) => init + days_of_files(year, years.last().1),
            None => init,
        }
    }
}

/// The day `day` lies after the day `marker`.
pub open spec fn after(day: JournalDate, marker: JournalDate) -> bool {
    earlier(parts(marker), parts(day))
}

/// `days` are in ascending order, each day once.
pub open spec fn ascending(days: Seq<JournalDate>) -> bool {
    forall|i: int, j: int| 0 <= i < j < days.len() ==> after(#[trigger] days[j], #[trigger] days[i])
}

/// The order of the days.
pub open spec fn day_order() -> spec_fn(JournalDate, JournalDate) -> bool {
    |a: JournalDate, b: JournalDate| !after(a, b)
}

/// The `days` in ascending order, each day once.
pub open spec fn in_order(days: Seq<JournalDate>) -> Seq<JournalDate> {
    days.to_set().to_sorted_seq(day_order())
}

/// Text to be appended to a file.
#[derive(Debug, Clone, PartialEq, Eq)]
pub struct FileAppend {
    pub path: StorePath,
    pub text: String,
}

/// A directory found in the journal's root: its name, and the names of the
/// files that lie two levels below it, in its months.
#[derive(Debug, Clone, PartialEq, Eq)]
pub struct YearListing {
    pub name: String,
    pub files: Vec<String>,
}

impl View for YearListing {
    type V = (Seq<char>, Seq<Seq<char>>);

    open spec fn view(&self) -> (Seq<char>, Seq<Seq<char>>) {
        (self.name@, string_views(self.files@))
    }
}

/// What a listing of the journal's directories holds.
pub open spec fn listing_view(years: Seq<YearListing>) -> Seq<(Seq<char>, Seq<Seq<char>>)> {
    years.map_values(|year: YearListing| year@)
}

/// `date` as `YYYY-MM-DD`.
pub fn date_text_of(date: JournalDate) -> (text: Vec<char>)
    ensures
        text@ == date_text(date),
{
    let mut out = padded_signed_of(date.year, 4);
    out.push('-');
    let month = padded_of(date.month as u64, 2);
    append(&mut out, month.as_slice());
    out.push('-');
    let day = padded_of(date.day as u64, 2);
    append(&mut out, day.as_slice());
    assert(out@ =~= date_text(date));
    out
}

/// Reads a date that is written as `YYYY-MM-DD`.
pub fn parse_date(text: &[char]) -> (date: Option<JournalDate>)
    ensures
        date == date_from(text@),
{
    let pieces = split_at_each(text, '-');
    assert(views(pieces@).len() == pieces@.len());
    if pieces.len() != 3 {
        return None;
    }
    assert(views(pieces@)[0] == pieces@[0]@);
    assert(views(pieces@)[1] == pieces@[1]@);
    assert(views(pieces@)[2] == pieces@[2]@);
    let year = parse_i32(pieces[0].as_slice());
    let month = parse_u32(pieces[1].as_slice());
    let day = parse_u32(pieces[2].as_slice());
    match (year, month, day) {
        (Some(year), Some(month), Some(day)) => if 1 <= month && month <= 12 && 1 <= day && day
            <= 31 {
            Some(JournalDate { year, month, day })
        } else {
            None
        },
        _ => None,
    }
}

/// Tells whether the day `day` lies after the day `marker`.
pub fn day_is_after(day: JournalDate, marker: JournalDate) -> (r: bool)
    ensures
        r == after(day, marker),
{
    if day.year != marker.year {
        day.year > marker.year
    } else if day.month != marker.month {
        day.month > marker.month
    } else {
        day.day > marker.day
    }
}

/// Directory that holds all daily journal files.
pub fn journal_root() -> (path: StorePath)
    ensures
        path@ == seq!["logs"@],
{
    let path = StorePath::root().join("logs".to_string());
    assert(path@ =~= seq!["logs"@]);
    path
}

/// Path of the journal file for a given day.
pub fn journal_path_for(date: JournalDate) -> (path: StorePath)
    ensures
        path@ == journal_path(date),
{
    let year = padded_signed_of(date.year, 4);
    let month = padded_of(date.month as u64, 2);
    let mut name = date_text_of(date);
    append_str(&mut name, ".md");
    let path = journal_root().join(string_of(year.as_slice())).join(
        string_of(month.as_slice()),
    ).join(string_of(name.as_slice()));
    assert(path@ =~= journal_path(date));
    path
}

/// The append that adds a timestamped entry to a specific day's journal file.
/// `time_label` is the intra-day marker (e.g. `14:03:22Z`).
pub fn append_entry_on(date: JournalDate, time_label: &str, text: &str) -> (append: FileAppend)
    ensures
        append.path@ == journal_path(date),
        append.text@ == entry_text(time_label@, text@),
{
    let mut out = chars_of("## ");
    append_str(&mut out, time_label);
    append_str(&mut out, "\n\n");
    let chars = chars_of(text);
    append(&mut out, trim_end_of(chars.as_slice()));
    append_str(&mut out, "\n\n");
    FileAppend { path: journal_path_for(date), text: string_of(out.as_slice()) }
}

/// The time of day as `HH:MM:SSZ`.
pub fn time_label_of(secs: u64) -> (label: String)
    ensures
        label@ == time_label(secs),
{
    let time: u64 = secs % SECONDS_PER_DAY;
    let mut out = padded_of(time / 3600, 2);
    out.push(':');
    let minutes = padded_of((time % 3600) / 60, 2);
    append(&mut out, minutes.as_slice());
    out.push(':');
    let seconds = padded_of(time % 60, 2);
    append(&mut out, seconds.as_slice());
    out.push('Z');
    assert(out@ =~= time_label(secs));
    string_of(out.as_slice())
}

/// The append that adds an entry at `secs` seconds after the Unix epoch, with
/// a `HH:MM:SSZ` marker.
pub fn append_entry_at(secs: u64, text: &str) -> (append: FileAppend)
    ensures
        append.path@ == journal_path(date_of_timestamp(secs)),
        append.text@ == entry_text(time_label(secs), text@),
{
    let label = time_label_of(secs);
    append_entry_on(JournalDate::from_unix_timestamp(secs), label.as_str(), text)
}

/// The append that adds an entry to today's (UTC) journal with a `HH:MM:SSZ`
/// marker. Which day and time that is, is up to the clock.
pub fn append_entry(text: &str) -> (append: FileAppend)
    ensures
        exists|secs: u64| #[trigger]
            clock_shows(secs) && append.path@ == journal_path(date_of_timestamp(secs))
                && append.text@ == entry_text(time_label(secs), text@),
{
    let secs = unix_seconds_now();
    append_entry_at(secs, text)
}

/// The day whose journal the file `file_name` holds, in a directory for
/// `year`. `None`: it is no journal file, or one of another year.
pub fn parse_day_file_name(year: i32, file_name: &str) -> (date: Option<JournalDate>)
    ensures
        date == day_of_file(year, file_name@),
{
    let name = chars_of(file_name);
    let suffix = chars_of(".md");
    if name.len() < suffix.len() || !is_at(
        name.as_slice(),
        suffix.as_slice(),
        name.len() - suffix.len(),
    ) {
        return None;
    }
    match parse_date(slice_subrange(name.as_slice(), 0, name.len() - suffix.len())) {
        Some(date) => if date.year == year {
            Some(date)
        } else {
            None
        },
        None => None,
    }
}

/// The year that a directory in the journal's root is named for.
pub fn parse_year_dir_name(name: &str) -> (year: Option<i32>)
    ensures
        year == as_i32(name@),
{
    let chars = chars_of(name);
    parse_i32(chars.as_slice())
}

/// Inserts `day` at its place into ascending `days`, unless it is there.
fn insert_day(days: &mut Vec<JournalDate>, day: JournalDate)
    requires
        ascending(old(days)@),
    ensures
        ascending(final(days)@),
        final(days)@.to_set() == old(days)@.to_set().insert(day),
{
    let mut at: usize = days.len();
    while at > 0 && day_is_after(days[at - 1], day)
        invariant
            at <= days@.len(),
            ascending(days@),
            days@ == old(days)@,
            forall|j: int| at <= j < days@.len() ==> after(#[trigger] days@[j], day),
        decreases at,
    {
        at = at - 1;
    }
    let ghost before = days@;
    if at > 0 && days[at - 1] == day {
        assert(before.contains(day));
        assert(before.to_set() =~= before.to_set().insert(day));
        return;
    }
    days.insert(at, day);
    proof {
        lemma_set_of_insert(before, at as int, day);
    }
}

/// Every day that has a journal file, ascending, from what lies in the
/// journal's directories. A day is listed once, however often its file occurs.
pub fn list_journal_days(years: &Vec<YearListing>) -> (days: Vec<JournalDate>)
    ensures
        days@ == in_order(days_of_listing(listing_view(years@))),
        ascending(days@),
        forall|day: JournalDate| #[trigger]
            days@.contains(day) <==> days_of_listing(listing_view(years@)).contains(day),
{
    let mut days: Vec<JournalDate> = Vec::new();
    let mut i: usize = 0;
    let ghost all = listing_view(years@);
    assert(days@.to_set() =~= days_of_listing(all.take(0)).to_set());
    while i < years.len()
        invariant
            i <= years@.len(),
            all == listing_view(years@),
            ascending(days@),
            days@.to_set() == days_of_listing(all.take(i as int)).to_set(),
        decreases years@.len() - i,
    {
        let listed = &years[i];
        assert(all.take(i + 1).drop_last() =~= all.take(i as int));
        assert(all.take(i + 1).last() == listed@);
        if let Some(year) = parse_year_dir_name(listed.name.as_str()) {
            let ghost before = days_of_listing(all.take(i as int));
            let ghost names = string_views(listed.files@);
            let mut k: usize = 0;
            assert(before + days_of_files(year, names.take(0)) =~= before);
            while k < listed.files.len()
                invariant
                    k <= listed.files@.len(),
                    names == string_views(listed.files@),
                    ascending(days@),
                    days@.to_set() == (before + days_of_files(
                        year,
                        names.take(k as int),
                    )).to_set(),
                decreases listed.files@.len() - k,
            {
                assert(names.take(k + 1).drop_last() =~= names.take(k as int));
                let ghost so_far = days_of_files(year, names.take(k as int));
                if let Some(date) = parse_day_file_name(year, listed.files[k].as_str()) {
                    insert_day(&mut days, date);
                    proof {
                        let known = before + so_far;
                        lemma_set_of_insert(known, known.len() as int, date);
                        assert(before + so_far.push(date) =~= known.insert(
                            known.len() as int,
                            date,
                        ));
                    }
                }
                k = k + 1;
            }
            assert(names.take(k as int) =~= names);
        }
        i = i + 1;
    }
    assert(all.take(i as int) =~= all);
    proof {
        let found = days_of_listing(all);
        assert forall|day: JournalDate| #[trigger]
            days@.contains(day) <==> found.contains(day) by {
            assert(days@.to_set().contains(day) == found.to_set().contains(day));
        }
        law_order_is_unique(days@, found);
    }
    days
}

/// One element more is one element more in the set.
proof fn lemma_set_of_insert(days: Seq<JournalDate>, at: int, day: JournalDate)
    requires
        0 <= at <= days.len(),
    ensures
        days.insert(at, day).to_set() == days.to_set().insert(day),
{
    let more = days.insert(at, day);
    assert forall|d: JournalDate| more.contains(d) <==> days.contains(d) || d == day by {
        if d == day {
            assert(more[at] == d);
        } else if days.contains(d) {
            let k = choose|k: int| 0 <= k < days.len() && days[k] == d;
            assert(more[if k < at { k } else { k + 1 }] == d);
        } else if more.contains(d) {
            let k = choose|k: int| 0 <= k < more.len() && more[k] == d;
            assert(days[if k < at { k } else { k - 1 }] == d);
        }
    }
    assert(more.to_set() =~= days.to_set().insert(day));
}

/// The `store` after `text` was appended to the file at `path`.
pub open spec fn appended(
    store: Map<Seq<Seq<char>>, Seq<char>>,
    path: Seq<Seq<char>>,
    text: Seq<char>,
) -> Map<Seq<Seq<char>>, Seq<char>> {
    store.insert(
        path,
        match held(store, path) {
            Some(before) => before + text,
            None => text,
        },
    )
}

/// Entries accumulate: a journal to which an entry is appended begins with what
/// it held, and ends with the entry, its label and its text. Every other file stays as it was.
pub proof fn law_append_keeps_history(
    store: Map<Seq<Seq<char>>, Seq<char>>,
    date: JournalDate,
    label: Seq<char>,
    text: Seq<char>,
)
    ensures
        ({
            let path = journal_path(date);
            let then = appended(store, path, entry_text(label, text));
            &&& held(then, path) matches Some(after) && {
                &&& held(store, path) matches Some(before) ==> starts_with(after, before)
                &&& ends_with(after, entry_text(label, text))
                &&& contains(after, "## "@ + label)
                &&& contains(after, trim_end(text))
            }
            &&& forall|other: Seq<Seq<char>>|
                other != path ==> #[trigger] held(then, other) == held(store, other)
        }),
{
    let path = journal_path(date);
    let entry = entry_text(label, text);
    let after = held(appended(store, path, entry), path)->0;
    let start = after.len() - entry.len();
    if let Some(before) = held(store, path) {
        assert(after.subrange(0, before.len() as int) =~= before);
    }
    assert(after.subrange(start, after.len() as int) =~= entry);
    let head = "## "@ + label;
    assert(after.subrange(start, start + head.len()) =~= head);
    assert(occurs_at(after, head, start));
    let kept = trim_end(text);
    let at = start + head.len() + "\n\n"@.len();
    assert(after.subrange(at, at + kept.len()) =~= kept);
    assert(occurs_at(after, kept, at));
}

/// Each day has a file of its own.
pub proof fn law_each_day_has_its_own_file(a: JournalDate, b: JournalDate)
    requires
        journal_path(a) == journal_path(b),
    ensures
        a == b,
{
    let (x, y) = (journal_path(a), journal_path(b));
    assert(x[1] == y[1] && x[2] == y[2] && x[3] == y[3]);
    law_signed_round_trip(a.year as int, 4, i32::MIN as int, i32::MAX as int);
    law_signed_round_trip(b.year as int, 4, i32::MIN as int, i32::MAX as int);
    law_unsigned_round_trip(a.month as nat, 2, u32::MAX as nat);
    law_unsigned_round_trip(b.month as nat, 2, u32::MAX as nat);
    let (p, q) = (padded(a.day as nat, 2), padded(b.day as nat, 2));
    let at = x[1].len() + 1 + x[2].len() + 1;
    assert(x[3].subrange(at as int, (at + p.len()) as int) =~= p);
    assert(y[3].subrange(at as int, (at + q.len()) as int) =~= q);
    assert(x[3].len() == at + p.len() + ".md"@.len());
    assert(y[3].len() == at + q.len() + ".md"@.len());
    law_unsigned_round_trip(a.day as nat, 2, u32::MAX as nat);
    law_unsigned_round_trip(b.day as nat, 2, u32::MAX as nat);
}

/// A set of days as a sequence has each of them once.
proof fn lemma_set_has_each_day_once(days: Set<JournalDate>)
    requires
        days.finite(),
    ensures
        days.to_seq().no_duplicates(),
        days.to_seq().to_set() == days,
    decreases days.len(),
{
    days.lemma_to_seq_to_set_id();
    if days.len() > 0 {
        let day = days.choose();
        let rest = days.remove(day);
        lemma_set_has_each_day_once(rest);
        let all = days.to_seq();
        assert(all == Seq::<JournalDate>::empty().push(day) + rest.to_seq());
        assert forall|i: int, j: int| 0 <= i < j < all.len() implies all[i] != all[j] by {
            assert(rest.to_seq()[j - 1] == all[j]);
            assert(rest.to_seq().to_set().contains(all[j]));
            if i > 0 {
                assert(rest.to_seq()[i - 1] == all[i]);
            }
        }
    }
}

/// In order, the days are ascending, each of them stands there once, and no
/// other.
pub proof fn law_days_in_order(days: Seq<JournalDate>)
    ensures
        ascending(in_order(days)),
        forall|day: JournalDate| #[trigger] in_order(days).contains(day) <==> days.contains(day),
{
    broadcast use vstd::seq_lib::group_to_multiset_ensures;

    let plain = days.to_set().to_seq();
    let sorted = in_order(days);
    vstd::seq_lib::seq_to_set_is_finite(days);
    lemma_set_has_each_day_once(days.to_set());
    plain.lemma_sort_by_ensures(day_order());
    plain.lemma_multiset_has_no_duplicates();
    sorted.lemma_multiset_has_no_duplicates_conv();
    assert forall|i: int, j: int| 0 <= i < j < sorted.len() implies after(
        #[trigger] sorted[j],
        #[trigger] sorted[i],
    ) by {
        assert(day_order()(sorted[i], sorted[j]));
        assert(sorted[i] != sorted[j]);
    }
    assert forall|day: JournalDate| #[trigger] sorted.contains(day) <==> days.contains(day) by {
        assert(sorted.to_multiset().count(day) == plain.to_multiset().count(day));
        assert(plain.to_set().contains(day) == days.to_set().contains(day));
    }
}

/// Ascending days are the same if they have the same elements.
proof fn lemma_ascending_is_unique(a: Seq<JournalDate>, b: Seq<JournalDate>)
    requires
        ascending(a),
        ascending(b),
        forall|day: JournalDate| #[trigger] a.contains(day) <==> b.contains(day),
    ensures
        a == b,
    decreases a.len(),
{
    if a.len() == 0 {
        if b.len() > 0 {
            assert(b.contains(b[0]));
            assert(a.contains(b[0]));
        }
    } else {
        let last = a[a.len() - 1];
        assert(a.contains(last));
        let k = choose|k: int| 0 <= k < b.len() && b[k] == last;
        assert(b.contains(b[b.len() - 1]));
        assert(a.contains(b[b.len() - 1]));
        let m = choose|m: int| 0 <= m < a.len() && a[m] == b[b.len() - 1];
        assert(k == b.len() - 1);
        let (x, y) = (a.drop_last(), b.drop_last());
        assert forall|day: JournalDate| #[trigger] x.contains(day) <==> y.contains(day) by {
            if x.contains(day) {
                let i = choose|i: int| 0 <= i < x.len() && x[i] == day;
                assert(a[i] == day && a.contains(day));
                let j = choose|j: int| 0 <= j < b.len() && b[j] == day;
                assert(after(a[a.len() - 1], a[i]));
                assert(y[j] == day);
            }
            if y.contains(day) {
                let j = choose|j: int| 0 <= j < y.len() && y[j] == day;
                assert(b[j] == day && b.contains(day));
                assert(a.contains(day));
                let i = choose|i: int| 0 <= i < a.len() && a[i] == day;
                assert(after(b[b.len() - 1], b[j]));
                assert(x[i] == day);
            }
        }
        lemma_ascending_is_unique(x, y);
        assert(a =~= x.push(last));
        assert(b =~= y.push(last));
    }
}

/// There is one way to put days in ascending order: in what order they come,
/// and how often, does not matter.
pub proof fn law_order_is_unique(sorted: Seq<JournalDate>, days: Seq<JournalDate>)
    requires
        ascending(sorted),
        forall|day: JournalDate| #[trigger] sorted.contains(day) <==> days.contains(day),
    ensures
        sorted == in_order(days),
{
    law_days_in_order(days);
    lemma_ascending_is_unique(sorted, in_order(days));
}

/// A legible date is read back from its text as it was written.
pub proof fn law_date_round_trip(date: JournalDate)
    requires
        legible(date),
    ensures
        date_from(date_text(date)) == Some(date),
{
    let year = padded_signed(date.year as int, 4);
    let month = padded(date.month as nat, 2);
    let day = padded(date.day as nat, 2);
    lemma_padded_value(date.year as nat, 4);
    lemma_padded_value(date.month as nat, 2);
    lemma_padded_value(date.day as nat, 2);
    lemma_digits_are_one_piece(year);
    lemma_digits_are_one_piece(month);
    lemma_digits_are_one_piece(day);
    lemma_split_concat(year, month, '-');
    lemma_split_concat(year + seq!['-'] + month, day, '-');
    assert(split_on(date_text(date), '-') =~= seq![year, month, day]);
    law_signed_round_trip(date.year as int, 4, i32::MIN as int, i32::MAX as int);
    law_unsigned_round_trip(date.month as nat, 2, u32::MAX as nat);
    law_unsigned_round_trip(date.day as nat, 2, u32::MAX as nat);
}

/// The journal file of a legible date is recognised, by its name and that of its
/// year's directory, as the journal of that date.
pub proof fn law_journal_file_is_recognised(date: JournalDate)
    requires
        legible(date),
    ensures
        journal_path(date)[0] == "logs"@,
        as_i32(journal_path(date)[1]) == Some(date.year),
        day_of_file(date.year, journal_path(date)[3]) == Some(date),
{
    let name = day_file_name(date);
    law_date_round_trip(date);
    law_signed_round_trip(date.year as int, 4, i32::MIN as int, i32::MAX as int);
    assert(name.subrange(0, name.len() - ".md"@.len()) =~= date_text(date));
    assert(name.subrange(name.len() - ".md"@.len(), name.len() as int) =~= ".md"@);
}

/// A listing that shows the journal file of a legible date lists that date.
pub proof fn law_listed_file_is_found(
    years: Seq<(Seq<char>, Seq<Seq<char>>)>,
    y: int,
    f: int,
    date: JournalDate,
)
    requires
        legible(date),
        0 <= y < years.len(),
        years[y].0 == journal_path(date)[1],
        0 <= f < years[y].1.len(),
        years[y].1[f] == journal_path(date)[3],
    ensures
        days_of_listing(years).contains(date),
    decreases years.len(),
{
    law_journal_file_is_recognised(date);
    if y == years.len() - 1 {
        let init = days_of_listing(years.drop_last());
        let found = days_of_files(date.year, years[y].1);
        lemma_file_is_found(date.year, years[y].1, f, date);
        let k = choose|k: int| 0 <= k < found.len() && found[k] == date;
        assert((init + found)[init.len() + k] == date);
    } else {
        law_listed_file_is_found(years.drop_last(), y, f, date);
        let init = days_of_listing(years.drop_last());
        let k = choose|k: int| 0 <= k < init.len() && init[k] == date;
        assert(days_of_listing(years)[k] == date);
    }
}

/// Every date that is read from a text is legible.
pub proof fn law_dates_read_are_legible(text: Seq<char>)
    ensures
        date_from(text) matches Some(date) ==> legible(date),
{
    let pieces = split_on(text, '-');
    if date_from(text) is Some && pieces[0].len() > 0 {
        lemma_piece_begins(text, '-', 0);
    }
}

/// Every day that a listing holds is legible.
pub proof fn law_listed_days_are_legible(
    years: Seq<(Seq<char>, Seq<Seq<char>>)>,
    date: JournalDate,
)
    requires
        days_of_listing(years).contains(date),
    ensures
        legible(date),
    decreases years.len(),
{
    let k = choose|k: int|
        0 <= k < days_of_listing(years).len() && days_of_listing(years)[k] == date;
    let init = days_of_listing(years.drop_last());
    if k < init.len() {
        assert(init[k] == date);
        law_listed_days_are_legible(years.drop_last(), date);
    } else {
        let year = as_i32(years.last().0)->0;
        let found = days_of_files(year, years.last().1);
        assert(found[k - init.len()] == date);
        lemma_found_is_legible(year, years.last().1, date);
    }
}

/// Every day that the files of a directory hold is legible.
proof fn lemma_found_is_legible(year: i32, names: Seq<Seq<char>>, date: JournalDate)
    requires
        days_of_files(year, names).contains(date),
    ensures
        legible(date),
    decreases names.len(),
{
    let found = days_of_files(year, names);
    let k = choose|k: int| 0 <= k < found.len() && found[k] == date;
    let init = days_of_files(year, names.drop_last());
    if k < init.len() {
        assert(init[k] == date);
        lemma_found_is_legible(year, names.drop_last(), date);
    } else {
        let name = names.last();
        law_dates_read_are_legible(name.subrange(0, name.len() - ".md"@.len()));
    }
}

/// A day that one of the files holds is among the days of the files.
proof fn lemma_file_is_found(year: i32, names: Seq<Seq<char>>, f: int, date: JournalDate)
    requires
        0 <= f < names.len(),
        day_of_file(year, names[f]) == Some(date),
    ensures
        days_of_files(year, names).contains(date),
    decreases names.len(),
{
    let init = days_of_files(year, names.drop_last());
    if f == names.len() - 1 {
        assert(days_of_files(year, names)[init.len() as int] == date);
    } else {
        lemma_file_is_found(year, names.drop_last(), f, date);
        let k = choose|k: int| 0 <= k < init.len() && init[k] == date;
        assert(days_of_files(year, names)[k] == date);
    }
}

/// Digits are not split at a `-`.
proof fn lemma_digits_are_one_piece(s: Seq<char>)
    requires
        all_digits(s),
    ensures
        split_on(s, '-') == seq![s],
{
    assert forall|i: int| 0 <= i < s.len() implies s[i] != '-' by {
        assert(is_digit(s[i]));
    }
    lemma_split_without(s, '-');
}

/// A day lies after another if its year is later, or its month in the same
/// year, or its day in the same month.
pub proof fn law_later_days_lie_after(a: JournalDate, b: JournalDate)
    ensures
        a.year > b.year ==> after(a, b),
        a.year == b.year && a.month > b.month ==> after(a, b),
        a.year == b.year && a.month == b.month && a.day > b.day ==> after(a, b),
        !(after(a, b) && after(b, a)),
        !after(a, a),
{
}

/// A date is written as its year in at least four places, its month and its day
/// in at least two each, with a `-` between each two.
pub proof fn law_date_is_written_in_three_parts(date: JournalDate)
    ensures
        date_text(date) == join(
            seq![
                padded_signed(date.year as int, 4),
                padded(date.month as nat, 2),
                padded(date.day as nat, 2),
            ],
            seq!['-'],
        ),
{
    let parts = seq![
        padded_signed(date.year as int, 4),
        padded(date.month as nat, 2),
        padded(date.day as nat, 2),
    ];
    let two = parts.drop_last();
    assert(join(parts, seq!['-']) == join(two, seq!['-']) + seq!['-'] + parts[2]);
    assert(join(two, seq!['-']) == join(two.drop_last(), seq!['-']) + seq!['-'] + parts[1]);
    assert(join(two.drop_last(), seq!['-']) == parts[0]);
    assert(date_text(date) =~= join(parts, seq!['-']));
}

/// A date is read from three parts with a `-` between each two: those of a year,
/// a month from 1 to 12 and a day from 1 to 31.
pub proof fn law_date_is_read_from_three_parts(y: Seq<char>, m: Seq<char>, d: Seq<char>)
    requires
        !y.contains('-'),
        !m.contains('-'),
        !d.contains('-'),
    ensures
        date_from(y + seq!['-'] + m + seq!['-'] + d) == match (
            signed(y, i32::MIN as int, i32::MAX as int),
            unsigned(m, u32::MAX as nat),
            unsigned(d, u32::MAX as nat),
        ) {
            (Some(year), Some(month), Some(day)) => if 1 <= month <= 12 && 1 <= day <= 31 {
                Some(JournalDate { year: year as i32, month: month as u32, day: day as u32 })
            } else {
                None
            },
            _ => None,
        },
{
    let text = y + seq!['-'] + m + seq!['-'] + d;
    lemma_split_without(y, '-');
    lemma_split_without(m, '-');
    lemma_split_without(d, '-');
    lemma_split_concat(y, m, '-');
    lemma_split_concat(y + seq!['-'] + m, d, '-');
    assert(split_on(text, '-') =~= seq![y, m, d]);
}

/// No date is read from fewer or more than three parts.
pub proof fn law_no_date_without_three_parts(parts: Seq<Seq<char>>)
    requires
        parts.len() > 0,
        parts.len() != 3,
        forall|i: int| 0 <= i < parts.len() ==> !(#[trigger] parts[i]).contains('-'),
    ensures
        date_from(join(parts, seq!['-'])) is None,
{
    law_join_is_undone_by_split(parts, '-');
}

/// A file is the journal of the date that its name gives before `.md`, if that
/// is of the directory's year. No other file is a journal.
pub proof fn law_journal_files_are_dates(year: i32, stem: Seq<char>, name: Seq<char>)
    ensures
        day_of_file(year, stem + ".md"@) == match date_from(stem) {
            Some(date) => if date.year == year {
                Some(date)
            } else {
                None
            },
            None => None,
        },
        (forall|other: Seq<char>| name != #[trigger] (other + ".md"@)) ==> day_of_file(
            year,
            name,
        ) is None,
{
    let file = stem + ".md"@;
    assert(file.subrange(0, file.len() - ".md"@.len()) =~= stem);
    assert(file.subrange(file.len() - ".md"@.len(), file.len() as int) =~= ".md"@);
    if ends_with(name, ".md"@) {
        let other = name.take(name.len() - ".md"@.len());
        assert(name =~= other + ".md"@);
    }
}

/// The journal of a day lies below `logs`, in the directories of its year and of
/// its month, in a file that is named for its date.
pub proof fn law_journal_lies_by_its_date(date: JournalDate)
    ensures
        journal_path(date).len() == 4,
        journal_path(date)[0] == "logs"@,
        journal_path(date)[1] == padded_signed(date.year as int, 4),
        journal_path(date)[2] == padded(date.month as nat, 2),
        journal_path(date)[3] == date_text(date) + ".md"@,
        date.year >= 0 ==> split_on(date_text(date), '-') == seq![
            journal_path(date)[1],
            journal_path(date)[2],
            padded(date.day as nat, 2),
        ],
{
    if date.year >= 0 {
        law_date_is_written_in_three_parts(date);
        lemma_padded_value(date.year as nat, 4);
        lemma_padded_value(date.month as nat, 2);
        lemma_padded_value(date.day as nat, 2);
        let parts = seq![
            padded_signed(date.year as int, 4),
            padded(date.month as nat, 2),
            padded(date.day as nat, 2),
        ];
        assert forall|i: int| 0 <= i < parts.len() implies !(#[trigger] parts[i]).contains('-') by {
            assert(all_digits(parts[i]));
            if parts[i].contains('-') {
                let k = choose|k: int| 0 <= k < parts[i].len() && parts[i][k] == '-';
                assert(is_digit(parts[i][k]));
            }
        }
        law_join_is_undone_by_split(parts, '-');
    }
}

/// A listing holds a day if and only if one of its directories is named for a
/// year, and one of the files there is the journal of that day.
pub proof fn law_listing_holds_the_days_of_its_files(
    years: Seq<(Seq<char>, Seq<Seq<char>>)>,
    date: JournalDate,
)
    ensures
        days_of_listing(years).contains(date) <==> exists|y: int, f: int|
            0 <= y < years.len() && 0 <= f < years[y].1.len() && as_i32(years[y].0) == Some(
                date.year,
            ) && day_of_file(date.year, #[trigger] years[y].1[f]) == Some(date),
    decreases years.len(),
{
    if years.len() > 0 {
        let short = years.drop_last();
        let n = years.len() - 1;
        let init = days_of_listing(short);
        let all = days_of_listing(years);
        law_listing_holds_the_days_of_its_files(short, date);
        if all.contains(date) {
            let k = choose|k: int| 0 <= k < all.len() && all[k] == date;
            if k < init.len() {
                assert(init[k] == date);
                let (y, f) = choose|y: int, f: int|
                    0 <= y < short.len() && 0 <= f < short[y].1.len() && as_i32(short[y].0) == Some(
                        date.year,
                    ) && day_of_file(date.year, #[trigger] short[y].1[f]) == Some(date);
                assert(years[y].1[f] == short[y].1[f]);
            } else {
                let year = as_i32(years.last().0)->0;
                let found = days_of_files(year, years.last().1);
                assert(found[k - init.len()] == date);
                let f = lemma_found_in_a_file(year, years.last().1, date);
                assert(day_of_file(date.year, years[n].1[f]) == Some(date));
            }
        }
        if exists|y: int, f: int|
            0 <= y < years.len() && 0 <= f < years[y].1.len() && as_i32(years[y].0) == Some(
                date.year,
            ) && day_of_file(date.year, #[trigger] years[y].1[f]) == Some(date) {
            let (y, f) = choose|y: int, f: int|
                0 <= y < years.len() && 0 <= f < years[y].1.len() && as_i32(years[y].0) == Some(
                    date.year,
                ) && day_of_file(date.year, #[trigger] years[y].1[f]) == Some(date);
            if y < n {
                assert(short[y].1[f] == years[y].1[f]);
                let k = choose|k: int| 0 <= k < init.len() && init[k] == date;
                assert(all[k] == date);
            } else {
                let found = days_of_files(date.year, years[n].1);
                lemma_file_is_found(date.year, years[n].1, f, date);
                let k = choose|k: int| 0 <= k < found.len() && found[k] == date;
                assert(all[init.len() + k] == date);
            }
        }
    }
}

/// A day of the files is the day of one of them.
proof fn lemma_found_in_a_file(year: i32, names: Seq<Seq<char>>, date: JournalDate) -> (f: int)
    requires
        days_of_files(year, names).contains(date),
    ensures
        0 <= f < names.len(),
        date.year == year,
        day_of_file(year, names[f]) == Some(date),
    decreases names.len(),
{
    let found = days_of_files(year, names);
    let init = days_of_files(year, names.drop_last());
    let k = choose|k: int| 0 <= k < found.len() && found[k] == date;
    if k < init.len() {
        assert(init[k] == date);
        lemma_found_in_a_file(year, names.drop_last(), date)
    } else {
        names.len() - 1
    }
}

/// The label of a time of day writes its hours, minutes and seconds in two digits
/// each, with a `:` between each two and a `Z` behind them.
pub proof fn law_label_tells_the_time(secs: u64)
    ensures
        ({
            let label = time_label(secs);
            let hours = value(label.subrange(0, 2));
            let minutes = value(label.subrange(3, 5));
            let seconds = value(label.subrange(6, 8));
            &&& label.len() == 9
            &&& label[2] == ':'
            &&& label[5] == ':'
            &&& label[8] == 'Z'
            &&& all_digits(label.subrange(0, 2))
            &&& all_digits(label.subrange(3, 5))
            &&& all_digits(label.subrange(6, 8))
            &&& minutes < 60
            &&& seconds < 60
            &&& hours * 3600 + minutes * 60 + seconds == secs % 86_400
        }),
{
    let time = secs % SECONDS_PER_DAY;
    let (h, m, s) = ((time / 3600) as nat, ((time % 3600) / 60) as nat, (time % 60) as nat);
    lemma_two_digits(h);
    lemma_two_digits(m);
    lemma_two_digits(s);
    let label = time_label(secs);
    assert(label.subrange(0, 2) =~= padded(h, 2));
    assert(label.subrange(3, 5) =~= padded(m, 2));
    assert(label.subrange(6, 8) =~= padded(s, 2));
}

/// A number below a hundred takes two places.
proof fn lemma_two_digits(n: nat)
    requires
        n < 100,
    ensures
        padded(n, 2).len() == 2,
        all_digits(padded(n, 2)),
        value(padded(n, 2)) == n,
{
    reveal_with_fuel(decimal, 3);
    lemma_padded_value(n, 2);
}

/// An entry is its label under `## `, an empty line, its text without white
/// space at its end, and an empty line.
pub proof fn law_entry_holds_label_and_text(label: Seq<char>, text: Seq<char>, white: Seq<char>)
    requires
        all_white(white),
        text.len() > 0 ==> !white_space(text.last()),
    ensures
        entry_text(label, text + white) == seq!['#', '#', ' '] + label + seq!['\n', '\n'] + text
            + seq!['\n', '\n'],
{
    reveal_strlit("## ");
    reveal_strlit("\n\n");
    lemma_end_trims_white_back(text, white);
    assert("## "@ =~= seq!['#', '#', ' ']);
    assert("\n\n"@ =~= seq!['\n', '\n']);
}

/// What a listing holds is all that its directories hold.
pub proof fn law_listing_is_seen_whole(years: Seq<YearListing>, y: int, f: int)
    requires
        0 <= y < years.len(),
        0 <= f < years[y].files@.len(),
    ensures
        listing_view(years).len() == years.len(),
        listing_view(years)[y].0 == years[y].name@,
        listing_view(years)[y].1.len() == years[y].files@.len(),
        listing_view(years)[y].1[f] == years[y].files@[f]@,
{
}

} // verus!
