use std::collections::BTreeMap;

use runtime::clock::{saturated_millis, seconds_or_zero};
use runtime::journal::{
    append_entry, append_entry_at, append_entry_on, day_is_after, journal_path_for, journal_root,
    list_journal_days, parse_date, parse_day_file_name, parse_year_dir_name, time_label_of,
    FileAppend, JournalDate, YearListing,
};
use runtime::store::{config_home_dir, ConfigHomeError, StorePath};

fn day(year: i32, month: u32, day: u32) -> JournalDate {
    JournalDate { year, month, day }
}

fn chars(text: &str) -> Vec<char> {
    text.chars().collect()
}

fn slashed(path: &StorePath) -> String {
    path.components.join("/")
}

fn perform(disk: &mut BTreeMap<String, String>, append: FileAppend) {
    disk.entry(slashed(&append.path)).or_default().push_str(&append.text);
}

fn listing(disk: &BTreeMap<String, String>) -> Vec<YearListing> {
    let mut years: BTreeMap<String, Vec<String>> = BTreeMap::new();
    for path in disk.keys() {
        let names: Vec<&str> = path.split('/').collect();
        if names.len() == 4 && names[0] == "logs" {
            years.entry(names[1].to_string()).or_default().push(names[3].to_string());
        }
    }
    years.into_iter().map(|(name, files)| YearListing { name, files }).collect()
}

#[test]
fn civil_date_from_unix_timestamp_matches_known_vectors() {
    // Epoch.
    assert_eq!(
        JournalDate::from_unix_timestamp(0),
        JournalDate {
            year: 1970,
            month: 1,
            day: 1
        }
    );
    // 2024-02-29 12:00:00Z (leap day) = 1709208000.
    assert_eq!(
        JournalDate::from_unix_timestamp(1_709_208_000),
        JournalDate {
            year: 2024,
            month: 2,
            day: 29
        }
    );
    // 2026-06-01 00:00:00Z = 1780272000.
    assert_eq!(
        JournalDate::from_unix_timestamp(1_780_272_000),
        JournalDate {
            year: 2026,
            month: 6,
            day: 1
        }
    );
}

#[test]
fn civil_dates_follow_the_calendar_for_a_thousand_years() {
    let (mut year, mut month, mut date): (i32, u32, u32) = (1970, 1, 1);
    for days in 0..366_000u64 {
        let expected = day(year, month, date);
        assert_eq!(JournalDate::from_unix_timestamp(days * 86_400), expected);
        assert_eq!(JournalDate::from_unix_timestamp(days * 86_400 + 86_399), expected);
        let leap = year % 4 == 0 && (year % 100 != 0 || year % 400 == 0);
        let length = match month {
            2 if leap => 29,
            2 => 28,
            4 | 6 | 9 | 11 => 30,
            _ => 31,
        };
        date += 1;
        if date > length {
            date = 1;
            month += 1;
        }
        if month > 12 {
            month = 1;
            year += 1;
        }
    }
    assert!(year > 2970);
}

#[test]
fn civil_dates_at_the_edges() {
    assert_eq!(JournalDate::from_unix_timestamp(951_782_400), day(2000, 2, 29));
    assert_eq!(JournalDate::from_unix_timestamp(253_402_300_799), day(9999, 12, 31));
    assert_eq!(JournalDate::from_unix_timestamp(253_402_300_800), day(10_000, 1, 1));
    // The year 584554051223 does not fit and wraps around.
    assert_eq!(JournalDate::from_unix_timestamp(u64::MAX), day(438_498_967, 11, 9));
}

#[test]
fn later_timestamps_never_have_earlier_dates() {
    let mut last = JournalDate::from_unix_timestamp(0);
    for step in 1..20_000u64 {
        let next = JournalDate::from_unix_timestamp(step * 40_009);
        assert!(!day_is_after(last, next));
        last = next;
    }
}

#[test]
fn today_is_a_day_of_this_century() {
    let today = JournalDate::today_utc();
    assert!(day_is_after(today, day(2023, 1, 1)), "{today:?}");
    assert!(day_is_after(day(2200, 1, 1), today), "{today:?}");
}

#[test]
fn path_layout_is_year_month_day() {
    let path = journal_path_for(JournalDate {
        year: 2026,
        month: 6,
        day: 1,
    });
    assert!(
        slashed(&path).ends_with("logs/2026/06/2026-06-01.md"),
        "got {path:?}"
    );
    assert_eq!(slashed(&journal_root()), "logs");
}

#[test]
fn paths_pad_and_sign_the_parts_of_a_date() {
    assert_eq!(slashed(&journal_path_for(day(7, 11, 30))), "logs/0007/11/0007-11-30.md");
    assert_eq!(slashed(&journal_path_for(day(-7, 1, 2))), "logs/-007/01/-007-01-02.md");
    assert_eq!(
        slashed(&journal_path_for(day(12_345, 123, 4_567))),
        "logs/12345/123/12345-123-4567.md"
    );
}

#[test]
fn each_day_has_a_file_of_its_own() {
    let mut paths: Vec<String> = (0..3_000u64)
        .map(|days| slashed(&journal_path_for(JournalDate::from_unix_timestamp(days * 86_400))))
        .collect();
    paths.sort();
    paths.dedup();
    assert_eq!(paths.len(), 3_000);
    assert_ne!(journal_path_for(day(1, 11, 1)), journal_path_for(day(1, 1, 11)));
    assert_ne!(journal_path_for(day(-1, 1, 1)), journal_path_for(day(1, 1, 1)));
}

#[test]
fn append_accumulates_and_read_lists_round_trip() {
    let mut disk: BTreeMap<String, String> = BTreeMap::new();
    let date = JournalDate {
        year: 2026,
        month: 6,
        day: 1,
    };
    assert_eq!(disk.get(&slashed(&journal_path_for(date))), None);

    perform(&mut disk, append_entry_on(date, "09:00:00Z", "first observation"));
    perform(&mut disk, append_entry_on(date, "10:30:00Z", "second observation"));

    let contents = disk.get(&slashed(&journal_path_for(date))).expect("present");
    assert!(contents.contains("## 09:00:00Z"));
    assert!(contents.contains("first observation"));
    assert!(contents.contains("## 10:30:00Z"));
    assert!(
        contents.contains("second observation"),
        "append must accumulate, not truncate: {contents}"
    );
    assert_eq!(
        contents,
        "## 09:00:00Z\n\nfirst observation\n\n## 10:30:00Z\n\nsecond observation\n\n"
    );

    // A second, earlier day so ordering is observable.
    perform(
        &mut disk,
        append_entry_on(
            JournalDate {
                year: 2026,
                month: 5,
                day: 31,
            },
            "23:59:00Z",
            "yesterday",
        ),
    );

    let days = list_journal_days(&listing(&disk));
    assert_eq!(
        days,
        vec![
            JournalDate {
                year: 2026,
                month: 5,
                day: 31
            },
            JournalDate {
                year: 2026,
                month: 6,
                day: 1
            },
        ]
    );
}

#[test]
fn entries_lose_trailing_white_space_only() {
    let append = append_entry_on(day(2026, 6, 1), "x", "  kept \n\u{2003}\n");
    assert_eq!(append.text, "## x\n\n  kept\n\n");
    let append = append_entry_on(day(2026, 6, 1), "", "\t\n");
    assert_eq!(append.text, "## \n\n\n\n");
}

#[test]
fn entries_are_labelled_with_the_time_of_day() {
    assert_eq!(time_label_of(0), "00:00:00Z");
    assert_eq!(time_label_of(86_399), "23:59:59Z");
    assert_eq!(time_label_of(1_709_208_000), "12:00:00Z");
    assert_eq!(time_label_of(1_780_272_000 + 14 * 3600 + 3 * 60 + 22), "14:03:22Z");
    let append = append_entry_at(1_709_208_001, "leap");
    assert_eq!(slashed(&append.path), "logs/2024/02/2024-02-29.md");
    assert_eq!(append.text, "## 12:00:01Z\n\nleap\n\n");
}

#[test]
fn entries_of_now_are_appended_to_a_journal_file() {
    let append = append_entry("now");
    assert_eq!(append.path.components.len(), 4);
    assert_eq!(append.path.components[0], "logs");
    assert!(append.path.components[1].as_str() >= "2023");
    assert!(append.text.starts_with("## "));
    assert!(append.text.ends_with("Z\n\nnow\n\n"));
}

#[test]
fn dates_are_read_back_as_they_were_written() {
    for date in [day(0, 1, 1), day(2026, 6, 1), day(12_345, 12, 31), day(i32::MAX, 2, 30)] {
        let text = format!("{:04}-{:02}-{:02}", date.year, date.month, date.day);
        assert_eq!(parse_date(&chars(&text)), Some(date));
        let name = format!("{text}.md");
        assert_eq!(parse_day_file_name(date.year, &name), Some(date));
    }
    // A year below zero begins with the separator.
    assert_eq!(parse_date(&chars("-005-01-02")), None);
}

#[test]
fn malformed_dates_are_rejected() {
    for text in [
        "", "2026", "2026-06", "2026-06-01-", "2026-06-01-02", "2026-13-01", "2026-00-01",
        "2026-06-00", "2026-06-32", "2026-06-", "-2026-06-01", "2026- 6-01", "2026-06-1x",
        "99999999999-01-01", "2026-99999999999-01",
    ] {
        assert_eq!(parse_date(&chars(text)), None, "{text}");
    }
    // What `str::parse` takes, a date takes.
    assert_eq!(parse_date(&chars("+2026-6-+1")), Some(day(2026, 6, 1)));
    assert_eq!(parse_date(&chars("2026-02-31")), Some(day(2026, 2, 31)));
}

#[test]
fn file_names_must_be_of_their_year_and_end_in_md() {
    assert_eq!(parse_day_file_name(2026, "2026-06-01.md"), Some(day(2026, 6, 1)));
    assert_eq!(parse_day_file_name(2025, "2026-06-01.md"), None);
    assert_eq!(parse_day_file_name(2026, "2026-06-01.txt"), None);
    assert_eq!(parse_day_file_name(2026, "2026-06-01"), None);
    assert_eq!(parse_day_file_name(2026, "md"), None);
    assert_eq!(parse_day_file_name(2026, ".md"), None);
    assert_eq!(parse_day_file_name(2026, "2026-06-01.md.md"), None);
}

#[test]
fn year_directories_are_read_like_integers() {
    assert_eq!(parse_year_dir_name("2026"), Some(2026));
    assert_eq!(parse_year_dir_name("-5"), Some(-5));
    assert_eq!(parse_year_dir_name("archive"), None);
    assert_eq!(parse_year_dir_name(""), None);
}

#[test]
fn listed_days_are_ascending_and_strangers_are_passed_over() {
    let years = vec![
        YearListing {
            name: "2027".to_string(),
            files: vec!["2027-01-01.md".to_string(), "notes.md".to_string()],
        },
        YearListing {
            name: "archive".to_string(),
            files: vec!["2020-01-01.md".to_string()],
        },
        YearListing {
            name: "2026".to_string(),
            files: vec![
                "2026-12-31.md".to_string(),
                "2026-02-10.md".to_string(),
                "2025-02-10.md".to_string(),
                "2026-02-09.md".to_string(),
                "2026-02-10.md".to_string(),
            ],
        },
    ];
    assert_eq!(
        list_journal_days(&years),
        vec![
            day(2026, 2, 9),
            day(2026, 2, 10),
            day(2026, 12, 31),
            day(2027, 1, 1),
        ]
    );
    assert!(list_journal_days(&Vec::new()).is_empty());
}

#[test]
fn a_day_is_listed_once_however_often_its_file_occurs() {
    // As under `2026/06` and `2026/07`, and with a year that is written otherwise.
    let years = vec![
        YearListing {
            name: "2026".to_string(),
            files: vec!["2026-06-01.md".to_string(), "2026-06-01.md".to_string()],
        },
        YearListing { name: "+2026".to_string(), files: vec!["2026-6-1.md".to_string()] },
    ];
    assert_eq!(list_journal_days(&years), vec![day(2026, 6, 1)]);
}

#[test]
fn days_are_ordered_like_tuples() {
    let values = [(2025, 12, 31), (2026, 1, 1), (2026, 1, 2), (2026, 2, 1), (-1, 5, 5)];
    for a in values {
        for b in values {
            let after = day_is_after(day(a.0, a.1, a.2), day(b.0, b.1, b.2));
            assert_eq!(after, a > b);
        }
    }
}

#[test]
fn the_configuration_directory_is_found_by_its_variables() {
    let found = |config_home, home, user_profile| {
        config_home_dir::<&str>(config_home, home, user_profile)
            .map(|found| (found.directory, slashed(&found.below)))
    };
    let (c, h, u) = (Some("/c"), Some("/h"), Some("/u"));
    assert_eq!(found(c, h, u), Ok(("/c", String::new())));
    assert_eq!(found(c, None, None), Ok(("/c", String::new())));
    assert_eq!(found(None, h, u), Ok(("/h", ".claw".to_string())));
    assert_eq!(found(None, h, None), Ok(("/h", ".claw".to_string())));
    assert_eq!(found(None, None, u), Ok(("/u", ".claw".to_string())));
    assert_eq!(found(None, None, None), Err(ConfigHomeError::NotFound));
    assert!(ConfigHomeError::NotFound.message().starts_with("HOME is not set"));
}

#[test]
fn clock_readings_saturate() {
    assert_eq!(seconds_or_zero(Some(17)), 17);
    assert_eq!(seconds_or_zero(None), 0);
    assert_eq!(saturated_millis(17), 17);
    assert_eq!(saturated_millis(u128::from(u64::MAX)), u64::MAX);
    assert_eq!(saturated_millis(u128::from(u64::MAX) + 1), u64::MAX);
}
