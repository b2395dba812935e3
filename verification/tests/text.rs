use runtime::distill::truncate_chars;
use runtime::numeral::{padded_of, padded_signed_of, parse_i32, parse_u32, parse_u64};
use runtime::slug::{is_alphanumeric, small_of};
use runtime::text::{
    append, append_str, chars_of, has, is_at, is_white_space, join_of, lines_of, position_of, same,
    split_at_each, string_of, to_chars, trim_end_of, trim_of, trim_start_of,
};

fn chars(text: &str) -> Vec<char> {
    text.chars().collect()
}

fn text(chars: &[char]) -> String {
    chars.iter().collect()
}

fn texts(parts: &[Vec<char>]) -> Vec<String> {
    parts.iter().map(|part| text(part)).collect()
}

const SAMPLES: [&str; 22] = [
    "",
    " ",
    "\n",
    "\r\n",
    "\r",
    "a",
    " a ",
    "a\n",
    "a\nb",
    "a\r\nb\r\n",
    "a\r\r\nb\r",
    "\n\n",
    "\n\na\n\n",
    "a\u{2003}\u{a0}",
    "\u{feff}x\u{200b}",
    "naïve — ünï…",
    "--a--b-",
    "2026-06-01",
    "abcabcabd",
    "\t\u{b}\u{c}x y\u{85}\u{2028}",
    "one, two,,three,",
    "𝄞 clef 𝄞",
];

#[test]
fn strings_and_characters_convert_both_ways() {
    for sample in SAMPLES {
        assert_eq!(chars_of(sample), chars(sample));
        assert_eq!(string_of(&chars(sample)), sample);
        assert_eq!(to_chars(&chars(sample)), chars(sample));
        let mut out = chars("head ");
        append_str(&mut out, sample);
        append(&mut out, &chars(sample));
        assert_eq!(text(&out), format!("head {sample}{sample}"));
    }
}

#[test]
fn classes_of_characters_agree_with_the_standard_library() {
    for code in 0..=0x0010_ffff_u32 {
        if let Some(c) = char::from_u32(code) {
            assert_eq!(is_white_space(c), c.is_whitespace(), "{code:x}");
            assert_eq!(is_alphanumeric(c), c.is_ascii_alphanumeric(), "{code:x}");
            assert_eq!(small_of(c), c.to_ascii_lowercase(), "{code:x}");
        }
    }
}

#[test]
fn trimming_agrees_with_the_standard_library() {
    for sample in SAMPLES {
        let all = chars(sample);
        assert_eq!(text(trim_of(&all)), sample.trim());
        assert_eq!(text(trim_start_of(&all)), sample.trim_start());
        assert_eq!(text(trim_end_of(&all)), sample.trim_end());
    }
}

#[test]
fn lines_and_pieces_agree_with_the_standard_library() {
    for sample in SAMPLES {
        let all = chars(sample);
        let lines: Vec<String> = sample.lines().map(str::to_string).collect();
        assert_eq!(texts(&lines_of(&all)), lines, "{sample:?}");
        for separator in ['-', ',', '\n', 'a'] {
            let pieces: Vec<String> = sample.split(separator).map(str::to_string).collect();
            assert_eq!(texts(&split_at_each(&all, separator)), pieces, "{sample:?}");
            let joined = join_of(&split_at_each(&all, separator), &[separator]);
            assert_eq!(text(&joined), sample);
        }
    }
    assert_eq!(text(&join_of(&[], &chars(", "))), "");
    assert_eq!(text(&join_of(&[chars("a"), chars(""), chars("b")], &chars(", "))), "a, , b");
}

#[test]
fn searching_agrees_with_the_standard_library() {
    for sample in SAMPLES {
        let all = chars(sample);
        for wanted in ["", "a", "abd", "\n", "—", "b\r", "missing", "𝄞"] {
            let pattern = chars(wanted);
            assert_eq!(has(&all, &pattern), sample.contains(wanted), "{sample:?} {wanted:?}");
            let found = sample.find(wanted).map(|at| sample[..at].chars().count());
            assert_eq!(position_of(&all, &pattern), found, "{sample:?} {wanted:?}");
            assert_eq!(is_at(&all, &pattern, 0), sample.starts_with(wanted));
            assert_eq!(same(&all, &pattern), sample == wanted);
        }
    }
}

#[test]
fn numerals_agree_with_the_standard_library() {
    for sample in [
        "", "+", "-", "0", "-0", "+0", "7", "+7", "-7", "--7", "+-7", "007", " 7", "7 ", "7x", "x",
        "1_000", "٣", "2147483647", "2147483648", "-2147483648", "-2147483649", "4294967295",
        "4294967296", "18446744073709551615", "18446744073709551616", "+18446744073709551615",
        "00000000000000000000000000018446744073709551615", "99999999999999999999999999",
    ] {
        let all = chars(sample);
        assert_eq!(parse_i32(&all), sample.parse::<i32>().ok(), "{sample:?}");
        assert_eq!(parse_u32(&all), sample.parse::<u32>().ok(), "{sample:?}");
        assert_eq!(parse_u64(&all), sample.parse::<u64>().ok(), "{sample:?}");
    }
}

#[test]
fn padding_agrees_with_the_standard_library() {
    for n in [0, 1, 9, 10, 99, 100, 1234, 99_999, u64::MAX] {
        assert_eq!(text(&padded_of(n, 2)), format!("{n:02}"));
        assert_eq!(text(&padded_of(n, 0)), format!("{n}"));
        assert_eq!(text(&padded_of(n, 25)), format!("{n:025}"));
    }
    for n in [0, 1, 12, 2026, 99_999, i32::MAX, -1, -12, -123, -1234, i32::MIN] {
        assert_eq!(text(&padded_signed_of(n, 4)), format!("{n:04}"));
        assert_eq!(text(&padded_signed_of(n, 0)), format!("{n}"));
    }
}

#[test]
fn numbers_are_read_back_as_they_were_written() {
    for n in [0, 5, 2026, -2026, i32::MAX, i32::MIN] {
        assert_eq!(parse_i32(&padded_signed_of(n, 4)), Some(n));
    }
    for n in [0, 5, 2026, u64::MAX] {
        assert_eq!(parse_u64(&padded_of(n, 7)), Some(n));
    }
}

#[test]
fn truncation_counts_characters_and_marks_the_cut() {
    assert_eq!(text(&truncate_chars(&chars("añb"), 3)), "añb");
    assert_eq!(text(&truncate_chars(&chars("añb"), 2)), "a…");
    assert_eq!(text(&truncate_chars(&chars("añb"), 1)), "…");
    // There is no room for the mark.
    assert_eq!(text(&truncate_chars(&chars("añb"), 0)), "");
    assert_eq!(text(&truncate_chars(&[], 0)), "");
}
