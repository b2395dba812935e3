//! Slugs: free-form topics as names that are safe in a file system.

use crate::text::{chars_of, join, law_join_of_two_groups, string_of};
use vstd::prelude::*;

verus! {

/// `c` is an ASCII letter or digit.
pub open spec fn alphanumeric(c: char) -> bool {
    'a' <= c <= 'z' || 'A' <= c <= 'Z' || '0' <= c <= '9'
}

/// `c` is an ASCII digit or small letter.
pub open spec fn small_alphanumeric(c: char) -> bool {
    'a' <= c <= 'z' || '0' <= c <= '9'
}

/// `c`, made small if it is an ASCII capital letter.
pub open spec fn small(c: char) -> char {
    if 'A' <= c <= 'Z' {
        (c as int + 32) as char
    } else {
        c
    }
}

/// The longest runs of ASCII letters and digits in `s`, with small letters.
pub open spec fn words(s: Seq<char>) -> Seq<Seq<char>>
    decreases s.len(),
{
    if s.len() == 0 {
        Seq::empty()
    } else {
        let init = words(s.drop_last());
        if !alphanumeric(s.last()) {
            init
        } else if s.len() >= 2 && alphanumeric(s[s.len() - 2]) {
            init.drop_last().push(init.last().push(small(s.last())))
        } else {
            init.push(seq![small(s.last())])
        }
    }
}

/// The words of `topic` with a `-` between each two, or `untitled` where there
/// are none.
pub open spec fn slug(topic: Seq<char>) -> Seq<char> {
    if words(topic).len() == 0 {
        "untitled"@
    } else {
        join(words(topic), seq!['-'])
    }
}

/// `c`, made small if it is an ASCII capital letter.
pub fn small_of(c: char) -> (r: char)
    ensures
        r == small(c),
{
    if 'A' <= c && c <= 'Z' {
        ((c as u8) + 32u8) as char
    } else {
        c
    }
}

/// Tells whether `c` is an ASCII letter or digit.
pub fn is_alphanumeric(c: char) -> (r: bool)
    ensures
        r == alphanumeric(c),
{
    ('a' <= c && c <= 'z') || ('A' <= c && c <= 'Z') || ('0' <= c && c <= '9')
}

/// Normalizes a free-form topic into a filesystem-safe slug: lowercased ASCII
/// alphanumerics, every other run collapsed to a single `-`.
#[must_use]
pub fn slugify(topic: &str) -> (r: String)
    ensures
        r@ == slug(topic@),
{
    let chars = chars_of(topic);
    let mut out: Vec<char> = Vec::new();
    let mut in_word: bool = false;
    let mut i: usize = 0;
    while i < chars.len()
        invariant
            i <= chars@.len(),
            out@ == join(words(chars@.take(i as int)), seq!['-']),
            in_word == (i > 0 && alphanumeric(chars@[i - 1])),
            out@.len() == 0 <==> words(chars@.take(i as int)).len() == 0,
            in_word ==> words(chars@.take(i as int)).len() > 0,
        decreases chars@.len() - i,
    {
        let c = chars[i];
        let ghost before = words(chars@.take(i as int));
        let ghost text = out@;
        assert(chars@.take(i + 1).drop_last() =~= chars@.take(i as int));
        if is_alphanumeric(c) {
            if !in_word && out.len() > 0 {
                out.push('-');
            }
            out.push(small_of(c));
            in_word = true;
            proof {
                let after = words(chars@.take(i + 1));
                if i > 0 && alphanumeric(chars@[i - 1]) {
                    assert(after.drop_last() =~= before.drop_last());
                    assert(out@ =~= join(after, seq!['-']));
                } else {
                    assert(after.drop_last() =~= before);
                    assert(out@ =~= join(after, seq!['-']));
                }
            }
        } else {
            in_word = false;
        }
        i = i + 1;
    }
    assert(chars@.take(i as int) =~= chars@);
    if out.len() == 0 {
        "untitled".to_string()
    } else {
        string_of(out.as_slice())
    }
}

/// `word` is a word as it stands in a slug.
pub open spec fn slug_word(word: Seq<char>) -> bool {
    word.len() > 0 && forall|i: int| 0 <= i < word.len() ==> small_alphanumeric(#[trigger] word[i])
}

/// `name` is safe as the name of a file: it is not empty, holds only small ASCII letters, digits
/// and `-`, begins and ends with a letter or digit, and has no two `-` in a row.
pub open spec fn safe_name(name: Seq<char>) -> bool {
    &&& name.len() > 0
    &&& forall|i: int| 0 <= i < name.len() ==> small_alphanumeric(#[trigger] name[i]) || name[i] == '-'
    &&& small_alphanumeric(name[0])
    &&& small_alphanumeric(name.last())
    &&& forall|i: int| 0 < i < name.len() ==> name[i - 1] != '-' || #[trigger] name[i] != '-'
}

/// Words consist of small letters and digits.
proof fn lemma_words_are_slug_words(s: Seq<char>)
    ensures
        forall|i: int| 0 <= i < words(s).len() ==> slug_word(#[trigger] words(s)[i]),
        s.len() > 0 && alphanumeric(s.last()) ==> words(s).len() > 0,
    decreases s.len(),
{
    if s.len() > 0 {
        lemma_words_are_slug_words(s.drop_last());
        let init = words(s.drop_last());
        if alphanumeric(s.last()) {
            assert(small_alphanumeric(small(s.last())));
            if s.len() >= 2 && alphanumeric(s[s.len() - 2]) {
                assert(slug_word(init.last()));
                assert(slug_word(init.last().push(small(s.last()))));
            } else {
                assert(slug_word(seq![small(s.last())]));
            }
        }
    }
}

/// Words joined by `-` make a safe name.
proof fn lemma_joined_words_are_safe(parts: Seq<Seq<char>>)
    requires
        parts.len() > 0,
        forall|i: int| 0 <= i < parts.len() ==> slug_word(#[trigger] parts[i]),
    ensures
        safe_name(join(parts, seq!['-'])),
    decreases parts.len(),
{
    let whole = join(parts, seq!['-']);
    if parts.len() == 1 {
        assert(slug_word(parts[0]));
        assert(small_alphanumeric(whole[0]));
        assert(small_alphanumeric(whole[whole.len() - 1]));
    } else {
        let init = join(parts.drop_last(), seq!['-']);
        let word = parts.last();
        lemma_joined_words_are_safe(parts.drop_last());
        assert(slug_word(word));
        assert(whole == init + seq!['-'] + word);
        let n = init.len() as int;
        assert forall|i: int| 0 <= i < whole.len() implies small_alphanumeric(#[trigger] whole[i])
            || whole[i] == '-' by {
            if i < n {
                assert(whole[i] == init[i]);
            } else if i > n {
                assert(whole[i] == word[i - n - 1]);
            }
        }
        assert forall|i: int| 0 < i < whole.len() implies whole[i - 1] != '-' || #[trigger] whole[i]
            != '-' by {
            if i < n {
                assert(init[i - 1] != '-' || init[i] != '-');
            } else if i > n {
                assert(whole[i] == word[i - n - 1]);
            } else {
                assert(whole[i - 1] == init.last());
            }
        }
        assert(whole[0] == init[0]);
        assert(whole.last() == word.last());
        assert(small_alphanumeric(word[word.len() - 1]));
    }
}

/// A slug is always safe as the name of a file.
pub proof fn law_slug_is_safe(topic: Seq<char>)
    ensures
        safe_name(slug(topic)),
{
    lemma_words_are_slug_words(topic);
    if words(topic).len() > 0 {
        lemma_joined_words_are_safe(words(topic));
    } else {
        reveal_strlit("untitled");
    }
}

/// A word that follows text which does not end in a letter or digit is one
/// more word.
proof fn lemma_words_of_appended_word(before: Seq<char>, word: Seq<char>)
    requires
        before.len() > 0 ==> !alphanumeric(before.last()),
        slug_word(word),
    ensures
        words(before + word) == words(before).push(word),
    decreases word.len(),
{
    let whole = before + word;
    let init = word.drop_last();
    assert(small_alphanumeric(word[word.len() - 1]));
    assert(whole.drop_last() =~= before + init);
    if init.len() == 0 {
        assert(before + init =~= before);
        assert(word =~= seq![word.last()]);
    } else {
        assert(slug_word(init));
        lemma_words_of_appended_word(before, init);
        assert(small_alphanumeric(word[word.len() - 2]));
        assert(init.push(word.last()) =~= word);
        assert(words(before).push(init).drop_last() =~= words(before));
    }
}

/// The words of joined words are those words.
proof fn lemma_words_of_joined(parts: Seq<Seq<char>>)
    requires
        parts.len() > 0,
        forall|i: int| 0 <= i < parts.len() ==> slug_word(#[trigger] parts[i]),
    ensures
        words(join(parts, seq!['-'])) == parts,
    decreases parts.len(),
{
    let word = parts.last();
    assert(slug_word(parts[parts.len() - 1]));
    if parts.len() == 1 {
        lemma_words_of_appended_word(Seq::empty(), word);
        assert(Seq::empty() + word =~= word);
        assert(Seq::<Seq<char>>::empty().push(word) =~= parts);
    } else {
        let init = join(parts.drop_last(), seq!['-']);
        lemma_words_of_joined(parts.drop_last());
        let before = init + seq!['-'];
        assert(before.drop_last() =~= init);
        lemma_words_of_appended_word(before, word);
        assert(parts.drop_last().push(word) =~= parts);
    }
}

/// The slug of a slug is that slug.
pub proof fn law_slug_is_stable(topic: Seq<char>)
    ensures
        slug(slug(topic)) == slug(topic),
{
    lemma_words_are_slug_words(topic);
    if words(topic).len() > 0 {
        lemma_words_of_joined(words(topic));
    } else {
        reveal_strlit("untitled");
        lemma_words_of_appended_word(Seq::empty(), "untitled"@);
        assert(Seq::empty() + "untitled"@ =~= "untitled"@);
    }
}

/// Every character of `s` is an ASCII letter or digit.
pub open spec fn all_alphanumeric(s: Seq<char>) -> bool {
    forall|i: int| 0 <= i < s.len() ==> alphanumeric(#[trigger] s[i])
}

/// No character of `s` is an ASCII letter or digit.
pub open spec fn none_alphanumeric(s: Seq<char>) -> bool {
    forall|i: int| 0 <= i < s.len() ==> !alphanumeric(#[trigger] s[i])
}

/// Behind a text that does not end in a letter or digit, a word is one more.
proof fn lemma_words_of_appended(before: Seq<char>, word: Seq<char>)
    requires
        before.len() > 0 ==> !alphanumeric(before.last()),
        word.len() > 0,
        all_alphanumeric(word),
    ensures
        words(before + word) == words(before).push(word.map_values(|c: char| small(c))),
    decreases word.len(),
{
    let whole = before + word;
    let init = word.drop_last();
    let made = word.map_values(|c: char| small(c));
    assert(alphanumeric(word[word.len() - 1]));
    assert(whole.drop_last() =~= before + init);
    if init.len() == 0 {
        assert(before + init =~= before);
        assert(made =~= seq![small(word.last())]);
    } else {
        lemma_words_of_appended(before, init);
        assert(alphanumeric(word[word.len() - 2]));
        let less = init.map_values(|c: char| small(c));
        assert(less.push(small(word.last())) =~= made);
        assert(words(before).push(less).drop_last() =~= words(before));
    }
}

/// What is no letter or digit adds no word.
proof fn lemma_words_of_junk(before: Seq<char>, junk: Seq<char>)
    requires
        none_alphanumeric(junk),
    ensures
        words(before + junk) == words(before),
    decreases junk.len(),
{
    let whole = before + junk;
    if junk.len() == 0 {
        assert(whole =~= before);
    } else {
        assert(whole.drop_last() =~= before + junk.drop_last());
        assert(!alphanumeric(junk[junk.len() - 1]));
        lemma_words_of_junk(before, junk.drop_last());
    }
}

/// The words of two texts with no word across their border.
proof fn lemma_words_of_two(a: Seq<char>, b: Seq<char>)
    requires
        a.len() > 0 && b.len() > 0 ==> !alphanumeric(a.last()) || !alphanumeric(b[0]),
    ensures
        words(a + b) == words(a) + words(b),
    decreases b.len(),
{
    let whole = a + b;
    if b.len() == 0 {
        assert(whole =~= a);
        assert(words(a) + words(b) =~= words(a));
    } else {
        let short = b.drop_last();
        lemma_words_of_two(a, short);
        assert(whole.drop_last() =~= a + short);
        let (x, y) = (words(a), words(short));
        if alphanumeric(b.last()) {
            if b.len() >= 2 && alphanumeric(b[b.len() - 2]) {
                assert(whole[whole.len() - 2] == b[b.len() - 2]);
                lemma_words_are_slug_words(short);
                assert(y.len() > 0);
                let grown = y.last().push(small(b.last()));
                assert((x + y).drop_last().push(grown) =~= x + y.drop_last().push(grown));
            } else {
                if b.len() >= 2 {
                    assert(whole[whole.len() - 2] == b[b.len() - 2]);
                } else if a.len() > 0 {
                    assert(whole[whole.len() - 2] == a.last());
                }
                let made = seq![small(b.last())];
                assert((x + y).push(made) =~= x + y.push(made));
            }
        }
    }
}

/// The slug of a topic that is one word is that word with small letters.
pub proof fn law_slug_of_a_word(word: Seq<char>)
    requires
        word.len() > 0,
        all_alphanumeric(word),
    ensures
        slug(word).len() == word.len(),
        forall|i: int|
            0 <= i < word.len() ==> #[trigger] slug(word)[i] as int == word[i] as int + if 'A'
                <= word[i] <= 'Z' {
                32int
            } else {
                0
            },
{
    let empty = Seq::<char>::empty();
    lemma_words_of_appended(empty, word);
    assert(empty + word =~= word);
    assert(words(word) =~= seq![word.map_values(|c: char| small(c))]);
    assert forall|i: int| 0 <= i < word.len() implies #[trigger] slug(word)[i] as int
        == word[i] as int + if 'A' <= word[i] <= 'Z' {
        32int
    } else {
        0
    } by {
        assert(slug(word)[i] == small(word[i]));
    }
}

/// The slug of a topic without a letter or digit is `untitled`.
pub proof fn law_slug_without_words(junk: Seq<char>)
    requires
        none_alphanumeric(junk),
    ensures
        slug(junk) == "untitled"@,
{
    let empty = Seq::<char>::empty();
    lemma_words_of_junk(empty, junk);
    assert(empty + junk =~= junk);
}

/// The slug keeps every word of the topic, in order: where something else than
/// letters and digits stands between two texts, their slugs are joined by one
/// `-`, and what has no letter or digit at either end does not count.
pub proof fn law_slug_keeps_every_word(a: Seq<char>, junk: Seq<char>, b: Seq<char>)
    requires
        junk.len() > 0,
        none_alphanumeric(junk),
    ensures
        none_alphanumeric(a) ==> slug(a + junk + b) == slug(b),
        none_alphanumeric(b) ==> slug(a + junk + b) == slug(a),
        !none_alphanumeric(a) && !none_alphanumeric(b) ==> slug(a + junk + b) == slug(a) + seq![
            '-',
        ] + slug(b),
{
    let empty = Seq::<char>::empty();
    assert(!alphanumeric(junk[junk.len() - 1]));
    lemma_words_of_junk(a, junk);
    lemma_words_of_two(a + junk, b);
    lemma_has_words(a);
    lemma_has_words(b);
    let (x, y) = (words(a), words(b));
    if x.len() == 0 {
        assert(x + y =~= y);
    } else if y.len() == 0 {
        assert(x + y =~= x);
    } else {
        law_join_of_two_groups(x, y, seq!['-']);
    }
}

/// A text has words if and only if it has a letter or digit.
proof fn lemma_has_words(s: Seq<char>)
    ensures
        words(s).len() == 0 <==> none_alphanumeric(s),
    decreases s.len(),
{
    if s.len() > 0 {
        let short = s.drop_last();
        lemma_has_words(short);
        lemma_words_are_slug_words(s);
        if none_alphanumeric(s) {
            assert(!alphanumeric(s[s.len() - 1]));
            assert forall|i: int| 0 <= i < short.len() implies !alphanumeric(#[trigger] short[i]) by {
                assert(!alphanumeric(s[i]));
            }
        } else if !alphanumeric(s.last()) && none_alphanumeric(short) {
            assert forall|i: int| 0 <= i < s.len() implies !alphanumeric(#[trigger] s[i]) by {
                if i < short.len() {
                    assert(s[i] == short[i]);
                }
            }
        }
    }
}

} // verus!
