//! Text as sequences of characters: trimming, searching, splitting and joining.
//!
//! A `str` is taken apart into its characters once, worked on as a slice of
//! `char`, and put together again at the end. Every function here states its
//! result over `Seq<char>`.

use vstd::prelude::*;
use vstd::slice::slice_subrange;

verus! {

/// `String::push` appends the given character to the end of the string and
/// changes nothing else.
pub assume_specification[ String::push ](s: &mut String, c: char)
    ensures
        final(s)@ == old(s)@.push(c),
;

/// The characters with the Unicode property `White_Space`.
pub open spec fn white_space(c: char) -> bool {
    ||| '\u{9}' <= c <= '\u{d}'
    ||| c == ' '
    ||| c == '\u{85}'
    ||| c == '\u{a0}'
    ||| c == '\u{1680}'
    ||| '\u{2000}' <= c <= '\u{200a}'
    ||| c == '\u{2028}'
    ||| c == '\u{2029}'
    ||| c == '\u{202f}'
    ||| c == '\u{205f}'
    ||| c == '\u{3000}'
}

/// `s` without its leading white space.
pub open spec fn trim_start(s: Seq<char>) -> Seq<char>
    decreases s.len(),
{
    if s.len() > 0 && white_space(s[0]) {
        trim_start(s.subrange(1, s.len() as int))
    } else {
        s
    }
}

/// `s` without its trailing white space.
pub open spec fn trim_end(s: Seq<char>) -> Seq<char>
    decreases s.len(),
{
    if s.len() > 0 && white_space(s.last()) {
        trim_end(s.drop_last())
    } else {
        s
    }
}

/// `s` without its leading and trailing white space.
pub open spec fn trim(s: Seq<char>) -> Seq<char> {
    trim_end(trim_start(s))
}

/// `s` is empty or white space.
pub open spec fn blank(s: Seq<char>) -> bool {
    trim(s).len() == 0
}

/// Every character of `s` is white space.
pub open spec fn all_white(s: Seq<char>) -> bool {
    forall|i: int| 0 <= i < s.len() ==> white_space(#[trigger] s[i])
}

/// `pat` stands in `s` at position `i`.
pub open spec fn occurs_at(s: Seq<char>, pat: Seq<char>, i: int) -> bool {
    &&& 0 <= i
    &&& i + pat.len() <= s.len()
    &&& s.subrange(i, i + pat.len()) == pat
}

/// `pat` stands somewhere in `s`.
pub open spec fn contains(s: Seq<char>, pat: Seq<char>) -> bool {
    exists|i: int| occurs_at(s, pat, i)
}

/// The first position at or after `from` at which `pat` stands in `s`.
pub open spec fn find_from(s: Seq<char>, pat: Seq<char>, from: nat) -> Option<nat>
    decreases s.len() - from,
{
    if from + pat.len() > s.len() {
        None
    } else if occurs_at(s, pat, from as int) {
        Some(from)
    } else if from == s.len() {
        None
    } else {
        find_from(s, pat, from + 1)
    }
}

/// The first position at which `pat` stands in `s`.
pub open spec fn find(s: Seq<char>, pat: Seq<char>) -> Option<nat> {
    find_from(s, pat, 0)
}

/// `s` begins with `prefix`.
pub open spec fn starts_with(s: Seq<char>, prefix: Seq<char>) -> bool {
    occurs_at(s, prefix, 0)
}

/// `s` ends with `suffix`.
pub open spec fn ends_with(s: Seq<char>, suffix: Seq<char>) -> bool {
    occurs_at(s, suffix, s.len() - suffix.len())
}

/// The pieces of `s` between the occurrences of `sep`: one more than there are
/// occurrences.
pub open spec fn split_on(s: Seq<char>, sep: char) -> Seq<Seq<char>>
    decreases s.len(),
{
    if s.len() == 0 {
        seq![Seq::empty()]
    } else {
        let init = split_on(s.drop_last(), sep);
        if s.last() == sep {
            init.push(Seq::empty())
        } else {
            init.drop_last().push(init.last().push(s.last()))
        }
    }
}

/// `s` without one carriage return at its end.
pub open spec fn strip_carriage_return(s: Seq<char>) -> Seq<char> {
    if s.len() > 0 && s.last() == '\r' {
        s.drop_last()
    } else {
        s
    }
}

/// The lines of `s`. A line ends with a line feed, which a carriage return may
/// precede; neither belongs to the line. The last line need not be ended.
pub open spec fn lines(s: Seq<char>) -> Seq<Seq<char>> {
    let parts = split_on(s, '\n');
    let count = if parts.last().len() == 0 {
        (parts.len() - 1) as nat
    } else {
        parts.len()
    };
    Seq::new(
        count,
        |i: int|
            if i < parts.len() - 1 {
                strip_carriage_return(parts[i])
            } else {
                parts[i]
            },
    )
}

/// The `parts` in order, with `sep` between each two neighbours.
pub open spec fn join(parts: Seq<Seq<char>>, sep: Seq<char>) -> Seq<char>
    decreases parts.len(),
{
    if parts.len() == 0 {
        Seq::empty()
    } else if parts.len() == 1 {
        parts[0]
    } else {
        join(parts.drop_last(), sep) + sep + parts.last()
    }
}

/// What a sequence of character vectors holds.
pub open spec fn views(parts: Seq<Vec<char>>) -> Seq<Seq<char>> {
    parts.map_values(|part: Vec<char>| part@)
}

/// What a sequence of strings holds.
pub open spec fn string_views(parts: Seq<String>) -> Seq<Seq<char>> {
    parts.map_values(|part: String| part@)
}

/// The characters of `s`.
pub fn chars_of(s: &str) -> (chars: Vec<char>)
    ensures
        chars@ == s@,
{
    let mut out: Vec<char> = Vec::new();
    for c in it: s.chars()
        invariant
            out@ == it.seq().take(it.index()),
    {
        out.push(c);
    }
    out
}

/// The string made of `chars`.
pub fn string_of(chars: &[char]) -> (s: String)
    ensures
        s@ == chars@,
{
    let mut out = String::new();
    let mut i: usize = 0;
    while i < chars.len()
        invariant
            i <= chars@.len(),
            out@ == chars@.take(i as int),
        decreases chars@.len() - i,
    {
        out.push(chars[i]);
        i = i + 1;
        assert(chars@.take(i as int) =~= chars@.take(i - 1).push(chars@[i - 1]));
    }
    assert(chars@.take(i as int) =~= chars@);
    out
}

/// Appends `more` to `out`.
pub fn append(out: &mut Vec<char>, more: &[char])
    ensures
        final(out)@ == old(out)@ + more@,
{
    let ghost start = out@;
    let mut i: usize = 0;
    while i < more.len()
        invariant
            i <= more@.len(),
            out@ == start + more@.take(i as int),
        decreases more@.len() - i,
    {
        out.push(more[i]);
        i = i + 1;
        assert(start + more@.take(i as int) =~= (start + more@.take(i - 1)).push(more@[i - 1]));
    }
    assert(more@.take(i as int) =~= more@);
}

/// Appends the characters of `more` to `out`.
pub fn append_str(out: &mut Vec<char>, more: &str)
    ensures
        final(out)@ == old(out)@ + more@,
{
    let chars = chars_of(more);
    append(out, chars.as_slice());
}

/// A vector with the characters of `chars`.
pub fn to_chars(chars: &[char]) -> (copy: Vec<char>)
    ensures
        copy@ == chars@,
{
    let mut out: Vec<char> = Vec::new();
    append(&mut out, chars);
    assert(out@ =~= chars@);
    out
}

/// Tells whether two texts are the same.
pub fn same(a: &[char], b: &[char]) -> (r: bool)
    ensures
        r == (a@ == b@),
{
    if a.len() != b.len() {
        return false;
    }
    let mut i: usize = 0;
    while i < a.len()
        invariant
            a@.len() == b@.len(),
            i <= a@.len(),
            forall|j: int| 0 <= j < i ==> a@[j] == b@[j],
        decreases a@.len() - i,
    {
        if a[i] != b[i] {
            return false;
        }
        i = i + 1;
    }
    assert(a@ =~= b@);
    true
}

/// Tells whether `c` is white space.
pub fn is_white_space(c: char) -> (r: bool)
    ensures
        r == white_space(c),
{
    ('\u{9}' <= c && c <= '\u{d}') || c == ' ' || c == '\u{85}' || c == '\u{a0}' || c == '\u{1680}'
        || ('\u{2000}' <= c && c <= '\u{200a}') || c == '\u{2028}' || c == '\u{2029}' || c
        == '\u{202f}' || c == '\u{205f}' || c == '\u{3000}'
}

/// `s` without its leading white space.
pub fn trim_start_of(s: &[char]) -> (r: &[char])
    ensures
        r@ == trim_start(s@),
{
    let mut i: usize = 0;
    assert(s@.subrange(0, s@.len() as int) =~= s@);
    while i < s.len() && is_white_space(s[i])
        invariant
            i <= s@.len(),
            trim_start(s@) == trim_start(s@.subrange(i as int, s@.len() as int)),
        decreases s@.len() - i,
    {
        assert(s@.subrange(i as int, s@.len() as int).subrange(1, s@.len() - i)
            =~= s@.subrange(i + 1, s@.len() as int));
        i = i + 1;
    }
    slice_subrange(s, i, s.len())
}

/// `s` without its trailing white space.
pub fn trim_end_of(s: &[char]) -> (r: &[char])
    ensures
        r@ == trim_end(s@),
{
    let mut i: usize = s.len();
    assert(s@.take(s@.len() as int) =~= s@);
    while i > 0 && is_white_space(s[i - 1])
        invariant
            i <= s@.len(),
            trim_end(s@) == trim_end(s@.take(i as int)),
        decreases i,
    {
        assert(s@.take(i as int).drop_last() =~= s@.take(i - 1));
        i = i - 1;
    }
    let r = slice_subrange(s, 0, i);
    assert(r@ =~= s@.take(i as int));
    r
}

/// `s` without its leading and trailing white space.
pub fn trim_of(s: &[char]) -> (r: &[char])
    ensures
        r@ == trim(s@),
{
    trim_end_of(trim_start_of(s))
}

/// Tells whether `pat` stands in `s` at position `i`.
pub fn is_at(s: &[char], pat: &[char], i: usize) -> (r: bool)
    ensures
        r == occurs_at(s@, pat@, i as int),
{
    if i > s.len() || pat.len() > s.len() - i {
        return false;
    }
    same(slice_subrange(s, i, i + pat.len()), pat)
}

/// The first position at which `pat` stands in `s`.
pub fn position_of(s: &[char], pat: &[char]) -> (r: Option<usize>)
    ensures
        r matches Some(i) ==> find(s@, pat@) == Some(i as nat) && occurs_at(s@, pat@, i as int),
        r is None ==> find(s@, pat@) is None,
{
    let mut i: usize = 0;
    while i < s.len()
        invariant
            i <= s@.len(),
            find(s@, pat@) == find_from(s@, pat@, i as nat),
        decreases s@.len() - i,
    {
        if is_at(s, pat, i) {
            return Some(i);
        }
        if pat.len() > s.len() - i {
            return None;
        }
        i = i + 1;
    }
    if is_at(s, pat, i) {
        Some(i)
    } else {
        None
    }
}

/// Tells whether `pat` stands somewhere in `s`.
pub fn has(s: &[char], pat: &[char]) -> (r: bool)
    ensures
        r == contains(s@, pat@),
{
    let found = position_of(s, pat);
    proof {
        lemma_find_is_first(s@, pat@, 0);
    }
    found.is_some()
}

/// The pieces of `s` between the occurrences of `sep`.
pub fn split_at_each(s: &[char], sep: char) -> (parts: Vec<Vec<char>>)
    ensures
        views(parts@) == split_on(s@, sep),
{
    let mut parts: Vec<Vec<char>> = Vec::new();
    let mut current: Vec<char> = Vec::new();
    let mut i: usize = 0;
    assert(views(parts@).push(current@) =~= seq![Seq::<char>::empty()]);
    while i < s.len()
        invariant
            i <= s@.len(),
            views(parts@).push(current@) == split_on(s@.take(i as int), sep),
        decreases s@.len() - i,
    {
        let ghost before = views(parts@).push(current@);
        assert(s@.take(i + 1).drop_last() =~= s@.take(i as int));
        if s[i] == sep {
            parts.push(current);
            current = Vec::new();
            assert(views(parts@).push(current@) =~= before.push(Seq::empty()));
        } else {
            let ghost piece = current@;
            current.push(s[i]);
            assert(before.drop_last() =~= views(parts@));
            assert(before.last() == piece);
        }
        i = i + 1;
    }
    assert(s@.take(i as int) =~= s@);
    let ghost all = views(parts@).push(current@);
    parts.push(current);
    assert(views(parts@) =~= all);
    parts
}

/// The lines of `s`.
pub fn lines_of(s: &[char]) -> (r: Vec<Vec<char>>)
    ensures
        views(r@) == lines(s@),
{
    let mut parts = split_at_each(s, '\n');
    let ghost all = split_on(s@, '\n');
    proof {
        lemma_split_on_nonempty(s@, '\n');
    }
    assert(parts@.len() == all.len());
    let count: usize = parts.len();
    assert(forall|j: int| 0 <= j < count ==> (#[trigger] parts@[j])@ == all[j]);
    let mut i: usize = 0;
    while i + 1 < count
        invariant
            parts@.len() == count,
            all.len() == count,
            count >= 1,
            i <= count - 1,
            forall|j: int|
                0 <= j < count ==> (#[trigger] parts@[j])@ == if j < i {
                    strip_carriage_return(all[j])
                } else {
                    all[j]
                },
        decreases count - i,
    {
        let line = &parts[i];
        if line.len() > 0 && line[line.len() - 1] == '\r' {
            let kept = to_chars(slice_subrange(line.as_slice(), 0, line.len() - 1));
            assert(kept@ =~= all[i as int].drop_last());
            parts[i] = kept;
        }
        i = i + 1;
    }
    if parts[count - 1].len() == 0 {
        parts.pop();
    }
    assert(views(parts@) =~= lines(s@));
    parts
}

/// The `parts` in order, with `sep` between each two neighbours.
pub fn join_of(parts: &[Vec<char>], sep: &[char]) -> (r: Vec<char>)
    ensures
        r@ == join(views(parts@), sep@),
{
    let mut out: Vec<char> = Vec::new();
    let mut i: usize = 0;
    let ghost all = views(parts@);
    while i < parts.len()
        invariant
            i <= parts@.len(),
            all == views(parts@),
            out@ == join(all.take(i as int), sep@),
        decreases parts@.len() - i,
    {
        assert(all.take(i + 1).drop_last() =~= all.take(i as int));
        if i > 0 {
            append(&mut out, sep);
        }
        append(&mut out, parts[i].as_slice());
        proof {
            if i == 0 {
                assert(out@ =~= all[0]);
            }
        }
        i = i + 1;
    }
    assert(all.take(i as int) =~= all);
    out
}

/// `find_from` gives the first position and misses none.
pub proof fn lemma_find_is_first(s: Seq<char>, pat: Seq<char>, from: nat)
    requires
        from <= s.len(),
    ensures
        match find_from(s, pat, from) {
            Some(i) => {
                &&& from <= i
                &&& occurs_at(s, pat, i as int)
                &&& forall|j: int| from <= j < i ==> !occurs_at(s, pat, j)
            },
            None => forall|j: int| from <= j ==> !occurs_at(s, pat, j),
        },
    decreases s.len() - from,
{
    if from + pat.len() <= s.len() && !occurs_at(s, pat, from as int) && from < s.len() {
        lemma_find_is_first(s, pat, from + 1);
    }
}

/// Splitting always gives at least one piece.
pub proof fn lemma_split_on_nonempty(s: Seq<char>, sep: char)
    ensures
        split_on(s, sep).len() >= 1,
    decreases s.len(),
{
    if s.len() > 0 {
        lemma_split_on_nonempty(s.drop_last(), sep);
    }
}

/// No piece of a split begins with the separator.
pub proof fn lemma_piece_begins(s: Seq<char>, sep: char, i: int)
    requires
        0 <= i < split_on(s, sep).len(),
        split_on(s, sep)[i].len() > 0,
    ensures
        split_on(s, sep)[i][0] != sep,
    decreases s.len(),
{
    let pieces = split_on(s, sep);
    if s.len() > 0 {
        let init = split_on(s.drop_last(), sep);
        lemma_split_on_nonempty(s.drop_last(), sep);
        if i < init.len() - 1 || s.last() == sep {
            assert(pieces[i] == init[i]);
            lemma_piece_begins(s.drop_last(), sep, i);
        } else if init[i].len() > 0 {
            lemma_piece_begins(s.drop_last(), sep, i);
        }
    }
}

/// What stands in a part of a text stands in the text.
pub proof fn lemma_contains_in_part(s: Seq<char>, from: int, to: int, pat: Seq<char>)
    requires
        0 <= from <= to <= s.len(),
        contains(s.subrange(from, to), pat),
    ensures
        contains(s, pat),
{
    let part = s.subrange(from, to);
    let i = choose|i: int| occurs_at(part, pat, i);
    assert(s.subrange(from + i, from + i + pat.len()) =~= part.subrange(i, i + pat.len()));
    assert(occurs_at(s, pat, from + i));
}

/// The last piece of a split is what stands behind the last separator.
proof fn lemma_last_piece(s: Seq<char>, sep: char)
    ensures
        ({
            let piece = split_on(s, sep).last();
            &&& split_on(s, sep).len() >= 1
            &&& piece.len() <= s.len()
            &&& piece == s.subrange(s.len() - piece.len(), s.len() as int)
            &&& piece.len() < s.len() ==> s[s.len() - piece.len() - 1] == sep
        }),
    decreases s.len(),
{
    if s.len() > 0 {
        lemma_last_piece(s.drop_last(), sep);
        let piece = split_on(s, sep).last();
        assert(piece =~= s.subrange(s.len() - piece.len(), s.len() as int));
    } else {
        assert(split_on(s, sep).last() =~= s.subrange(0, 0));
    }
}

/// A text without the separator stands in a text where it stands in one of the
/// pieces.
proof fn lemma_contains_in_piece(s: Seq<char>, sep: char, pat: Seq<char>)
    requires
        pat.len() > 0,
        !pat.contains(sep),
    ensures
        contains(s, pat) <==> exists|i: int|
            0 <= i < split_on(s, sep).len() && contains(#[trigger] split_on(s, sep)[i], pat),
    decreases s.len(),
{
    let pieces = split_on(s, sep);
    if s.len() == 0 {
        assert forall|i: int| 0 <= i < pieces.len() implies !contains(#[trigger] pieces[i], pat) by {}
    } else {
        let short = s.drop_last();
        let init = split_on(short, sep);
        lemma_contains_in_piece(short, sep, pat);
        lemma_last_piece(short, sep);
        lemma_last_piece(s, sep);
        let n = s.len() as int;
        let last = pieces.last();
        if contains(s, pat) {
            let p = choose|p: int| occurs_at(s, pat, p);
            if p + pat.len() < n {
                assert(short.subrange(p, p + pat.len()) =~= pat);
                assert(occurs_at(short, pat, p));
                let i = choose|i: int| 0 <= i < init.len() && contains(#[trigger] init[i], pat);
                if s.last() != sep && i == init.len() - 1 {
                    assert(last.subrange(0, last.len() - 1) =~= init.last());
                    lemma_contains_in_part(last, 0, last.len() - 1, pat);
                    assert(contains(pieces[pieces.len() - 1], pat));
                } else {
                    assert(pieces[i] == init[i]);
                }
            } else {
                assert(pat[pat.len() - 1] == s[n - 1]);
                if last.len() < pat.len() {
                    let k = n - last.len() - 1;
                    assert(pat[k - p] == s[k]);
                    assert(pat.contains(sep));
                }
                assert(last.subrange(last.len() - pat.len(), last.len() as int) =~= pat);
                assert(occurs_at(last, pat, last.len() - pat.len()));
                assert(contains(pieces[pieces.len() - 1], pat));
            }
        }
        if exists|i: int| 0 <= i < pieces.len() && contains(#[trigger] pieces[i], pat) {
            let i = choose|i: int| 0 <= i < pieces.len() && contains(#[trigger] pieces[i], pat);
            if i == pieces.len() - 1 {
                lemma_contains_in_part(s, n - last.len(), n, pat);
            } else {
                assert(pieces[i] == init[i]);
                assert(contains(short, pat));
                lemma_contains_in_part(s, 0, n - 1, pat);
            }
        }
    }
}

/// A text without line ends in it stands in a text where it stands in one of
/// the lines.
pub proof fn lemma_contains_in_line(s: Seq<char>, pat: Seq<char>)
    requires
        pat.len() > 0,
        !pat.contains('\n'),
        !pat.contains('\r'),
    ensures
        contains(s, pat) <==> exists|i: int|
            0 <= i < lines(s).len() && contains(#[trigger] lines(s)[i], pat),
{
    let pieces = split_on(s, '\n');
    lemma_contains_in_piece(s, '\n', pat);
    lemma_split_on_nonempty(s, '\n');
    assert forall|i: int| 0 <= i < lines(s).len() implies contains(#[trigger] lines(s)[i], pat)
        == contains(pieces[i], pat) by {
        let piece = pieces[i];
        let line = lines(s)[i];
        if line != piece {
            assert(line =~= piece.subrange(0, piece.len() - 1));
            if contains(line, pat) {
                lemma_contains_in_part(piece, 0, piece.len() - 1, pat);
            }
            if contains(piece, pat) {
                let p = choose|p: int| occurs_at(piece, pat, p);
                if p + pat.len() == piece.len() {
                    assert(pat[pat.len() - 1] == '\r');
                }
                assert(line.subrange(p, p + pat.len()) =~= pat);
                assert(occurs_at(line, pat, p));
            }
        }
    }
    if contains(s, pat) {
        let i = choose|i: int| 0 <= i < pieces.len() && contains(#[trigger] pieces[i], pat);
        assert(i < lines(s).len());
        assert(contains(lines(s)[i], pat));
    }
    if exists|i: int| 0 <= i < lines(s).len() && contains(#[trigger] lines(s)[i], pat) {
        let i = choose|i: int| 0 <= i < lines(s).len() && contains(#[trigger] lines(s)[i], pat);
        assert(contains(pieces[i], pat));
    }
}

/// A text without the separator is one piece.
pub proof fn lemma_split_without(s: Seq<char>, sep: char)
    requires
        !s.contains(sep),
    ensures
        split_on(s, sep) == seq![s],
    decreases s.len(),
{
    if s.len() > 0 {
        let short = s.drop_last();
        assert(s[s.len() - 1] != sep);
        assert forall|i: int| 0 <= i < short.len() implies short[i] != sep by {
            assert(s[i] != sep);
        }
        lemma_split_without(short, sep);
        assert(short.push(s.last()) =~= s);
        assert(seq![short].drop_last().push(s) =~= seq![s]);
    } else {
        assert(s =~= Seq::empty());
    }
}

/// The pieces of two texts with a separator between them are those of the one
/// and those of the other.
pub proof fn lemma_split_concat(a: Seq<char>, b: Seq<char>, sep: char)
    ensures
        split_on(a + seq![sep] + b, sep) == split_on(a, sep) + split_on(b, sep),
    decreases b.len(),
{
    let s = a + seq![sep] + b;
    let left = split_on(a, sep);
    if b.len() > 0 {
        let short = b.drop_last();
        lemma_split_concat(a, short, sep);
        lemma_split_on_nonempty(short, sep);
        let init = split_on(short, sep);
        assert(s.drop_last() =~= a + seq![sep] + short);
        if b.last() == sep {
            assert((left + init).push(Seq::empty()) =~= left + init.push(Seq::empty()));
        } else {
            let last = init.last().push(b.last());
            assert((left + init).drop_last().push(last) =~= left + init.drop_last().push(last));
        }
    } else {
        assert(s.drop_last() =~= a);
        assert(left.push(Seq::empty()) =~= left + seq![Seq::<char>::empty()]);
    }
}

/// Joining the pieces of a text gives the text.
pub proof fn lemma_join_of_split(s: Seq<char>, sep: char)
    ensures
        join(split_on(s, sep), seq![sep]) == s,
    decreases s.len(),
{
    let pieces = split_on(s, sep);
    if s.len() > 0 {
        let short = s.drop_last();
        let init = split_on(short, sep);
        lemma_join_of_split(short, sep);
        lemma_split_on_nonempty(short, sep);
        if s.last() == sep {
            assert(pieces.drop_last() =~= init);
            assert(short + seq![sep] + Seq::<char>::empty() =~= s);
        } else {
            assert(pieces.drop_last() =~= init.drop_last());
            if init.len() == 1 {
                assert(pieces[0] =~= s);
            } else {
                let head = join(init.drop_last(), seq![sep]);
                assert(head + seq![sep] + init.last().push(s.last()) =~= (head + seq![sep]
                    + init.last()).push(s.last()));
                assert(short.push(s.last()) =~= s);
            }
        }
    } else {
        assert(pieces[0] =~= s);
    }
}

/// Trimming makes nothing longer, and only a text that begins or ends with
/// white space shorter.
pub proof fn lemma_trim_length(s: Seq<char>)
    ensures
        trim_start(s).len() <= s.len(),
        trim_end(s).len() <= s.len(),
        trim(s).len() <= s.len(),
        s.len() > 0 && white_space(s[0]) ==> trim(s).len() < s.len(),
        s.len() > 0 && white_space(s.last()) ==> trim(s).len() < s.len(),
{
    lemma_trim_start_length(s);
    lemma_trim_end_length(s);
    lemma_trim_end_length(trim_start(s));
    if s.len() > 0 && white_space(s[0]) {
        lemma_trim_start_length(s.subrange(1, s.len() as int));
    } else if s.len() > 0 && white_space(s.last()) {
        lemma_trim_end_length(s.drop_last());
    }
}

proof fn lemma_trim_start_length(s: Seq<char>)
    ensures
        trim_start(s).len() <= s.len(),
    decreases s.len(),
{
    if s.len() > 0 && white_space(s[0]) {
        lemma_trim_start_length(s.subrange(1, s.len() as int));
    }
}

proof fn lemma_trim_end_length(s: Seq<char>)
    ensures
        trim_end(s).len() <= s.len(),
    decreases s.len(),
{
    if s.len() > 0 && white_space(s.last()) {
        lemma_trim_end_length(s.drop_last());
    }
}

/// What trims to nothing is white space.
pub proof fn lemma_blank_is_white(s: Seq<char>)
    requires
        blank(s),
    ensures
        all_white(s),
    decreases s.len(),
{
    if s.len() > 0 && white_space(s[0]) {
        let rest = s.subrange(1, s.len() as int);
        lemma_blank_is_white(rest);
        assert forall|i: int| 0 <= i < s.len() implies white_space(#[trigger] s[i]) by {
            if i > 0 {
                assert(s[i] == rest[i - 1]);
            }
        }
    } else {
        lemma_end_trims_white(s);
    }
}

/// What trims to nothing from its end is white space.
proof fn lemma_end_trims_white(s: Seq<char>)
    requires
        trim_end(s).len() == 0,
    ensures
        all_white(s),
    decreases s.len(),
{
    if s.len() > 0 {
        let short = s.drop_last();
        lemma_end_trims_white(short);
        assert forall|i: int| 0 <= i < s.len() implies white_space(#[trigger] s[i]) by {
            if i < s.len() - 1 {
                assert(s[i] == short[i]);
            }
        }
    }
}

/// White space in front of a text is trimmed.
pub proof fn lemma_trim_white_front(white: Seq<char>, s: Seq<char>)
    requires
        all_white(white),
    ensures
        trim(white + s) == trim(s),
    decreases white.len(),
{
    let whole = white + s;
    if white.len() == 0 {
        assert(whole =~= s);
    } else {
        let less = white.subrange(1, white.len() as int);
        assert(whole[0] == white[0]);
        assert(whole.subrange(1, whole.len() as int) =~= less + s);
        assert forall|i: int| 0 <= i < less.len() implies white_space(#[trigger] less[i]) by {
            assert(less[i] == white[i + 1]);
        }
        lemma_trim_white_front(less, s);
    }
}

/// White space behind a text that is not blank is trimmed.
pub proof fn lemma_trim_white_back(s: Seq<char>, white: Seq<char>)
    requires
        all_white(white),
        !blank(s),
    ensures
        trim(s + white) == trim(s),
    decreases s.len(),
{
    let whole = s + white;
    if s.len() == 0 {
        assert(trim_start(s) == s);
        assert(trim_end(s) == s);
    } else if white_space(s[0]) {
        let rest = s.subrange(1, s.len() as int);
        assert(whole[0] == s[0]);
        assert(whole.subrange(1, whole.len() as int) =~= rest + white);
        lemma_trim_white_back(rest, white);
    } else {
        assert(whole[0] == s[0]);
        lemma_end_trims_white_back(s, white);
    }
}

/// White space behind a text is trimmed from its end.
pub proof fn lemma_end_trims_white_back(s: Seq<char>, white: Seq<char>)
    requires
        all_white(white),
    ensures
        trim_end(s + white) == trim_end(s),
    decreases white.len(),
{
    let whole = s + white;
    if white.len() == 0 {
        assert(whole =~= s);
    } else {
        let less = white.drop_last();
        assert(whole.last() == white[white.len() - 1]);
        assert(whole.drop_last() =~= s + less);
        assert forall|i: int| 0 <= i < less.len() implies white_space(#[trigger] less[i]) by {
            assert(less[i] == white[i]);
        }
        lemma_end_trims_white_back(s, less);
    }
}

/// The first part of what is joined stands in front.
pub proof fn lemma_join_first(parts: Seq<Seq<char>>, sep: Seq<char>)
    requires
        parts.len() >= 2,
    ensures
        join(parts, sep) == parts[0] + sep + join(parts.subrange(1, parts.len() as int), sep),
    decreases parts.len(),
{
    let rest = parts.subrange(1, parts.len() as int);
    let short = parts.drop_last();
    if parts.len() == 2 {
        assert(short.len() == 1);
        assert(join(short, sep) == parts[0]);
        assert(join(rest, sep) == parts[1]);
    } else {
        lemma_join_first(short, sep);
        assert(short.subrange(1, short.len() as int) =~= rest.drop_last());
        assert(join(rest, sep) == join(rest.drop_last(), sep) + sep + rest.last());
        assert(parts[0] + sep + join(rest.drop_last(), sep) + sep + rest.last() =~= parts[0] + sep
            + join(rest, sep));
    }
}

/// Trimming takes away the white space at the ends, and nothing else. Every text
/// that is not white space throughout has this form.
pub proof fn law_trim_removes_white_ends(front: Seq<char>, core: Seq<char>, back: Seq<char>)
    requires
        all_white(front),
        all_white(back),
        core.len() > 0,
        !white_space(core[0]),
        !white_space(core.last()),
    ensures
        trim(front + core + back) == core,
        trim_start(front + core + back) == core + back,
        trim_end(front + core + back) == front + core,
{
    let text = front + core + back;
    assert(trim_start(core) == core);
    assert(trim_end(core) == core);
    lemma_trim_white_back(core, back);
    assert(front + core + back =~= front + (core + back));
    lemma_trim_white_front(front, core + back);
    lemma_end_trims_white_back(front + core, back);
    assert((front + core).last() == core.last());
    lemma_start_trims_white_front(front, core + back);
    assert((core + back)[0] == core[0]);
}

/// The same, where nothing but white space may be there.
pub proof fn lemma_trim_between_white(front: Seq<char>, core: Seq<char>, back: Seq<char>)
    requires
        all_white(front),
        all_white(back),
        core.len() > 0 ==> !white_space(core[0]) && !white_space(core.last()),
    ensures
        trim(front + core + back) == core,
{
    if core.len() > 0 {
        law_trim_removes_white_ends(front, core, back);
    } else {
        assert(front + core + back =~= front + back);
        law_white_trims_to_nothing(front + back);
        assert(core =~= Seq::empty());
    }
}

/// White space trims to nothing.
pub proof fn law_white_trims_to_nothing(s: Seq<char>)
    requires
        all_white(s),
    ensures
        trim(s) == Seq::<char>::empty(),
        trim_start(s) == Seq::<char>::empty(),
        trim_end(s) == Seq::<char>::empty(),
{
    let empty = Seq::<char>::empty();
    lemma_start_trims_white_front(s, empty);
    lemma_end_trims_white_back(empty, s);
    assert(s + empty =~= s);
    assert(empty + s =~= s);
}

/// White space in front of a text is trimmed from its start.
proof fn lemma_start_trims_white_front(white: Seq<char>, s: Seq<char>)
    requires
        all_white(white),
    ensures
        trim_start(white + s) == trim_start(s),
    decreases white.len(),
{
    let whole = white + s;
    if white.len() == 0 {
        assert(whole =~= s);
    } else {
        let less = white.subrange(1, white.len() as int);
        assert(whole[0] == white[0]);
        assert(whole.subrange(1, whole.len() as int) =~= less + s);
        assert forall|i: int| 0 <= i < less.len() implies white_space(#[trigger] less[i]) by {
            assert(less[i] == white[i + 1]);
        }
        lemma_start_trims_white_front(less, s);
    }
}

/// A text that is not white space throughout is white space, then a text that
/// trims to itself, then white space.
pub proof fn law_text_between_white_ends(s: Seq<char>) -> (ends: (Seq<char>, Seq<char>, Seq<char>))
    requires
        !all_white(s),
    ensures
        s == ends.0 + ends.1 + ends.2,
        all_white(ends.0),
        all_white(ends.2),
        ends.1.len() > 0,
        !white_space(ends.1[0]),
        !white_space(ends.1.last()),
        ends.1 == trim(s),
    decreases s.len(),
{
    let empty = Seq::<char>::empty();
    let ends = if white_space(s[0]) {
        let rest = s.subrange(1, s.len() as int);
        if all_white(rest) {
            assert forall|i: int| 0 <= i < s.len() implies white_space(#[trigger] s[i]) by {
                if i > 0 {
                    assert(s[i] == rest[i - 1]);
                }
            }
        }
        let (front, core, back) = law_text_between_white_ends(rest);
        let longer = seq![s[0]] + front;
        assert(s =~= seq![s[0]] + rest);
        assert(seq![s[0]] + (front + core + back) =~= longer + core + back);
        (longer, core, back)
    } else if white_space(s.last()) {
        let rest = s.drop_last();
        assert(rest[0] == s[0]);
        assert(!all_white(rest)) by {
            if all_white(rest) {
                assert(white_space(rest[0]));
            }
        }
        let (front, core, back) = law_text_between_white_ends(rest);
        let longer = back.push(s.last());
        assert(s =~= rest.push(s.last()));
        assert((front + core + back).push(s.last()) =~= front + core + longer);
        (front, core, longer)
    } else {
        assert(s =~= empty + s + empty);
        (empty, s, empty)
    };
    law_trim_removes_white_ends(ends.0, ends.1, ends.2);
    ends
}

/// A text stands where its characters stand one after the other.
pub proof fn law_occurrence_is_character_by_character(s: Seq<char>, pat: Seq<char>, i: int)
    ensures
        occurs_at(s, pat, i) <==> 0 <= i && i + pat.len() <= s.len() && forall|k: int|
            0 <= k < pat.len() ==> s[i + k] == #[trigger] pat[k],
        occurs_at(s, pat, i) ==> contains(s, pat),
{
    if 0 <= i && i + pat.len() <= s.len() {
        let part = s.subrange(i, i + pat.len());
        if part == pat {
            assert forall|k: int| 0 <= k < pat.len() implies s[i + k] == #[trigger] pat[k] by {
                assert(part[k] == s[i + k]);
            }
        } else if forall|k: int| 0 <= k < pat.len() ==> s[i + k] == #[trigger] pat[k] {
            assert(part =~= pat);
        }
    }
}

/// A text that is put together from three begins with the first, holds the
/// second and ends with the third.
pub proof fn law_parts_stand_in_the_whole(before: Seq<char>, pat: Seq<char>, after: Seq<char>)
    ensures
        starts_with(before + pat + after, before),
        occurs_at(before + pat + after, pat, before.len() as int),
        contains(before + pat + after, pat),
        ends_with(before + pat + after, after),
{
    let whole = before + pat + after;
    let at = before.len() as int;
    assert(whole.subrange(0, at) =~= before);
    assert(whole.subrange(at, at + pat.len()) =~= pat);
    assert(whole.subrange(whole.len() - after.len(), whole.len() as int) =~= after);
    assert(occurs_at(whole, pat, at));
}

/// Splitting a text at a character: the pieces hold it no more, and joined
/// by it they are the text again.
pub proof fn law_split_is_undone_by_join(s: Seq<char>, sep: char)
    ensures
        join(split_on(s, sep), seq![sep]) == s,
        split_on(s, sep).len() > 0,
        forall|i: int|
            0 <= i < split_on(s, sep).len() ==> !(#[trigger] split_on(s, sep)[i]).contains(sep),
    decreases s.len(),
{
    lemma_join_of_split(s, sep);
    lemma_split_on_nonempty(s, sep);
    let pieces = split_on(s, sep);
    if s.len() > 0 {
        let short = s.drop_last();
        let init = split_on(short, sep);
        law_split_is_undone_by_join(short, sep);
        assert forall|i: int| 0 <= i < pieces.len() implies !(#[trigger] pieces[i]).contains(
            sep,
        ) by {
            if i < init.len() - 1 || s.last() == sep && i < init.len() {
                assert(pieces[i] == init[i]);
            } else if s.last() != sep {
                let last = init[init.len() - 1];
                assert(pieces[i] == last.push(s.last()));
                assert forall|k: int| 0 <= k < pieces[i].len() implies pieces[i][k] != sep by {
                    if k < last.len() {
                        assert(last.contains(last[k]));
                    }
                }
            }
        }
    }
}

/// Joining sets its parts side by side with the separator between each two:
/// what is joined of two groups of parts is joined by it.
pub proof fn law_join_of_two_groups(a: Seq<Seq<char>>, b: Seq<Seq<char>>, sep: Seq<char>)
    ensures
        join(Seq::empty(), sep) == Seq::<char>::empty(),
        a.len() == 1 ==> join(a, sep) == a[0],
        a.len() > 0 && b.len() > 0 ==> join(a + b, sep) == join(a, sep) + sep + join(b, sep),
    decreases b.len(),
{
    if a.len() > 0 && b.len() > 0 {
        let all = a + b;
        if b.len() == 1 {
            assert(all.drop_last() =~= a);
            assert(join(b, sep) == b[0]);
        } else {
            law_join_of_two_groups(a, b.drop_last(), sep);
            assert(all.drop_last() =~= a + b.drop_last());
            assert(join(b, sep) == join(b.drop_last(), sep) + sep + b.last());
            assert(join(all, sep) =~= join(a, sep) + sep + join(b, sep));
        }
    }
}

/// Pieces without the separator are what their joined text splits into.
pub proof fn law_join_is_undone_by_split(parts: Seq<Seq<char>>, sep: char)
    requires
        parts.len() > 0,
        forall|i: int| 0 <= i < parts.len() ==> !(#[trigger] parts[i]).contains(sep),
    ensures
        split_on(join(parts, seq![sep]), sep) == parts,
    decreases parts.len(),
{
    let last = parts[parts.len() - 1];
    assert(!last.contains(sep));
    lemma_split_without(last, sep);
    if parts.len() == 1 {
        assert(parts =~= seq![last]);
    } else {
        let init = parts.drop_last();
        assert forall|i: int| 0 <= i < init.len() implies !(#[trigger] init[i]).contains(sep) by {
            assert(!parts[i].contains(sep));
        }
        law_join_is_undone_by_split(init, sep);
        lemma_split_concat(join(init, seq![sep]), last, sep);
        assert(init + seq![last] =~= parts);
    }
}

/// The lines of a text, line by line: nothing has no line; text without a line
/// feed is one line; what a line feed ends is a line without it, and without one
/// carriage return before it, and then come the lines of the rest.
pub proof fn law_lines_one_by_one(line: Seq<char>, rest: Seq<char>)
    requires
        !line.contains('\n'),
    ensures
        lines(Seq::empty()) == Seq::<Seq<char>>::empty(),
        line.len() > 0 ==> lines(line) == seq![line],
        lines(line + seq!['\n'] + rest) == seq![
            if line.len() > 0 && line.last() == '\r' {
                line.drop_last()
            } else {
                line
            },
        ] + lines(rest),
{
    let empty = Seq::<char>::empty();
    lemma_split_without(empty, '\n');
    lemma_split_without(line, '\n');
    lemma_split_concat(line, rest, '\n');
    lemma_split_on_nonempty(rest, '\n');
    assert(lines(empty) =~= Seq::<Seq<char>>::empty());
    if line.len() > 0 {
        assert(lines(line) =~= seq![line]);
    }
    let pieces = split_on(line + seq!['\n'] + rest, '\n');
    let tail = split_on(rest, '\n');
    assert(pieces =~= seq![line] + tail);
    assert(pieces.last() == tail.last());
    let head = seq![strip_carriage_return(line)];
    assert(lines(line + seq!['\n'] + rest) =~= head + lines(rest)) by {
        assert forall|i: int| 0 < i < pieces.len() implies pieces[i] == tail[i - 1] by {}
    }
}

/// Texts are seen whole, one by one.
pub proof fn law_texts_are_seen_whole(parts: Seq<Vec<char>>, texts: Seq<String>, i: int)
    ensures
        views(parts).len() == parts.len(),
        0 <= i < parts.len() ==> views(parts)[i] == parts[i]@,
        string_views(texts).len() == texts.len(),
        0 <= i < texts.len() ==> string_views(texts)[i] == texts[i]@,
{
}

} // verus!
