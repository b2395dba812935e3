//! Distilled memories as they are kept: one file per topic, and an index.
//!
//! A topic's file is `memory/<slug>.md` below the configuration directory; the
//! index is `MEMORY.md`.

use crate::calendar::JournalDate;
use crate::distill::{memory_views, DistilledMemory};
use crate::journal::{date_text, date_text_of};
use crate::slug::{law_slug_is_safe, safe_name, slug, slugify};
use crate::store::StorePath;
use crate::text::{
    all_white, append, append_str, chars_of, contains, has, join, lemma_contains_in_line,
    lemma_contains_in_part, lemma_end_trims_white_back, lemma_trim_between_white, lines, lines_of,
    occurs_at, string_of, trim, trim_end, trim_end_of, trim_of, views, white_space,
};
use vstd::prelude::*;

verus! {

/// A slug with the topic and body that belong to it.
pub open spec fn entry_views(entries: Seq<(String, DistilledMemory)>) -> Seq<
    (Seq<char>, (Seq<char>, Seq<char>)),
> {
    entries.map_values(|entry: (String, DistilledMemory)| (entry.0@, entry.1@))
}

/// One of the `entries` has the slug `name`.
pub open spec fn has_slug(
    entries: Seq<(Seq<char>, (Seq<char>, Seq<char>))>,
    name: Seq<char>,
) -> bool {
    exists|i: int| 0 <= i < entries.len() && (#[trigger] entries[i]).0 == name
}

/// No two `entries` have the same slug.
pub open spec fn distinct_slugs(entries: Seq<(Seq<char>, (Seq<char>, Seq<char>))>) -> bool {
    forall|i: int, j: int|
        0 <= i < j < entries.len() ==> (#[trigger] entries[i]).0 != (#[trigger] entries[j]).0
}

/// The `entry`, with `body` added to its body if its slug is `name`.
pub open spec fn extended(
    entry: (Seq<char>, (Seq<char>, Seq<char>)),
    name: Seq<char>,
    body: Seq<char>,
) -> (Seq<char>, (Seq<char>, Seq<char>)) {
    if entry.0 == name {
        (entry.0, (entry.1.0, entry.1.1 + "\n\n"@ + body))
    } else {
        entry
    }
}

/// The `memories` by slug, in the order in which the slugs first occur. A
/// later memory of a slug that has occurred adds its body to the entry.
pub open spec fn merged(memories: Seq<(Seq<char>, Seq<char>)>) -> Seq<
    (Seq<char>, (Seq<char>, Seq<char>)),
>
    decreases memories.len(),
{
    if memories.len() == 0 {
        Seq::empty()
    } else {
        let init = merged(memories.drop_last());
        let (topic, body) = memories.last();
        if has_slug(init, slug(topic)) {
            init.map_values(
                |entry: (Seq<char>, (Seq<char>, Seq<char>))| extended(entry, slug(topic), body),
            )
        } else {
            init.push((slug(topic), (topic, body)))
        }
    }
}

/// Where the file of the topic with the slug `name` lies.
pub open spec fn topic_path(name: Seq<char>) -> Seq<Seq<char>> {
    seq!["memory"@, name + ".md"@]
}

/// What the file of a topic holds after a dream as of `as_of`, from what it
/// held before, if it was there.
pub open spec fn topic_text(
    existing: Option<Seq<char>>,
    as_of: JournalDate,
    memory: (Seq<char>, Seq<char>),
) -> Seq<char> {
    match existing {
        Some(text) => trim_end(text) + "\n\n## "@ + date_text(as_of) + " (update)\n\n"@ + trim(
            memory.1,
        ) + "\n"@,
        None => "# "@ + memory.0 + "\n\n## "@ + date_text(as_of) + "\n\n"@ + trim(memory.1) + "\n"@,
    }
}

/// How the index links to the topic with the slug `name`.
pub open spec fn link(name: Seq<char>) -> Seq<char> {
    "(memory/"@ + name + ".md)"@
}

/// A line of the `index` holds the link to the slug `name`.
pub open spec fn links_to(index: Seq<char>, name: Seq<char>) -> bool {
    exists|i: int| 0 <= i < lines(index).len() && contains(#[trigger] lines(index)[i], link(name))
}

/// The `index` with a line for `entry`, unless it links to its slug already.
pub open spec fn with_pointer(
    index: Seq<char>,
    entry: (Seq<char>, (Seq<char>, Seq<char>)),
) -> Seq<char> {
    if links_to(index, entry.0) {
        index
    } else {
        let ended = if index.len() > 0 && index.last() == '\n' {
            index
        } else {
            index.push('\n')
        };
        ended + "- ["@ + entry.1.0 + "]"@ + link(entry.0) + "\n"@
    }
}

/// The `index` with a line for each of the `entries`.
pub open spec fn with_pointers(
    index: Seq<char>,
    entries: Seq<(Seq<char>, (Seq<char>, Seq<char>))>,
) -> Seq<char>
    decreases entries.len(),
{
    if entries.len() == 0 {
        index
    } else {
        with_pointer(with_pointers(index, entries.drop_last()), entries.last())
    }
}

/// What an index begins with.
pub const INDEX_HEAD: &'static str = "# MEMORY index\n\nDistilled memories. One line per topic.\n\n";

/// The index to begin with: what the file holds, if it is there.
pub open spec fn index_text(existing: Option<Seq<char>>) -> Seq<char> {
    match existing {
        Some(text) => text,
        None => INDEX_HEAD@,
    }
}

/// What the index must hold after the `entries` were written, or `None` where
/// it links to all of them already and stays as it is.
pub open spec fn index_update(
    existing: Option<Seq<char>>,
    entries: Seq<(Seq<char>, (Seq<char>, Seq<char>))>,
) -> Option<Seq<char>> {
    let before = index_text(existing);
    let after = with_pointers(before, entries);
    if after == before {
        None
    } else {
        Some(after)
    }
}

/// What an optional text holds.
pub open spec fn option_view(text: Option<String>) -> Option<Seq<char>> {
    match text {
        Some(text) => Some(text@),
        None => None,
    }
}

/// Directory holding distilled topic files.
pub fn memory_root() -> (path: StorePath)
    ensures
        path@ == seq!["memory"@],
{
    let path = StorePath::root().join("memory".to_string());
    assert(path@ =~= seq!["memory"@]);
    path
}

/// The index of the distilled memories.
pub fn memory_index_path() -> (path: StorePath)
    ensures
        path@ == seq!["MEMORY.md"@],
{
    let path = StorePath::root().join("MEMORY.md".to_string());
    assert(path@ =~= seq!["MEMORY.md"@]);
    path
}

/// The file of the topic with the slug `name`.
pub fn topic_path_for(name: &String) -> (path: StorePath)
    ensures
        path@ == topic_path(name@),
{
    let mut file = chars_of(name.as_str());
    append_str(&mut file, ".md");
    let path = memory_root().join(string_of(file.as_slice()));
    assert(path@ =~= topic_path(name@));
    path
}

/// Merges memories that slug-collide within a single run so that a later block
/// can never silently overwrite an earlier one. Insertion order is preserved.
pub fn merge_by_slug(memories: &[DistilledMemory]) -> (entries: Vec<(String, DistilledMemory)>)
    ensures
        entry_views(entries@) == merged(memory_views(memories@)),
{
    let mut entries: Vec<(String, DistilledMemory)> = Vec::new();
    let ghost all = memory_views(memories@);
    let mut i: usize = 0;
    assert(entry_views(entries@) =~= merged(all.take(0)));
    while i < memories.len()
        invariant
            i <= memories@.len(),
            all == memory_views(memories@),
            entry_views(entries@) == merged(all.take(i as int)),
            distinct_slugs(entry_views(entries@)),
        decreases memories@.len() - i,
    {
        let memory = &memories[i];
        let name = slugify(memory.topic.as_str());
        let ghost before = entry_views(entries@);
        assert(all.take(i + 1).drop_last() =~= all.take(i as int));
        assert(all.take(i + 1).last() == memory@);
        let mut at: usize = 0;
        while at < entries.len() && entries[at].0 != name
            invariant
                at <= entries@.len(),
                before == entry_views(entries@),
                forall|j: int| 0 <= j < at ==> (#[trigger] before[j]).0 != name@,
            decreases entries@.len() - at,
        {
            assert(before[at as int].0 == entries@[at as int].0@);
            at = at + 1;
        }
        if at < entries.len() {
            assert(before[at as int].0 == name@);
            let mut body = chars_of(entries[at].1.body.as_str());
            append_str(&mut body, "\n\n");
            append_str(&mut body, memory.body.as_str());
            let topic = entries[at].1.topic.clone();
            entries[at] = (name, DistilledMemory { topic, body: string_of(body.as_slice()) });
        } else {
            let copy = DistilledMemory { topic: memory.topic.clone(), body: memory.body.clone() };
            entries.push((name, copy));
        }
        proof {
            let after = merged(all.take(i + 1));
            assert(has_slug(before, name@) <==> at < before.len());
            assert(entry_views(entries@) =~= after);
        }
        i = i + 1;
    }
    assert(all.take(i as int) =~= all);
    entries
}

/// What the file of a topic holds after a dream as of `as_of`. If the file
/// already exists (a prior dream), the new body is appended under a dated
/// section so that chronology is preserved.
pub fn topic_contents(existing: &Option<String>, as_of: JournalDate, memory: &DistilledMemory) -> (r:
    String)
    ensures
        r@ == topic_text(option_view(*existing), as_of, memory@),
{
    let date = date_text_of(as_of);
    let body = chars_of(memory.body.as_str());
    let mut out: Vec<char> = Vec::new();
    match existing {
        Some(text) => {
            let text = chars_of(text.as_str());
            append(&mut out, trim_end_of(text.as_slice()));
            append_str(&mut out, "\n\n## ");
            append(&mut out, date.as_slice());
            append_str(&mut out, " (update)\n\n");
        },
        None => {
            append_str(&mut out, "# ");
            append_str(&mut out, memory.topic.as_str());
            append_str(&mut out, "\n\n## ");
            append(&mut out, date.as_slice());
            append_str(&mut out, "\n\n");
        },
    }
    append(&mut out, trim_of(body.as_slice()));
    append_str(&mut out, "\n");
    assert(out@ =~= topic_text(option_view(*existing), as_of, memory@));
    string_of(out.as_slice())
}

/// Tells whether a line of the `index` holds the link to the slug `name`.
fn is_linked(index: &[char], name: &String) -> (r: bool)
    ensures
        r == links_to(index@, name@),
{
    let mut wanted = chars_of("(memory/");
    append_str(&mut wanted, name.as_str());
    append_str(&mut wanted, ".md)");
    assert(wanted@ == link(name@));
    let all = lines_of(index);
    assert(views(all@) == lines(index@));
    let mut i: usize = 0;
    while i < all.len()
        invariant
            i <= all@.len(),
            views(all@) == lines(index@),
            wanted@ == link(name@),
            forall|j: int| 0 <= j < i ==> !contains(#[trigger] lines(index@)[j], link(name@)),
        decreases all@.len() - i,
    {
        assert(lines(index@)[i as int] == all@[i as int]@);
        if has(all[i].as_slice(), wanted.as_slice()) {
            return true;
        }
        i = i + 1;
    }
    false
}

/// What the index must hold after the `entries` were written: one pointer line
/// more for each slug that it does not link to yet. `None`: it stays as it is.
pub fn update_memory_index(
    existing: &Option<String>,
    entries: &Vec<(String, DistilledMemory)>,
) -> (r: Option<String>)
    ensures
        option_view(r) == index_update(option_view(*existing), entry_views(entries@)),
{
    let mut index = match existing {
        Some(text) => chars_of(text.as_str()),
        None => chars_of(INDEX_HEAD),
    };
    let ghost start = index@;
    let ghost all = entry_views(entries@);
    let mut changed: bool = false;
    let mut i: usize = 0;
    while i < entries.len()
        invariant
            i <= entries@.len(),
            all == entry_views(entries@),
            index@ == with_pointers(start, all.take(i as int)),
            index@.len() >= start.len(),
            changed ==> index@.len() > start.len(),
            !changed ==> index@ == start,
        decreases entries@.len() - i,
    {
        let ghost before = index@;
        let name = &entries[i].0;
        assert(all.take(i + 1).drop_last() =~= all.take(i as int));
        assert(all.take(i + 1).last() == (name@, entries@[i as int].1@));
        if !is_linked(index.as_slice(), name) {
            if index.len() == 0 || index[index.len() - 1] != '\n' {
                index.push('\n');
            }
            append_str(&mut index, "- [");
            append_str(&mut index, entries[i].1.topic.as_str());
            append_str(&mut index, "]");
            append_str(&mut index, "(memory/");
            append_str(&mut index, name.as_str());
            append_str(&mut index, ".md)");
            append_str(&mut index, "\n");
            changed = true;
            proof {
                reveal_strlit("\n");
                assert(index@ =~= with_pointer(before, all[i as int]));
            }
        }
        i = i + 1;
    }
    assert(all.take(i as int) =~= all);
    if changed {
        Some(string_of(index.as_slice()))
    } else {
        None
    }
}

/// The link to a slug is one piece of a line.
proof fn lemma_link_is_within_a_line(index: Seq<char>, name: Seq<char>)
    requires
        safe_name(name),
    ensures
        links_to(index, name) <==> contains(index, link(name)),
{
    let wanted = link(name);
    reveal_strlit("(memory/");
    reveal_strlit(".md)");
    assert forall|i: int| 0 <= i < wanted.len() implies wanted[i] != '\n' && wanted[i] != '\r' by {
        let head = "(memory/"@.len();
        if head <= i < head + name.len() {
            assert(wanted[i] == name[i - head]);
        }
    }
    lemma_contains_in_line(index, wanted);
}

/// An index with one more pointer begins with what it held, and links to the
/// slug.
proof fn lemma_pointer_is_there(
    index: Seq<char>,
    entry: (Seq<char>, (Seq<char>, Seq<char>)),
)
    requires
        safe_name(entry.0),
    ensures
        with_pointer(index, entry).len() >= index.len(),
        with_pointer(index, entry).take(index.len() as int) == index,
        contains(with_pointer(index, entry), link(entry.0)),
{
    let after = with_pointer(index, entry);
    lemma_link_is_within_a_line(index, entry.0);
    if !links_to(index, entry.0) {
        let wanted = link(entry.0);
        let end = after.len() - "\n"@.len();
        assert(after.subrange(end - wanted.len(), end) =~= wanted);
        assert(occurs_at(after, wanted, end - wanted.len()));
    }
    assert(after.take(index.len() as int) =~= index);
}

/// The slugs of all `entries` are safe names.
pub open spec fn safe_slugs(entries: Seq<(Seq<char>, (Seq<char>, Seq<char>))>) -> bool {
    forall|i: int| 0 <= i < entries.len() ==> safe_name((#[trigger] entries[i]).0)
}

/// Updating the index removes nothing: it begins with what it held.
pub proof fn law_index_only_grows(
    index: Seq<char>,
    entries: Seq<(Seq<char>, (Seq<char>, Seq<char>))>,
)
    ensures
        with_pointers(index, entries).len() >= index.len(),
        with_pointers(index, entries).take(index.len() as int) == index,
    decreases entries.len(),
{
    let after = with_pointers(index, entries);
    if entries.len() > 0 {
        let middle = with_pointers(index, entries.drop_last());
        law_index_only_grows(index, entries.drop_last());
        assert(after.take(middle.len() as int) =~= middle);
        assert(after.take(index.len() as int) =~= middle.take(index.len() as int));
    } else {
        assert(after.take(index.len() as int) =~= index);
    }
}

/// After an update the index links to every entry.
pub proof fn law_index_links_to_every_entry(
    index: Seq<char>,
    entries: Seq<(Seq<char>, (Seq<char>, Seq<char>))>,
    i: int,
)
    requires
        safe_slugs(entries),
        0 <= i < entries.len(),
    ensures
        links_to(with_pointers(index, entries), entries[i].0),
    decreases entries.len(),
{
    let middle = with_pointers(index, entries.drop_last());
    let after = with_pointers(index, entries);
    let last = entries.last();
    assert(safe_name(entries[entries.len() - 1].0));
    assert(safe_name(entries[i].0));
    lemma_pointer_is_there(middle, last);
    if i < entries.len() - 1 {
        law_index_links_to_every_entry(index, entries.drop_last(), i);
        lemma_link_is_within_a_line(middle, entries[i].0);
        lemma_contains_in_part(after, 0, middle.len() as int, link(entries[i].0));
    }
    lemma_link_is_within_a_line(after, entries[i].0);
}

/// Where the index links to every entry, it stays as it is.
proof fn lemma_linked_index_stays(
    index: Seq<char>,
    entries: Seq<(Seq<char>, (Seq<char>, Seq<char>))>,
)
    requires
        forall|i: int| 0 <= i < entries.len() ==> links_to(index, (#[trigger] entries[i]).0),
    ensures
        with_pointers(index, entries) == index,
    decreases entries.len(),
{
    if entries.len() > 0 {
        lemma_linked_index_stays(index, entries.drop_last());
        assert(links_to(index, entries[entries.len() - 1].0));
    }
}

/// The pointers are idempotent: once the entries were indexed, indexing
/// entries with the same slugs again, whatever their topics and bodies, changes nothing.
pub proof fn law_index_is_idempotent(
    index: Seq<char>,
    entries: Seq<(Seq<char>, (Seq<char>, Seq<char>))>,
    again: Seq<(Seq<char>, (Seq<char>, Seq<char>))>,
)
    requires
        safe_slugs(entries),
        forall|i: int| 0 <= i < again.len() ==> has_slug(entries, (#[trigger] again[i]).0),
    ensures
        with_pointers(with_pointers(index, entries), again) == with_pointers(index, entries),
        index_update(Some(with_pointers(index, entries)), again) is None,
{
    let after = with_pointers(index, entries);
    assert forall|i: int| 0 <= i < again.len() implies links_to(after, (#[trigger] again[i]).0) by {
        assert(has_slug(entries, again[i].0));
        let j = choose|j: int| 0 <= j < entries.len() && (#[trigger] entries[j]).0 == again[i].0;
        law_index_links_to_every_entry(index, entries, j);
    }
    lemma_linked_index_stays(after, again);
}

/// The bodies of the `memories` whose topics have the slug `name`, in order.
pub open spec fn bodies_of(memories: Seq<(Seq<char>, Seq<char>)>, name: Seq<char>) -> Seq<
    Seq<char>,
>
    decreases memories.len(),
{
    if memories.len() == 0 {
        Seq::empty()
    } else {
        let init = bodies_of(memories.drop_last(), name);
        if slug(memories.last().0) == name {
            init.push(memories.last().1)
        } else {
            init
        }
    }
}

/// Merging gives one entry for each slug that occurs; all slugs are safe names.
pub proof fn law_merge_has_each_slug_once(memories: Seq<(Seq<char>, Seq<char>)>)
    ensures
        distinct_slugs(merged(memories)),
        safe_slugs(merged(memories)),
        forall|i: int| 0 <= i < memories.len() ==> has_slug(merged(memories), slug((#[trigger] memories[i]).0)),
        merged(memories).len() <= memories.len(),
        memories.len() > 0 ==> merged(memories).len() > 0,
    decreases memories.len(),
{
    if memories.len() > 0 {
        let init = merged(memories.drop_last());
        let after = merged(memories);
        let name = slug(memories.last().0);
        law_merge_has_each_slug_once(memories.drop_last());
        law_slug_is_safe(memories.last().0);
        assert forall|i: int| 0 <= i < memories.len() implies has_slug(
            after,
            slug((#[trigger] memories[i]).0),
        ) by {
            let wanted = slug(memories[i].0);
            if has_slug(init, wanted) {
                let j = choose|j: int| 0 <= j < init.len() && (#[trigger] init[j]).0 == wanted;
                assert(after[j].0 == wanted);
            } else if i < memories.len() - 1 {
                assert(memories.drop_last()[i] == memories[i]);
            } else {
                assert(after[init.len() as int].0 == wanted);
            }
        }
        assert forall|i: int| 0 <= i < after.len() implies safe_name((#[trigger] after[i]).0) by {
            if i < init.len() {
                assert(after[i].0 == init[i].0);
            }
        }
        assert forall|i: int, j: int| 0 <= i < j < after.len() implies (#[trigger] after[i]).0 != (
        #[trigger] after[j]).0 by {
            assert(after[i].0 == init[i].0);
            if j < init.len() {
                assert(after[j].0 == init[j].0);
            }
        }
    }
}

/// Merging loses no body: the body of an entry is all the bodies of its slug,
/// in order, with an empty line between each two.
pub proof fn law_merge_keeps_every_body(memories: Seq<(Seq<char>, Seq<char>)>, i: int)
    requires
        0 <= i < merged(memories).len(),
    ensures
        bodies_of(memories, merged(memories)[i].0).len() > 0,
        merged(memories)[i].1.1 == join(bodies_of(memories, merged(memories)[i].0), "\n\n"@),
    decreases memories.len(),
{
    let init = merged(memories.drop_last());
    let after = merged(memories);
    let name = slug(memories.last().0);
    if i < init.len() {
        law_merge_keeps_every_body(memories.drop_last(), i);
        let bodies = bodies_of(memories.drop_last(), init[i].0);
        assert(after[i].0 == init[i].0);
        if init[i].0 == name {
            assert(has_slug(init, name));
            let all = bodies.push(memories.last().1);
            assert(all.drop_last() =~= bodies);
        }
    } else {
        lemma_no_bodies_without_slug(memories.drop_last(), name);
        assert(bodies_of(memories, name) =~= seq![memories.last().1]);
    }
}

/// A slug that no entry has, no memory has.
proof fn lemma_no_bodies_without_slug(memories: Seq<(Seq<char>, Seq<char>)>, name: Seq<char>)
    requires
        !has_slug(merged(memories), name),
    ensures
        bodies_of(memories, name).len() == 0,
    decreases memories.len(),
{
    if memories.len() > 0 {
        let init = merged(memories.drop_last());
        let after = merged(memories);
        if has_slug(init, name) {
            let j = choose|j: int| 0 <= j < init.len() && (#[trigger] init[j]).0 == name;
            assert(after[j].0 == name);
        }
        if slug(memories.last().0) == name {
            assert(after[init.len() as int].0 == name);
        }
        lemma_no_bodies_without_slug(memories.drop_last(), name);
    }
}

/// The topic and the place of an entry come from the first memory of its slug:
/// merging more memories only adds entries behind, and bodies behind bodies.
pub proof fn law_merge_keeps_order_and_topics(
    memories: Seq<(Seq<char>, Seq<char>)>,
    more: (Seq<char>, Seq<char>),
    i: int,
)
    requires
        0 <= i < merged(memories).len(),
    ensures
        i < merged(memories.push(more)).len(),
        merged(memories.push(more))[i] == extended(merged(memories)[i], slug(more.0), more.1),
        !has_slug(merged(memories), slug(more.0)) ==> merged(memories.push(more)) == merged(
            memories,
        ).push((slug(more.0), more)),
{
    assert(memories.push(more).drop_last() =~= memories);
}

/// A dream never destroys what a topic's file held: but for white space at its
/// end, the new text begins with the old.
pub proof fn law_topic_file_is_appended_to(
    text: Seq<char>,
    as_of: JournalDate,
    memory: (Seq<char>, Seq<char>),
)
    ensures
        ({
            let after = topic_text(Some(text), as_of, memory);
            &&& trim_end(text).len() <= after.len()
            &&& after.take(trim_end(text).len() as int) == trim_end(text)
            &&& contains(after, date_text(as_of))
            &&& contains(after, trim(memory.1))
        }),
{
    let after = topic_text(Some(text), as_of, memory);
    let kept = trim_end(text);
    assert(after.take(kept.len() as int) =~= kept);
    let at = kept.len() + "\n\n## "@.len();
    assert(after.subrange(at as int, (at + date_text(as_of).len()) as int) =~= date_text(as_of));
    assert(occurs_at(after, date_text(as_of), at as int));
    let body = trim(memory.1);
    let end = after.len() - "\n"@.len();
    assert(after.subrange(end - body.len(), end) =~= body);
    assert(occurs_at(after, body, end - body.len()));
}

/// A topic's file is named for its slug, and the link to the slug names that
/// file: the link is the file's path in brackets.
pub proof fn law_link_names_the_file(name: Seq<char>)
    ensures
        topic_path(name).len() == 2,
        topic_path(name)[0] == "memory"@,
        topic_path(name)[1] == name + ".md"@,
        link(name) == seq!['('] + join(topic_path(name), seq!['/']) + seq![')'],
{
    let path = topic_path(name);
    reveal_strlit("(memory/");
    reveal_strlit("memory");
    reveal_strlit(".md)");
    reveal_strlit(".md");
    assert(path.drop_last() =~= seq!["memory"@]);
    assert(join(path, seq!['/']) == join(path.drop_last(), seq!['/']) + seq!['/'] + path[1]);
    assert("(memory/"@ =~= seq!['('] + "memory"@ + seq!['/']);
    assert(".md)"@ =~= ".md"@ + seq![')']);
    assert(link(name) =~= seq!['('] + join(path, seq!['/']) + seq![')']);
}

/// Different slugs have different files and different links.
pub proof fn law_slugs_do_not_share_files(a: Seq<char>, b: Seq<char>)
    requires
        a != b,
    ensures
        topic_path(a) != topic_path(b),
        link(a) != link(b),
{
    if topic_path(a) == topic_path(b) {
        let (x, y) = (topic_path(a)[1], topic_path(b)[1]);
        assert(x == y);
        assert(x.len() == a.len() + ".md"@.len() && y.len() == b.len() + ".md"@.len());
        assert(a =~= x.take(a.len() as int));
        assert(b =~= y.take(b.len() as int));
    }
    if link(a) == link(b) {
        let (x, y) = (link(a), link(b));
        let n = "(memory/"@.len() as int;
        assert(x.len() == n + a.len() + ".md)"@.len() && y.len() == n + b.len() + ".md)"@.len());
        assert(a =~= x.subrange(n, n + a.len()));
        assert(b =~= y.subrange(n, n + b.len()));
    }
}

/// The index links to a slug if the link stands in it anywhere.
pub proof fn law_index_links_where_the_link_stands(index: Seq<char>, name: Seq<char>)
    requires
        safe_name(name),
    ensures
        links_to(index, name) <==> contains(index, link(name)),
{
    lemma_link_is_within_a_line(index, name);
}

/// An index that does not hold the link to a slug gains one line for it, with
/// the topic and the link; the line begins behind what the index held. One that
/// holds the link stays as it is.
pub proof fn law_missing_pointer_is_one_new_line(
    index: Seq<char>,
    entry: (Seq<char>, (Seq<char>, Seq<char>)),
)
    ensures
        ({
            let line = seq!['-', ' ', '['] + entry.1.0 + seq![']', '('] + join(
                topic_path(entry.0),
                seq!['/'],
            ) + seq![')', '\n'];
            &&& links_to(index, entry.0) ==> with_pointer(index, entry) == index
            &&& !links_to(index, entry.0) && index.len() > 0 && index.last() == '\n'
                ==> with_pointer(index, entry) == index + line
            &&& !links_to(index, entry.0) && !(index.len() > 0 && index.last() == '\n')
                ==> with_pointer(index, entry) == index + seq!['\n'] + line
        }),
{
    reveal_strlit("- [");
    reveal_strlit("]");
    reveal_strlit("\n");
    law_link_names_the_file(entry.0);
    let path = join(topic_path(entry.0), seq!['/']);
    let line = seq!['-', ' ', '['] + entry.1.0 + seq![']', '('] + path + seq![')', '\n'];
    if !links_to(index, entry.0) {
        if index.len() > 0 && index.last() == '\n' {
            assert(with_pointer(index, entry) =~= index + line);
        } else {
            assert(with_pointer(index, entry) =~= index + seq!['\n'] + line);
        }
    }
}

/// The entries are indexed one after the other, in order.
pub proof fn law_index_is_updated_entry_by_entry(
    index: Seq<char>,
    entries: Seq<(Seq<char>, (Seq<char>, Seq<char>))>,
    more: (Seq<char>, (Seq<char>, Seq<char>)),
)
    ensures
        with_pointers(index, Seq::empty()) == index,
        with_pointers(index, entries.push(more)) == with_pointer(
            with_pointers(index, entries),
            more,
        ),
{
    assert(entries.push(more).drop_last() =~= entries);
}

/// The index is written anew if and only if it lacks the link to one of the
/// entries; then it holds what it held, or its head where there was none, and
/// the missing pointers.
pub proof fn law_index_is_written_if_a_link_is_missing(
    existing: Option<Seq<char>>,
    entries: Seq<(Seq<char>, (Seq<char>, Seq<char>))>,
)
    requires
        safe_slugs(entries),
    ensures
        ({
            let before = match existing {
                Some(text) => text,
                None => INDEX_HEAD@,
            };
            &&& index_update(existing, entries) is None <==> forall|i: int|
                0 <= i < entries.len() ==> contains(before, link((#[trigger] entries[i]).0))
            &&& index_update(existing, entries) matches Some(text) ==> text == with_pointers(
                before,
                entries,
            )
        }),
{
    let before = index_text(existing);
    assert forall|i: int| 0 <= i < entries.len() implies links_to(before, (
    #[trigger] entries[i]).0) == contains(before, link(entries[i].0)) by {
        lemma_link_is_within_a_line(before, entries[i].0);
    }
    if forall|i: int|
        0 <= i < entries.len() ==> contains(before, link((#[trigger] entries[i]).0)) {
        lemma_linked_index_stays(before, entries);
    }
    if index_update(existing, entries) is None {
        assert forall|i: int| 0 <= i < entries.len() implies contains(
            before,
            link((#[trigger] entries[i]).0),
        ) by {
            law_index_links_to_every_entry(before, entries, i);
        }
    }
}

/// The file of a new topic is the topic as its heading, the date, and the whole
/// of the memory's body without white space at its ends.
pub proof fn law_new_topic_file_holds_the_memory(
    as_of: JournalDate,
    topic: Seq<char>,
    front: Seq<char>,
    body: Seq<char>,
    back: Seq<char>,
)
    requires
        all_white(front),
        all_white(back),
        body.len() > 0 ==> !white_space(body[0]) && !white_space(body.last()),
    ensures
        topic_text(None, as_of, (topic, front + body + back)) == seq!['#', ' '] + topic + seq![
            '\n',
            '\n',
            '#',
            '#',
            ' ',
        ] + date_text(as_of) + seq!['\n', '\n'] + body + seq!['\n'],
{
    reveal_strlit("# ");
    reveal_strlit("\n\n## ");
    reveal_strlit("\n\n");
    reveal_strlit("\n");
    lemma_trim_between_white(front, body, back);
    assert("# "@ =~= seq!['#', ' ']);
    assert("\n\n## "@ =~= seq!['\n', '\n', '#', '#', ' ']);
    assert("\n\n"@ =~= seq!['\n', '\n']);
    assert("\n"@ =~= seq!['\n']);
}

/// Where a topic's file exists, a dream adds to it one section with the date and
/// the whole of the memory's body, behind all that it held but white space at its
/// end.
pub proof fn law_known_topic_file_gains_a_section(
    held: Seq<char>,
    white: Seq<char>,
    as_of: JournalDate,
    topic: Seq<char>,
    front: Seq<char>,
    body: Seq<char>,
    back: Seq<char>,
)
    requires
        all_white(white),
        held.len() > 0 ==> !white_space(held.last()),
        all_white(front),
        all_white(back),
        body.len() > 0 ==> !white_space(body[0]) && !white_space(body.last()),
    ensures
        topic_text(Some(held + white), as_of, (topic, front + body + back)) == held + seq![
            '\n',
            '\n',
            '#',
            '#',
            ' ',
        ] + date_text(as_of) + " (update)"@ + seq!['\n', '\n'] + body + seq!['\n'],
{
    reveal_strlit("\n\n## ");
    reveal_strlit(" (update)\n\n");
    reveal_strlit(" (update)");
    reveal_strlit("\n");
    lemma_trim_between_white(front, body, back);
    lemma_end_trims_white_back(held, white);
    assert("\n\n## "@ =~= seq!['\n', '\n', '#', '#', ' ']);
    assert(" (update)\n\n"@ =~= " (update)"@ + seq!['\n', '\n']);
    assert("\n"@ =~= seq!['\n']);
    let heading = seq!['\n', '\n', '#', '#', ' '] + date_text(as_of);
    assert(topic_text(Some(held + white), as_of, (topic, front + body + back)) =~= held
        + heading + " (update)"@ + seq!['\n', '\n'] + body + seq!['\n']);
}

/// `j` is the first of the `memories` whose topic has the slug `name`.
pub open spec fn first_of_slug(
    memories: Seq<(Seq<char>, Seq<char>)>,
    name: Seq<char>,
    j: int,
) -> bool {
    &&& 0 <= j < memories.len()
    &&& slug(memories[j].0) == name
    &&& forall|k: int| 0 <= k < j ==> slug((#[trigger] memories[k]).0) != name
}

/// Every entry comes from a memory: its slug and topic are those of the first
/// memory of the slug. The entries stand in the order of these memories.
pub proof fn law_entries_come_from_first_memories(
    memories: Seq<(Seq<char>, Seq<char>)>,
) -> (firsts: Seq<int>)
    ensures
        firsts.len() == merged(memories).len(),
        forall|i: int|
            0 <= i < firsts.len() ==> first_of_slug(
                memories,
                merged(memories)[i].0,
                #[trigger] firsts[i],
            ) && merged(memories)[i].1.0 == memories[firsts[i]].0,
        forall|i: int, k: int| 0 <= i < k < firsts.len() ==> #[trigger] firsts[i]
            < #[trigger] firsts[k],
    decreases memories.len(),
{
    if memories.len() == 0 {
        Seq::empty()
    } else {
        let short = memories.drop_last();
        let init = merged(short);
        let after = merged(memories);
        let last = memories.len() - 1;
        let name = slug(memories.last().0);
        let firsts = law_entries_come_from_first_memories(short);
        assert forall|i: int| 0 <= i < init.len() implies first_of_slug(
            memories,
            init[i].0,
            #[trigger] firsts[i],
        ) by {
            assert(first_of_slug(short, init[i].0, firsts[i]));
            assert forall|k: int| 0 <= k < firsts[i] implies slug((#[trigger] memories[k]).0)
                != init[i].0 by {
                assert(memories[k] == short[k]);
            }
        }
        if has_slug(init, name) {
            assert forall|i: int| 0 <= i < init.len() implies (#[trigger] after[i]).0 == init[i].0
                && after[i].1.0 == init[i].1.0 by {}
            firsts
        } else {
            law_merge_has_each_slug_once(short);
            assert(first_of_slug(memories, name, last)) by {
                assert forall|k: int| 0 <= k < last implies slug((#[trigger] memories[k]).0)
                    != name by {
                    assert(memories[k] == short[k]);
                    assert(has_slug(init, slug(short[k].0)));
                }
            }
            assert(after[init.len() as int] == (name, memories.last()));
            firsts.push(last)
        }
    }
}

/// Merging loses no memory: the body of every memory stands in the body of the
/// entry of its slug.
pub proof fn law_merge_loses_no_memory(memories: Seq<(Seq<char>, Seq<char>)>, k: int) -> (i: int)
    requires
        0 <= k < memories.len(),
    ensures
        0 <= i < merged(memories).len(),
        merged(memories)[i].0 == slug(memories[k].0),
        contains(merged(memories)[i].1.1, memories[k].1),
    decreases memories.len(),
{
    let short = memories.drop_last();
    let init = merged(short);
    let after = merged(memories);
    let (topic, body) = memories.last();
    let name = slug(topic);
    if k < memories.len() - 1 {
        let i = law_merge_loses_no_memory(short, k);
        let (old, new) = (init[i].1.1, after[i].1.1);
        assert(new.take(old.len() as int) =~= old);
        let at = choose|at: int| occurs_at(old, memories[k].1, at);
        assert(new.subrange(at, at + memories[k].1.len()) =~= old.subrange(
            at,
            at + memories[k].1.len(),
        ));
        assert(occurs_at(new, memories[k].1, at));
        i
    } else if has_slug(init, name) {
        let i = choose|i: int| 0 <= i < init.len() && (#[trigger] init[i]).0 == name;
        let (old, new) = (init[i].1.1, after[i].1.1);
        assert(new == old + "\n\n"@ + body);
        let at = new.len() - body.len();
        assert(new.subrange(at, new.len() as int) =~= body);
        assert(occurs_at(new, body, at));
        i
    } else {
        let i = init.len() as int;
        assert(after[i] == (name, (topic, body)));
        assert(body.subrange(0, body.len() as int) =~= body);
        assert(occurs_at(body, body, 0));
        i
    }
}

/// Where a slug occurs again, no entry is added, its entry's body gains an empty
/// line and the new body, and every other entry stays as it is.
pub proof fn law_colliding_slug_extends_its_entry(
    memories: Seq<(Seq<char>, Seq<char>)>,
    more: (Seq<char>, Seq<char>),
    i: int,
)
    requires
        has_slug(merged(memories), slug(more.0)),
        0 <= i < merged(memories).len(),
    ensures
        ({
            let (before, after) = (merged(memories), merged(memories.push(more)));
            &&& after.len() == before.len()
            &&& after[i].0 == before[i].0
            &&& after[i].1.0 == before[i].1.0
            &&& before[i].0 != slug(more.0) ==> after[i].1.1 == before[i].1.1
            &&& before[i].0 == slug(more.0) ==> after[i].1.1 == before[i].1.1 + seq!['\n', '\n']
                + more.1
        }),
{
    reveal_strlit("\n\n");
    assert("\n\n"@ =~= seq!['\n', '\n']);
    assert(memories.push(more).drop_last() =~= memories);
}

/// Entries are seen whole, one by one, and so is a text that may be there.
pub proof fn law_entries_are_seen_whole(
    entries: Seq<(String, DistilledMemory)>,
    text: Option<String>,
    i: int,
)
    ensures
        entry_views(entries).len() == entries.len(),
        0 <= i < entries.len() ==> entry_views(entries)[i] == (
            entries[i].0@,
            (entries[i].1.topic@, entries[i].1.body@),
        ),
        option_view(text) is Some <==> text is Some,
        text matches Some(text) ==> option_view(Some(text)) == Some(text@),
{
}

/// The index links to a slug if one of its lines holds the link.
pub proof fn law_index_links_where_a_line_does(index: Seq<char>, name: Seq<char>)
    ensures
        links_to(index, name) <==> exists|i: int|
            0 <= i < lines(index).len() && contains(
                #[trigger] lines(index)[i],
                seq!['('] + join(topic_path(name), seq!['/']) + seq![')'],
            ),
{
    law_link_names_the_file(name);
}

} // verus!
