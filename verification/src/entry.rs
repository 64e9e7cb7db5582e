//! The line on which a session keeps a message: how it is written and read.
use vstd::prelude::*;
use vstd::slice::slice_subrange;

use crate::history::{content_views, is_entry_line, ContentEntry, EntryView, HistoryEntry};
use crate::json::{
    is_literal_for, json_parse, json_write, literal_end, literal_of, parse_json, Json, JsonTree,
};
use crate::text::{
    chars_of, join, law_parts_are_put_together, same_chars, starts_with_chars, string_of, trim_end,
    trim_start,
};

verus! {

/// A text as it stands among the contents of a line.
pub open spec fn item_text(text: Seq<char>) -> Seq<char> {
    "{\"type\":\"text\",\"text\":"@ + json_write(JsonTree::Text(text)) + "}"@
}

/// The contents of a line.
pub open spec fn items_text(content: Seq<Seq<char>>) -> Seq<char>
    decreases content.len(),
{
    if content.len() == 0 {
        Seq::empty()
    } else if content.len() == 1 {
        item_text(content[0])
    } else {
        item_text(content[0]) + ","@ + items_text(content.drop_first())
    }
}

/// The line on which an entry is kept.
pub open spec fn entry_line(entry: EntryView) -> Seq<char> {
    "{\"role\":"@ + json_write(JsonTree::Text(entry.role)) + ",\"content\":["@ + items_text(
        entry.content,
    ) + "]}"@
}

/// What comes after `head` in a text that begins with it.
pub open spec fn after(s: Seq<char>, head: Seq<char>) -> Option<Seq<char>> {
    if head.is_prefix_of(s) {
        Some(s.skip(head.len() as int))
    } else {
        None
    }
}

/// What the JSON literal says that a text begins with, and what comes after it.
pub open spec fn read_literal(s: Seq<char>) -> Option<(Seq<char>, Seq<char>)> {
    let end = literal_end(s.skip(1)) as int;
    if s.len() > 1 && s[0] == '"' && end < s.len() - 1 {
        match json_parse(s.take(end + 2)) {
            Ok(JsonTree::Text(said)) => Some((said, s.skip(end + 2))),
            _ => None,
        }
    } else {
        None
    }
}

/// The first of the contents that a text begins with, and what comes after it.
pub open spec fn read_item(s: Seq<char>) -> Option<(Seq<char>, Seq<char>)> {
    match after(s, "{\"type\":\"text\",\"text\":"@) {
        Some(rest) => match read_literal(rest) {
            Some((text, rest)) => match after(rest, "}"@) {
                Some(rest) => Some((text, rest)),
                None => None,
            },
            None => None,
        },
        None => None,
    }
}

/// The contents that stand at the end of a line.
pub open spec fn read_items(s: Seq<char>) -> Option<Seq<Seq<char>>>
    decreases s.len(),
{
    match read_item(s) {
        Some((text, rest)) => if rest == "]}"@ {
            Some(seq![text])
        } else {
            match after(rest, ","@) {
                Some(rest) => match read_items(rest) {
                    Some(more) => Some(seq![text] + more),
                    None => None,
                },
                None => None,
            }
        },
        None => None,
    }
}

/// The entry that stands on a line that has the form in which lines are written.
pub open spec fn entry_on(line: Seq<char>) -> Option<EntryView> {
    match after(line, "{\"role\":"@) {
        Some(rest) => match read_literal(rest) {
            Some((role, rest)) => match after(rest, ",\"content\":["@) {
                Some(rest) => if rest == "]}"@ {
                    Some(EntryView { role, content: Seq::empty() })
                } else {
                    match read_items(rest) {
                        Some(content) => Some(EntryView { role, content }),
                        None => None,
                    }
                },
                None => None,
            },
            None => None,
        },
        None => None,
    }
}

/// The text is read back from the JSON literal for it.
pub open spec fn reads_back(text: Seq<char>) -> bool {
    is_literal_for(json_write(JsonTree::Text(text)), text)
}

/// Every text of an entry is read back from the JSON literal for it.
pub open spec fn entry_reads_back(entry: EntryView) -> bool {
    reads_back(entry.role) && forall|i: int|
        0 <= i < entry.content.len() ==> reads_back(#[trigger] entry.content[i])
}

proof fn lemma_literal_end(s: Seq<char>, more: Seq<char>)
    requires
        literal_end(s) < s.len(),
    ensures
        literal_end(s + more) == literal_end(s),
    decreases s.len(),
{
    if s[0] == '"' {
    } else if s[0] == '\\' && s.len() > 1 {
        lemma_literal_end(s.skip(2), more);
        assert((s + more).skip(2) =~= s.skip(2) + more);
    } else {
        lemma_literal_end(s.skip(1), more);
        assert((s + more).skip(1) =~= s.skip(1) + more);
    }
}

proof fn lemma_literal_is_read(text: Seq<char>, more: Seq<char>)
    requires
        reads_back(text),
    ensures
        read_literal(json_write(JsonTree::Text(text)) + more) == Some((text, more)),
{
    let literal = json_write(JsonTree::Text(text));
    let s = literal + more;
    lemma_literal_end(literal.skip(1), more);
    assert(s.skip(1) =~= literal.skip(1) + more);
    let end = literal_end(s.skip(1)) as int;
    assert(s.take(end + 2) =~= literal);
    assert(s.skip(end + 2) =~= more);
}

proof fn lemma_after(head: Seq<char>, more: Seq<char>)
    ensures
        after(head + more, head) == Some(more),
{
    assert((head + more).take(head.len() as int) =~= head);
    assert((head + more).skip(head.len() as int) =~= more);
}

proof fn lemma_item_is_read(text: Seq<char>, more: Seq<char>)
    requires
        reads_back(text),
    ensures
        read_item(item_text(text) + more) == Some((text, more)),
{
    let literal = json_write(JsonTree::Text(text));
    let head = "{\"type\":\"text\",\"text\":"@;
    assert(item_text(text) + more =~= head + (literal + ("}"@ + more)));
    lemma_after(head, literal + ("}"@ + more));
    lemma_literal_is_read(text, "}"@ + more);
    lemma_after("}"@, more);
}

proof fn lemma_regrouped(a: Seq<char>, b: Seq<char>, c: Seq<char>)
    ensures
        (a + b) + c == a + (b + c),
{
    assert((a + b) + c =~= a + (b + c));
}

proof fn lemma_next_item_is_read(s: Seq<char>, text: Seq<char>, more: Seq<char>)
    requires
        read_item(s) == Some((text, seq![','] + more)),
        read_items(more) is Some,
        more.len() < s.len(),
    ensures
        read_items(s) == Some(seq![text] + read_items(more)->0),
{
    let rest = seq![','] + more;
    reveal_strlit(",");
    reveal_strlit("]}");
    assert(","@ =~= seq![',']);
    assert(rest != "]}"@) by {
        assert(rest[0] == ',');
        assert("]}"@[0] == ']');
    }
    lemma_after(","@, more);
}

proof fn lemma_last_item_is_read(s: Seq<char>, text: Seq<char>)
    requires
        read_item(s) == Some((text, "]}"@)),
    ensures
        read_items(s) == Some(seq![text]),
{
}

proof fn lemma_items_are_read(content: Seq<Seq<char>>)
    requires
        content.len() > 0,
        forall|i: int| 0 <= i < content.len() ==> reads_back(#[trigger] content[i]),
    ensures
        read_items(items_text(content) + "]}"@) == Some(content),
    decreases content.len(),
{
    let first = content[0];
    assert(reads_back(content[0]));
    if content.len() == 1 {
        lemma_item_is_read(first, "]}"@);
        lemma_last_item_is_read(items_text(content) + "]}"@, first);
        assert(seq![first] =~= content);
    } else {
        let rest = content.drop_first();
        assert forall|i: int| 0 <= i < rest.len() implies reads_back(#[trigger] rest[i]) by {
            assert(reads_back(content[i + 1]));
        }
        lemma_items_are_read(rest);
        let more = items_text(rest) + "]}"@;
        let s = items_text(content) + "]}"@;
        lemma_items_go_on(content);
        lemma_item_is_read(first, seq![','] + more);
        lemma_next_item_is_read(s, first, more);
        assert(seq![first] + rest =~= content);
    }
}

proof fn lemma_items_go_on(content: Seq<Seq<char>>)
    requires
        content.len() > 1,
    ensures
        items_text(content) + "]}"@ == item_text(content[0]) + (seq![','] + (items_text(
            content.drop_first(),
        ) + "]}"@)),
        items_text(content.drop_first()).len() < items_text(content).len(),
{
    reveal_strlit(",");
    assert(","@ =~= seq![',']);
    let first = item_text(content[0]);
    let rest = items_text(content.drop_first());
    lemma_line_is_put_together(first, seq![','], rest, "]}"@, Seq::empty());
    lemma_regrouped(first + seq![','], rest, "]}"@);
    lemma_regrouped(first, seq![','], rest + "]}"@);
}

/// The line on which an entry is kept gives the entry back, where each of its texts
/// is read back from its literal.
pub proof fn law_line_gives_entry_back(entry: EntryView)
    requires
        entry_reads_back(entry),
    ensures
        entry_on(entry_line(entry)) == Some(entry),
{
    let role = json_write(JsonTree::Text(entry.role));
    let items = items_text(entry.content) + "]}"@;
    let rest = ",\"content\":["@ + items;
    assert(entry_line(entry) =~= "{\"role\":"@ + (role + rest));
    lemma_after("{\"role\":"@, role + rest);
    lemma_literal_is_read(entry.role, rest);
    lemma_after(",\"content\":["@, items);
    if entry.content.len() == 0 {
        assert(items =~= "]}"@);
        assert(entry.content =~= Seq::empty());
    } else {
        lemma_items_are_read(entry.content);
        assert(items != "]}"@) by {
            reveal_strlit("{\"type\":\"text\",\"text\":");
            reveal_strlit("]}");
            assert(items[0] == '{');
            assert("]}"@[0] == ']');
        }
    }
}

/// No character is below a space.
spec fn is_plain(s: Seq<char>) -> bool {
    forall|i: int| 0 <= i < s.len() ==> #[trigger] s[i] >= ' '
}

proof fn lemma_items_are_plain(content: Seq<Seq<char>>)
    requires
        forall|i: int| 0 <= i < content.len() ==> reads_back(#[trigger] content[i]),
    ensures
        is_plain(items_text(content)),
    decreases content.len(),
{
    reveal_strlit("{\"type\":\"text\",\"text\":");
    reveal_strlit("}");
    reveal_strlit(",");
    if content.len() > 0 {
        assert(reads_back(content[0]));
        assert(is_plain(item_text(content[0])));
        let rest = content.drop_first();
        assert forall|i: int| 0 <= i < rest.len() implies reads_back(#[trigger] rest[i]) by {
            assert(reads_back(content[i + 1]));
        }
        lemma_items_are_plain(rest);
    }
}

/// An entry takes one line, which is not blank.
pub proof fn law_entry_takes_one_line(entry: EntryView)
    requires
        entry_reads_back(entry),
    ensures
        is_entry_line(entry_line(entry)),
{
    reveal_strlit("{\"role\":");
    reveal_strlit(",\"content\":[");
    reveal_strlit("]}");
    lemma_items_are_plain(entry.content);
    let line = entry_line(entry);
    assert(is_plain(line));
    assert(line[0] == '{');
    assert(line.last() == '}');
    assert(trim_start(line) == line);
    assert(trim_end(line) == line);
}

fn skip_head<'a>(s: &'a [char], head: &str) -> (rest: Option<&'a [char]>)
    ensures
        match rest {
            Some(rest) => after(s@, head@) == Some(rest@),
            None => after(s@, head@) is None,
        },
{
    let wanted = chars_of(head);
    if starts_with_chars(s, wanted.as_slice()) {
        let rest = slice_subrange(s, wanted.len(), s.len());
        assert(rest@ =~= s@.skip(head@.len() as int));
        Some(rest)
    } else {
        None
    }
}

fn find_literal_end(s: &[char]) -> (end: usize)
    ensures
        end == literal_end(s@),
        end <= s@.len(),
{
    let mut i: usize = 0;
    assert(s@.skip(0) =~= s@);
    while i < s.len() && s[i] != '"'
        invariant
            i <= s@.len(),
            literal_end(s@) == i + literal_end(s@.skip(i as int)),
        decreases s@.len() - i,
    {
        let ghost rest = s@.skip(i as int);
        if s[i] == '\\' && s.len() - i > 1 {
            assert(rest.skip(2) =~= s@.skip(i + 2));
            i += 2;
        } else {
            assert(rest.skip(1) =~= s@.skip(i + 1));
            i += 1;
        }
    }
    i
}

fn take_literal<'a>(s: &'a [char]) -> (found: Option<(String, &'a [char])>)
    ensures
        match found {
            Some((said, rest)) => read_literal(s@) == Some((said@, rest@)),
            None => read_literal(s@) is None,
        },
{
    let total: usize = s.len();
    if total < 2 || s[0] != '"' {
        return None;
    }
    let inner = slice_subrange(s, 1, total);
    assert(inner@ =~= s@.skip(1));
    let end: usize = find_literal_end(inner);
    if end >= total - 1 {
        return None;
    }
    let literal = string_of(slice_subrange(s, 0, end + 2));
    assert(literal@ =~= s@.take(end + 2));
    match parse_json(literal.as_str()) {
        Ok(Json::String(said)) => {
            let rest = slice_subrange(s, end + 2, total);
            assert(rest@ =~= s@.skip(end + 2));
            Some((said, rest))
        },
        _ => None,
    }
}

fn take_item<'a>(s: &'a [char]) -> (found: Option<(String, &'a [char])>)
    ensures
        match found {
            Some((text, rest)) => read_item(s@) == Some((text@, rest@)),
            None => read_item(s@) is None,
        },
{
    match skip_head(s, "{\"type\":\"text\",\"text\":") {
        Some(rest) => match take_literal(rest) {
            Some((text, rest)) => match skip_head(rest, "}") {
                Some(rest) => Some((text, rest)),
                None => None,
            },
            None => None,
        },
        None => None,
    }
}

/// Whether nothing comes after the contents but the end of the line.
fn is_line_end(s: &[char]) -> (end: bool)
    ensures
        end == (s@ == "]}"@),
{
    let wanted = chars_of("]}");
    same_chars(s, wanted.as_slice())
}

fn take_items(s: &[char]) -> (content: Option<Vec<ContentEntry>>)
    ensures
        match content {
            Some(content) => read_items(s@) == Some(content_views(content@)),
            None => read_items(s@) is None,
        },
{
    let mut content: Vec<ContentEntry> = Vec::new();
    let mut rest: &[char] = s;
    assert(content_views(content@) =~= Seq::empty());
    proof {
        if let Some(all) = read_items(s@) {
            assert(content_views(content@) + all =~= all);
        }
    }
    loop
        invariant
            match read_items(rest@) {
                Some(more) => read_items(s@) == Some(content_views(content@) + more),
                None => read_items(s@) is None,
            },
        decreases rest@.len(),
    {
        let ghost before = content_views(content@);
        match take_item(rest) {
            Some((text, tail)) => {
                let ghost said = text@;
                content.push(ContentEntry::Text { text });
                assert(content_views(content@) =~= before.push(said));
                if is_line_end(tail) {
                    assert(before + seq![said] =~= before.push(said));
                    return Some(content);
                }
                match skip_head(tail, ",") {
                    Some(next) => {
                        proof {
                            if let Some(more) = read_items(next@) {
                                assert(before + (seq![said] + more) =~= before.push(said) + more);
                            }
                        }
                        rest = next;
                    },
                    None => return None,
                }
            },
            None => return None,
        }
    }
}

/// The entry that stands on a line that has the form in which lines are written.
pub fn read_entry(line: &str) -> (entry: Option<HistoryEntry>)
    ensures
        match entry {
            Some(entry) => entry_on(line@) == Some(entry@),
            None => entry_on(line@) is None,
        },
{
    let chars = chars_of(line);
    let rest = match skip_head(chars.as_slice(), "{\"role\":") {
        Some(rest) => rest,
        None => return None,
    };
    let (role, rest) = match take_literal(rest) {
        Some(found) => found,
        None => return None,
    };
    let rest = match skip_head(rest, ",\"content\":[") {
        Some(rest) => rest,
        None => return None,
    };
    if is_line_end(rest) {
        let content: Vec<ContentEntry> = Vec::new();
        assert(content_views(content@) =~= Seq::empty());
        return Some(HistoryEntry { role, content });
    }
    match take_items(rest) {
        Some(content) => Some(HistoryEntry { role, content }),
        None => None,
    }
}

/// Adds the contents of a line.
fn push_items(line: &mut String, content: &Vec<ContentEntry>)
    ensures
        final(line)@ == old(line)@ + items_text(content_views(content@)),
        forall|i: int|
            0 <= i < content@.len() ==> reads_back(#[trigger] content_views(content@)[i]),
{
    let ghost all = content_views(content@);
    let ghost whole = line@ + items_text(all);
    let mut i: usize = 0;
    assert(all.skip(0) =~= all);
    while i < content.len()
        invariant
            all == content_views(content@),
            i <= content@.len(),
            line@ + items_text(all.skip(i as int)) == whole,
            forall|j: int| 0 <= j < i ==> reads_back(#[trigger] all[j]),
        decreases content@.len() - i,
    {
        let ghost rest = all.skip(i as int);
        let ghost before = line@;
        assert(rest[0] == content@[i as int]@);
        match &content[i] {
            ContentEntry::Text { text } => {
                let literal = literal_of(text.as_str());
                line.append("{\"type\":\"text\",\"text\":");
                line.append(literal.as_str());
                line.append("}");
                assert(line@ =~= before + item_text(text@));
            },
        }
        assert(rest.drop_first() =~= all.skip(i + 1));
        if i + 1 < content.len() {
            line.append(",");
        }
        assert(line@ + items_text(all.skip(i + 1)) =~= whole);
        i += 1;
    }
    assert(line@ =~= whole);
}

/// The line on which an entry is kept. Read again, it gives the entry back.
pub fn write_entry(entry: &HistoryEntry) -> (line: String)
    ensures
        line@ == entry_line(entry@),
        entry_reads_back(entry@),
        is_entry_line(line@),
        entry_on(line@) == Some(entry@),
{
    let role = literal_of(entry.role.as_str());
    let mut line = "{\"role\":".to_string();
    line.append(role.as_str());
    line.append(",\"content\":[");
    push_items(&mut line, &entry.content);
    line.append("]}");
    proof {
        law_entry_takes_one_line(entry@);
        law_line_gives_entry_back(entry@);
    }
    line
}

/// The line that holds a role and texts, each given by its JSON literal.
pub open spec fn line_with(role: Seq<char>, literals: Seq<Seq<char>>) -> Seq<char> {
    "{\"role\":"@ + role + ",\"content\":["@ + join(
        literals.map_values(
            |literal: Seq<char>| "{\"type\":\"text\",\"text\":"@ + literal + "}"@,
        ),
        seq![','],
    ) + "]}"@
}

/// A line is a JSON object with the role and the contents, each of which is an object
/// with its type and its text, with commas between them.
pub proof fn law_line_holds_role_and_texts(entry: EntryView)
    ensures
        entry_line(entry) == line_with(
            json_write(JsonTree::Text(entry.role)),
            entry.content.map_values(|text: Seq<char>| json_write(JsonTree::Text(text))),
        ),
{
    let literals = entry.content.map_values(|text: Seq<char>| json_write(JsonTree::Text(text)));
    lemma_items_are_joined(entry.content);
}

spec fn item_with(literal: Seq<char>) -> Seq<char> {
    "{\"type\":\"text\",\"text\":"@ + literal + "}"@
}

spec fn items_with(literals: Seq<Seq<char>>) -> Seq<char> {
    join(
        literals.map_values(
            |literal: Seq<char>| "{\"type\":\"text\",\"text\":"@ + literal + "}"@,
        ),
        seq![','],
    )
}

/// The first of the contents stands in front, with a comma behind it where others follow.
proof fn lemma_first_item(first: Seq<char>, rest: Seq<Seq<char>>)
    ensures
        items_with(seq![first] + rest) == if rest.len() == 0 {
            item_with(first)
        } else {
            item_with(first) + seq![','] + items_with(rest)
        },
{
    let wrap = |literal: Seq<char>| "{\"type\":\"text\",\"text\":"@ + literal + "}"@;
    let all = seq![first] + rest;
    let one = seq![item_with(first)];
    assert(all.map_values(wrap) =~= one + rest.map_values(wrap));
    law_parts_are_put_together(one, rest.map_values(wrap), seq![',']);
    if rest.len() == 0 {
        assert(one + rest.map_values(wrap) =~= one);
    }
}

proof fn lemma_items_are_joined(content: Seq<Seq<char>>)
    ensures
        items_text(content) == items_with(
            content.map_values(|text: Seq<char>| json_write(JsonTree::Text(text))),
        ),
    decreases content.len(),
{
    let write = |text: Seq<char>| json_write(JsonTree::Text(text));
    let literals = content.map_values(write);
    reveal_strlit(",");
    assert(","@ =~= seq![',']);
    if content.len() > 0 {
        let rest = content.drop_first();
        lemma_items_are_joined(rest);
        assert(literals =~= seq![literals[0]] + rest.map_values(write));
        lemma_first_item(literals[0], rest.map_values(write));
    } else {
        let wrap = |literal: Seq<char>| "{\"type\":\"text\",\"text\":"@ + literal + "}"@;
        assert(literals.map_values(wrap) =~= Seq::empty());
        assert(items_with(literals) =~= Seq::empty());
    }
}

/// Each literal is read as the text of the same index.
pub open spec fn are_read_as(literals: Seq<Seq<char>>, content: Seq<Seq<char>>) -> bool {
    &&& literals.len() == content.len()
    &&& forall|i: int|
        0 <= i < literals.len() ==> json_parse(#[trigger] literals[i]) == Ok::<
            JsonTree,
            Seq<char>,
        >(JsonTree::Text(content[i]))
}

/// A line on which an entry is found has the form in which lines are written, and its
/// literals are read as the role and the texts of the entry.
pub proof fn law_entry_is_only_found_on_its_form(line: Seq<char>, entry: EntryView)
    requires
        entry_on(line) == Some(entry),
    ensures
        exists|role: Seq<char>, literals: Seq<Seq<char>>|
            {
                &&& line == #[trigger] line_with(role, literals)
                &&& json_parse(role) == Ok::<JsonTree, Seq<char>>(JsonTree::Text(entry.role))
                &&& are_read_as(literals, entry.content)
            },
{
    let head = "{\"role\":"@;
    let middle = ",\"content\":["@;
    let rest = line.skip(head.len() as int);
    lemma_before_and_after(line, head);
    let end = literal_end(rest.skip(1)) as int;
    let role = rest.take(end + 2);
    let behind = rest.skip(end + 2);
    assert(rest =~= role + behind);
    lemma_before_and_after(behind, middle);
    let contents = behind.skip(middle.len() as int);
    if contents == "]}"@ {
        let none = Seq::<Seq<char>>::empty();
        let wrap = |literal: Seq<char>| "{\"type\":\"text\",\"text\":"@ + literal + "}"@;
        assert(none.map_values(wrap) =~= Seq::empty());
        assert(items_with(none) =~= Seq::empty());
        lemma_line_is_put_together(head, role, middle, items_with(none), "]}"@);
        assert(Seq::<char>::empty() + "]}"@ =~= "]}"@);
        assert(are_read_as(none, entry.content));
        assert(line == line_with(role, none));
    } else {
        let literals = lemma_items_have_their_form(contents);
        lemma_line_is_put_together(head, role, middle, items_with(literals), "]}"@);
        assert(line == line_with(role, literals));
    }
}

/// A text that begins with another is that one and what comes behind it.
proof fn lemma_before_and_after(s: Seq<char>, head: Seq<char>)
    requires
        after(s, head) is Some,
    ensures
        s == head + s.skip(head.len() as int),
{
    assert(s =~= head + s.skip(head.len() as int));
}

/// The first of the contents has its form, and what is read of the others is what is read
/// behind it.
proof fn lemma_item_has_its_form(s: Seq<char>) -> (literal: Seq<char>)
    requires
        read_item(s) is Some,
    ensures
        s == item_with(literal) + (read_item(s)->0).1,
        json_parse(literal) == Ok::<JsonTree, Seq<char>>(JsonTree::Text((read_item(s)->0).0)),
{
    let head = "{\"type\":\"text\",\"text\":"@;
    let tail = (read_item(s)->0).1;
    let rest = s.skip(head.len() as int);
    lemma_before_and_after(s, head);
    let end = literal_end(rest.skip(1)) as int;
    let literal = rest.take(end + 2);
    let behind = rest.skip(end + 2);
    assert(rest =~= literal + behind);
    lemma_before_and_after(behind, "}"@);
    lemma_regrouped(head, literal, "}"@ + tail);
    lemma_regrouped(head + literal, "}"@, tail);
    literal
}

/// Where more contents follow, they stand behind a comma.
proof fn lemma_more_items(s: Seq<char>) -> (next: Seq<char>)
    requires
        read_items(s) is Some,
        (read_item(s)->0).1 != "]}"@,
    ensures
        (read_item(s)->0).1 == seq![','] + next,
        read_items(next) is Some,
        read_items(s)->0 == seq![(read_item(s)->0).0] + read_items(next)->0,
        next.len() < s.len(),
{
    let tail = (read_item(s)->0).1;
    lemma_before_and_after(tail, ","@);
    reveal_strlit(",");
    assert(","@ =~= seq![',']);
    let literal = lemma_item_has_its_form(s);
    tail.skip(1)
}

proof fn lemma_items_have_their_form(s: Seq<char>) -> (literals: Seq<Seq<char>>)
    requires
        read_items(s) is Some,
    ensures
        s == items_with(literals) + "]}"@,
        are_read_as(literals, read_items(s)->0),
    decreases s.len(),
{
    let literal = lemma_item_has_its_form(s);
    let text = (read_item(s)->0).0;
    let tail = (read_item(s)->0).1;
    if tail == "]}"@ {
        let one = seq![literal];
        lemma_first_item(literal, Seq::empty());
        assert(one + Seq::empty() =~= one);
        lemma_last_item_is_read(s, text);
        one
    } else {
        let next = lemma_more_items(s);
        let more = lemma_items_have_their_form(next);
        let all = seq![literal] + more;
        lemma_some_items(next);
        lemma_first_item(literal, more);
        lemma_regrouped(seq![','], items_with(more), "]}"@);
        lemma_regrouped(item_with(literal), seq![','] + items_with(more), "]}"@);
        lemma_regrouped(item_with(literal), seq![','], items_with(more));
        let content = seq![text] + read_items(next)->0;
        assert forall|i: int| 0 <= i < all.len() implies json_parse(#[trigger] all[i]) == Ok::<
            JsonTree,
            Seq<char>,
        >(JsonTree::Text(content[i])) by {
            if i > 0 {
                assert(all[i] == more[i - 1]);
            }
        }
        all
    }
}

/// Where contents are read there is at least one.
proof fn lemma_some_items(s: Seq<char>)
    requires
        read_items(s) is Some,
    ensures
        (read_items(s)->0).len() > 0,
{
}

proof fn lemma_line_is_put_together(
    a: Seq<char>,
    b: Seq<char>,
    c: Seq<char>,
    d: Seq<char>,
    e: Seq<char>,
)
    ensures
        a + (b + (c + (d + e))) == a + b + c + d + e,
{
    assert(a + (b + (c + (d + e))) =~= a + b + c + d + e);
}

}
