//! The `patch_file` tool: applies a unified diff to the lines of a file.
use vstd::prelude::*;
use vstd::slice::slice_subrange;

use crate::json::{
    empty_object, field, get_text, json_parse, json_to_string, json_write, parse_json, text_field,
    text_json, text_trees, with_entry, Json, JsonTree,
};
use crate::plugin::{described_text, described_text_tree, object_schema, object_schema_tree};
use crate::text::{
    before_text, before_text_in, chars_of, decimal, decimal_of, find_char, find_char_in, find_text,
    is_digit, is_space, join, join_texts, law_character_is_found_first, law_decimal_is_read_back,
    lemma_decimal, lemma_find_char, lemma_first_char, lines, lines_of, occurs_at, parse_usize,
    parse_usize_error, quote, quoted, read_usize, starts_with, string_of, strip_repeated,
    strip_repeated_in, texts, trim, trim_chars, trim_end, trim_start, without_return,
};

verus! {

/// One hunk of a patch: where it begins, which lines it takes out and which
/// lines it puts in their place.
pub struct Hunk {
    pub old_start: usize,
    pub old_lines: Vec<String>,
    pub new_lines: Vec<String>,
}

pub struct HunkView {
    pub old_start: nat,
    pub old_lines: Seq<Seq<char>>,
    pub new_lines: Seq<Seq<char>>,
}

impl View for Hunk {
    type V = HunkView;

    open spec fn view(&self) -> HunkView {
        HunkView {
            old_start: self.old_start as nat,
            old_lines: texts(self.old_lines@),
            new_lines: texts(self.new_lines@),
        }
    }
}

pub open spec fn hunk_views(hunks: Seq<Hunk>) -> Seq<HunkView> {
    hunks.map_values(|h: Hunk| h@)
}

/// The part of a hunk header that gives the old range: what stands between the
/// first `@@` and the next, up to the first blank, without its minus signs.
pub open spec fn old_range(header: Seq<char>) -> Seq<char> {
    let inner = trim(before_text(trim(strip_repeated(header, "@@"@)), "@@"@));
    strip_repeated(inner.take(find_char(inner, ' ') as int), "-"@)
}

/// What a hunk header says: the line at which the hunk begins and how many
/// lines it takes out (one, where it does not say).
pub open spec fn header_numbers(header: Seq<char>) -> Result<(nat, nat), Seq<char>> {
    let range = old_range(header);
    let k = find_char(range, ',') as int;
    let start = range.take(k);
    let count = range.skip(k + 1);
    if parse_usize(start) is None {
        Err("bad line number: "@ + parse_usize_error(start))
    } else if k == range.len() {
        Ok((parse_usize(start)->0, 1))
    } else if parse_usize(count) is None {
        Err("bad count: "@ + parse_usize_error(count))
    } else {
        Ok((parse_usize(start)->0, parse_usize(count)->0))
    }
}

/// The line names a file and belongs to no hunk.
pub open spec fn is_file_line(line: Seq<char>) -> bool {
    "---"@.is_prefix_of(line) || "+++"@.is_prefix_of(line) || "diff "@.is_prefix_of(line)
}

/// The line ends the hunk before it.
pub open spec fn ends_hunk(line: Seq<char>) -> bool {
    "@@"@.is_prefix_of(line) || "diff "@.is_prefix_of(line)
}

/// How many lines there are before one that ends a hunk.
pub open spec fn body_len(rest: Seq<Seq<char>>) -> nat
    decreases rest.len(),
{
    if rest.len() == 0 || ends_hunk(rest.first()) {
        0
    } else {
        1 + body_len(rest.drop_first())
    }
}

pub proof fn lemma_body_len(rest: Seq<Seq<char>>)
    ensures
        body_len(rest) <= rest.len(),
    decreases rest.len(),
{
    if rest.len() > 0 && !ends_hunk(rest.first()) {
        lemma_body_len(rest.drop_first());
    }
}

/// The line is no content: it says that the line before it has no line feed.
pub open spec fn is_marker(line: Seq<char>) -> bool {
    line.len() > 0 && line.first() == '\\'
}

/// What a line of a hunk says of the old text.
pub open spec fn old_side(line: Seq<char>) -> Seq<Seq<char>> {
    if is_marker(line) || (line.len() > 0 && line.first() == '+') {
        seq![]
    } else if line.len() > 0 && (line.first() == '-' || line.first() == ' ') {
        seq![line.drop_first()]
    } else {
        seq![line]
    }
}

/// What a line of a hunk says of the new text.
pub open spec fn new_side(line: Seq<char>) -> Seq<Seq<char>> {
    if is_marker(line) || (line.len() > 0 && line.first() == '-') {
        seq![]
    } else if line.len() > 0 && (line.first() == '+' || line.first() == ' ') {
        seq![line.drop_first()]
    } else {
        seq![line]
    }
}

/// The old text that the lines of a hunk describe.
pub open spec fn old_text(body: Seq<Seq<char>>) -> Seq<Seq<char>>
    decreases body.len(),
{
    if body.len() == 0 {
        seq![]
    } else {
        old_text(body.drop_last()) + old_side(body.last())
    }
}

/// The new text that the lines of a hunk describe.
pub open spec fn new_text(body: Seq<Seq<char>>) -> Seq<Seq<char>>
    decreases body.len(),
{
    if body.len() == 0 {
        seq![]
    } else {
        new_text(body.drop_last()) + new_side(body.last())
    }
}

/// The hunks in the lines of a patch, or the message about the first header
/// that cannot be read.
pub open spec fn hunks_in(rest: Seq<Seq<char>>) -> Result<Seq<HunkView>, Seq<char>>
    decreases rest.len(),
{
    if rest.len() == 0 {
        Ok(seq![])
    } else if is_file_line(rest.first()) || !"@@"@.is_prefix_of(rest.first()) {
        hunks_in(rest.drop_first())
    } else {
        let after = rest.drop_first();
        let n = body_len(after) as int;
        proof {
            lemma_body_len(after);
        }
        match header_numbers(rest.first()) {
            Err(message) => Err(message),
            Ok((start, _)) => match hunks_in(after.skip(n)) {
                Err(message) => Err(message),
                Ok(more) => Ok(
                    seq![
                        HunkView {
                            old_start: start,
                            old_lines: old_text(after.take(n)),
                            new_lines: new_text(after.take(n)),
                        },
                    ] + more,
                ),
            },
        }
    }
}

/// The hunks of a patch. A patch without any is refused.
pub open spec fn patch_hunks(patch: Seq<char>) -> Result<Seq<HunkView>, Seq<char>> {
    match hunks_in(lines(patch)) {
        Ok(hunks) if hunks.len() == 0 => Err("no hunks found in patch"@),
        other => other,
    }
}

/// The index of the line at which a hunk begins.
pub open spec fn hunk_start(hunk: HunkView) -> nat {
    if hunk.old_start == 0 {
        0
    } else {
        (hunk.old_start - 1) as nat
    }
}

/// What comes of applying hunks.
pub enum Applied {
    /// The new lines.
    Done(Seq<Seq<char>>),
    /// The hunks do not fit the file; the message says why.
    Failed(Seq<char>),
    /// A hunk begins after the end of the file.
    OutOfRange,
}

pub open spec fn overlap_message(hunk: HunkView) -> Seq<char> {
    "overlapping hunks at line "@ + decimal(hunk.old_start)
}

pub open spec fn beyond_message(hunk: HunkView, total: nat) -> Seq<char> {
    "hunk extends beyond file (line "@ + decimal(hunk.old_start) + " + "@ + decimal(
        hunk.old_lines.len(),
    ) + " lines, file has "@ + decimal(total) + " lines)"@
}

pub open spec fn mismatch_message(
    line: nat,
    expected: Seq<char>,
    actual: Seq<char>,
) -> Seq<char> {
    "context mismatch at line "@ + decimal(line) + ": expected "@ + quoted(expected) + ", got "@
        + quoted(actual)
}

/// The index of the first line of `expected` that is not the line of `actual`
/// with the same index; the length if there is none.
pub open spec fn first_difference(actual: Seq<Seq<char>>, expected: Seq<Seq<char>>) -> nat
    decreases expected.len(),
{
    if expected.len() == 0 || actual.len() == 0 || actual.first() != expected.first() {
        0
    } else {
        1 + first_difference(actual.drop_first(), expected.drop_first())
    }
}

/// What applying `hunks` to a file gives for its lines from index `pos` on.
pub open spec fn apply_from(
    file: Seq<Seq<char>>,
    hunks: Seq<HunkView>,
    pos: int,
) -> Applied
    decreases hunks.len(),
{
    if hunks.len() == 0 {
        Applied::Done(file.skip(pos))
    } else {
        let hunk = hunks.first();
        let start = hunk_start(hunk) as int;
        let end = start + hunk.old_lines.len();
        let k = first_difference(file.skip(start), hunk.old_lines) as int;
        if start < pos {
            Applied::Failed(overlap_message(hunk))
        } else if start > file.len() {
            Applied::OutOfRange
        } else if end > file.len() {
            Applied::Failed(beyond_message(hunk, file.len()))
        } else if k < hunk.old_lines.len() {
            Applied::Failed(
                mismatch_message((start + k + 1) as nat, hunk.old_lines[k], file[start + k]),
            )
        } else {
            match apply_from(file, hunks.drop_first(), end) {
                Applied::Done(rest) => Applied::Done(
                    file.subrange(pos, start) + hunk.new_lines + rest,
                ),
                other => other,
            }
        }
    }
}

/// What applying `hunks` to the lines of `content` gives.
pub open spec fn applied(content: Seq<char>, hunks: Seq<HunkView>) -> Applied {
    apply_from(lines(content), hunks, 0)
}

/// New lines as a text. Where there are any, it ends in a line feed if `content`
/// did.
pub open spec fn as_content(new_lines: Seq<Seq<char>>, content: Seq<char>) -> Seq<char> {
    let body = join(new_lines, "\n"@);
    if new_lines.len() > 0 && content.len() > 0 && content.last() == '\n' {
        body.push('\n')
    } else {
        body
    }
}

/// Reads a hunk header of the form `@@ -START,COUNT +START,COUNT @@`.
pub fn parse_hunk_header(header: &str) -> (numbers: Result<(usize, usize), String>)
    ensures
        match numbers {
            Ok((start, count)) => header_numbers(header@) == Ok::<(nat, nat), Seq<char>>(
                (start as nat, count as nat),
            ),
            Err(message) => header_numbers(header@) == Err::<(nat, nat), Seq<char>>(message@),
        },
{
    let all = chars_of(header);
    let mark = chars_of("@@");
    let minus = chars_of("-");
    proof {
        reveal_strlit("@@");
        reveal_strlit("-");
    }
    let body = trim_chars(strip_repeated_in(all.as_slice(), mark.as_slice()));
    let inner = trim_chars(before_text_in(body, mark.as_slice()));
    let first = slice_subrange(inner, 0, find_char_in(inner, ' '));
    assert(first@ =~= inner@.take(find_char(inner@, ' ') as int));
    let range = strip_repeated_in(first, minus.as_slice());
    assert(range@ == old_range(header@));
    let k: usize = find_char_in(range, ',');
    let start_chars = slice_subrange(range, 0, k);
    assert(start_chars@ =~= range@.take(k as int));
    let start: usize = match read_usize(string_of(start_chars).as_str()) {
        Ok(n) => n,
        Err(e) => {
            let mut message = "bad line number: ".to_string();
            message.append(e.as_str());
            return Err(message);
        },
    };
    if k == range.len() {
        return Ok((start, 1));
    }
    let count_chars = slice_subrange(range, k + 1, range.len());
    assert(count_chars@ =~= range@.skip(k + 1));
    match read_usize(string_of(count_chars).as_str()) {
        Ok(count) => Ok((start, count)),
        Err(e) => {
            let mut message = "bad count: ".to_string();
            message.append(e.as_str());
            Err(message)
        },
    }
}

/// The hunks found so far, followed by those that are still to come.
spec fn followed_by(
    found: Seq<HunkView>,
    more: Result<Seq<HunkView>, Seq<char>>,
) -> Result<Seq<HunkView>, Seq<char>> {
    match more {
        Ok(hunks) => Ok(found + hunks),
        Err(message) => Err(message),
    }
}

/// Reads the lines of one hunk, from index `from` on, and says where they end.
fn parse_hunk_body(all: &Vec<String>, from: usize) -> (body: (Vec<String>, Vec<String>, usize))
    requires
        from <= all@.len(),
    ensures
        ({
            let rest = texts(all@).skip(from as int);
            let n = body_len(rest) as int;
            &&& body.2 == from + n
            &&& body.2 <= all@.len()
            &&& texts(body.0@) == old_text(rest.take(n))
            &&& texts(body.1@) == new_text(rest.take(n))
        }),
{
    let mut old_lines: Vec<String> = Vec::new();
    let mut new_lines: Vec<String> = Vec::new();
    let mut i: usize = from;
    let ghost rest = texts(all@).skip(from as int);
    assert(rest.skip(0) =~= rest);
    assert(texts(old_lines@) =~= old_text(rest.take(0)));
    assert(texts(new_lines@) =~= new_text(rest.take(0)));
    while i < all.len() && !starts_with(all[i].as_str(), "@@") && !starts_with(
        all[i].as_str(),
        "diff ",
    )
        invariant
            from <= i <= all@.len(),
            rest == texts(all@).skip(from as int),
            body_len(rest) == (i - from) + body_len(rest.skip(i - from)),
            texts(old_lines@) == old_text(rest.take(i - from)),
            texts(new_lines@) == new_text(rest.take(i - from)),
        decreases all@.len() - i,
    {
        let ghost k = i - from;
        let ghost line = all@[i as int]@;
        assert(rest[k] == line);
        assert(rest.skip(k).drop_first() =~= rest.skip(k + 1));
        assert(rest.take(k + 1).drop_last() =~= rest.take(k));
        let ghost before_old = texts(old_lines@);
        let ghost before_new = texts(new_lines@);
        let chars = chars_of(all[i].as_str());
        if chars.len() > 0 && chars[0] == '-' {
            old_lines.push(string_of(slice_subrange(chars.as_slice(), 1, chars.len())));
        } else if chars.len() > 0 && chars[0] == '+' {
            new_lines.push(string_of(slice_subrange(chars.as_slice(), 1, chars.len())));
        } else if chars.len() > 0 && chars[0] == ' ' {
            old_lines.push(string_of(slice_subrange(chars.as_slice(), 1, chars.len())));
            new_lines.push(string_of(slice_subrange(chars.as_slice(), 1, chars.len())));
        } else if chars.len() == 0 || chars[0] != '\\' {
            old_lines.push(all[i].clone());
            new_lines.push(all[i].clone());
        }
        assert(line.len() > 0 ==> line.drop_first() =~= chars@.subrange(1, chars@.len() as int));
        assert(texts(old_lines@) =~= before_old + old_side(line));
        assert(texts(new_lines@) =~= before_new + new_side(line));
        i += 1;
    }
    assert(i < all@.len() ==> rest.skip(i - from).first() == all@[i as int]@);
    (old_lines, new_lines, i)
}

/// Reads the hunks of a unified diff.
pub fn parse_hunks(patch: &str) -> (hunks: Result<Vec<Hunk>, String>)
    ensures
        match hunks {
            Ok(found) => patch_hunks(patch@) == Ok::<Seq<HunkView>, Seq<char>>(
                hunk_views(found@),
            ),
            Err(message) => patch_hunks(patch@) == Err::<Seq<HunkView>, Seq<char>>(message@),
        },
{
    let all = lines_of(patch);
    let ghost view = lines(patch@);
    let mut hunks: Vec<Hunk> = Vec::new();
    let mut i: usize = 0;
    assert(view.skip(0) =~= view);
    assert(followed_by(hunk_views(hunks@), hunks_in(view)) == hunks_in(view)) by {
        if let Ok(found) = hunks_in(view) {
            assert(hunk_views(hunks@) + found =~= found);
        }
    }
    while i < all.len()
        invariant
            view == texts(all@),
            view == lines(patch@),
            i <= all@.len(),
            hunks_in(view) == followed_by(hunk_views(hunks@), hunks_in(view.skip(i as int))),
        decreases all@.len() - i,
    {
        let line = all[i].as_str();
        let ghost rest = view.skip(i as int);
        assert(rest.first() == line@);
        assert(rest.drop_first() =~= view.skip(i + 1));
        let names_file = starts_with(line, "---") || starts_with(line, "+++") || starts_with(
            line,
            "diff ",
        );
        if names_file || !starts_with(line, "@@") {
            i += 1;
            continue ;
        }
        let numbers = parse_hunk_header(line);
        match numbers {
            Err(message) => {
                return Err(message);
            },
            Ok((old_start, _)) => {
                let (old_lines, new_lines, end) = parse_hunk_body(&all, i + 1);
                let ghost after = view.skip(i + 1);
                let ghost n = body_len(after) as int;
                let ghost before = hunk_views(hunks@);
                assert(after.skip(n) =~= view.skip(end as int));
                hunks.push(Hunk { old_start, old_lines, new_lines });
                proof {
                    let hunk = hunks@.last()@;
                    assert(hunk_views(hunks@) =~= before.push(hunk));
                    match hunks_in(view.skip(end as int)) {
                        Ok(more) => {
                            assert(before + (seq![hunk] + more) =~= hunk_views(hunks@) + more);
                        },
                        Err(_) => {},
                    }
                }
                i = end;
            },
        }
    }
    assert(view.skip(i as int) =~= Seq::empty());
    assert(hunk_views(hunks@) + Seq::empty() =~= hunk_views(hunks@));
    if hunks.len() == 0 {
        return Err("no hunks found in patch".to_string());
    }
    Ok(hunks)
}

/// The new lines found so far, followed by what is still to come.
spec fn with_lines(found: Seq<Seq<char>>, more: Applied) -> Applied {
    match more {
        Applied::Done(rest) => Applied::Done(found + rest),
        other => other,
    }
}

/// Copies the lines from index `from` up to index `to`.
fn copy_lines(out: &mut Vec<String>, from_lines: &Vec<String>, from: usize, to: usize)
    requires
        from <= to <= from_lines@.len(),
    ensures
        texts(final(out)@) == texts(old(out)@) + texts(from_lines@).subrange(
            from as int,
            to as int,
        ),
{
    let ghost start = texts(out@);
    let ghost all = texts(from_lines@);
    let mut i: usize = from;
    assert(start + all.subrange(from as int, from as int) =~= start);
    while i < to
        invariant
            from <= i <= to <= from_lines@.len(),
            all == texts(from_lines@),
            texts(out@) == start + all.subrange(from as int, i as int),
        decreases to - i,
    {
        let ghost before = texts(out@);
        out.push(from_lines[i].clone());
        assert(texts(out@) =~= before.push(all[i as int]));
        assert(texts(out@) =~= start + all.subrange(from as int, i + 1));
        i += 1;
    }
}

/// The index of the first line of `expected` that is not the line of `file` at
/// that index from `start` on.
fn find_difference(file: &Vec<String>, start: usize, expected: &Vec<String>) -> (k: usize)
    requires
        start + expected@.len() <= file@.len(),
    ensures
        k == first_difference(texts(file@).skip(start as int), texts(expected@)),
        k <= expected@.len(),
{
    let ghost actual = texts(file@).skip(start as int);
    let ghost wanted = texts(expected@);
    let total: usize = file.len();
    let mut i: usize = 0;
    assert(actual.skip(0) =~= actual);
    assert(wanted.skip(0) =~= wanted);
    while i < expected.len() && file[start + i] == expected[i]
        invariant
            start + expected@.len() <= total == file@.len(),
            actual == texts(file@).skip(start as int),
            wanted == texts(expected@),
            i <= expected@.len(),
            first_difference(actual, wanted) == i + first_difference(
                actual.skip(i as int),
                wanted.skip(i as int),
            ),
        decreases expected@.len() - i,
    {
        assert(actual.skip(i as int).drop_first() =~= actual.skip(i + 1));
        assert(wanted.skip(i as int).drop_first() =~= wanted.skip(i + 1));
        i += 1;
    }
    assert(i < expected@.len() ==> actual.skip(i as int).first() == file@[start + i]@);
    i
}

/// What comes of applying hunks to lines.
enum Outcome {
    Done(Vec<String>),
    Failed(String),
    OutOfRange,
}

impl View for Outcome {
    type V = Applied;

    closed spec fn view(&self) -> Applied {
        match self {
            Outcome::Done(new_lines) => Applied::Done(texts(new_lines@)),
            Outcome::Failed(message) => Applied::Failed(message@),
            Outcome::OutOfRange => Applied::OutOfRange,
        }
    }
}

fn apply_to_lines(file: &Vec<String>, hunks: &Vec<Hunk>) -> (outcome: Outcome)
    ensures
        outcome@ == apply_from(texts(file@), hunk_views(hunks@), 0),
{
    let ghost all = texts(file@);
    let ghost views = hunk_views(hunks@);
    let mut result: Vec<String> = Vec::new();
    let mut pos: usize = 0;
    let mut i: usize = 0;
    proof {
        assert(views.skip(0) =~= views);
        if let Applied::Done(rest) = apply_from(all, views, 0) {
            assert(texts(result@) + rest =~= rest);
        }
    }
    while i < hunks.len()
        invariant
            all == texts(file@),
            views == hunk_views(hunks@),
            i <= hunks@.len(),
            pos <= file@.len(),
            apply_from(all, views, 0) == with_lines(
                texts(result@),
                apply_from(all, views.skip(i as int), pos as int),
            ),
        decreases hunks@.len() - i,
    {
        let hunk = &hunks[i];
        let ghost view = views.skip(i as int).first();
        assert(view == hunk@);
        assert(views.skip(i as int).drop_first() =~= views.skip(i + 1));
        let start: usize = if hunk.old_start == 0 {
            0
        } else {
            hunk.old_start - 1
        };
        if start < pos {
            let mut message = "overlapping hunks at line ".to_string();
            message.append(decimal_of(hunk.old_start as u128).as_str());
            return Outcome::Failed(message);
        }
        if start > file.len() {
            return Outcome::OutOfRange;
        }
        if hunk.old_lines.len() > file.len() - start {
            let mut message = "hunk extends beyond file (line ".to_string();
            message.append(decimal_of(hunk.old_start as u128).as_str());
            message.append(" + ");
            message.append(decimal_of(hunk.old_lines.len() as u128).as_str());
            message.append(" lines, file has ");
            message.append(decimal_of(file.len() as u128).as_str());
            message.append(" lines)");
            return Outcome::Failed(message);
        }
        let end: usize = start + hunk.old_lines.len();
        let k: usize = find_difference(file, start, &hunk.old_lines);
        if k < hunk.old_lines.len() {
            let mut message = "context mismatch at line ".to_string();
            message.append(decimal_of((start + k) as u128 + 1).as_str());
            message.append(": expected ");
            message.append(quote(hunk.old_lines[k].as_str()).as_str());
            message.append(", got ");
            message.append(quote(file[start + k].as_str()).as_str());
            return Outcome::Failed(message);
        }
        let ghost found = texts(result@);
        copy_lines(&mut result, file, pos, start);
        copy_lines(&mut result, &hunk.new_lines, 0, hunk.new_lines.len());
        proof {
            let taken = texts(hunk.new_lines@);
            assert(taken.subrange(0, taken.len() as int) =~= taken);
            match apply_from(all, views.skip(i + 1), end as int) {
                Applied::Done(rest) => {
                    assert(found + (all.subrange(pos as int, start as int) + taken + rest)
                        =~= texts(result@) + rest);
                },
                _ => {},
            }
        }
        pos = end;
        i += 1;
    }
    assert(views.skip(i as int) =~= Seq::empty());
    copy_lines(&mut result, file, pos, file.len());
    assert(all.skip(pos as int) =~= all.subrange(pos as int, all.len() as int));
    Outcome::Done(result)
}

/// New lines as a text. Where there are any, it ends in a line feed if `content`
/// did.
fn content_of(new_lines: &Vec<String>, content: &str) -> (text: String)
    ensures
        text@ == as_content(texts(new_lines@), content@),
{
    let mut text = join_texts(new_lines, "\n");
    let chars = chars_of(content);
    if new_lines.len() > 0 && chars.len() > 0 && chars[chars.len() - 1] == '\n' {
        text.push('\n');
    }
    text
}

/// Applies hunks to a text. `None` where a hunk begins after the end of it.
pub fn try_apply_hunks(content: &str, hunks: &Vec<Hunk>) -> (patched: Option<
    Result<String, String>,
>)
    ensures
        match applied(content@, hunk_views(hunks@)) {
            Applied::Done(new_lines) => patched matches Some(Ok(text)) && text@ == as_content(
                new_lines,
                content@,
            ),
            Applied::Failed(message) => patched matches Some(Err(text)) && text@ == message,
            Applied::OutOfRange => patched is None,
        },
{
    let file = lines_of(content);
    match apply_to_lines(&file, hunks) {
        Outcome::Done(new_lines) => Some(Ok(content_of(&new_lines, content))),
        Outcome::Failed(message) => Some(Err(message)),
        Outcome::OutOfRange => None,
    }
}

/// Applies hunks to a text, none of which may begin after the end of it.
pub fn apply_hunks(content: &str, hunks: &Vec<Hunk>) -> (patched: Result<String, String>)
    requires
        !(applied(content@, hunk_views(hunks@)) is OutOfRange),
    ensures
        match applied(content@, hunk_views(hunks@)) {
            Applied::Done(new_lines) => patched matches Ok(text) && text@ == as_content(
                new_lines,
                content@,
            ),
            Applied::Failed(message) => patched matches Err(text) && text@ == message,
            Applied::OutOfRange => true,
        },
{
    match try_apply_hunks(content, hunks) {
        Some(patched) => patched,
        None => Err(String::new()),
    }
}

/// What the tool is asked to do.
pub struct PatchRequest {
    pub path: String,
    pub patch: String,
}

pub struct PatchRequestView {
    pub path: Seq<char>,
    pub patch: Seq<char>,
}

impl View for PatchRequest {
    type V = PatchRequestView;

    open spec fn view(&self) -> PatchRequestView {
        PatchRequestView { path: self.path@, patch: self.patch@ }
    }
}

/// The request in a JSON value, or the message that says what is missing.
pub open spec fn request_in(tree: JsonTree) -> Result<PatchRequestView, Seq<char>> {
    match (text_field(tree, "path"@), text_field(tree, "patch"@)) {
        (None, _) => Err("missing 'path'"@),
        (_, None) => Err("missing 'patch'"@),
        (Some(path), Some(patch)) => Ok(PatchRequestView { path, patch }),
    }
}

/// The request that a parsed input makes.
pub open spec fn parsed_request(input: Result<JsonTree, Seq<char>>) -> Result<
    PatchRequestView,
    Seq<char>,
> {
    match input {
        Ok(tree) => request_in(tree),
        Err(message) => Err("invalid JSON: "@ + message),
    }
}

/// Reads the request out of a JSON value.
pub fn request_from(json: &Json) -> (request: Result<PatchRequest, String>)
    ensures
        match request {
            Ok(r) => request_in(json.tree()) == Ok::<PatchRequestView, Seq<char>>(r@),
            Err(message) => request_in(json.tree()) == Err::<PatchRequestView, Seq<char>>(
                message@,
            ),
        },
{
    let path = match get_text(json, "path") {
        Some(text) => text.to_string(),
        None => {
            return Err("missing 'path'".to_string());
        },
    };
    match get_text(json, "patch") {
        Some(text) => Ok(PatchRequest { path, patch: text.to_string() }),
        None => Err("missing 'patch'".to_string()),
    }
}

/// Reads the request out of the JSON text that the tool gets.
pub fn parse_request(input: &str) -> (request: Result<PatchRequest, String>)
    ensures
        match request {
            Ok(r) => parsed_request(json_parse(input@)) == Ok::<PatchRequestView, Seq<char>>(r@),
            Err(message) => parsed_request(json_parse(input@)) == Err::<
                PatchRequestView,
                Seq<char>,
            >(message@),
        },
{
    match parse_json(input) {
        Ok(json) => request_from(&json),
        Err(e) => {
            let mut message = "invalid JSON: ".to_string();
            message.append(e.as_str());
            Err(message)
        },
    }
}

/// What a patch asks for.
pub enum Patched {
    /// The new content of the file, and what is reported once it is written.
    Write { content: String, report: String },
    /// The patch cannot be applied; the message says why.
    Failed(String),
    /// A hunk begins after the end of the file.
    OutOfRange,
}

pub enum PatchedView {
    Write { content: Seq<char>, report: Seq<char> },
    Failed(Seq<char>),
    OutOfRange,
}

impl View for Patched {
    type V = PatchedView;

    open spec fn view(&self) -> PatchedView {
        match self {
            Patched::Write { content, report } => PatchedView::Write {
                content: content@,
                report: report@,
            },
            Patched::Failed(message) => PatchedView::Failed(message@),
            Patched::OutOfRange => PatchedView::OutOfRange,
        }
    }
}

/// What reading a file gave: its content, or the message of the error.
pub open spec fn read_view(read: Result<String, String>) -> Result<Seq<char>, Seq<char>> {
    match read {
        Ok(content) => Ok(content@),
        Err(message) => Err(message@),
    }
}

/// What a request comes to. `read` is what reading the file gave.
pub open spec fn patched(
    request: PatchRequestView,
    read: Result<Seq<char>, Seq<char>>,
) -> PatchedView {
    match (read, patch_hunks(request.patch)) {
        (Err(message), _) => PatchedView::Failed(
            "failed to read "@ + request.path + ": "@ + message,
        ),
        (_, Err(message)) => PatchedView::Failed(message),
        (Ok(content), Ok(hunks)) => match applied(content, hunks) {
            Applied::Done(new_lines) => PatchedView::Write {
                content: as_content(new_lines, content),
                report: "Patched "@ + request.path + ": applied "@ + decimal(hunks.len())
                    + " hunk(s)"@,
            },
            Applied::Failed(message) => PatchedView::Failed(message),
            Applied::OutOfRange => PatchedView::OutOfRange,
        },
    }
}

/// Works out the new content of a file.
pub fn patch(request: &PatchRequest, read: Result<String, String>) -> (result: Patched)
    ensures
        result@ == patched(request@, read_view(read)),
{
    let content = match read {
        Ok(content) => content,
        Err(e) => {
            let mut message = "failed to read ".to_string();
            message.append(request.path.as_str());
            message.append(": ");
            message.append(e.as_str());
            return Patched::Failed(message);
        },
    };
    let hunks = match parse_hunks(request.patch.as_str()) {
        Ok(hunks) => hunks,
        Err(message) => {
            return Patched::Failed(message);
        },
    };
    match try_apply_hunks(content.as_str(), &hunks) {
        Some(Ok(new)) => {
            let mut report = "Patched ".to_string();
            report.append(request.path.as_str());
            report.append(": applied ");
            report.append(decimal_of(hunks.len() as u128).as_str());
            report.append(" hunk(s)");
            Patched::Write { content: new, report }
        },
        Some(Err(message)) => Patched::Failed(message),
        None => Patched::OutOfRange,
    }
}

/// What the tool says of itself.
pub open spec fn manifest_tree() -> JsonTree {
    JsonTree::Object(
        map![
            "name"@ => JsonTree::Text("patch_file"@),
            "description"@ => JsonTree::Text(
                "Apply a unified diff patch to a file. The patch should be in standard unified diff format (output of `diff -u` or `git diff`)."@
            ),
            "input_schema"@ => object_schema_tree(
                map![
                    "path"@ => described_text_tree("Path to the file to patch"@),
                    "patch"@ => described_text_tree(
                        "Unified diff patch content. Lines starting with '-' are removed, '+' are added, ' ' (space) are context."@
                    ),
                ],
                seq!["path"@, "patch"@],
            ),
        ],
    )
}

/// What the tool says of itself, as a JSON value.
pub fn manifest() -> (json: Json)
    ensures
        json.tree() == manifest_tree(),
{
    let properties = with_entry(
        with_entry(empty_object(), "path", described_text("Path to the file to patch")),
        "patch",
        described_text(
            "Unified diff patch content. Lines starting with '-' are removed, '+' are added, ' ' (space) are context.",
        ),
    );
    let required: Vec<&str> = vec!["path", "patch"];
    assert(required@.map_values(|s: &str| s@) =~= seq!["path"@, "patch"@]);
    with_entry(
        with_entry(
            with_entry(empty_object(), "name", text_json("patch_file")),
            "description",
            text_json(
                "Apply a unified diff patch to a file. The patch should be in standard unified diff format (output of `diff -u` or `git diff`).",
            ),
        ),
        "input_schema",
        object_schema(properties, &required),
    )
}

/// What the tool says of itself, as JSON text.
pub fn tool_manifest() -> (text: String)
    ensures
        text@ == json_write(manifest_tree()),
{
    json_to_string(&manifest())
}

proof fn lemma_no_difference(actual: Seq<Seq<char>>, expected: Seq<Seq<char>>)
    requires
        first_difference(actual, expected) >= expected.len(),
    ensures
        expected.len() <= actual.len(),
        actual.take(expected.len() as int) == expected,
    decreases expected.len(),
{
    if expected.len() > 0 {
        lemma_no_difference(actual.drop_first(), expected.drop_first());
        let n = expected.len() as int;
        let tail = actual.drop_first().take(n - 1);
        assert forall|i: int| 0 <= i < n implies actual.take(n)[i] == expected[i] by {
            if i > 0 {
                assert(tail[i - 1] == actual[i]);
                assert(expected.drop_first()[i - 1] == expected[i]);
            }
        }
        assert(actual.take(n) =~= expected);
    } else {
        assert(actual.take(0) =~= expected);
    }
}

proof fn lemma_same_has_no_difference(actual: Seq<Seq<char>>, expected: Seq<Seq<char>>)
    requires
        expected.is_prefix_of(actual),
    ensures
        first_difference(actual, expected) == expected.len(),
    decreases expected.len(),
{
    if expected.len() > 0 {
        assert(actual.first() == expected.first()) by {
            assert(actual.take(expected.len() as int)[0] == expected[0]);
        }
        assert(actual.drop_first().take(expected.len() - 1) =~= expected.drop_first()) by {
            assert(actual.take(expected.len() as int) =~= expected);
            assert forall|i: int| 0 <= i < expected.len() - 1 implies actual.drop_first().take(
                expected.len() - 1,
            )[i] == expected.drop_first()[i] by {
                assert(actual.take(expected.len() as int)[i + 1] == expected[i + 1]);
            }
        }
        assert(expected.drop_first().is_prefix_of(actual.drop_first()));
        lemma_same_has_no_difference(actual.drop_first(), expected.drop_first());
    }
}

proof fn lemma_context_only(file: Seq<Seq<char>>, hunks: Seq<HunkView>, pos: int)
    requires
        0 <= pos <= file.len(),
        forall|i: int|
            0 <= i < hunks.len() ==> (#[trigger] hunks[i]).old_lines == hunks[i].new_lines,
        apply_from(file, hunks, pos) is Done,
    ensures
        apply_from(file, hunks, pos) == Applied::Done(file.skip(pos)),
    decreases hunks.len(),
{
    if hunks.len() > 0 {
        let hunk = hunks.first();
        let start = hunk_start(hunk) as int;
        let end = start + hunk.old_lines.len();
        assert(hunks[0].old_lines == hunks[0].new_lines);
        lemma_no_difference(file.skip(start), hunk.old_lines);
        assert forall|i: int| 0 <= i < hunks.drop_first().len() implies (
        #[trigger] hunks.drop_first()[i]).old_lines == hunks.drop_first()[i].new_lines by {
            assert(hunks[i + 1].old_lines == hunks[i + 1].new_lines);
        }
        lemma_context_only(file, hunks.drop_first(), end);
        assert(file.skip(start).take(hunk.old_lines.len() as int) =~= file.subrange(start, end));
        assert(file.subrange(pos, start) + file.subrange(start, end) + file.skip(end)
            =~= file.skip(pos));
    }
}

/// A patch whose hunks put back the lines that they take out changes no line.
pub proof fn law_context_only_patch_changes_nothing(content: Seq<char>, hunks: Seq<HunkView>)
    requires
        forall|i: int|
            0 <= i < hunks.len() ==> (#[trigger] hunks[i]).old_lines == hunks[i].new_lines,
        applied(content, hunks) is Done,
    ensures
        applied(content, hunks) == Applied::Done(lines(content)),
{
    lemma_context_only(lines(content), hunks, 0);
    assert(lines(content).skip(0) =~= lines(content));
}

/// The hunk that takes out what `hunk` puts in.
pub open spec fn reversed(hunk: HunkView) -> HunkView {
    HunkView {
        old_start: hunk.old_start,
        old_lines: hunk.new_lines,
        new_lines: hunk.old_lines,
    }
}

/// Where a hunk applies, the reversed hunk applies to the result and gives back
/// the lines that there were.
pub proof fn law_reversed_hunk_restores(file: Seq<Seq<char>>, hunk: HunkView)
    requires
        apply_from(file, seq![hunk], 0) is Done,
    ensures
        apply_from(apply_from(file, seq![hunk], 0)->Done_0, seq![reversed(hunk)], 0)
            == Applied::Done(file),
{
    reveal_with_fuel(apply_from, 2);
    let start = hunk_start(hunk) as int;
    let end = start + hunk.old_lines.len();
    let back = reversed(hunk);
    assert(seq![hunk].drop_first() =~= Seq::empty());
    assert(seq![back].drop_first() =~= Seq::empty());
    lemma_no_difference(file.skip(start), hunk.old_lines);
    let result = file.subrange(0, start) + hunk.new_lines + file.skip(end);
    assert(apply_from(file, seq![hunk], 0) == Applied::Done(result));
    assert(result.skip(start).take(hunk.new_lines.len() as int) =~= hunk.new_lines);
    assert(hunk.new_lines.is_prefix_of(result.skip(start))) by {
        assert(result.skip(start).subrange(0, hunk.new_lines.len() as int) =~= hunk.new_lines);
    }
    lemma_same_has_no_difference(result.skip(start), hunk.new_lines);
    assert(file.skip(start).take(hunk.old_lines.len() as int) =~= file.subrange(start, end));
    assert(result.subrange(0, start) + hunk.old_lines + result.skip(
        start + hunk.new_lines.len(),
    ) =~= file);
}

proof fn lemma_join_first(first: Seq<char>, rest: Seq<Seq<char>>, separator: Seq<char>)
    requires
        rest.len() > 0,
    ensures
        join(seq![first] + rest, separator) == first + separator + join(rest, separator),
    decreases rest.len(),
{
    let all = seq![first] + rest;
    assert(all.last() == rest.last());
    if rest.len() == 1 {
        assert(all.drop_last() =~= seq![first]);
        assert(join(seq![first], separator) == first);
    } else {
        lemma_join_first(first, rest.drop_last(), separator);
        assert(all.drop_last() =~= seq![first] + rest.drop_last());
        assert(join(all, separator) =~= first + separator + join(rest, separator));
    }
}

/// A carriage return stands right before a line feed.
pub open spec fn has_return_before_feed(s: Seq<char>) -> bool {
    exists|i: int| 0 <= i < s.len() - 1 && #[trigger] s[i] == '\r' && s[i + 1] == '\n'
}

/// The lines of a text in which no line feed has a carriage return before it, put
/// together again, are that text.
pub proof fn law_lines_make_up_content(content: Seq<char>)
    requires
        !has_return_before_feed(content),
    ensures
        as_content(lines(content), content) == content,
    decreases content.len(),
{
    reveal_strlit("\n");
    let k = find_char(content, '\n') as int;
    lemma_find_char(content, '\n');
    if content.len() == 0 {
        assert(as_content(lines(content), content) =~= content);
    } else if k < content.len() {
        let line = content.take(k);
        let rest = content.skip(k + 1);
        assert(without_return(line) == line) by {
            if k > 0 {
                assert(line.last() == content[k - 1]);
            }
        }
        assert(content =~= line + seq!['\n'] + rest);
        lemma_no_return_behind(content, k + 1);
        law_lines_make_up_content(rest);
        if rest.len() == 0 {
            assert(lines(rest) =~= Seq::empty());
            assert(lines(content) =~= seq![line]);
            assert(as_content(lines(content), content) =~= content);
        } else {
            lemma_join_first(line, lines(rest), "\n"@);
            assert(rest.last() == content.last());
            assert(as_content(lines(content), content) =~= content);
        }
    } else {
        lemma_no_line_feed(content);
        assert(lines(content) =~= seq![content]);
        assert(as_content(lines(content), content) =~= content);
    }
}

proof fn lemma_no_line_feed(s: Seq<char>)
    requires
        find_char(s, '\n') == s.len(),
        s.len() > 0,
    ensures
        s.last() != '\n',
    decreases s.len(),
{
    if s.len() > 1 {
        lemma_no_line_feed(s.drop_first());
    }
}

proof fn lemma_one_line(line: Seq<char>)
    requires
        !line.contains('\n'),
    ensures
        find_char(line, '\n') == line.len(),
{
    let k = find_char(line, '\n') as int;
    lemma_find_char(line, '\n');
    if k < line.len() {
        assert(line.contains(line[k]));
    }
}

/// What is behind a place in a text has no carriage return before a line feed
/// where the text has none.
proof fn lemma_no_return_behind(s: Seq<char>, k: int)
    requires
        0 <= k <= s.len(),
        !has_return_before_feed(s),
    ensures
        !has_return_before_feed(s.skip(k)),
{
    let rest = s.skip(k);
    if has_return_before_feed(rest) {
        let i = choose|i: int|
            0 <= i < rest.len() - 1 && #[trigger] rest[i] == '\r' && rest[i + 1] == '\n';
        assert(s[k + i] == '\r');
        assert(s[k + i + 1] == rest[i + 1]);
    }
}

/// Lines that are put together come apart again, where each has a line feed
/// behind it or the last is not empty.
proof fn lemma_lines_of_joined(all: Seq<Seq<char>>, end: Seq<char>)
    requires
        all.len() > 0,
        forall|i: int| 0 <= i < all.len() ==> !(#[trigger] all[i]).contains('\n'),
        end == seq!['\n'] || (end.len() == 0 && all.last().len() > 0),
        !has_return_before_feed(join(all, "\n"@) + end),
    ensures
        lines(join(all, "\n"@) + end) == all,
    decreases all.len(),
{
    reveal_strlit("\n");
    let first = all[0];
    let n = first.len() as int;
    let text = join(all, "\n"@) + end;
    assert(!all[0].contains('\n'));
    if all.len() == 1 && end.len() == 0 {
        assert(all =~= seq![first]);
        assert(text =~= first);
        lemma_one_line(first);
    } else {
        let tail = if all.len() == 1 {
            Seq::empty()
        } else {
            join(all.drop_first(), "\n"@) + end
        };
        if all.len() == 1 {
            assert(all =~= seq![first]);
        } else {
            assert(all =~= seq![first] + all.drop_first());
            lemma_join_first(first, all.drop_first(), "\n"@);
        }
        assert(text =~= first.push('\n') + tail);
        lemma_first_char(first, '\n', tail);
        assert(text.take(n) =~= first);
        assert(text.skip(n + 1) =~= tail);
        assert(without_return(first) == first) by {
            if n > 0 && first.last() == '\r' {
                assert(text[n - 1] == '\r' && text[n] == '\n');
            }
        }
        if all.len() == 1 {
            assert(lines(tail) =~= Seq::empty());
        } else {
            let rest = all.drop_first();
            assert forall|i: int| 0 <= i < rest.len() implies !(#[trigger] rest[i]).contains(
                '\n',
            ) by {
                assert(rest[i] == all[i + 1]);
            }
            lemma_no_return_behind(text, n + 1);
            lemma_lines_of_joined(rest, end);
        }
        assert(lines(text) =~= all);
    }
}

/// No line of a text holds a line feed.
proof fn lemma_no_feed_in_lines(content: Seq<char>, i: int)
    requires
        0 <= i < lines(content).len(),
    ensures
        !lines(content)[i].contains('\n'),
    decreases content.len(),
{
    let k = find_char(content, '\n') as int;
    lemma_find_char(content, '\n');
    lemma_no_feed_before(content);
    if k < content.len() {
        let head = content.take(k);
        if i == 0 {
            let line = without_return(head);
            if line.contains('\n') {
                let j = choose|j: int| 0 <= j < line.len() && line[j] == '\n';
                assert(head[j] == '\n');
            }
        } else {
            lemma_no_feed_in_lines(content.skip(k + 1), i - 1);
        }
    } else {
        assert(content.take(k) =~= content);
    }
}

/// No line feed stands before the first one.
proof fn lemma_no_feed_before(s: Seq<char>)
    ensures
        !s.take(find_char(s, '\n') as int).contains('\n'),
    decreases s.len(),
{
    lemma_find_char(s, '\n');
    let head = s.take(find_char(s, '\n') as int);
    if s.len() > 0 && s.first() != '\n' {
        lemma_no_feed_before(s.drop_first());
        lemma_find_char(s.drop_first(), '\n');
        let tail = s.drop_first().take(find_char(s.drop_first(), '\n') as int);
        if head.contains('\n') {
            let i = choose|i: int| 0 <= i < head.len() && head[i] == '\n';
            assert(i > 0);
            assert(tail[i - 1] == '\n');
        }
    }
}

/// The last of lines that are put together stands at the end.
proof fn lemma_end_of_joined(all: Seq<Seq<char>>)
    requires
        all.len() > 0,
        all.last().len() > 0,
        !all.last().contains('\n'),
    ensures
        join(all, "\n"@).len() > 0,
        join(all, "\n"@).last() != '\n',
{
    assert(join(all, "\n"@).last() == all.last().last());
    assert(all.last().contains(all.last().last()));
}

/// What applying one hunk to a text gives, where it applies.
pub open spec fn patched_text(content: Seq<char>, hunk: HunkView) -> Seq<char> {
    as_content(applied(content, seq![hunk])->Done_0, content)
}

/// The text ends in a line feed.
pub open spec fn ends_in_feed(s: Seq<char>) -> bool {
    s.len() > 0 && s.last() == '\n'
}

/// Where a hunk applies to a text, the reversed hunk applies to the result and
/// gives back the text itself. Left out is what a text cannot keep: a carriage
/// return before a line feed, a new line with a line feed inside, the line feed at
/// the end where no line is left, and an empty line at the end where the text does
/// not end in a line feed.
pub proof fn law_reversed_hunk_restores_text(content: Seq<char>, hunk: HunkView)
    requires
        applied(content, seq![hunk]) is Done,
        !has_return_before_feed(content),
        !has_return_before_feed(patched_text(content, hunk)),
        forall|i: int|
            0 <= i < hunk.new_lines.len() ==> !(#[trigger] hunk.new_lines[i]).contains('\n'),
        ends_in_feed(content) ==> applied(content, seq![hunk])->Done_0.len() > 0,
        !ends_in_feed(content) && applied(content, seq![hunk])->Done_0.len() > 0 ==> applied(
            content,
            seq![hunk],
        )->Done_0.last().len() > 0,
    ensures
        applied(patched_text(content, hunk), seq![reversed(hunk)]) is Done,
        patched_text(patched_text(content, hunk), reversed(hunk)) == content,
{
    reveal_strlit("\n");
    reveal_with_fuel(apply_from, 2);
    let file = lines(content);
    let start = hunk_start(hunk) as int;
    let stop = start + hunk.old_lines.len();
    assert(seq![hunk].drop_first() =~= Seq::empty());
    let result = file.subrange(0, start) + hunk.new_lines + file.skip(stop);
    lemma_no_difference(file.skip(start), hunk.old_lines);
    assert(applied(content, seq![hunk]) == Applied::Done(result));
    let text = patched_text(content, hunk);
    let end = if ends_in_feed(content) {
        seq!['\n']
    } else {
        Seq::empty()
    };
    assert(text =~= join(result, "\n"@) + end);
    if result.len() > 0 {
        assert forall|i: int| 0 <= i < result.len() implies !(#[trigger] result[i]).contains(
            '\n',
        ) by {
            if i < start {
                lemma_no_feed_in_lines(content, i);
            } else if i < start + hunk.new_lines.len() {
                assert(result[i] == hunk.new_lines[i - start]);
            } else {
                lemma_no_feed_in_lines(content, i - hunk.new_lines.len() + hunk.old_lines.len());
            }
        }
        lemma_lines_of_joined(result, end);
        if !ends_in_feed(content) {
            lemma_end_of_joined(result);
        }
    } else {
        assert(text =~= Seq::empty());
        assert(lines(text) =~= result);
    }
    law_reversed_hunk_restores(file, hunk);
    law_lines_make_up_content(content);
}

/// The index of the line of the file at which hunk `k` begins.
pub open spec fn start_of(hunks: Seq<HunkView>, k: int) -> int {
    if hunks[k].old_start == 0 {
        0
    } else {
        hunks[k].old_start - 1
    }
}

/// The index of the first line of the file after those that hunk `k` takes out.
pub open spec fn end_of(hunks: Seq<HunkView>, k: int) -> int {
    start_of(hunks, k) + hunks[k].old_lines.len()
}

/// How many lines the hunks before hunk `k` add to the file.
pub open spec fn growth(hunks: Seq<HunkView>, k: int) -> int
    decreases k,
{
    if k <= 0 {
        0
    } else {
        growth(hunks, k - 1) + hunks[k - 1].new_lines.len() - hunks[k - 1].old_lines.len()
    }
}

/// Hunk `k` comes after the hunks before it, lies in the file and takes out the lines
/// that stand there.
pub open spec fn hunk_fits(file: Seq<Seq<char>>, hunks: Seq<HunkView>, k: int) -> bool {
    &&& k > 0 ==> end_of(hunks, k - 1) <= start_of(hunks, k)
    &&& end_of(hunks, k) <= file.len()
    &&& forall|i: int|
        0 <= i < hunks[k].old_lines.len() ==> #[trigger] hunks[k].old_lines[i] == file[start_of(
            hunks,
            k,
        ) + i]
}

/// Where a line of the file from index `from` on comes to stand in the result, when
/// the hunks add `by` lines before it and leave alone the lines up to index `to`.
pub open spec fn stays(
    file: Seq<Seq<char>>,
    result: Seq<Seq<char>>,
    from: int,
    to: int,
    by: int,
) -> bool {
    forall|i: int| from <= i < to ==> #[trigger] file[i] == result[i + by]
}

/// A line of hunk `k` that it puts in stands in the result, where the hunks before it
/// have moved it.
pub open spec fn puts_in(hunks: Seq<HunkView>, result: Seq<Seq<char>>, k: int) -> bool {
    forall|i: int|
        0 <= i < hunks[k].new_lines.len() ==> #[trigger] hunks[k].new_lines[i]
            == result[start_of(hunks, k) + growth(hunks, k) + i]
}

proof fn lemma_growth_from_second(hunks: Seq<HunkView>, k: int)
    requires
        hunks.len() > 0,
        1 <= k <= hunks.len(),
    ensures
        growth(hunks, k) == hunks[0].new_lines.len() - hunks[0].old_lines.len() + growth(
            hunks.drop_first(),
            k - 1,
        ),
    decreases k,
{
    reveal_with_fuel(growth, 2);
    if k > 1 {
        lemma_growth_from_second(hunks, k - 1);
        assert(hunks.drop_first()[k - 2] == hunks[k - 1]);
    }
}

/// The hunks fit, the first of them not before index `pos`.
spec fn all_fit(file: Seq<Seq<char>>, hunks: Seq<HunkView>, pos: int) -> bool {
    &&& hunks.len() > 0 ==> pos <= start_of(hunks, 0)
    &&& forall|k: int| 0 <= k < hunks.len() ==> #[trigger] hunk_fits(file, hunks, k)
}

proof fn lemma_rest_fits(file: Seq<Seq<char>>, hunks: Seq<HunkView>)
    requires
        hunks.len() > 0,
    ensures
        (forall|k: int| 0 <= k < hunks.len() ==> #[trigger] hunk_fits(file, hunks, k)) <==> {
            &&& hunk_fits(file, hunks, 0)
            &&& all_fit(file, hunks.drop_first(), end_of(hunks, 0))
        },
{
    let rest = hunks.drop_first();
    assert forall|k: int| 0 <= k < rest.len() implies start_of(rest, k) == start_of(hunks, k + 1)
        && end_of(rest, k) == end_of(hunks, k + 1) && #[trigger] rest[k] == hunks[k + 1] by {}
    if forall|k: int| 0 <= k < hunks.len() ==> #[trigger] hunk_fits(file, hunks, k) {
        assert(hunk_fits(file, hunks, 0));
        if rest.len() > 0 {
            assert(hunk_fits(file, hunks, 1));
            assert(rest[0] == hunks[1]);
        }
        assert forall|k: int| 0 <= k < rest.len() implies #[trigger] hunk_fits(
            file,
            rest,
            k,
        ) by {
            assert(hunk_fits(file, hunks, k + 1));
            assert(rest[k] == hunks[k + 1]);
            if k > 0 {
                assert(rest[k - 1] == hunks[k]);
            }
        }
    }
    if hunk_fits(file, hunks, 0) && all_fit(file, rest, end_of(hunks, 0)) {
        assert forall|k: int| 0 <= k < hunks.len() implies #[trigger] hunk_fits(
            file,
            hunks,
            k,
        ) by {
            if k > 0 {
                assert(hunk_fits(file, rest, k - 1));
                assert(rest[k - 1] == hunks[k]);
                if k > 1 {
                    assert(rest[k - 2] == hunks[k - 1]);
                }
            }
        }
    }
}

/// Where the first hunk is none of the reasons to fail, it fits, and the other way
/// round.
proof fn lemma_first_hunk_fits(file: Seq<Seq<char>>, hunks: Seq<HunkView>)
    requires
        hunks.len() > 0,
    ensures
        hunk_fits(file, hunks, 0) <==> {
            let hunk = hunks.first();
            let start = hunk_start(hunk) as int;
            &&& start + hunk.old_lines.len() <= file.len()
            &&& first_difference(file.skip(start), hunk.old_lines) >= hunk.old_lines.len()
        },
{
    let hunk = hunks.first();
    let start = hunk_start(hunk) as int;
    let n = hunk.old_lines.len() as int;
    if start + n <= file.len() {
        let actual = file.skip(start);
        if first_difference(actual, hunk.old_lines) >= n {
            lemma_no_difference(actual, hunk.old_lines);
            assert forall|i: int| 0 <= i < n implies #[trigger] hunk.old_lines[i] == file[start
                + i] by {
                assert(actual.take(n)[i] == file[start + i]);
            }
        }
        if hunk_fits(file, hunks, 0) {
            assert(actual.take(n) =~= hunk.old_lines) by {
                assert forall|i: int| 0 <= i < n implies actual.take(n)[i]
                    == hunk.old_lines[i] by {
                    assert(hunks[0].old_lines[i] == file[start + i]);
                }
            }
            assert(hunk.old_lines.is_prefix_of(actual)) by {
                assert(actual.subrange(0, n) =~= hunk.old_lines);
            }
            lemma_same_has_no_difference(actual, hunk.old_lines);
        }
    }
}

proof fn lemma_applies_where_all_fit(file: Seq<Seq<char>>, hunks: Seq<HunkView>, pos: int)
    requires
        0 <= pos <= file.len(),
    ensures
        apply_from(file, hunks, pos) is Done <==> all_fit(file, hunks, pos),
    decreases hunks.len(),
{
    if hunks.len() > 0 {
        lemma_first_hunk_fits(file, hunks);
        lemma_rest_fits(file, hunks);
        if hunk_fits(file, hunks, 0) {
            lemma_applies_where_all_fit(file, hunks.drop_first(), end_of(hunks, 0));
        }
    }
}

/// Hunks apply to a file exactly where each comes after the one before it, lies in the
/// file and takes out the lines that stand there.
pub proof fn law_hunks_apply_where_they_fit(file: Seq<Seq<char>>, hunks: Seq<HunkView>)
    ensures
        apply_from(file, hunks, 0) is Done <==> forall|k: int|
            0 <= k < hunks.len() ==> #[trigger] hunk_fits(file, hunks, k),
{
    lemma_applies_where_all_fit(file, hunks, 0);
}

/// The index of the first line of the file that hunk `k` and those after it can take
/// out, when those before index `pos` are gone.
spec fn free_from(hunks: Seq<HunkView>, k: int, pos: int) -> int {
    if k == 0 {
        pos
    } else {
        end_of(hunks, k - 1)
    }
}

/// The index of the first line that hunk `k` takes out; the end of the file where there
/// is no hunk `k`.
spec fn free_to(file: Seq<Seq<char>>, hunks: Seq<HunkView>, k: int) -> int {
    if k < hunks.len() {
        start_of(hunks, k)
    } else {
        file.len() as int
    }
}

proof fn lemma_applied_lines(
    file: Seq<Seq<char>>,
    hunks: Seq<HunkView>,
    pos: int,
    result: Seq<Seq<char>>,
)
    requires
        0 <= pos <= file.len(),
        apply_from(file, hunks, pos) == Applied::Done(result),
    ensures
        result.len() == file.len() - pos + growth(hunks, hunks.len() as int),
        forall|k: int, i: int|
            0 <= k < hunks.len() && 0 <= i < hunks[k].new_lines.len()
                ==> #[trigger] hunks[k].new_lines[i] == result[start_of(hunks, k) - pos + growth(
                hunks,
                k,
            ) + i],
        forall|k: int, i: int|
            #![trigger growth(hunks, k), file[i]]
            0 <= k <= hunks.len() && free_from(hunks, k, pos) <= i < free_to(file, hunks, k)
                ==> file[i] == result[i - pos + growth(hunks, k)],
    decreases hunks.len(),
{
    if hunks.len() > 0 {
        let hunk = hunks.first();
        let rest = hunks.drop_first();
        let start = start_of(hunks, 0);
        let end = end_of(hunks, 0);
        let more = apply_from(file, rest, end)->Done_0;
        assert(result == file.subrange(pos, start) + hunk.new_lines + more);
        lemma_applied_lines(file, rest, end, more);
        lemma_growth_from_second(hunks, hunks.len() as int);
        let by = hunk.new_lines.len() - hunk.old_lines.len();
        assert(growth(hunks, 0) == 0);
        assert forall|k: int, i: int|
            0 <= k < hunks.len() && 0 <= i < hunks[k].new_lines.len() implies
            #[trigger] hunks[k].new_lines[i] == result[start_of(hunks, k) - pos + growth(hunks, k)
            + i] by {
            if k > 0 {
                assert(rest[k - 1] == hunks[k]);
                lemma_growth_from_second(hunks, k);
                assert(rest[k - 1].new_lines[i] == more[start_of(rest, k - 1) - end + growth(
                    rest,
                    k - 1,
                ) + i]);
                lemma_reach(file, rest, end, k - 1);
                lemma_room(file, rest, end, k - 1);
            }
        }
        assert forall|k: int, i: int|
            #![trigger growth(hunks, k), file[i]]
            0 <= k <= hunks.len() && free_from(hunks, k, pos) <= i < free_to(
                file,
                hunks,
                k,
            ) implies file[i] == result[i - pos + growth(hunks, k)] by {
            if k > 0 {
                lemma_growth_from_second(hunks, k);
                if k < hunks.len() {
                    assert(rest[k - 1] == hunks[k]);
                }
                if k > 1 {
                    assert(rest[k - 2] == hunks[k - 1]);
                }
                lemma_reach(file, rest, end, k - 1);
                lemma_room(file, rest, end, k - 1);
                assert(file[i] == more[i - end + growth(rest, k - 1)]);
            }
        }
    }
}

/// What the hunks before hunk `k` take out lies before it.
proof fn lemma_reach(file: Seq<Seq<char>>, hunks: Seq<HunkView>, pos: int, k: int)
    requires
        0 <= pos <= file.len(),
        apply_from(file, hunks, pos) is Done,
        0 <= k <= hunks.len(),
    ensures
        free_from(hunks, k, pos) <= free_to(file, hunks, k) <= file.len(),
        free_from(hunks, k, pos) - pos + growth(hunks, k) >= 0,
    decreases k,
{
    lemma_applies_where_all_fit(file, hunks, pos);
    if k < hunks.len() {
        assert(hunk_fits(file, hunks, k));
    }
    if k > 0 {
        assert(hunk_fits(file, hunks, k - 1));
        lemma_reach(file, hunks, pos, k - 1);
    }
}

/// Where hunks apply, all of them are carried out: each line that a hunk puts in stands
/// in the result, and each line of the file that no hunk takes out stands there too,
/// both moved by as many lines as the hunks before have added.
pub proof fn law_every_hunk_is_carried_out(
    file: Seq<Seq<char>>,
    hunks: Seq<HunkView>,
    result: Seq<Seq<char>>,
    k: int,
)
    requires
        apply_from(file, hunks, 0) == Applied::Done(result),
        0 <= k < hunks.len(),
    ensures
        result.len() == file.len() + growth(hunks, hunks.len() as int),
        puts_in(hunks, result, k),
        k == 0 ==> stays(file, result, 0, start_of(hunks, 0), 0),
        k > 0 ==> stays(
            file,
            result,
            end_of(hunks, k - 1),
            start_of(hunks, k),
            growth(hunks, k),
        ),
        k == hunks.len() - 1 ==> stays(
            file,
            result,
            end_of(hunks, k),
            file.len() as int,
            growth(hunks, k + 1),
        ),
{
    lemma_applied_lines(file, hunks, 0, result);
    assert forall|i: int| 0 <= i < hunks[k].new_lines.len() implies #[trigger] hunks[k].new_lines[i]
        == result[start_of(hunks, k) + growth(hunks, k) + i] by {}
    let by = growth(hunks, k);
    let after = growth(hunks, k + 1);
}

/// A file that no hunk is applied to stays as it is.
pub proof fn law_no_hunk_changes_nothing(file: Seq<Seq<char>>)
    ensures
        apply_from(file, seq![], 0) == Applied::Done(file),
{
    assert(file.skip(0) =~= file);
}

/// Where the hunks in front fit and the next one does not, the patch is refused with
/// the reason: the hunk overlaps the one before, begins or ends after the end of the
/// file, or takes out a line that is not the one there.
pub proof fn law_first_bad_hunk_is_told(file: Seq<Seq<char>>, hunks: Seq<HunkView>, k: int)
    requires
        0 <= k < hunks.len(),
        forall|j: int| 0 <= j < k ==> #[trigger] hunk_fits(file, hunks, j),
        !hunk_fits(file, hunks, k),
    ensures
        ({
            let hunk = hunks[k];
            let start = start_of(hunks, k);
            let size = hunk.old_lines.len();
            let refused = apply_from(file, hunks, 0);
            if k > 0 && start < end_of(hunks, k - 1) {
                refused == Applied::Failed("overlapping hunks at line "@ + decimal(hunk.old_start))
            } else if start > file.len() {
                refused is OutOfRange
            } else if start + size > file.len() {
                refused == Applied::Failed(
                    "hunk extends beyond file (line "@ + decimal(hunk.old_start) + " + "@
                        + decimal(size) + " lines, file has "@ + decimal(file.len())
                        + " lines)"@,
                )
            } else {
                exists|i: int|
                    {
                        &&& 0 <= i < size
                        &&& #[trigger] hunk.old_lines[i] != file[start + i]
                        &&& forall|j: int|
                            0 <= j < i ==> #[trigger] hunk.old_lines[j] == file[start + j]
                        &&& refused == Applied::Failed(
                            "context mismatch at line "@ + decimal((start + i + 1) as nat)
                                + ": expected "@ + quoted(hunk.old_lines[i]) + ", got "@ + quoted(
                                file[start + i],
                            ),
                        )
                    }
            }
        }),
{
    lemma_first_bad_hunk(file, hunks, 0, k);
}

proof fn lemma_first_bad_hunk(file: Seq<Seq<char>>, hunks: Seq<HunkView>, pos: int, k: int)
    requires
        0 <= pos <= file.len(),
        0 <= k < hunks.len(),
        k > 0 ==> pos <= start_of(hunks, 0),
        forall|j: int| 0 <= j < k ==> #[trigger] hunk_fits(file, hunks, j),
        !hunk_fits(file, hunks, k) || (k == 0 && start_of(hunks, 0) < pos),
    ensures
        ({
            let hunk = hunks[k];
            let start = start_of(hunks, k);
            let size = hunk.old_lines.len();
            let refused = apply_from(file, hunks, pos);
            if start < free_from(hunks, k, pos) {
                refused == Applied::Failed("overlapping hunks at line "@ + decimal(hunk.old_start))
            } else if start > file.len() {
                refused is OutOfRange
            } else if start + size > file.len() {
                refused == Applied::Failed(
                    "hunk extends beyond file (line "@ + decimal(hunk.old_start) + " + "@
                        + decimal(size) + " lines, file has "@ + decimal(file.len())
                        + " lines)"@,
                )
            } else {
                exists|i: int|
                    {
                        &&& 0 <= i < size
                        &&& #[trigger] hunk.old_lines[i] != file[start + i]
                        &&& forall|j: int|
                            0 <= j < i ==> #[trigger] hunk.old_lines[j] == file[start + j]
                        &&& refused == Applied::Failed(
                            "context mismatch at line "@ + decimal((start + i + 1) as nat)
                                + ": expected "@ + quoted(hunk.old_lines[i]) + ", got "@ + quoted(
                                file[start + i],
                            ),
                        )
                    }
            }
        }),
    decreases k,
{
    lemma_first_hunk_fits(file, hunks);
    let hunk = hunks.first();
    let start = start_of(hunks, 0);
    if k == 0 {
        if start >= pos && start + hunk.old_lines.len() <= file.len() {
            let i = first_difference(file.skip(start), hunk.old_lines) as int;
            lemma_where_different(file.skip(start), hunk.old_lines);
            assert(hunk.old_lines[i] != file[start + i]);
            assert forall|j: int| 0 <= j < i implies #[trigger] hunk.old_lines[j] == file[start
                + j] by {
                assert(file.skip(start)[j] == file[start + j]);
            }
        }
    } else {
        let rest = hunks.drop_first();
        assert(hunk_fits(file, hunks, 0));
        assert forall|j: int| 0 <= j < rest.len() implies #[trigger] rest[j] == hunks[j + 1] by {}
        assert forall|j: int| 0 <= j < k - 1 implies #[trigger] hunk_fits(file, rest, j) by {
            assert(hunk_fits(file, hunks, j + 1));
            assert(rest[j] == hunks[j + 1]);
            if j > 0 {
                assert(rest[j - 1] == hunks[j]);
            }
        }
        assert(rest[k - 1] == hunks[k]);
        if k > 1 {
            assert(rest[k - 2] == hunks[k - 1]);
            assert(rest[0] == hunks[1]);
            assert(hunk_fits(file, hunks, 1));
        }
        lemma_first_bad_hunk(file, rest, end_of(hunks, 0), k - 1);
    }
}

/// Where two texts first differ, the lines differ, and before that they do not.
proof fn lemma_where_different(actual: Seq<Seq<char>>, expected: Seq<Seq<char>>)
    requires
        expected.len() <= actual.len(),
    ensures
        ({
            let k = first_difference(actual, expected) as int;
            &&& k <= expected.len()
            &&& k < expected.len() ==> actual[k] != expected[k]
            &&& forall|j: int| 0 <= j < k ==> #[trigger] actual[j] == expected[j]
        }),
    decreases expected.len(),
{
    if expected.len() > 0 && actual.first() == expected.first() {
        lemma_where_different(actual.drop_first(), expected.drop_first());
        let k = first_difference(actual, expected) as int;
        assert forall|j: int| 0 <= j < k implies #[trigger] actual[j] == expected[j] by {
            if j > 0 {
                assert(actual.drop_first()[j - 1] == expected.drop_first()[j - 1]);
            }
        }
    }
}

/// The new content of a file is its new lines with a line feed between two of them, and
/// one at the end where the file ended in one and a line is left.
pub proof fn law_new_content_is_the_new_lines(
    request: PatchRequestView,
    content: Seq<char>,
    hunks: Seq<HunkView>,
    result: Seq<Seq<char>>,
)
    requires
        patch_hunks(request.patch) == Ok::<Seq<HunkView>, Seq<char>>(hunks),
        apply_from(lines(content), hunks, 0) == Applied::Done(result),
    ensures
        applied(content, hunks) == Applied::Done(result),
        as_content(result, content) == if result.len() > 0 && ends_in_feed(content) {
            join(result, seq!['\n']) + seq!['\n']
        } else {
            join(result, seq!['\n'])
        },
        patched(request, Ok(content)) == (PatchedView::Write {
            content: if result.len() > 0 && ends_in_feed(content) {
                join(result, seq!['\n']) + seq!['\n']
            } else {
                join(result, seq!['\n'])
            },
            report: "Patched "@ + request.path + ": applied "@ + decimal(hunks.len())
                + " hunk(s)"@,
        }),
{
    reveal_strlit("\n");
    assert("\n"@ =~= seq!['\n']);
    let body = join(result, seq!['\n']);
    assert(body.push('\n') =~= body + seq!['\n']);
}

/// A patch whose file cannot be read, or that cannot be read itself, writes nothing and
/// says why; so does one that does not fit.
pub proof fn law_bad_patch_writes_nothing(
    request: PatchRequestView,
    content: Seq<char>,
    cause: Seq<char>,
)
    ensures
        patched(request, Err(cause)) == PatchedView::Failed(
            "failed to read "@ + request.path + ": "@ + cause,
        ),
        patch_hunks(request.patch) matches Err(message) ==> patched(request, Ok(content))
            == PatchedView::Failed(message),
        patch_hunks(request.patch) matches Ok(hunks) ==> (apply_from(
            lines(content),
            hunks,
            0,
        ) matches Applied::Failed(message) ==> patched(request, Ok(content))
            == PatchedView::Failed(message)),
        patch_hunks(request.patch) matches Ok(hunks) ==> (apply_from(
            lines(content),
            hunks,
            0,
        ) is OutOfRange ==> patched(request, Ok(content)) is OutOfRange),
{
}

/// The result has room for what hunk `k` puts in, and for the lines before it.
proof fn lemma_room(file: Seq<Seq<char>>, hunks: Seq<HunkView>, pos: int, k: int)
    requires
        0 <= pos <= file.len(),
        apply_from(file, hunks, pos) is Done,
        0 <= k <= hunks.len(),
    ensures
        free_to(file, hunks, k) + growth(hunks, k) <= file.len() + growth(
            hunks,
            hunks.len() as int,
        ),
        k < hunks.len() ==> start_of(hunks, k) + growth(hunks, k) + hunks[k].new_lines.len()
            <= file.len() + growth(hunks, hunks.len() as int),
    decreases hunks.len() - k,
{
    if k < hunks.len() {
        lemma_room(file, hunks, pos, k + 1);
        lemma_reach(file, hunks, pos, k + 1);
    }
}

/// The text is `range` alone, or `range` with a blank behind it and then anything.
spec fn leads(range: Seq<char>, s: Seq<char>) -> bool {
    &&& range.len() <= s.len()
    &&& s.take(range.len() as int) == range
    &&& s.len() > range.len() ==> s[range.len() as int] == ' '
}

/// The text could be the range of a header: it holds no white space and no `@`, and has
/// no minus sign in front.
pub open spec fn is_range(range: Seq<char>) -> bool {
    &&& range.len() > 0
    &&& range[0] != '-'
    &&& forall|i: int| 0 <= i < range.len() ==> #[trigger] range[i] != '@' && !is_space(range[i])
}

proof fn lemma_trim_end_leads(range: Seq<char>, s: Seq<char>)
    requires
        leads(range, s),
        range.len() > 0,
        !is_space(range.last()),
    ensures
        leads(range, trim_end(s)),
    decreases s.len(),
{
    if s.len() > range.len() && is_space(s.last()) {
        assert(s.drop_last().take(range.len() as int) =~= range);
        lemma_trim_end_leads(range, s.drop_last());
    } else if s.len() == range.len() {
        assert(s.take(range.len() as int) =~= s);
    }
}

proof fn lemma_trim_leads(range: Seq<char>, s: Seq<char>)
    requires
        leads(range, s),
        range.len() > 0,
        !is_space(range[0]),
        !is_space(range.last()),
    ensures
        leads(range, trim(s)),
{
    assert(s[0] == s.take(range.len() as int)[0]);
    assert(trim_start(s) == s);
    lemma_trim_end_leads(range, s);
}

/// Where a text that may be cut first stands is not inside what leads.
proof fn lemma_mark_is_behind(range: Seq<char>, s: Seq<char>, mark: Seq<char>)
    requires
        leads(range, s),
        mark.len() > 0,
        mark[0] == '@',
        forall|i: int| 0 <= i < range.len() ==> #[trigger] range[i] != '@',
    ensures
        leads(range, before_text(s, mark)),
{
    if let Some(k) = find_text(s, mark) {
        lemma_found_is_there(s, mark);
        let k = k as int;
        assert(s[k] == '@') by {
            assert(s.subrange(k, k + mark.len())[0] == s[k]);
        }
        if k < range.len() {
            assert(s.take(range.len() as int)[k] == s[k]);
            assert(range[k] != '@');
        }
        assert(s.take(k).take(range.len() as int) =~= range);
    }
}

proof fn lemma_found_is_there(s: Seq<char>, pattern: Seq<char>)
    ensures
        find_text(s, pattern) matches Some(k) ==> occurs_at(s, pattern, k as int),
    decreases s.len(),
{
    if !occurs_at(s, pattern, 0) && s.len() > 0 {
        let rest = s.drop_first();
        lemma_found_is_there(rest, pattern);
        if let Some(k) = find_text(rest, pattern) {
            let k = k as int;
            assert(rest.subrange(k, k + pattern.len()) =~= s.subrange(
                k + 1,
                k + 1 + pattern.len(),
            ));
        }
    }
}

/// The range of a header stands between its minus sign and the next blank.
pub proof fn law_range_stands_behind_the_minus_sign(range: Seq<char>, tail: Seq<char>)
    requires
        is_range(range),
    ensures
        old_range("@@ -"@ + range + " "@ + tail) == range,
{
    reveal_strlit("@@ -");
    reveal_strlit("@@");
    reveal_strlit("-");
    reveal_strlit(" ");
    let header = "@@ -"@ + range + " "@ + tail;
    let signed = seq!['-'] + range;
    let rest = header.skip(2);
    assert("@@"@ =~= header.take(2));
    reveal_with_fuel(strip_repeated, 2);
    assert(rest[0] == ' ');
    assert(!"@@"@.is_prefix_of(rest)) by {
        if "@@"@.is_prefix_of(rest) {
            assert(rest.take(2)[0] == ' ');
            assert("@@"@[0] == '@');
        }
    }
    assert(strip_repeated(header, "@@"@) == rest);
    let shown = rest.drop_first();
    assert(shown =~= signed + (seq![' '] + tail));
    assert(shown.take(signed.len() as int) =~= signed);
    assert(leads(signed, shown));
    assert(is_space(' '));
    assert(signed.last() == range.last());
    assert(range[range.len() - 1] == range.last());
    assert(!is_space('-'));
    assert(trim(rest) == trim(shown)) by {
        assert(trim_start(rest) == trim_start(shown));
    }
    lemma_trim_leads(signed, shown);
    let body = trim(rest);
    assert forall|i: int| 0 <= i < signed.len() implies #[trigger] signed[i] != '@'
        && signed[i] != ' ' by {
        if i > 0 {
            assert(range[i - 1] != '@');
        }
    }
    lemma_mark_is_behind(signed, body, "@@"@);
    let inner = trim(before_text(body, "@@"@));
    lemma_trim_leads(signed, before_text(body, "@@"@));
    lemma_find_char(inner, ' ');
    law_character_is_found_first(inner, ' ');
    let k = find_char(inner, ' ') as int;
    assert(k == signed.len()) by {
        if k < signed.len() {
            assert(inner.take(signed.len() as int)[k] == inner[k]);
            assert(signed[k] != ' ');
        }
        if k > signed.len() {
            assert(inner[signed.len() as int] != ' ');
        }
    }
    assert(inner.take(k) =~= signed);
    assert("-"@ =~= signed.take(1));
    assert(signed.skip(1) =~= range);
    assert(!"-"@.is_prefix_of(range)) by {
        if "-"@.is_prefix_of(range) {
            assert(range.take(1)[0] == range[0]);
            assert("-"@[0] == '-');
        }
    }
}

/// A header says at which line its hunk begins and how many lines it takes out; where it
/// does not say the latter, it is one.
pub proof fn law_header_is_read(start: nat, count: nat, tail: Seq<char>)
    requires
        start <= usize::MAX,
        count <= usize::MAX,
    ensures
        header_numbers("@@ -"@ + (decimal(start) + seq![','] + decimal(count)) + " "@ + tail) == Ok::<
            (nat, nat),
            Seq<char>,
        >((start, count)),
        header_numbers("@@ -"@ + decimal(start) + " "@ + tail) == Ok::<(nat, nat), Seq<char>>(
            (start, 1),
        ),
{
    let first = decimal(start);
    let second = decimal(count);
    lemma_decimal(start);
    lemma_decimal(count);
    law_decimal_is_read_back(start);
    law_decimal_is_read_back(count);
    let both = first + seq![','] + second;
    assert(is_digit(first[0]));
    assert forall|i: int| 0 <= i < both.len() implies #[trigger] both[i] != '@' && !is_space(
        both[i],
    ) by {
        if i < first.len() {
            assert(is_digit(first[i]));
        } else if i > first.len() {
            assert(is_digit(second[i - first.len() - 1]));
        }
    }
    assert forall|i: int| 0 <= i < first.len() implies #[trigger] first[i] != '@' && !is_space(
        first[i],
    ) by {
        assert(is_digit(first[i]));
    }
    law_range_stands_behind_the_minus_sign(both, tail);
    law_range_stands_behind_the_minus_sign(first, tail);
    assert(!first.contains(',')) by {
        if first.contains(',') {
            let i = choose|i: int| 0 <= i < first.len() && first[i] == ',';
            assert(is_digit(first[i]));
        }
    }
    lemma_first_char(first, ',', second);
    assert(both =~= first.push(',') + second);
    assert(both.take(first.len() as int) =~= first);
    assert(both.skip(first.len() as int + 1) =~= second);
    law_character_is_found_first(first, ',');
    let k = find_char(first, ',') as int;
    assert(k == first.len()) by {
        if k < first.len() {
            assert(first.contains(first[k]));
        }
    }
    assert(first.take(k) =~= first);
}

/// A header whose line number or count is none is refused, with the reason.
pub proof fn law_bad_header_is_told(start: Seq<char>, count: Seq<char>, tail: Seq<char>)
    requires
        is_range(start + seq![','] + count),
        !start.contains(','),
    ensures
        ({
            let header = "@@ -"@ + (start + seq![','] + count) + " "@ + tail;
            &&& parse_usize(start) is None ==> header_numbers(header) == Err::<
                (nat, nat),
                Seq<char>,
            >("bad line number: "@ + parse_usize_error(start))
            &&& parse_usize(start) is Some && parse_usize(count) is None ==> header_numbers(header)
                == Err::<(nat, nat), Seq<char>>("bad count: "@ + parse_usize_error(count))
        }),
{
    let both = start + seq![','] + count;
    law_range_stands_behind_the_minus_sign(both, tail);
    lemma_first_char(start, ',', count);
    assert(both =~= start.push(',') + count);
    assert(both.take(start.len() as int) =~= start);
    assert(both.skip(start.len() as int + 1) =~= count);
}

/// The lines of a hunk, one by one: a minus sign in front takes a line out, a plus sign
/// puts one in, a blank keeps one, a backslash says nothing of the text, and any other
/// line is kept as it is.
pub proof fn law_lines_of_a_hunk(
    body: Seq<Seq<char>>,
    more: Seq<Seq<char>>,
    line: Seq<char>,
)
    ensures
        old_text(body + more) == old_text(body) + old_text(more),
        new_text(body + more) == new_text(body) + new_text(more),
        old_text(seq![seq!['-'] + line]) == seq![line],
        new_text(seq![seq!['-'] + line]) == Seq::<Seq<char>>::empty(),
        old_text(seq![seq!['+'] + line]) == Seq::<Seq<char>>::empty(),
        new_text(seq![seq!['+'] + line]) == seq![line],
        old_text(seq![seq![' '] + line]) == seq![line],
        new_text(seq![seq![' '] + line]) == seq![line],
        old_text(seq![seq!['\\'] + line]) == Seq::<Seq<char>>::empty(),
        new_text(seq![seq!['\\'] + line]) == Seq::<Seq<char>>::empty(),
        line.len() == 0 || !seq!['-', '+', ' ', '\\'].contains(line[0]) ==> old_text(seq![line])
            == seq![line] && new_text(seq![line]) == seq![line],
        old_text(Seq::empty()) == Seq::<Seq<char>>::empty(),
        new_text(Seq::empty()) == Seq::<Seq<char>>::empty(),
    decreases more.len(),
{
    let all = body + more;
    if more.len() == 0 {
        assert(all =~= body);
        assert(old_text(body) + old_text(more) =~= old_text(body));
        assert(new_text(body) + new_text(more) =~= new_text(body));
    } else {
        law_lines_of_a_hunk(body, more.drop_last(), line);
        assert(all.drop_last() =~= body + more.drop_last());
        assert(all.last() == more.last());
        assert(old_text(all) =~= old_text(body) + old_text(more));
        assert(new_text(all) =~= new_text(body) + new_text(more));
    }
    lemma_one_line_of_a_hunk(seq!['-'] + line);
    lemma_one_line_of_a_hunk(seq!['+'] + line);
    lemma_one_line_of_a_hunk(seq![' '] + line);
    lemma_one_line_of_a_hunk(seq!['\\'] + line);
    lemma_one_line_of_a_hunk(line);
    assert((seq!['-'] + line).drop_first() =~= line);
    assert((seq!['+'] + line).drop_first() =~= line);
    assert((seq![' '] + line).drop_first() =~= line);
    let marks = seq!['-', '+', ' ', '\\'];
    assert(marks[0] == '-' && marks[1] == '+' && marks[2] == ' ' && marks[3] == '\\');
    assert(marks.contains('-') && marks.contains('+') && marks.contains(' ') && marks.contains(
        '\\',
    ));
}

proof fn lemma_one_line_of_a_hunk(line: Seq<char>)
    ensures
        old_text(seq![line]) == old_side(line),
        new_text(seq![line]) == new_side(line),
{
    let one = seq![line];
    assert(one.drop_last() =~= Seq::empty());
    reveal_with_fuel(old_text, 2);
    reveal_with_fuel(new_text, 2);
    assert(old_text(one) =~= old_side(line));
    assert(new_text(one) =~= new_side(line));
}

/// The line begins with `@@` or with `diff `.
pub open spec fn begins_anew(line: Seq<char>) -> bool {
    ||| line.len() >= 2 && line[0] == '@' && line[1] == '@'
    ||| line.len() >= 5 && line.take(5) == "diff "@
}

proof fn lemma_begins_anew(line: Seq<char>)
    ensures
        begins_anew(line) <==> "@@"@.is_prefix_of(line) || "diff "@.is_prefix_of(line),
        "@@"@.is_prefix_of(line) <==> line.len() >= 2 && line[0] == '@' && line[1] == '@',
{
    reveal_strlit("@@");
    reveal_strlit("diff ");
    if line.len() >= 2 {
        assert(line.take(2)[0] == line[0] && line.take(2)[1] == line[1]);
        if line[0] == '@' && line[1] == '@' {
            assert(line.take(2) =~= "@@"@);
        }
        if "@@"@.is_prefix_of(line) {
            assert("@@"@[0] == '@' && "@@"@[1] == '@');
        }
    }
}

/// A hunk is read from its header and all lines behind it up to the next header or the
/// next file; those of the rest come after it.
pub proof fn law_hunk_is_read(
    header: Seq<char>,
    body: Seq<Seq<char>>,
    rest: Seq<Seq<char>>,
    start: nat,
    count: nat,
)
    requires
        header.len() >= 2,
        header[0] == '@',
        header[1] == '@',
        header_numbers(header) == Ok::<(nat, nat), Seq<char>>((start, count)),
        forall|i: int| 0 <= i < body.len() ==> !begins_anew(#[trigger] body[i]),
        rest.len() > 0 ==> begins_anew(rest[0]),
    ensures
        match hunks_in(rest) {
            Ok(more) => hunks_in(seq![header] + body + rest) == Ok::<Seq<HunkView>, Seq<char>>(
                seq![
                    HunkView {
                        old_start: start,
                        old_lines: old_text(body),
                        new_lines: new_text(body),
                    },
                ] + more,
            ),
            Err(message) => hunks_in(seq![header] + body + rest) == Err::<
                Seq<HunkView>,
                Seq<char>,
            >(message),
        },
{
    let all = seq![header] + body + rest;
    let behind = all.drop_first();
    lemma_begins_anew(header);
    assert(all.first() == header);
    assert(behind =~= body + rest);
    lemma_no_file_line(header);
    lemma_body_ends(body, rest);
    assert(behind.take(body.len() as int) =~= body);
    assert(behind.skip(body.len() as int) =~= rest);
}

proof fn lemma_no_file_line(header: Seq<char>)
    requires
        header.len() >= 2,
        header[0] == '@',
    ensures
        !is_file_line(header),
{
    reveal_strlit("---");
    reveal_strlit("+++");
    reveal_strlit("diff ");
    if "---"@.is_prefix_of(header) {
        assert(header.take(3)[0] == header[0]);
        assert("---"@[0] == '-');
    }
    if "+++"@.is_prefix_of(header) {
        assert(header.take(3)[0] == header[0]);
        assert("+++"@[0] == '+');
    }
    if "diff "@.is_prefix_of(header) {
        assert(header.take(5)[0] == header[0]);
        assert("diff "@[0] == 'd');
    }
}

proof fn lemma_body_ends(body: Seq<Seq<char>>, rest: Seq<Seq<char>>)
    requires
        forall|i: int| 0 <= i < body.len() ==> !begins_anew(#[trigger] body[i]),
        rest.len() > 0 ==> begins_anew(rest[0]),
    ensures
        body_len(body + rest) == body.len(),
    decreases body.len(),
{
    let all = body + rest;
    if body.len() > 0 {
        assert(!begins_anew(body[0]));
        lemma_begins_anew(body[0]);
        assert forall|i: int| 0 <= i < body.drop_first().len() implies !begins_anew(
            #[trigger] body.drop_first()[i],
        ) by {
            assert(!begins_anew(body[i + 1]));
        }
        lemma_body_ends(body.drop_first(), rest);
        assert(all.drop_first() =~= body.drop_first() + rest);
    } else {
        assert(all =~= rest);
        if rest.len() > 0 {
            lemma_begins_anew(rest[0]);
        }
    }
}

/// Lines before the first header belong to no hunk, a header that cannot be read makes
/// the patch be refused, and so does a patch without hunks.
pub proof fn law_lines_outside_hunks_are_passed_over(
    line: Seq<char>,
    rest: Seq<Seq<char>>,
    patch: Seq<char>,
)
    ensures
        !(line.len() >= 2 && line[0] == '@' && line[1] == '@') ==> hunks_in(seq![line] + rest)
            == hunks_in(rest),
        line.len() >= 2 && line[0] == '@' && line[1] == '@' ==> (header_numbers(line) matches Err(
            message,
        ) ==> hunks_in(seq![line] + rest) == Err::<Seq<HunkView>, Seq<char>>(message)),
        hunks_in(Seq::empty()) == Ok::<Seq<HunkView>, Seq<char>>(Seq::empty()),
        match hunks_in(lines(patch)) {
            Ok(hunks) => if hunks.len() == 0 {
                patch_hunks(patch) == Err::<Seq<HunkView>, Seq<char>>("no hunks found in patch"@)
            } else {
                patch_hunks(patch) == Ok::<Seq<HunkView>, Seq<char>>(hunks)
            },
            Err(message) => patch_hunks(patch) == Err::<Seq<HunkView>, Seq<char>>(message),
        },
{
    lemma_begins_anew(line);
    assert((seq![line] + rest).drop_first() =~= rest);
    if line.len() >= 2 && line[0] == '@' {
        lemma_no_file_line(line);
    }
}

/// A request names the file and the patch; a request that lacks one of them is refused.
pub proof fn law_request_names_file_and_patch(fields: Map<Seq<char>, JsonTree>)
    ensures
        match request_in(JsonTree::Object(fields)) {
            Ok(request) => {
                &&& fields.contains_key("path"@)
                &&& fields["path"@] == JsonTree::Text(request.path)
                &&& fields.contains_key("patch"@)
                &&& fields["patch"@] == JsonTree::Text(request.patch)
            },
            Err(message) => if !(fields.contains_key("path"@) && fields["path"@] is Text) {
                message == "missing 'path'"@
            } else {
                !(fields.contains_key("patch"@) && fields["patch"@] is Text) && message
                    == "missing 'patch'"@
            },
        },
        parsed_request(Ok(JsonTree::Object(fields))) == request_in(JsonTree::Object(fields)),
{
}

/// A request that is no JSON is refused with the reason, and one that is no object lacks
/// its path.
pub proof fn law_request_is_an_object(tree: JsonTree, cause: Seq<char>)
    requires
        !(tree is Object),
    ensures
        parsed_request(Err(cause)) == Err::<PatchRequestView, Seq<char>>(
            "invalid JSON: "@ + cause,
        ),
        parsed_request(Ok(tree)) == Err::<PatchRequestView, Seq<char>>("missing 'path'"@),
{
}

/// The tool names itself and asks for an object with its parameters, all of which must be
/// given.
pub proof fn law_manifest_names_the_parameters()
    ensures
        field(manifest_tree(), "name"@) == Some(JsonTree::Text("patch_file"@)),
        field(manifest_tree(), "input_schema"@) matches Some(schema) && field(schema, "type"@)
            == Some(JsonTree::Text("object"@)) && field(schema, "required"@) == Some(
            JsonTree::Array(seq![JsonTree::Text("path"@), JsonTree::Text("patch"@)]),
        ),
        text_field(manifest_tree(), "description"@) is Some,
{
    reveal_strlit("name");
    reveal_strlit("description");
    reveal_strlit("input_schema");
    reveal_strlit("type");
    reveal_strlit("properties");
    reveal_strlit("required");
    assert("name"@.len() == 4 && "description"@.len() == 11 && "input_schema"@.len() == 12
        && "type"@.len() == 4 && "properties"@.len() == 10 && "required"@.len() == 8);
    let params = seq!["path"@, "patch"@];
    assert(text_trees(params) =~= seq![JsonTree::Text("path"@), JsonTree::Text("patch"@)]);
}

/// What reading a file gave is taken as it is.
pub proof fn law_read_file_is_taken_as_it_is(content: String, cause: String)
    ensures
        read_view(Ok(content)) == Ok::<Seq<char>, Seq<char>>(content@),
        read_view(Err(cause)) == Err::<Seq<char>, Seq<char>>(cause@),
{
}

}
