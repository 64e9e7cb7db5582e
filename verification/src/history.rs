//! Sessions: where they are kept, what is kept of a conversation, and how it
//! comes back.
use vstd::prelude::*;
use vstd::slice::slice_subrange;

use crate::conversation::{
    block_views, law_other_parts_do_not_matter, law_texts_are_there_where_a_part_is_one,
    message_views, texts_in, BlockView, ContentBlock, Message, MessageView, Role,
};
use crate::entry::{
    entry_line, entry_on, entry_reads_back, law_entry_takes_one_line, law_line_gives_entry_back,
    read_entry, write_entry,
};
use crate::path::{join_path, joined_path};
use crate::text::{
    chars_of, is_blank, is_space, law_blank_is_all_white_space, law_line_ends_at_its_feed,
    lemma_first_char, lines, lines_of, maybe_text, same, string_of, texts, trim, without_return,
};

verus! {

/// A part of a message, as it is kept.
pub enum ContentEntry {
    Text { text: String },
}

/// A message, as it is kept.
pub struct HistoryEntry {
    pub role: String,
    pub content: Vec<ContentEntry>,
}

pub struct EntryView {
    pub role: Seq<char>,
    pub content: Seq<Seq<char>>,
}

impl View for ContentEntry {
    type V = Seq<char>;

    open spec fn view(&self) -> Seq<char> {
        match self {
            ContentEntry::Text { text } => text@,
        }
    }
}

pub open spec fn content_views(content: Seq<ContentEntry>) -> Seq<Seq<char>> {
    content.map_values(|c: ContentEntry| c@)
}

impl View for HistoryEntry {
    type V = EntryView;

    open spec fn view(&self) -> EntryView {
        EntryView { role: self.role@, content: content_views(self.content@) }
    }
}

pub open spec fn entry_views(entries: Seq<HistoryEntry>) -> Seq<EntryView> {
    entries.map_values(|e: HistoryEntry| e@)
}

/// Where sessions are kept: in the directory that was set for it, or else in the
/// home directory. Where no home is known, the XDG directory stands in for it, or
/// else the current one.
pub open spec fn sessions_dir_of(
    history_dir: Option<Seq<char>>,
    xdg: Option<Seq<char>>,
    home: Option<Seq<char>>,
) -> Seq<char> {
    let base = match (history_dir, home, xdg) {
        (Some(dir), _, _) => dir,
        (None, Some(home), _) => joined_path(home, ".asobi"@),
        (None, None, Some(xdg)) => joined_path(xdg, "asobi"@),
        (None, None, None) => "."@,
    };
    joined_path(base, "sessions"@)
}

/// Where sessions are kept. `history_dir` is the value of `ASOBI_HISTORY_DIR`
/// and `xdg` that of `XDG_CONFIG_HOME`.
pub fn sessions_dir(
    history_dir: &Option<String>,
    xdg: &Option<String>,
    home: &Option<String>,
) -> (dir: String)
    ensures
        dir@ == sessions_dir_of(maybe_text(*history_dir), maybe_text(*xdg), maybe_text(*home)),
{
    let base = match history_dir {
        Some(dir) => dir.clone(),
        None => match home {
            Some(home) => join_path(home.as_str(), ".asobi"),
            None => match xdg {
                Some(xdg) => join_path(xdg.as_str(), "asobi"),
                None => ".".to_string(),
            },
        },
    };
    join_path(base.as_str(), "sessions")
}

/// The file of a session.
pub fn session_path(sessions_dir: &str, session_id: &str) -> (path: String)
    ensures
        path@ == joined_path(sessions_dir@, session_id@ + ".jsonl"@),
{
    let mut name = session_id.to_string();
    name.append(".jsonl");
    join_path(sessions_dir, name.as_str())
}

/// A digit of a hexadecimal number, in lower case.
pub open spec fn is_hex_digit(c: char) -> bool {
    '0' <= c <= '9' || 'a' <= c <= 'f'
}

/// A random UUID: groups of hexadecimal digits with hyphens between them, and
/// the marks of its version and variant.
pub open spec fn is_random_uuid(id: Seq<char>) -> bool {
    &&& id.len() == 36
    &&& forall|i: int|
        0 <= i < 36 ==> if i == 8 || i == 13 || i == 18 || i == 23 {
            #[trigger] id[i] == '-'
        } else {
            is_hex_digit(id[i])
        }
    &&& id[14] == '4'
    &&& id[19] == '8' || id[19] == '9' || id[19] == 'a' || id[19] == 'b'
}

/// Calls `uuid::Uuid::new_v4` and `uuid::Uuid::to_string`. The UUID is random:
/// nothing is claimed of it but how it is written.
#[verifier::external_body]
fn random_uuid() -> (id: String)
    ensures
        is_random_uuid(id@),
{
    uuid::Uuid::new_v4().to_string()
}

/// An ID for a new session.
pub fn new_session_id() -> (id: String)
    ensures
        is_random_uuid(id@),
{
    random_uuid()
}

/// The session that a file of that name holds, if it holds one.
pub open spec fn session_of(name: Seq<char>) -> Option<Seq<char>> {
    if ".jsonl"@.is_suffix_of(name) && name.len() > 6 {
        Some(name.take(name.len() - 6))
    } else {
        None
    }
}

/// The session that a file of that name holds, if it holds one.
pub fn session_id_of(name: &str) -> (id: Option<String>)
    ensures
        maybe_text(id) == session_of(name@),
{
    proof {
        reveal_strlit(".jsonl");
        assert(".jsonl"@ =~= seq!['.', 'j', 's', 'o', 'n', 'l']);
    }
    let chars = chars_of(name);
    let n: usize = chars.len();
    if n <= 6 {
        return None;
    }
    let tail = string_of(slice_subrange(chars.as_slice(), n - 6, n));
    assert(tail@ =~= name@.subrange(n - 6, n as int));
    if same(tail.as_str(), ".jsonl") {
        let stem = slice_subrange(chars.as_slice(), 0, n - 6);
        assert(stem@ =~= name@.take(n - 6));
        Some(string_of(stem))
    } else {
        None
    }
}

/// When a file was changed, in nanoseconds since 1970.
#[derive(Debug, Clone, Copy, PartialEq, Eq, Structural)]
pub enum Modified {
    /// The file cannot be looked at.
    Unreadable,
    /// The file system does not say.
    Unknown,
    At(i128),
}

/// A file in the directory of the sessions.
pub struct SessionFile {
    pub name: String,
    pub modified: Modified,
}

pub struct SessionFileView {
    pub name: Seq<char>,
    pub modified: Modified,
}

impl View for SessionFile {
    type V = SessionFileView;

    open spec fn view(&self) -> SessionFileView {
        SessionFileView { name: self.name@, modified: self.modified }
    }
}

pub open spec fn file_views(files: Seq<SessionFile>) -> Seq<SessionFileView> {
    files.map_values(|f: SessionFile| f@)
}

/// A session and when it was changed.
pub open spec fn dated_session(file: SessionFileView) -> Option<(int, Seq<char>)> {
    match (session_of(file.name), file.modified) {
        (Some(id), Modified::At(time)) => Some((time as int, id)),
        (Some(id), Modified::Unknown) => Some((0, id)),
        _ => None,
    }
}

/// The session that was changed last. Of those that were changed at the same
/// time it is the first.
pub open spec fn newest(files: Seq<SessionFileView>) -> Option<(int, Seq<char>)>
    decreases files.len(),
{
    if files.len() == 0 {
        None
    } else {
        match (newest(files.drop_last()), dated_session(files.last())) {
            (Some(best), Some(session)) => if session.0 > best.0 {
                Some(session)
            } else {
                Some(best)
            },
            (Some(best), None) => Some(best),
            (None, found) => found,
        }
    }
}

pub open spec fn newest_id(files: Seq<SessionFileView>) -> Option<Seq<char>> {
    match newest(files) {
        Some(best) => Some(best.1),
        None => None,
    }
}

/// The session that was changed last.
pub fn latest_session_id(files: &Vec<SessionFile>) -> (id: Option<String>)
    ensures
        maybe_text(id) == newest_id(file_views(files@)),
{
    let ghost all = file_views(files@);
    let mut best: Option<String> = None;
    let mut best_time: i128 = 0;
    let mut i: usize = 0;
    assert(all.take(0) =~= Seq::empty());
    while i < files.len()
        invariant
            all == file_views(files@),
            i <= files@.len(),
            match best {
                Some(id) => newest(all.take(i as int)) == Some((best_time as int, id@)),
                None => newest(all.take(i as int)) is None,
            },
        decreases files@.len() - i,
    {
        assert(all.take(i + 1).drop_last() =~= all.take(i as int));
        assert(all.take(i + 1).last() == files@[i as int]@);
        if let Some(id) = session_id_of(files[i].name.as_str()) {
            let time: Option<i128> = match files[i].modified {
                Modified::Unreadable => None,
                Modified::Unknown => Some(0),
                Modified::At(time) => Some(time),
            };
            if let Some(time) = time {
                let better = match &best {
                    Some(_) => time > best_time,
                    None => true,
                };
                if better {
                    best = Some(id);
                    best_time = time;
                }
            }
        }
        i += 1;
    }
    assert(all.take(i as int) =~= all);
    best
}

/// What is kept of a message: its texts, if it has any and its role is known.
pub open spec fn entry_of(message: MessageView) -> Option<EntryView> {
    let content = texts_in(message.content);
    if content.len() == 0 {
        None
    } else {
        match message.role {
            Role::User => Some(EntryView { role: "user"@, content }),
            Role::Assistant => Some(EntryView { role: "assistant"@, content }),
            Role::Other => None,
        }
    }
}

/// The message that an entry stands for, if it says anything and its role is
/// known.
pub open spec fn message_of(entry: EntryView) -> Option<MessageView> {
    let content = entry.content.map_values(|text: Seq<char>| BlockView::Text(text));
    if content.len() == 0 {
        None
    } else if entry.role == "user"@ {
        Some(MessageView { role: Role::User, content })
    } else if entry.role == "assistant"@ {
        Some(MessageView { role: Role::Assistant, content })
    } else {
        None
    }
}

/// What is kept of a message.
pub fn message_to_entry(message: &Message) -> (entry: Option<HistoryEntry>)
    ensures
        match entry {
            Some(entry) => entry_of(message@) == Some(entry@),
            None => entry_of(message@) is None,
        },
{
    let role = match message.role {
        Role::User => "user",
        Role::Assistant => "assistant",
        Role::Other => return None,
    };
    let ghost blocks = block_views(message.content@);
    let mut content: Vec<ContentEntry> = Vec::new();
    let mut i: usize = 0;
    assert(blocks.take(0) =~= Seq::empty());
    assert(content_views(content@) =~= texts_in(blocks.take(0)));
    while i < message.content.len()
        invariant
            blocks == block_views(message.content@),
            i <= message.content@.len(),
            content_views(content@) == texts_in(blocks.take(i as int)),
        decreases message.content@.len() - i,
    {
        let ghost before = content@;
        assert(blocks.take(i + 1).drop_last() =~= blocks.take(i as int));
        assert(blocks.take(i + 1).last() == message.content@[i as int]@);
        if let ContentBlock::Text(text) = &message.content[i] {
            content.push(ContentEntry::Text { text: text.clone() });
            assert(content_views(content@) =~= content_views(before).push(text@));
        }
        i += 1;
    }
    assert(blocks.take(i as int) =~= blocks);
    assert(content_views(content@).len() == content@.len());
    if content.len() == 0 {
        return None;
    }
    Some(HistoryEntry { role: role.to_string(), content })
}

/// The message that an entry stands for.
pub fn entry_to_message(entry: &HistoryEntry) -> (message: Option<Message>)
    ensures
        match message {
            Some(message) => message_of(entry@) == Some(message@),
            None => message_of(entry@) is None,
        },
{
    proof {
        reveal_strlit("user");
        reveal_strlit("assistant");
    }
    let role = if same(entry.role.as_str(), "user") {
        Role::User
    } else if same(entry.role.as_str(), "assistant") {
        Role::Assistant
    } else {
        return None;
    };
    let ghost blocks = entry@.content.map_values(|text: Seq<char>| BlockView::Text(text));
    let mut content: Vec<ContentBlock> = Vec::new();
    let mut i: usize = 0;
    while i < entry.content.len()
        invariant
            blocks == entry@.content.map_values(|text: Seq<char>| BlockView::Text(text)),
            i <= entry.content@.len(),
            block_views(content@) =~= blocks.take(i as int),
        decreases entry.content@.len() - i,
    {
        let ghost before = content@;
        assert(entry@.content[i as int] == entry.content@[i as int]@);
        match &entry.content[i] {
            ContentEntry::Text { text } => {
                content.push(ContentBlock::Text(text.clone()));
                assert(block_views(content@) =~= block_views(before).push(BlockView::Text(text@)));
            },
        }
        i += 1;
    }
    assert(block_views(content@) =~= blocks);
    if content.len() == 0 {
        return None;
    }
    Some(Message { role, content })
}

/// What is kept of a conversation.
pub open spec fn entries_of(messages: Seq<MessageView>) -> Seq<EntryView>
    decreases messages.len(),
{
    if messages.len() == 0 {
        seq![]
    } else {
        match entry_of(messages.last()) {
            Some(entry) => entries_of(messages.drop_last()).push(entry),
            None => entries_of(messages.drop_last()),
        }
    }
}

/// The conversation that entries stand for.
pub open spec fn messages_of(entries: Seq<EntryView>) -> Seq<MessageView>
    decreases entries.len(),
{
    if entries.len() == 0 {
        seq![]
    } else {
        match message_of(entries.last()) {
            Some(message) => messages_of(entries.drop_last()).push(message),
            None => messages_of(entries.drop_last()),
        }
    }
}

/// What is kept of a conversation.
pub fn history_of(messages: &Vec<Message>) -> (entries: Vec<HistoryEntry>)
    ensures
        entry_views(entries@) == entries_of(message_views(messages@)),
{
    let ghost all = message_views(messages@);
    let mut entries: Vec<HistoryEntry> = Vec::new();
    let mut i: usize = 0;
    assert(all.take(0) =~= Seq::empty());
    assert(entry_views(entries@) =~= entries_of(all.take(0)));
    while i < messages.len()
        invariant
            all == message_views(messages@),
            i <= messages@.len(),
            entry_views(entries@) == entries_of(all.take(i as int)),
        decreases messages@.len() - i,
    {
        let ghost before = entries@;
        assert(all.take(i + 1).drop_last() =~= all.take(i as int));
        assert(all.take(i + 1).last() == messages@[i as int]@);
        if let Some(entry) = message_to_entry(&messages[i]) {
            let ghost added = entry@;
            entries.push(entry);
            assert(entry_views(entries@) =~= entry_views(before).push(added));
        }
        i += 1;
    }
    assert(all.take(i as int) =~= all);
    entries
}

/// What a file of lines holds.
pub open spec fn file_of(kept: Seq<Seq<char>>) -> Seq<char>
    decreases kept.len(),
{
    if kept.len() == 0 {
        seq![]
    } else {
        file_of(kept.drop_last()) + kept.last().push('\n')
    }
}

/// The lines of a file that are not blank.
pub open spec fn kept_lines(content: Seq<char>) -> Seq<Seq<char>> {
    lines(content).filter(|line: Seq<char>| trim(line).len() > 0)
}

/// What the file of a session holds: one line for each entry.
pub fn session_content(kept: &Vec<String>) -> (content: String)
    ensures
        content@ == file_of(texts(kept@)),
{
    let ghost all = texts(kept@);
    let mut content = String::new();
    let mut i: usize = 0;
    assert(all.take(0) =~= Seq::empty());
    while i < kept.len()
        invariant
            all == texts(kept@),
            i <= kept@.len(),
            content@ == file_of(all.take(i as int)),
        decreases kept@.len() - i,
    {
        assert(all.take(i + 1).drop_last() =~= all.take(i as int));
        assert(all.take(i + 1).last() == kept@[i as int]@);
        let ghost before = content@;
        content.append(kept[i].as_str());
        content.push('\n');
        assert(content@ =~= before + kept@[i as int]@.push('\n'));
        i += 1;
    }
    assert(all.take(i as int) =~= all);
    content
}

/// The lines of a session that hold entries.
pub fn session_lines(content: &str) -> (kept: Vec<String>)
    ensures
        texts(kept@) == kept_lines(content@),
{
    let found = lines_of(content);
    let ghost all = texts(found@);
    let ghost fits = |line: Seq<char>| trim(line).len() > 0;
    let mut kept: Vec<String> = Vec::new();
    let mut i: usize = 0;
    proof {
        reveal(Seq::filter);
        assert(texts(kept@) =~= all.take(0).filter(fits));
    }
    while i < found.len()
        invariant
            all == texts(found@),
            fits == (|line: Seq<char>| trim(line).len() > 0),
            i <= found@.len(),
            texts(kept@) == all.take(i as int).filter(fits),
        decreases found@.len() - i,
    {
        let ghost before = kept@;
        assert(all[i as int] == found@[i as int]@);
        let blank = is_blank(found[i].as_str());
        if !blank {
            kept.push(found[i].clone());
            assert(texts(kept@) =~= texts(before).push(all[i as int]));
        }
        proof {
            reveal(Seq::filter);
            assert(all.take(i + 1).drop_last() =~= all.take(i as int));
            assert(fits(all[i as int]) == !blank);
        }
        i += 1;
    }
    assert(all.take(i as int) =~= all);
    kept
}

pub open spec fn maybe_entry(entry: Option<HistoryEntry>) -> Option<EntryView> {
    match entry {
        Some(entry) => Some(entry@),
        None => None,
    }
}

pub open spec fn maybe_entries(entries: Seq<Option<HistoryEntry>>) -> Seq<Option<EntryView>> {
    entries.map_values(|e: Option<HistoryEntry>| maybe_entry(e))
}

/// The entries on lines. A line that has the form in which lines are written is
/// read as that; of any other counts what was parsed of it, and where that is
/// nothing it is passed over.
pub open spec fn entries_on(
    kept: Seq<Seq<char>>,
    parsed: Seq<Option<EntryView>>,
) -> Seq<EntryView>
    decreases kept.len(),
{
    if kept.len() == 0 {
        seq![]
    } else {
        let some = entries_on(kept.drop_last(), parsed);
        let n = kept.len() - 1;
        match entry_on(kept.last()) {
            Some(entry) => some.push(entry),
            None => if n < parsed.len() && parsed[n] is Some {
                some.push(parsed[n]->0)
            } else {
                some
            },
        }
    }
}

/// The conversation that the file of a session holds.
pub open spec fn restored(content: Seq<char>, parsed: Seq<Option<EntryView>>) -> Seq<MessageView> {
    messages_of(entries_on(kept_lines(content), parsed))
}

/// The conversation that the file of a session holds. `parsed` says what entry each
/// line holds that is not blank, if it holds one.
pub fn restore(content: &str, parsed: &Vec<Option<HistoryEntry>>) -> (messages: Vec<Message>)
    ensures
        message_views(messages@) == restored(content@, maybe_entries(parsed@)),
{
    let kept = session_lines(content);
    let ghost all = texts(kept@);
    let ghost others = maybe_entries(parsed@);
    let mut messages: Vec<Message> = Vec::new();
    let mut i: usize = 0;
    assert(all.take(0) =~= Seq::empty());
    assert(message_views(messages@) =~= messages_of(entries_on(all.take(0), others)));
    while i < kept.len()
        invariant
            all == texts(kept@),
            others == maybe_entries(parsed@),
            i <= kept@.len(),
            message_views(messages@) == messages_of(entries_on(all.take(i as int), others)),
        decreases kept@.len() - i,
    {
        let ghost before = messages@;
        let ghost some = entries_on(all.take(i as int), others);
        let ghost more = entries_on(all.take(i + 1), others);
        assert(all.take(i + 1).drop_last() =~= all.take(i as int));
        assert(all.take(i + 1).last() == kept@[i as int]@);
        let message = match read_entry(kept[i].as_str()) {
            Some(entry) => {
                assert(more.drop_last() =~= some);
                entry_to_message(&entry)
            },
            None => if i < parsed.len() {
                assert(others[i as int] == maybe_entry(parsed@[i as int]));
                match &parsed[i] {
                    Some(entry) => {
                        assert(more.drop_last() =~= some);
                        entry_to_message(entry)
                    },
                    None => None,
                }
            } else {
                None
            },
        };
        if let Some(message) = message {
            let ghost added = message@;
            messages.push(message);
            assert(message_views(messages@) =~= message_views(before).push(added));
        }
        i += 1;
    }
    assert(all.take(i as int) =~= all);
    messages
}

/// What came of reading the file of a session.
pub enum SessionRead {
    Missing,
    OpenFailed(String),
    ReadFailed(String),
    /// What the file holds, and what entry each of its lines holds that is not
    /// blank, if it holds one.
    Read { content: String, parsed: Vec<Option<HistoryEntry>> },
}

/// The conversation of a session, or why there is none.
pub fn load(session_id: &str, path: &str, read: SessionRead) -> (messages: Result<
    Vec<Message>,
    String,
>)
    ensures
        match read {
            SessionRead::Missing => messages matches Err(message) && message@
                == "session not found: "@ + session_id@,
            SessionRead::OpenFailed(cause) => messages matches Err(message) && message@
                == "failed to open "@ + path@ + ": "@ + cause@,
            SessionRead::ReadFailed(cause) => messages == Err::<Vec<Message>, String>(cause),
            SessionRead::Read { content, parsed } => messages matches Ok(messages)
                && message_views(messages@) == restored(content@, maybe_entries(parsed@)),
        },
{
    match read {
        SessionRead::Missing => {
            let mut message = "session not found: ".to_string();
            message.append(session_id);
            Err(message)
        },
        SessionRead::OpenFailed(cause) => {
            let mut message = "failed to open ".to_string();
            message.append(path);
            message.append(": ");
            message.append(cause.as_str());
            Err(message)
        },
        SessionRead::ReadFailed(cause) => Err(cause),
        SessionRead::Read { content, parsed } => Ok(restore(content.as_str(), &parsed)),
    }
}

/// Why a session could not be saved.
pub enum SaveError {
    CreateDir(String),
    Write(String),
}

/// What is said of a session that could not be saved.
pub fn save(path: &str, written: Result<(), SaveError>) -> (saved: Result<(), String>)
    ensures
        match written {
            Ok(_) => saved is Ok,
            Err(SaveError::CreateDir(cause)) => saved == Err::<(), String>(cause),
            Err(SaveError::Write(cause)) => saved matches Err(message) && message@
                == "failed to write to "@ + path@ + ": "@ + cause@,
        },
{
    match written {
        Ok(_) => Ok(()),
        Err(SaveError::CreateDir(cause)) => Err(cause),
        Err(SaveError::Write(cause)) => {
            let mut message = "failed to write to ".to_string();
            message.append(path);
            message.append(": ");
            message.append(cause.as_str());
            Err(message)
        },
    }
}

/// The lines of a file come back as they were written, where each is one line
/// and none is blank.
pub proof fn law_saved_lines_come_back(kept: Seq<Seq<char>>)
    requires
        forall|i: int| 0 <= i < kept.len() ==> is_entry_line(#[trigger] kept[i]),
    ensures
        kept_lines(file_of(kept)) == kept,
{
    let fits = |line: Seq<char>| trim(line).len() > 0;
    lemma_lines_of_file(kept);
    lemma_all_kept(kept, fits);
}

/// A line that is not blank and has no line end in it.
pub open spec fn is_entry_line(line: Seq<char>) -> bool {
    !line.contains('\n') && without_return(line) == line && trim(line).len() > 0
}

proof fn lemma_all_kept(all: Seq<Seq<char>>, fits: spec_fn(Seq<char>) -> bool)
    requires
        forall|i: int| 0 <= i < all.len() ==> fits(#[trigger] all[i]),
    ensures
        all.filter(fits) == all,
    decreases all.len(),
{
    reveal(Seq::filter);
    if all.len() > 0 {
        assert forall|i: int| 0 <= i < all.drop_last().len() implies fits(
            #[trigger] all.drop_last()[i],
        ) by {
            assert(fits(all[i]));
        }
        lemma_all_kept(all.drop_last(), fits);
        assert(fits(all[all.len() - 1]));
        assert(all.drop_last().push(all.last()) =~= all);
    } else {
        assert(all.filter(fits) =~= all);
    }
}

proof fn lemma_lines_of_file(kept: Seq<Seq<char>>)
    requires
        forall|i: int| 0 <= i < kept.len() ==> is_entry_line(#[trigger] kept[i]),
    ensures
        lines(file_of(kept)) == kept,
    decreases kept.len(),
{
    if kept.len() > 0 {
        let first = kept[0];
        let rest = kept.drop_first();
        assert forall|i: int| 0 <= i < rest.len() implies is_entry_line(#[trigger] rest[i]) by {
            assert(is_entry_line(kept[i + 1]));
        }
        lemma_lines_of_file(rest);
        lemma_file_from_front(kept);
        assert(is_entry_line(kept[0]));
        let file = file_of(kept);
        lemma_first_char(first, '\n', file_of(rest));
        assert(file.take(first.len() as int) =~= first);
        assert(file.skip(first.len() as int + 1) =~= file_of(rest));
        assert(seq![first] + rest =~= kept);
    } else {
        assert(lines(file_of(kept)) =~= kept);
    }
}

proof fn lemma_file_from_front(kept: Seq<Seq<char>>)
    requires
        kept.len() > 0,
    ensures
        file_of(kept) == kept[0].push('\n') + file_of(kept.drop_first()),
    decreases kept.len(),
{
    if kept.len() == 1 {
        assert(kept.drop_last() =~= Seq::empty());
        assert(kept.drop_first() =~= Seq::empty());
        assert(file_of(kept) =~= kept[0].push('\n') + file_of(kept.drop_first()));
    } else {
        lemma_file_from_front(kept.drop_last());
        assert(kept.drop_last().drop_first() =~= kept.drop_first().drop_last());
        assert(kept.drop_first().last() == kept.last());
        assert(file_of(kept) =~= kept[0].push('\n') + file_of(kept.drop_first()));
    }
}

/// What a session remembers of a conversation: of each message that has texts,
/// those texts.
pub open spec fn remembered(messages: Seq<MessageView>) -> Seq<MessageView>
    decreases messages.len(),
{
    if messages.len() == 0 {
        seq![]
    } else {
        let some = remembered(messages.drop_last());
        let last = messages.last();
        if last.role == Role::Other || texts_in(last.content).len() == 0 {
            some
        } else {
            some.push(
                MessageView {
                    role: last.role,
                    content: texts_in(last.content).map_values(
                        |text: Seq<char>| BlockView::Text(text),
                    ),
                },
            )
        }
    }
}

/// What was kept of a conversation comes back as what a session remembers of it.
pub proof fn law_kept_messages_come_back(messages: Seq<MessageView>)
    ensures
        messages_of(entries_of(messages)) == remembered(messages),
    decreases messages.len(),
{
    reveal_strlit("user");
    reveal_strlit("assistant");
    if messages.len() > 0 {
        law_kept_messages_come_back(messages.drop_last());
        if let Some(entry) = entry_of(messages.last()) {
            assert(entries_of(messages).drop_last() =~= entries_of(messages.drop_last()));
            assert("user"@.len() != "assistant"@.len());
        }
    }
}

/// The lines on which entries are kept.
pub open spec fn lines_for(entries: Seq<EntryView>) -> Seq<Seq<char>> {
    entries.map_values(|e: EntryView| entry_line(e))
}

/// Lines that each hold an entry hold those, whatever was parsed of them.
proof fn lemma_entries_are_on_lines(
    kept: Seq<Seq<char>>,
    entries: Seq<EntryView>,
    parsed: Seq<Option<EntryView>>,
)
    requires
        kept.len() == entries.len(),
        forall|i: int| 0 <= i < kept.len() ==> entry_on(#[trigger] kept[i]) == Some(entries[i]),
    ensures
        entries_on(kept, parsed) == entries,
    decreases kept.len(),
{
    if kept.len() > 0 {
        let n = kept.len() - 1;
        assert(entry_on(kept[n]) == Some(entries[n]));
        lemma_entries_are_on_lines(kept.drop_last(), entries.drop_last(), parsed);
        assert(entries.drop_last().push(entries[n]) =~= entries);
    } else {
        assert(entries =~= Seq::empty());
    }
}

/// Loading a session that was saved gives back what it remembers of the
/// conversation, whatever was parsed of the lines: where each text that is kept is
/// read back from its JSON literal, which `session_file` finds of all of them.
pub proof fn law_load_gives_back_what_save_wrote(
    messages: Seq<MessageView>,
    parsed: Seq<Option<EntryView>>,
)
    requires
        forall|i: int|
            0 <= i < entries_of(messages).len() ==> entry_reads_back(
                #[trigger] entries_of(messages)[i],
            ),
    ensures
        restored(file_of(lines_for(entries_of(messages))), parsed) == remembered(messages),
{
    let entries = entries_of(messages);
    let kept = lines_for(entries);
    assert forall|i: int| 0 <= i < kept.len() implies entry_on(#[trigger] kept[i]) == Some(
        entries[i],
    ) by {
        assert(entry_reads_back(entries[i]));
        law_line_gives_entry_back(entries[i]);
    }
    assert forall|i: int| 0 <= i < kept.len() implies is_entry_line(#[trigger] kept[i]) by {
        assert(entry_reads_back(entries[i]));
        law_entry_takes_one_line(entries[i]);
    }
    law_saved_lines_come_back(kept);
    lemma_entries_are_on_lines(kept, entries, parsed);
    law_kept_messages_come_back(messages);
}

/// What the file of a session holds: a line for each message of which something is
/// kept. Loaded, it gives back what the session remembers of the conversation.
pub fn session_file(messages: &Vec<Message>) -> (content: String)
    ensures
        content@ == file_of(lines_for(entries_of(message_views(messages@)))),
        forall|parsed: Seq<Option<EntryView>>| #[trigger]
            restored(content@, parsed) == remembered(message_views(messages@)),
{
    let entries = history_of(messages);
    let ghost all = entry_views(entries@);
    let mut kept: Vec<String> = Vec::new();
    let mut i: usize = 0;
    assert(texts(kept@) =~= lines_for(all.take(0)));
    while i < entries.len()
        invariant
            all == entry_views(entries@),
            i <= entries@.len(),
            texts(kept@) == lines_for(all.take(i as int)),
            forall|j: int| 0 <= j < i ==> entry_reads_back(#[trigger] all[j]),
        decreases entries@.len() - i,
    {
        let ghost before = texts(kept@);
        assert(all[i as int] == entries@[i as int]@);
        let line = write_entry(&entries[i]);
        let ghost written = line@;
        kept.push(line);
        assert(texts(kept@) =~= before.push(written));
        assert(texts(kept@) =~= lines_for(all.take(i + 1)));
        i += 1;
    }
    assert(all.take(i as int) =~= all);
    let content = session_content(&kept);
    proof {
        assert forall|parsed: Seq<Option<EntryView>>| #[trigger]
            restored(content@, parsed) == remembered(message_views(messages@)) by {
            law_load_gives_back_what_save_wrote(message_views(messages@), parsed);
        }
    }
    content
}

/// A session remembers itself: what comes back of it is all that it is.
pub proof fn law_remembering_again_changes_nothing(messages: Seq<MessageView>)
    ensures
        remembered(remembered(messages)) == remembered(messages),
    decreases messages.len(),
{
    if messages.len() > 0 {
        let some = remembered(messages.drop_last());
        let last = messages.last();
        law_remembering_again_changes_nothing(messages.drop_last());
        if last.role != Role::Other && texts_in(last.content).len() > 0 {
            let again = remembered(messages).last();
            lemma_texts_of_texts(texts_in(last.content));
            assert(remembered(messages).drop_last() =~= some);
            assert(texts_in(again.content) == texts_in(last.content));
        }
    }
}

proof fn lemma_texts_of_texts(all: Seq<Seq<char>>)
    ensures
        texts_in(all.map_values(|text: Seq<char>| BlockView::Text(text))) == all,
    decreases all.len(),
{
    let blocks = all.map_values(|text: Seq<char>| BlockView::Text(text));
    if all.len() > 0 {
        lemma_texts_of_texts(all.drop_last());
        assert(blocks.drop_last() =~= all.drop_last().map_values(
            |text: Seq<char>| BlockView::Text(text),
        ));
        assert(all.drop_last().push(all.last()) =~= all);
    } else {
        assert(texts_in(blocks) =~= all);
    }
}

/// The session that is continued is one of the files, and none was changed
/// later.
pub proof fn law_latest_session_is_newest(files: Seq<SessionFileView>)
    ensures
        match newest(files) {
            Some(best) => {
                &&& exists|i: int|
                    0 <= i < files.len() && dated_session(#[trigger] files[i]) == Some(best)
                &&& forall|i: int|
                    0 <= i < files.len() ==> match dated_session(#[trigger] files[i]) {
                        Some(session) => session.0 <= best.0,
                        None => true,
                    }
            },
            None => forall|i: int|
                0 <= i < files.len() ==> dated_session(#[trigger] files[i]) is None,
        },
    decreases files.len(),
{
    if files.len() > 0 {
        let some = files.drop_last();
        law_latest_session_is_newest(some);
        assert forall|i: int| 0 <= i < some.len() implies #[trigger] some[i] == files[i] by {}
        if let Some(best) = newest(some) {
            let i = choose|i: int|
                0 <= i < some.len() && dated_session(#[trigger] some[i]) == Some(best);
            assert(dated_session(files[i]) == Some(best));
        }
        assert(files[files.len() - 1] == files.last());
        assert forall|i: int| 0 <= i < files.len() implies match dated_session(
            #[trigger] files[i],
        ) {
            Some(session) => newest(files) matches Some(best) && session.0 <= best.0,
            None => true,
        } by {
            if i < some.len() {
                assert(some[i] == files[i]);
            }
        }
    }
}

/// Of a message something is kept exactly where its role is known and one of its parts is
/// a text, whatever the other parts are. What is kept is the role and all texts.
pub proof fn law_message_with_a_text_is_kept(message: MessageView)
    ensures
        entry_of(message) is Some <==> {
            &&& message.role == Role::User || message.role == Role::Assistant
            &&& exists|i: int|
                0 <= i < message.content.len() && #[trigger] message.content[i] is Text
        },
        entry_of(message) matches Some(entry) ==> {
            &&& entry.content == texts_in(message.content)
            &&& message.role == Role::User ==> entry.role == "user"@
            &&& message.role == Role::Assistant ==> entry.role == "assistant"@
        },
{
    law_texts_are_there_where_a_part_is_one(message.content);
}

/// Parts that are no texts do not change what is kept of a message.
pub proof fn law_tools_do_not_change_what_is_kept(
    role: Role,
    before: Seq<BlockView>,
    block: BlockView,
    behind: Seq<BlockView>,
)
    requires
        !(block is Text),
    ensures
        entry_of(MessageView { role, content: before + seq![block] + behind }) == entry_of(
            MessageView { role, content: before + behind },
        ),
{
    law_other_parts_do_not_matter(before, block, behind);
}

/// An entry stands for a message exactly where its role is `user` or `assistant` and it
/// holds a text. The message has that role, and its parts are the texts, in order.
pub proof fn law_entry_stands_for_its_message(entry: EntryView)
    ensures
        message_of(entry) is Some <==> entry.content.len() > 0 && (entry.role == "user"@
            || entry.role == "assistant"@),
        message_of(entry) matches Some(message) ==> {
            &&& entry.role == "user"@ ==> message.role == Role::User
            &&& entry.role == "assistant"@ ==> message.role == Role::Assistant
            &&& message.content.len() == entry.content.len()
            &&& forall|i: int|
                0 <= i < entry.content.len() ==> message.content[i] == BlockView::Text(
                    #[trigger] entry.content[i],
                )
        },
{
    reveal_strlit("user");
    reveal_strlit("assistant");
    assert("user"@.len() != "assistant"@.len());
}

/// What a session remembers of a conversation: nothing of a message without texts or of
/// an unknown role, and of any other one message with its role and its texts.
pub proof fn law_session_remembers_message_by_message(
    messages: Seq<MessageView>,
    message: MessageView,
)
    ensures
        remembered(Seq::empty()) == Seq::<MessageView>::empty(),
        ({
            let before = remembered(messages);
            let after = remembered(messages.push(message));
            if (message.role == Role::User || message.role == Role::Assistant) && exists|i: int|
                0 <= i < message.content.len() && #[trigger] message.content[i] is Text {
                &&& after.len() == before.len() + 1
                &&& after.take(before.len() as int) == before
                &&& after.last().role == message.role
                &&& after.last().content.len() == texts_in(message.content).len()
                &&& forall|i: int|
                    0 <= i < texts_in(message.content).len() ==> after.last().content[i]
                        == BlockView::Text(#[trigger] texts_in(message.content)[i])
            } else {
                after == before
            }
        }),
{
    law_texts_are_there_where_a_part_is_one(message.content);
    assert(messages.push(message).drop_last() =~= messages);
    assert(remembered(messages.push(message)).len() > remembered(messages).len() ==> remembered(
        messages.push(message),
    ).take(remembered(messages).len() as int) =~= remembered(messages));
}

/// What is kept of a conversation is what is kept of its messages, in order.
pub proof fn law_conversation_is_kept_in_order(
    first: Seq<MessageView>,
    second: Seq<MessageView>,
    message: MessageView,
)
    ensures
        entries_of(Seq::empty()) == Seq::<EntryView>::empty(),
        entries_of(first + second) == entries_of(first) + entries_of(second),
        entries_of(seq![message]) == match entry_of(message) {
            Some(entry) => seq![entry],
            None => Seq::<EntryView>::empty(),
        },
    decreases second.len(),
{
    let all = first + second;
    if second.len() == 0 {
        assert(all =~= first);
        assert(entries_of(first) + entries_of(second) =~= entries_of(first));
    } else {
        law_conversation_is_kept_in_order(first, second.drop_last(), message);
        assert(all.drop_last() =~= first + second.drop_last());
        assert(all.last() == second.last());
        assert(entries_of(all) =~= entries_of(first) + entries_of(second));
    }
    let one = seq![message];
    reveal_with_fuel(entries_of, 2);
    assert(one.drop_last() =~= Seq::empty());
    assert(entries_of(one) =~= match entry_of(message) {
        Some(entry) => seq![entry],
        None => Seq::<EntryView>::empty(),
    });
}

/// The conversation of a session is that of its entries, in order; entries that stand for
/// no message are passed over.
pub proof fn law_conversation_comes_back_in_order(
    first: Seq<EntryView>,
    second: Seq<EntryView>,
    entry: EntryView,
)
    ensures
        messages_of(Seq::empty()) == Seq::<MessageView>::empty(),
        messages_of(first + second) == messages_of(first) + messages_of(second),
        messages_of(seq![entry]) == match message_of(entry) {
            Some(message) => seq![message],
            None => Seq::<MessageView>::empty(),
        },
    decreases second.len(),
{
    let all = first + second;
    if second.len() == 0 {
        assert(all =~= first);
        assert(messages_of(first) + messages_of(second) =~= messages_of(first));
    } else {
        law_conversation_comes_back_in_order(first, second.drop_last(), entry);
        assert(all.drop_last() =~= first + second.drop_last());
        assert(all.last() == second.last());
        assert(messages_of(all) =~= messages_of(first) + messages_of(second));
    }
    let one = seq![entry];
    reveal_with_fuel(messages_of, 2);
    assert(one.drop_last() =~= Seq::empty());
    assert(messages_of(one) =~= match message_of(entry) {
        Some(message) => seq![message],
        None => Seq::<MessageView>::empty(),
    });
}

/// A file holds its lines, each with a line feed behind it.
pub proof fn law_file_holds_its_lines(kept: Seq<Seq<char>>, line: Seq<char>)
    ensures
        file_of(Seq::empty()) == Seq::<char>::empty(),
        file_of(kept.push(line)) == file_of(kept) + line + seq!['\n'],
{
    assert(kept.push(line).drop_last() =~= kept);
    assert(file_of(kept.push(line)) =~= file_of(kept) + line + seq!['\n']);
}

/// A line counts exactly where it holds something other than white space, and the lines
/// that count keep their order.
pub proof fn law_blank_lines_do_not_count(line: Seq<char>, rest: Seq<char>)
    requires
        !line.contains('\n'),
        line.len() > 0 ==> line.last() != '\r',
    ensures
        kept_lines(line + seq!['\n'] + rest) == if exists|i: int|
            0 <= i < line.len() && !is_space(#[trigger] line[i]) {
            seq![line] + kept_lines(rest)
        } else {
            kept_lines(rest)
        },
        kept_lines(Seq::empty()) == Seq::<Seq<char>>::empty(),
{
    let fits = |l: Seq<char>| trim(l).len() > 0;
    law_line_ends_at_its_feed(line, rest);
    law_blank_is_all_white_space(line);
    lemma_filter_first(line, lines(rest), fits);
    reveal(Seq::filter);
    assert(lines(Seq::<char>::empty()) =~= Seq::empty());
    assert(Seq::<Seq<char>>::empty().filter(fits) =~= Seq::empty());
}

proof fn lemma_filter_first(
    first: Seq<char>,
    rest: Seq<Seq<char>>,
    fits: spec_fn(Seq<char>) -> bool,
)
    ensures
        (seq![first] + rest).filter(fits) == if fits(first) {
            seq![first] + rest.filter(fits)
        } else {
            rest.filter(fits)
        },
    decreases rest.len(),
{
    reveal(Seq::filter);
    let all = seq![first] + rest;
    if rest.len() == 0 {
        assert(all.drop_last() =~= Seq::empty());
        assert(Seq::<Seq<char>>::empty().filter(fits) =~= Seq::empty());
        assert(all.filter(fits) =~= if fits(first) {
            seq![first] + rest.filter(fits)
        } else {
            rest.filter(fits)
        });
    } else {
        lemma_filter_first(first, rest.drop_last(), fits);
        assert(all.drop_last() =~= seq![first] + rest.drop_last());
        assert(all.last() == rest.last());
        assert(all.filter(fits) =~= if fits(first) {
            seq![first] + rest.filter(fits)
        } else {
            rest.filter(fits)
        });
    }
}

/// A line gives the entry that it was written for. One that was written otherwise gives
/// what was parsed of it, and where that is nothing, nothing; the other lines are read
/// as they were.
pub proof fn law_each_line_gives_its_entry(
    kept: Seq<Seq<char>>,
    line: Seq<char>,
    parsed: Seq<Option<EntryView>>,
)
    ensures
        entries_on(Seq::empty(), parsed) == Seq::<EntryView>::empty(),
        ({
            let before = entries_on(kept, parsed);
            let after = entries_on(kept.push(line), parsed);
            let n = kept.len() as int;
            match entry_on(line) {
                Some(entry) => after == before + seq![entry],
                None => if n < parsed.len() {
                    match parsed[n] {
                        Some(entry) => after == before + seq![entry],
                        None => after == before,
                    }
                } else {
                    after == before
                },
            }
        }),
        forall|content: Seq<char>| #[trigger]
            restored(content, parsed) == messages_of(entries_on(kept_lines(content), parsed)),
{
    let before = entries_on(kept, parsed);
    assert(kept.push(line).drop_last() =~= kept);
    if let Some(entry) = entry_on(line) {
        assert(before.push(entry) =~= before + seq![entry]);
    } else if kept.len() < parsed.len() {
        if let Some(entry) = parsed[kept.len() as int] {
            assert(before.push(entry) =~= before + seq![entry]);
        }
    }
}

/// Sessions are kept in the directory `sessions` of the one that was set for it; else of
/// `.asobi` in the home directory; else of `asobi` in the XDG directory; else of the
/// current directory.
pub proof fn law_sessions_are_kept_under_a_known_directory(
    set: Seq<char>,
    home: Seq<char>,
    xdg: Seq<char>,
    other: Option<Seq<char>>,
    another: Option<Seq<char>>,
)
    ensures
        sessions_dir_of(Some(set), other, another) == joined_path(set, "sessions"@),
        sessions_dir_of(None, other, Some(home)) == joined_path(
            joined_path(home, ".asobi"@),
            "sessions"@,
        ),
        sessions_dir_of(None, Some(xdg), None) == joined_path(
            joined_path(xdg, "asobi"@),
            "sessions"@,
        ),
        sessions_dir_of(None, None, None) == joined_path("."@, "sessions"@),
{
}

/// The file of a session is its ID with `.jsonl` behind it, and no other file is one.
pub proof fn law_session_file_is_named_by_its_id(id: Seq<char>, name: Seq<char>)
    ensures
        id.len() > 0 ==> session_of(id + ".jsonl"@) == Some(id),
        session_of(name) matches Some(found) ==> found.len() > 0 && name == found + ".jsonl"@,
{
    reveal_strlit(".jsonl");
    let file = id + ".jsonl"@;
    assert(file.subrange(file.len() - 6, file.len() as int) =~= ".jsonl"@);
    assert(".jsonl"@.is_suffix_of(file));
    assert(file.take(file.len() - 6) =~= id);
    if let Some(found) = session_of(name) {
        assert(name.subrange(name.len() - 6, name.len() as int) =~= ".jsonl"@);
        assert(name =~= found + ".jsonl"@);
    }
}

/// A file counts for the last session exactly where its name is that of one and it can be
/// looked at; where the file system does not say when it was changed, it counts as the
/// oldest of those since 1970.
pub proof fn law_session_is_dated_by_its_file(id: Seq<char>, time: i128, name: Seq<char>)
    requires
        id.len() > 0,
    ensures
        ({
            let file = id + ".jsonl"@;
            &&& dated_session(SessionFileView { name: file, modified: Modified::At(time) })
                == Some((time as int, id))
            &&& dated_session(SessionFileView { name: file, modified: Modified::Unknown })
                == Some((0int, id))
            &&& dated_session(SessionFileView { name: file, modified: Modified::Unreadable })
                is None
        }),
        session_of(name) is None ==> dated_session(
            SessionFileView { name, modified: Modified::At(time) },
        ) is None && dated_session(SessionFileView { name, modified: Modified::Unknown }) is None,
{
    law_session_file_is_named_by_its_id(id, name);
}

/// The session that is continued is the first of those that were changed last.
pub proof fn law_first_of_the_newest_is_continued(files: Seq<SessionFileView>)
    ensures
        match newest_id(files) {
            Some(id) => exists|i: int|
                {
                    &&& 0 <= i < files.len()
                    &&& dated_session(#[trigger] files[i]) matches Some(best) && best.1 == id
                        && forall|j: int|
                        0 <= j < files.len() ==> match dated_session(#[trigger] files[j]) {
                            Some(session) => if j < i {
                                session.0 < best.0
                            } else {
                                session.0 <= best.0
                            },
                            None => true,
                        }
                },
            None => forall|i: int|
                0 <= i < files.len() ==> dated_session(#[trigger] files[i]) is None,
        },
{
    if files.len() > 0 && newest(files) is Some {
        let i = lemma_first_of_the_newest(files);
        assert(dated_session(files[i]) is Some);
    } else {
        law_latest_session_is_newest(files);
    }
}

proof fn lemma_first_of_the_newest(files: Seq<SessionFileView>) -> (i: int)
    requires
        newest(files) is Some,
    ensures
        0 <= i < files.len(),
        dated_session(files[i]) == newest(files),
        forall|j: int|
            0 <= j < files.len() ==> match dated_session(#[trigger] files[j]) {
                Some(session) => if j < i {
                    session.0 < (newest(files)->0).0
                } else {
                    session.0 <= (newest(files)->0).0
                },
                None => true,
            },
    decreases files.len(),
{
    let some = files.drop_last();
    let n = files.len() - 1;
    assert forall|j: int| 0 <= j < n implies #[trigger] some[j] == files[j] by {}
    assert(files[n] == files.last());
    if newest(some) is Some {
        let k = lemma_first_of_the_newest(some);
        if newest(files) == newest(some) {
            assert forall|j: int| 0 <= j < files.len() implies match dated_session(
                #[trigger] files[j],
            ) {
                Some(session) => if j < k {
                    session.0 < (newest(files)->0).0
                } else {
                    session.0 <= (newest(files)->0).0
                },
                None => true,
            } by {
                if j < n {
                    assert(some[j] == files[j]);
                }
            }
            k
        } else {
            assert forall|j: int| 0 <= j < files.len() implies match dated_session(
                #[trigger] files[j],
            ) {
                Some(session) => if j < n {
                    session.0 < (newest(files)->0).0
                } else {
                    session.0 <= (newest(files)->0).0
                },
                None => true,
            } by {
                if j < n {
                    assert(some[j] == files[j]);
                }
            }
            n
        }
    } else {
        law_latest_session_is_newest(some);
        assert forall|j: int| 0 <= j < n implies dated_session(#[trigger] files[j]) is None by {
            assert(dated_session(some[j]) is None);
        }
        n
    }
}

/// What was parsed of the lines is taken line by line, as it is.
pub proof fn law_parsed_lines_are_taken_as_they_are(parsed: Seq<Option<HistoryEntry>>, i: int)
    requires
        0 <= i < parsed.len(),
    ensures
        maybe_entries(parsed).len() == parsed.len(),
        match parsed[i] {
            Some(entry) => maybe_entries(parsed)[i] == Some(entry@),
            None => maybe_entries(parsed)[i] is None,
        },
{
}

/// The file of a session has one line for each entry.
pub proof fn law_entries_have_a_line_each(entries: Seq<EntryView>)
    ensures
        lines_for(entries).len() == entries.len(),
        forall|i: int|
            0 <= i < entries.len() ==> lines_for(entries)[i] == entry_line(
                #[trigger] entries[i],
            ),
{
}

}
