//! Journal entries and the names and contents of the files kept beside them.

use vstd::prelude::*;
use vstd::string::*;
use crate::text::{
    chars_of, decimal, decimal_spec, string_of, to_uppercase, trim_bounds,
    trim_end, trim_end_bound, trim_end_spec, trim_spec, uppercase_of,
};

verus! {

/// One entry of the journal.
pub struct JournalEntry {
    pub id: i64,
    pub file_name: String,
    pub timestamp: i64,
    pub title: String,
    pub transcription_text: String,
    pub post_processed_text: Option<String>,
    pub post_process_prompt_id: Option<String>,
    pub tags: Vec<String>,
    pub linked_entry_ids: Vec<i64>,
    pub folder_id: Option<i64>,
    pub transcript_snapshots: Vec<String>,
    pub source: String,
    pub source_url: Option<String>,
    pub speaker_names: String,
    pub user_source: String,
}

/// A chat or a jot that belongs to a journal entry.
pub struct ChatSession {
    pub id: i64,
    pub entry_id: i64,
    pub mode: String,
    pub title: String,
    pub created_at: i64,
    pub updated_at: i64,
}

/// One message of a chat session.
pub struct ChatMessage {
    pub id: i64,
    pub session_id: i64,
    pub role: String,
    pub content: String,
    pub created_at: i64,
}

/// Longest file name that `sanitize_filename` gives, in bytes of UTF-8.
pub const MAX_FILE_NAME_BYTES: usize = 100;

/// Whether a file name may not hold `c`.
pub open spec fn is_unsafe_in_file_name(c: char) -> bool {
    c == '/' || c == '\\' || c == ':' || c == '*' || c == '?' || c == '"' || c == '<' || c == '>'
        || c == '|'
}

/// `c`, or an underscore in its place where a file name may not hold it.
pub open spec fn safe_char(c: char) -> char {
    if is_unsafe_in_file_name(c) {
        '_'
    } else {
        c
    }
}

/// Number of bytes of `c` in UTF-8.
pub open spec fn utf8_width(c: char) -> int {
    let n = c as u32;
    if n < 0x80 {
        1
    } else if n < 0x800 {
        2
    } else if n < 0x1_0000 {
        3
    } else {
        4
    }
}

/// Number of leading characters of `s` that fit `limit` bytes of UTF-8.
pub open spec fn fitting_len(s: Seq<char>, limit: int) -> int
    decreases s.len(),
{
    if s.len() == 0 || utf8_width(s.first()) > limit {
        0
    } else {
        1 + fitting_len(s.drop_first(), limit - utf8_width(s.first()))
    }
}

/// What `sanitize_filename` returns.
pub open spec fn sanitize_filename_spec(s: Seq<char>) -> Seq<char> {
    let trimmed = trim_spec(s.map_values(|c: char| safe_char(c)));
    let fitting = fitting_len(trimmed, MAX_FILE_NAME_BYTES as int);
    if trimmed.len() == 0 {
        "untitled"@
    } else if fitting < trimmed.len() {
        trim_end_spec(trimmed.take(fitting))
    } else {
        trimmed
    }
}

/// What `entry_base_name` returns.
pub open spec fn base_name_spec(file_name: Seq<char>) -> Seq<char> {
    let len = file_name.len() as int;
    if len >= 4 && file_name.subrange(len - 4, len) == seq!['.', 'w', 'a', 'v'] {
        file_name.take(len - 4)
    } else {
        file_name
    }
}

/// `s` with `head` in place of its first character; nothing for an empty `s`.
pub open spec fn with_head(head: Seq<char>, s: Seq<char>) -> Seq<char> {
    if s.len() == 0 {
        Seq::empty()
    } else {
        head + s.drop_first()
    }
}

/// `s` with its first character in upper case.
pub open spec fn capitalized(s: Seq<char>) -> Seq<char> {
    if s.len() == 0 {
        Seq::empty()
    } else {
        with_head(uppercase_of(s.first()), s)
    }
}

/// `c`, or an underscore in its place where a file name may not hold it.
pub fn replace_unsafe(c: char) -> (safe: char)
    ensures
        safe == safe_char(c),
{
    if c == '/' || c == '\\' || c == ':' || c == '*' || c == '?' || c == '"' || c == '<' || c
        == '>' || c == '|' {
        '_'
    } else {
        c
    }
}

/// Number of bytes of `c` in UTF-8.
pub fn utf8_len(c: char) -> (width: usize)
    ensures
        width == utf8_width(c),
        1 <= width <= 4,
{
    let n: u32 = c as u32;
    if n < 0x80 {
        1
    } else if n < 0x800 {
        2
    } else if n < 0x1_0000 {
        3
    } else {
        4
    }
}

/// Makes a text fit for a file name.
///
/// Each of `/ \ : * ? " < > |` becomes an underscore and the text is
/// trimmed. An empty result becomes `untitled`. A result longer than 100
/// bytes of UTF-8 is cut to the characters that fit 100 bytes, and trimmed
/// again at its end.
pub fn sanitize_filename(s: &str) -> (name: String)
    ensures
        name@ == sanitize_filename_spec(s@),
{
    let raw = chars_of(s);
    let mut chars: Vec<char> = Vec::new();
    let mut i: usize = 0;
    while i < raw.len()
        invariant
            i <= raw.len(),
            chars.len() == i,
            forall|k: int| 0 <= k < i ==> chars[k] == safe_char(raw[k]),
        decreases raw.len() - i,
    {
        chars.push(replace_unsafe(raw[i]));
        i = i + 1;
    }
    assert(chars@ =~= s@.map_values(|c: char| safe_char(c)));
    let (start, end) = trim_bounds(&chars);
    if start == end {
        return String::from_str("untitled");
    }
    let ghost trimmed = chars@.subrange(start as int, end as int);
    let mut k: usize = start;
    let mut bytes: usize = 0;
    assert(trimmed.subrange(0, trimmed.len() as int) =~= trimmed);
    while k < end && bytes + utf8_len(chars[k]) <= MAX_FILE_NAME_BYTES
        invariant
            start <= k <= end <= chars.len(),
            bytes <= MAX_FILE_NAME_BYTES,
            trimmed == chars@.subrange(start as int, end as int),
            fitting_len(trimmed, MAX_FILE_NAME_BYTES as int) == (k - start) + fitting_len(
                trimmed.subrange(k - start, trimmed.len() as int),
                MAX_FILE_NAME_BYTES - bytes,
            ),
        decreases end - k,
    {
        proof {
            let rest = trimmed.subrange(k - start, trimmed.len() as int);
            assert(rest.first() == chars@[k as int]);
            assert(rest.drop_first() =~= trimmed.subrange(k + 1 - start, trimmed.len() as int));
        }
        bytes = bytes + utf8_len(chars[k]);
        k = k + 1;
    }
    proof {
        let rest = trimmed.subrange(k - start, trimmed.len() as int);
        if k < end {
            assert(rest.first() == chars@[k as int]);
        }
        assert(fitting_len(trimmed, MAX_FILE_NAME_BYTES as int) == k - start);
    }
    if k < end {
        let cut = trim_end_bound(&chars, start, k);
        assert(trimmed.take(k - start) =~= chars@.subrange(start as int, k as int));
        string_of(&chars, start, cut)
    } else {
        string_of(&chars, start, end)
    }
}

/// The name of an entry's audio file without the ending `.wav`; a name
/// that does not end so is returned whole.
pub fn entry_base_name(file_name: &str) -> (base: &str)
    ensures
        base@ == base_name_spec(file_name@),
{
    let chars = chars_of(file_name);
    let len: usize = chars.len();
    if len >= 4 && chars[len - 4] == '.' && chars[len - 3] == 'w' && chars[len - 2] == 'a'
        && chars[len - 1] == 'v' {
        assert(file_name@.subrange(len - 4, len as int) =~= seq!['.', 'w', 'a', 'v']);
        assert(file_name@.subrange(0, len - 4) =~= file_name@.take(len - 4));
        file_name.substring_char(0, len - 4)
    } else {
        proof {
            if len >= 4 {
                let tail = file_name@.subrange(len - 4, len as int);
                assert(tail[0] == chars@[len - 4]);
                assert(tail[1] == chars@[len - 3]);
                assert(tail[2] == chars@[len - 2]);
                assert(tail[3] == chars@[len - 1]);
            }
        }
        file_name
    }
}

/// `s` with `head` in place of its first character; nothing for an empty `s`.
pub fn replace_head(head: &str, s: &str) -> (text: String)
    ensures
        text@ == with_head(head@, s@),
{
    let chars = chars_of(s);
    if chars.len() == 0 {
        return String::new();
    }
    let mut text = String::from_str(head);
    let rest = string_of(&chars, 1, chars.len());
    assert(s@.subrange(1, s@.len() as int) =~= s@.drop_first());
    text.append(rest.as_str());
    text
}

/// `s` with its first character in upper case.
pub fn capitalize_first(s: &str) -> (text: String)
    ensures
        text@ == capitalized(s@),
{
    let chars = chars_of(s);
    if chars.len() == 0 {
        return String::new();
    }
    let upper = to_uppercase(chars[0]);
    replace_head(upper.as_str(), s)
}

/// The title of a session in file names: the sanitized title, or
/// `Session N` for a session without title.
pub open spec fn session_title_spec(session: ChatSession) -> Seq<char> {
    if session.title@.len() == 0 {
        "Session "@ + decimal_spec(session.id as int)
    } else {
        sanitize_filename_spec(session.title@)
    }
}

/// The name of the Markdown file of a session: for a jot
/// `BASE - Jot - TITLE.md`, for a chat `BASE - Chat - MODE - TITLE.md` with
/// the mode's first letter in upper case.
pub open spec fn chat_md_file_name_spec(file_name: Seq<char>, session: ChatSession) -> Seq<char> {
    let base = base_name_spec(file_name);
    let title = session_title_spec(session);
    if session.mode@ == "jotter"@ {
        base + " - Jot - "@ + title + ".md"@
    } else {
        base + " - Chat - "@ + capitalized(session.mode@) + " - "@ + title + ".md"@
    }
}

/// The name under which a recording imported at `timestamp` (seconds
/// since the epoch) is kept.
pub fn imported_file_name(timestamp: i64) -> (name: String)
    ensures
        name@ == "mutter-import-"@ + decimal_spec(timestamp as int) + ".wav"@,
{
    let mut name = String::from_str("mutter-import-");
    name.append(decimal(timestamp).as_str());
    name.append(".wav");
    name
}

/// The name of the Markdown file that holds an entry's transcript.
pub fn transcript_md_file_name(entry: &JournalEntry) -> (name: String)
    ensures
        name@ == base_name_spec(entry.file_name@) + ".md"@,
{
    let mut name = String::from_str(entry_base_name(entry.file_name.as_str()));
    name.append(".md");
    name
}

/// The name of the Markdown file that holds a chat session of `entry`.
pub fn chat_md_file_name(entry: &JournalEntry, session: &ChatSession) -> (name: String)
    ensures
        name@ == chat_md_file_name_spec(entry.file_name@, *session),
{
    let title = if session.title.as_str().unicode_len() == 0 {
        let mut numbered = String::from_str("Session ");
        numbered.append(decimal(session.id).as_str());
        numbered
    } else {
        sanitize_filename(session.title.as_str())
    };
    let mut name = String::from_str(entry_base_name(entry.file_name.as_str()));
    if session.mode == String::from_str("jotter") {
        name.append(" - Jot - ");
    } else {
        name.append(" - Chat - ");
        name.append(capitalize_first(session.mode.as_str()).as_str());
        name.append(" - ");
    }
    name.append(title.as_str());
    name.append(".md");
    name
}

/// The name a message's author goes by in a chat file.
pub open spec fn role_label_spec(role: Seq<char>) -> Seq<char> {
    if role == "user"@ {
        "You"@
    } else {
        "mutter"@
    }
}

/// One message as a paragraph of a chat file.
pub open spec fn message_paragraph(message: ChatMessage) -> Seq<char> {
    "**"@ + role_label_spec(message.role@) + "**: "@ + message.content@ + "\n\n"@
}

/// The paragraphs of the first `n` messages, one after the other.
pub open spec fn conversation_spec(messages: Seq<ChatMessage>, n: int) -> Seq<char>
    decreases n,
{
    if n <= 0 {
        Seq::empty()
    } else {
        conversation_spec(messages, n - 1) + message_paragraph(messages[n - 1])
    }
}

/// The content of the Markdown file of a session: for a jot the last
/// message as it is, for a chat every message as a paragraph; in both
/// cases without white space at the end.
pub open spec fn chat_md_content_spec(session: ChatSession, messages: Seq<ChatMessage>) -> Seq<
    char,
> {
    if session.mode@ == "jotter"@ {
        if messages.len() == 0 {
            Seq::empty()
        } else {
            trim_end_spec(messages.last().content@)
        }
    } else {
        trim_end_spec(conversation_spec(messages, messages.len() as int))
    }
}

/// The content of the Markdown file that holds a chat session.
pub fn chat_md_content(session: &ChatSession, messages: &Vec<ChatMessage>) -> (content: String)
    ensures
        content@ == chat_md_content_spec(*session, messages@),
{
    if session.mode == String::from_str("jotter") {
        if messages.len() == 0 {
            String::new()
        } else {
            trim_end(messages[messages.len() - 1].content.as_str())
        }
    } else {
        let user = String::from_str("user");
        let mut text = String::new();
        let mut i: usize = 0;
        while i < messages.len()
            invariant
                i <= messages.len(),
                user@ == "user"@,
                text@ == conversation_spec(messages@, i as int),
            decreases messages.len() - i,
        {
            text.append("**");
            if messages[i].role == user {
                text.append("You");
            } else {
                text.append("mutter");
            }
            text.append("**: ");
            text.append(messages[i].content.as_str());
            text.append("\n\n");
            i = i + 1;
            assert(text@ =~= conversation_spec(messages@, i as int));
        }
        trim_end(text.as_str())
    }
}

} // verus!
