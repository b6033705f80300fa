use handyxmutter::journal::{
    capitalize_first, chat_md_content, chat_md_file_name, entry_base_name, imported_file_name,
    replace_head, replace_unsafe, sanitize_filename, transcript_md_file_name, utf8_len, ChatMessage,
    ChatSession, JournalEntry, MAX_FILE_NAME_BYTES,
};

fn entry(file_name: &str) -> JournalEntry {
    JournalEntry {
        id: 7,
        file_name: file_name.to_string(),
        timestamp: 1700000000,
        title: "Team meeting".to_string(),
        transcription_text: "hello".to_string(),
        post_processed_text: None,
        post_process_prompt_id: None,
        tags: vec!["work".to_string()],
        linked_entry_ids: vec![1, 2],
        folder_id: None,
        transcript_snapshots: Vec::new(),
        source: "meeting".to_string(),
        source_url: None,
        speaker_names: "{}".to_string(),
        user_source: String::new(),
    }
}

fn session(id: i64, mode: &str, title: &str) -> ChatSession {
    ChatSession {
        id,
        entry_id: 7,
        mode: mode.to_string(),
        title: title.to_string(),
        created_at: 0,
        updated_at: 0,
    }
}

fn message(role: &str, content: &str) -> ChatMessage {
    ChatMessage {
        id: 0,
        session_id: 1,
        role: role.to_string(),
        content: content.to_string(),
        created_at: 0,
    }
}

/// The same rule written with the standard library, for names that it can cut.
fn reference_sanitize(s: &str) -> String {
    let sanitized: String = s
        .chars()
        .map(|c| match c {
            '/' | '\\' | ':' | '*' | '?' | '"' | '<' | '>' | '|' => '_',
            _ => c,
        })
        .collect();
    let trimmed = sanitized.trim().to_string();
    if trimmed.is_empty() {
        "untitled".to_string()
    } else if trimmed.len() > 100 {
        trimmed[..100].trim_end().to_string()
    } else {
        trimmed
    }
}

#[test]
fn unsafe_characters_become_underscores() {
    assert_eq!(sanitize_filename("a/b\\c:d*e?f\"g<h>i|j"), "a_b_c_d_e_f_g_h_i_j");
    assert_eq!(replace_unsafe('/'), '_');
    assert_eq!(replace_unsafe('a'), 'a');
    assert_eq!(replace_unsafe('_'), '_');
}

#[test]
fn names_are_trimmed() {
    assert_eq!(sanitize_filename("  My Note \n"), "My Note");
}

#[test]
fn an_empty_name_is_untitled() {
    assert_eq!(sanitize_filename(""), "untitled");
    assert_eq!(sanitize_filename("  \t "), "untitled");
}

#[test]
fn a_name_of_unsafe_characters_only_is_kept_as_underscores() {
    assert_eq!(sanitize_filename("???"), "___");
}

#[test]
fn long_names_are_cut_at_100_bytes() {
    assert_eq!(MAX_FILE_NAME_BYTES, 100);
    let long = "x".repeat(150);
    assert_eq!(sanitize_filename(&long), "x".repeat(100));
    let exact = "y".repeat(100);
    assert_eq!(sanitize_filename(&exact), exact);
}

#[test]
fn a_cut_name_is_trimmed_at_its_end() {
    let name = format!("{}   {}", "a".repeat(98), "b".repeat(20));
    assert_eq!(sanitize_filename(&name), "a".repeat(98));
}

#[test]
fn a_cut_never_splits_a_character() {
    // 34 characters of three bytes each: 33 fit 100 bytes.
    let name = "語".repeat(34);
    assert_eq!(sanitize_filename(&name), "語".repeat(33));
    // 50 characters of two bytes each fit exactly.
    let name = "é".repeat(51);
    assert_eq!(sanitize_filename(&name), "é".repeat(50));
}

#[test]
fn sanitizing_agrees_with_the_standard_library() {
    let samples = [
        "plain",
        " lead and trail ",
        "what/is:this?",
        "",
        "    ",
        "ünïcödé nämé",
        &"z".repeat(100),
        &"z".repeat(101),
        &format!("{} {}", "w".repeat(99), "tail"),
        &"é".repeat(60),
    ];
    for s in samples {
        assert_eq!(sanitize_filename(s), reference_sanitize(s));
    }
}

#[test]
fn utf8_lengths() {
    assert_eq!(utf8_len('a'), 1);
    assert_eq!(utf8_len('\u{7f}'), 1);
    assert_eq!(utf8_len('\u{80}'), 2);
    assert_eq!(utf8_len('é'), 2);
    assert_eq!(utf8_len('\u{7ff}'), 2);
    assert_eq!(utf8_len('\u{800}'), 3);
    assert_eq!(utf8_len('語'), 3);
    assert_eq!(utf8_len('\u{ffff}'), 3);
    assert_eq!(utf8_len('\u{10000}'), 4);
    assert_eq!(utf8_len('😀'), 4);
    for code in 0u32..=0x11_0000 {
        if let Some(c) = char::from_u32(code) {
            assert_eq!(utf8_len(c), c.len_utf8());
        }
    }
}

#[test]
fn base_name_drops_the_wav_ending() {
    assert_eq!(entry_base_name("note.wav"), "note");
    assert_eq!(entry_base_name("My Note (2).wav"), "My Note (2)");
    assert_eq!(entry_base_name(".wav"), "");
    assert_eq!(entry_base_name("a.wav.wav"), "a.wav");
    assert_eq!(entry_base_name("épée.wav"), "épée");
}

#[test]
fn base_name_keeps_other_names_whole() {
    assert_eq!(entry_base_name("note.md"), "note.md");
    assert_eq!(entry_base_name("note.WAV"), "note.WAV");
    assert_eq!(entry_base_name("wav"), "wav");
    assert_eq!(entry_base_name(""), "");
    assert_eq!(entry_base_name("note.wav "), "note.wav ");
}

#[test]
fn capitalize_first_letter() {
    assert_eq!(capitalize_first("retrieve"), "Retrieve");
    assert_eq!(capitalize_first("Sharpen"), "Sharpen");
    assert_eq!(capitalize_first(""), "");
    assert_eq!(capitalize_first("x"), "X");
    assert_eq!(capitalize_first("émile zola"), "Émile zola");
    assert_eq!(capitalize_first("ßtraße"), "SStraße");
    assert_eq!(capitalize_first("1st"), "1st");
}

#[test]
fn replace_head_replaces_the_first_character() {
    assert_eq!(replace_head("AB", "xyz"), "AByz");
    assert_eq!(replace_head("", "xyz"), "yz");
    assert_eq!(replace_head("AB", ""), "");
}

#[test]
fn transcript_file_name() {
    assert_eq!(transcript_md_file_name(&entry("Team meeting.wav")), "Team meeting.md");
    assert_eq!(transcript_md_file_name(&entry("Team meeting.md")), "Team meeting.md.md");
}

#[test]
fn chat_file_names() {
    let e = entry("Team meeting.wav");
    assert_eq!(
        chat_md_file_name(&e, &session(3, "retrieve", "What was said?")),
        "Team meeting - Chat - Retrieve - What was said_.md"
    );
    assert_eq!(
        chat_md_file_name(&e, &session(3, "jotter", "Shopping list")),
        "Team meeting - Jot - Shopping list.md"
    );
}

#[test]
fn a_session_without_title_is_numbered() {
    let e = entry("Team meeting.wav");
    assert_eq!(
        chat_md_file_name(&e, &session(42, "sharpen", "")),
        "Team meeting - Chat - Sharpen - Session 42.md"
    );
    assert_eq!(chat_md_file_name(&e, &session(-5, "jotter", "")), "Team meeting - Jot - Session -5.md");
}

#[test]
fn a_chat_is_written_as_a_conversation() {
    let messages = vec![
        message("user", "What was decided?"),
        message("assistant", "To ship on Friday."),
        message("user", "Thanks"),
    ];
    assert_eq!(
        chat_md_content(&session(1, "retrieve", "t"), &messages),
        "**You**: What was decided?\n\n**mutter**: To ship on Friday.\n\n**You**: Thanks"
    );
    assert_eq!(chat_md_content(&session(1, "retrieve", "t"), &Vec::new()), "");
}

#[test]
fn a_jot_is_its_last_message() {
    let messages = vec![message("user", "first draft"), message("user", "  final text \n\n")];
    assert_eq!(chat_md_content(&session(1, "jotter", "t"), &messages), "  final text");
    assert_eq!(chat_md_content(&session(1, "jotter", "t"), &Vec::new()), "");
}

#[test]
fn an_imported_recording_is_named_by_its_time() {
    assert_eq!(imported_file_name(1_700_000_000), "mutter-import-1700000000.wav");
    assert_eq!(imported_file_name(0), "mutter-import-0.wav");
    assert_eq!(imported_file_name(-42), "mutter-import--42.wav");
    assert_eq!(
        imported_file_name(i64::MIN),
        format!("mutter-import-{}.wav", i64::MIN)
    );
}
