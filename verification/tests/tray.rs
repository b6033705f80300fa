use handyxmutter::tray::{
    get_icon_path, last_transcript_text, menu_item_id, tray_menu, AppTheme, HistoryEntry,
    TrayIconState, TrayMenuEntry, TrayMenuItem,
};

fn build_entry(transcription: &str, post_processed: Option<&str>) -> HistoryEntry {
    HistoryEntry {
        id: 1,
        file_name: "handy-1.wav".to_string(),
        timestamp: 0,
        saved: false,
        title: "Recording".to_string(),
        transcription_text: transcription.to_string(),
        post_processed_text: post_processed.map(|text| text.to_string()),
        post_process_prompt: None,
    }
}

#[test]
fn uses_post_processed_text_when_available() {
    let entry = build_entry("raw", Some("processed"));
    assert_eq!(last_transcript_text(&entry), "processed");
}

#[test]
fn falls_back_to_raw_transcription() {
    let entry = build_entry("raw", None);
    assert_eq!(last_transcript_text(&entry), "raw");
}

#[test]
fn empty_post_processed_text_still_wins() {
    let entry = build_entry("raw", Some(""));
    assert_eq!(last_transcript_text(&entry), "");
}

#[test]
fn dark_theme_uses_light_icons() {
    assert_eq!(get_icon_path(AppTheme::Dark, TrayIconState::Idle), "resources/tray_idle.png");
    assert_eq!(
        get_icon_path(AppTheme::Dark, TrayIconState::Recording),
        "resources/tray_recording.png"
    );
    assert_eq!(
        get_icon_path(AppTheme::Dark, TrayIconState::Transcribing),
        "resources/tray_transcribing.png"
    );
}

#[test]
fn light_theme_uses_dark_icons() {
    assert_eq!(get_icon_path(AppTheme::Light, TrayIconState::Idle), "resources/tray_idle_dark.png");
    assert_eq!(
        get_icon_path(AppTheme::Light, TrayIconState::Recording),
        "resources/tray_recording_dark.png"
    );
    assert_eq!(
        get_icon_path(AppTheme::Light, TrayIconState::Transcribing),
        "resources/tray_transcribing_dark.png"
    );
}

#[test]
fn colored_theme_uses_its_own_icons() {
    assert_eq!(get_icon_path(AppTheme::Colored, TrayIconState::Idle), "resources/handy.png");
    assert_eq!(get_icon_path(AppTheme::Colored, TrayIconState::Recording), "resources/recording.png");
    assert_eq!(
        get_icon_path(AppTheme::Colored, TrayIconState::Transcribing),
        "resources/transcribing.png"
    );
}

#[test]
fn every_theme_and_state_has_its_own_icon() {
    let themes = [AppTheme::Dark, AppTheme::Light, AppTheme::Colored];
    let states = [TrayIconState::Idle, TrayIconState::Recording, TrayIconState::Transcribing];
    let mut seen: Vec<&str> = Vec::new();
    for theme in themes {
        for state in states {
            let path = get_icon_path(theme, state);
            assert!(!seen.contains(&path));
            seen.push(path);
        }
    }
    assert_eq!(seen.len(), 9);
}

fn ids(menu: &[TrayMenuEntry]) -> Vec<&'static str> {
    menu.iter().map(|entry| menu_item_id(entry.item).unwrap_or("-")).collect()
}

#[test]
fn the_idle_menu_offers_to_unload_the_model() {
    let menu = tray_menu(TrayIconState::Idle, true, true);
    assert_eq!(
        ids(&menu),
        vec![
            "version",
            "-",
            "copy_last_transcript",
            "unload_model",
            "-",
            "settings",
            "check_updates",
            "-",
            "quit",
        ]
    );
    assert!(!menu[0].enabled);
    assert!(menu[1..].iter().all(|entry| entry.enabled));
}

#[test]
fn the_busy_menu_offers_to_cancel() {
    for state in [TrayIconState::Recording, TrayIconState::Transcribing] {
        let menu = tray_menu(state, true, true);
        assert_eq!(
            ids(&menu),
            vec![
                "version",
                "-",
                "cancel",
                "-",
                "copy_last_transcript",
                "-",
                "settings",
                "check_updates",
                "-",
                "quit",
            ]
        );
        assert!(!menu[0].enabled);
        assert!(menu[1..].iter().all(|entry| entry.enabled));
    }
}

#[test]
fn entries_that_make_no_sense_cannot_be_chosen() {
    let menu = tray_menu(TrayIconState::Idle, false, false);
    let unload = menu.iter().find(|entry| entry.item == TrayMenuItem::UnloadModel).unwrap();
    let updates = menu.iter().find(|entry| entry.item == TrayMenuItem::CheckUpdates).unwrap();
    assert!(!unload.enabled);
    assert!(!updates.enabled);
    let busy = tray_menu(TrayIconState::Recording, false, false);
    assert!(busy.iter().all(|entry| entry.item != TrayMenuItem::UnloadModel));
    let updates = busy.iter().find(|entry| entry.item == TrayMenuItem::CheckUpdates).unwrap();
    assert!(!updates.enabled);
}

#[test]
fn a_separator_has_no_identifier() {
    assert_eq!(menu_item_id(TrayMenuItem::Separator), None);
    assert_eq!(menu_item_id(TrayMenuItem::Quit), Some("quit"));
}
