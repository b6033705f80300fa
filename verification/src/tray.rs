//! Tray icon: which icon shows for a theme and a state, and which text of
//! the latest history entry goes to the clipboard.

use vstd::prelude::*;

verus! {

/// What the application is doing, as the tray icon shows it.
#[derive(Clone, Copy, Debug, PartialEq, Eq, Structural)]
pub enum TrayIconState {
    Idle,
    Recording,
    Transcribing,
}

/// The theme that the tray icon is drawn for.
#[derive(Clone, Copy, Debug, PartialEq, Eq, Structural)]
pub enum AppTheme {
    Dark,
    Light,
    /// The coloured icons that Linux always uses.
    Colored,
}

/// One finished transcription in the history.
pub struct HistoryEntry {
    pub id: i64,
    pub file_name: String,
    pub timestamp: i64,
    pub saved: bool,
    pub title: String,
    pub transcription_text: String,
    pub post_processed_text: Option<String>,
    pub post_process_prompt: Option<String>,
}

/// The icon file for `theme` and `state`: the dark theme has light icons,
/// the light theme dark ones, the coloured theme its own.
pub open spec fn icon_path_spec(theme: AppTheme, state: TrayIconState) -> Seq<char> {
    match (theme, state) {
        (AppTheme::Dark, TrayIconState::Idle) => "resources/tray_idle.png"@,
        (AppTheme::Dark, TrayIconState::Recording) => "resources/tray_recording.png"@,
        (AppTheme::Dark, TrayIconState::Transcribing) => "resources/tray_transcribing.png"@,
        (AppTheme::Light, TrayIconState::Idle) => "resources/tray_idle_dark.png"@,
        (AppTheme::Light, TrayIconState::Recording) => "resources/tray_recording_dark.png"@,
        (AppTheme::Light, TrayIconState::Transcribing) => "resources/tray_transcribing_dark.png"@,
        (AppTheme::Colored, TrayIconState::Idle) => "resources/handy.png"@,
        (AppTheme::Colored, TrayIconState::Recording) => "resources/recording.png"@,
        (AppTheme::Colored, TrayIconState::Transcribing) => "resources/transcribing.png"@,
    }
}

/// The path of the icon for `theme` and `state`, below the resource directory.
pub fn get_icon_path(theme: AppTheme, state: TrayIconState) -> (path: &'static str)
    ensures
        path@ == icon_path_spec(theme, state),
{
    match (theme, state) {
        (AppTheme::Dark, TrayIconState::Idle) => "resources/tray_idle.png",
        (AppTheme::Dark, TrayIconState::Recording) => "resources/tray_recording.png",
        (AppTheme::Dark, TrayIconState::Transcribing) => "resources/tray_transcribing.png",
        (AppTheme::Light, TrayIconState::Idle) => "resources/tray_idle_dark.png",
        (AppTheme::Light, TrayIconState::Recording) => "resources/tray_recording_dark.png",
        (AppTheme::Light, TrayIconState::Transcribing) => "resources/tray_transcribing_dark.png",
        (AppTheme::Colored, TrayIconState::Idle) => "resources/handy.png",
        (AppTheme::Colored, TrayIconState::Recording) => "resources/recording.png",
        (AppTheme::Colored, TrayIconState::Transcribing) => "resources/transcribing.png",
    }
}

/// The text of `entry` that is worth copying: the post-processed text
/// where there is one, else the transcription as it was made.
pub fn last_transcript_text(entry: &HistoryEntry) -> (text: &str)
    ensures
        text@ == match entry.post_processed_text {
            Some(processed) => processed@,
            None => entry.transcription_text@,
        },
{
    match &entry.post_processed_text {
        Some(processed) => processed.as_str(),
        None => entry.transcription_text.as_str(),
    }
}

/// An entry of the tray menu.
#[derive(Clone, Copy, Debug, PartialEq, Eq, Structural)]
pub enum TrayMenuItem {
    Version,
    Separator,
    Cancel,
    CopyLastTranscript,
    UnloadModel,
    Settings,
    CheckUpdates,
    Quit,
}

/// An entry of the tray menu, and whether it can be chosen.
#[derive(Clone, Copy, Debug, PartialEq, Eq, Structural)]
pub struct TrayMenuEntry {
    pub item: TrayMenuItem,
    pub enabled: bool,
}

/// An entry that can be chosen.
pub open spec fn enabled_entry(item: TrayMenuItem) -> TrayMenuEntry {
    TrayMenuEntry { item, enabled: true }
}

/// The tray menu for `state`.
///
/// The version heads the menu and cannot be chosen. While recording or
/// transcribing the menu offers to cancel; while idle it offers to unload
/// the model, if one is loaded. Checking for updates can be chosen only
/// where update checks are enabled.
pub open spec fn tray_menu_spec(
    state: TrayIconState,
    model_loaded: bool,
    update_checks_enabled: bool,
) -> Seq<TrayMenuEntry> {
    let version = TrayMenuEntry { item: TrayMenuItem::Version, enabled: false };
    let separator = enabled_entry(TrayMenuItem::Separator);
    let copy = enabled_entry(TrayMenuItem::CopyLastTranscript);
    let settings = enabled_entry(TrayMenuItem::Settings);
    let updates = TrayMenuEntry { item: TrayMenuItem::CheckUpdates, enabled: update_checks_enabled };
    let quit = enabled_entry(TrayMenuItem::Quit);
    match state {
        TrayIconState::Idle => seq![
            version,
            separator,
            copy,
            TrayMenuEntry { item: TrayMenuItem::UnloadModel, enabled: model_loaded },
            separator,
            settings,
            updates,
            separator,
            quit,
        ],
        _ => seq![
            version,
            separator,
            enabled_entry(TrayMenuItem::Cancel),
            separator,
            copy,
            separator,
            settings,
            updates,
            separator,
            quit,
        ],
    }
}

/// The entries of the tray menu for `state`, from top to bottom.
pub fn tray_menu(state: TrayIconState, model_loaded: bool, update_checks_enabled: bool) -> (menu:
    Vec<TrayMenuEntry>)
    ensures
        menu@ == tray_menu_spec(state, model_loaded, update_checks_enabled),
{
    let separator = TrayMenuEntry { item: TrayMenuItem::Separator, enabled: true };
    let mut menu: Vec<TrayMenuEntry> = Vec::new();
    menu.push(TrayMenuEntry { item: TrayMenuItem::Version, enabled: false });
    menu.push(separator);
    match state {
        TrayIconState::Idle => {
            menu.push(TrayMenuEntry { item: TrayMenuItem::CopyLastTranscript, enabled: true });
            menu.push(TrayMenuEntry { item: TrayMenuItem::UnloadModel, enabled: model_loaded });
        },
        _ => {
            menu.push(TrayMenuEntry { item: TrayMenuItem::Cancel, enabled: true });
            menu.push(separator);
            menu.push(TrayMenuEntry { item: TrayMenuItem::CopyLastTranscript, enabled: true });
        },
    }
    menu.push(separator);
    menu.push(TrayMenuEntry { item: TrayMenuItem::Settings, enabled: true });
    menu.push(TrayMenuEntry { item: TrayMenuItem::CheckUpdates, enabled: update_checks_enabled });
    menu.push(separator);
    menu.push(TrayMenuEntry { item: TrayMenuItem::Quit, enabled: true });
    assert(menu@ =~= tray_menu_spec(state, model_loaded, update_checks_enabled));
    menu
}

/// The identifier that menu events carry for `item`; a separator has none.
pub open spec fn menu_item_id_spec(item: TrayMenuItem) -> Option<Seq<char>> {
    match item {
        TrayMenuItem::Version => Some("version"@),
        TrayMenuItem::Separator => None,
        TrayMenuItem::Cancel => Some("cancel"@),
        TrayMenuItem::CopyLastTranscript => Some("copy_last_transcript"@),
        TrayMenuItem::UnloadModel => Some("unload_model"@),
        TrayMenuItem::Settings => Some("settings"@),
        TrayMenuItem::CheckUpdates => Some("check_updates"@),
        TrayMenuItem::Quit => Some("quit"@),
    }
}

/// The identifier that menu events carry for `item`; a separator has none.
pub fn menu_item_id(item: TrayMenuItem) -> (id: Option<&'static str>)
    ensures
        id is Some <==> menu_item_id_spec(item) is Some,
        id matches Some(text) ==> Some(text@) == menu_item_id_spec(item),
{
    match item {
        TrayMenuItem::Version => Some("version"),
        TrayMenuItem::Separator => None,
        TrayMenuItem::Cancel => Some("cancel"),
        TrayMenuItem::CopyLastTranscript => Some("copy_last_transcript"),
        TrayMenuItem::UnloadModel => Some("unload_model"),
        TrayMenuItem::Settings => Some("settings"),
        TrayMenuItem::CheckUpdates => Some("check_updates"),
        TrayMenuItem::Quit => Some("quit"),
    }
}

} // verus!
