use handyxmutter::cli::{CliArgs, InstanceCommand};
use handyxmutter::logging::{level_filter_from_u8, level_filter_to_u8, LevelFilter};
use handyxmutter::ytdlp::{get_binary_name, Architecture, OperatingSystem};

#[test]
fn binary_name_for_each_platform() {
    assert_eq!(get_binary_name(OperatingSystem::Windows, Architecture::Aarch64), "yt-dlp_arm64.exe");
    assert_eq!(get_binary_name(OperatingSystem::Windows, Architecture::Other), "yt-dlp.exe");
    assert_eq!(get_binary_name(OperatingSystem::Linux, Architecture::Aarch64), "yt-dlp_linux_aarch64");
    assert_eq!(get_binary_name(OperatingSystem::Linux, Architecture::Other), "yt-dlp_linux");
    assert_eq!(get_binary_name(OperatingSystem::Other, Architecture::Aarch64), "yt-dlp_macos");
    assert_eq!(get_binary_name(OperatingSystem::Other, Architecture::Other), "yt-dlp_macos");
}

#[test]
fn level_filter_numbers() {
    assert_eq!(level_filter_from_u8(0), LevelFilter::Off);
    assert_eq!(level_filter_from_u8(1), LevelFilter::Error);
    assert_eq!(level_filter_from_u8(2), LevelFilter::Warn);
    assert_eq!(level_filter_from_u8(3), LevelFilter::Info);
    assert_eq!(level_filter_from_u8(4), LevelFilter::Debug);
    assert_eq!(level_filter_from_u8(5), LevelFilter::Trace);
}

#[test]
fn level_filter_past_the_last_is_trace() {
    assert_eq!(level_filter_from_u8(6), LevelFilter::Trace);
    assert_eq!(level_filter_from_u8(255), LevelFilter::Trace);
}

#[test]
fn level_filter_round_trip() {
    for value in 0u8..=5 {
        assert_eq!(level_filter_to_u8(level_filter_from_u8(value)), value);
    }
}

#[test]
fn default_switches_are_off() {
    let args = CliArgs::default();
    assert!(!args.start_hidden);
    assert!(!args.no_tray);
    assert!(!args.toggle_transcription);
    assert!(!args.toggle_post_process);
    assert!(!args.cancel);
    assert!(!args.debug);
    assert_eq!(args.instance_command(), InstanceCommand::ShowMainWindow);
}

#[test]
fn instance_command_takes_the_first_switch_set() {
    let mut args = CliArgs::default();
    args.cancel = true;
    assert_eq!(args.instance_command(), InstanceCommand::Cancel);
    args.toggle_post_process = true;
    assert_eq!(args.instance_command(), InstanceCommand::ToggleTranscriptionWithPostProcess);
    args.toggle_transcription = true;
    assert_eq!(args.instance_command(), InstanceCommand::ToggleTranscription);
}

#[test]
fn window_and_tray_switches_override_settings() {
    let mut args = CliArgs::default();
    assert!(!args.hides_window(false));
    assert!(args.hides_window(true));
    assert!(!args.quits_on_close(true));
    assert!(args.quits_on_close(false));
    args.start_hidden = true;
    args.no_tray = true;
    assert!(args.hides_window(false));
    assert!(args.quits_on_close(true));
}
