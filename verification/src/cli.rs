//! Command-line switches of the application.

use vstd::prelude::*;

verus! {

/// The switches given on the command line; each is off unless it was given.
#[derive(Clone, Copy, Debug)]
pub struct CliArgs {
    /// Start with the main window hidden.
    pub start_hidden: bool,
    /// Disable the system tray icon.
    pub no_tray: bool,
    /// Toggle transcription in the running instance.
    pub toggle_transcription: bool,
    /// Toggle transcription with post-processing in the running instance.
    pub toggle_post_process: bool,
    /// Cancel the current operation of the running instance.
    pub cancel: bool,
    /// Enable debug mode with verbose logging.
    pub debug: bool,
}

impl Default for CliArgs {
    fn default() -> (args: CliArgs)
        ensures
            !args.start_hidden,
            !args.no_tray,
            !args.toggle_transcription,
            !args.toggle_post_process,
            !args.cancel,
            !args.debug,
    {
        CliArgs {
            start_hidden: false,
            no_tray: false,
            toggle_transcription: false,
            toggle_post_process: false,
            cancel: false,
            debug: false,
        }
    }
}

/// What a second launch asks of the instance that already runs.
#[derive(Clone, Copy, Debug, PartialEq, Eq, Structural)]
pub enum InstanceCommand {
    ToggleTranscription,
    ToggleTranscriptionWithPostProcess,
    Cancel,
    ShowMainWindow,
}

impl CliArgs {
    /// The command that these switches send to a running instance: the
    /// first that is set of toggling transcription, toggling with
    /// post-processing and cancelling; with none set, the main window is shown.
    pub fn instance_command(&self) -> (command: InstanceCommand)
        ensures
            command == if self.toggle_transcription {
                InstanceCommand::ToggleTranscription
            } else if self.toggle_post_process {
                InstanceCommand::ToggleTranscriptionWithPostProcess
            } else if self.cancel {
                InstanceCommand::Cancel
            } else {
                InstanceCommand::ShowMainWindow
            },
    {
        if self.toggle_transcription {
            InstanceCommand::ToggleTranscription
        } else if self.toggle_post_process {
            InstanceCommand::ToggleTranscriptionWithPostProcess
        } else if self.cancel {
            InstanceCommand::Cancel
        } else {
            InstanceCommand::ShowMainWindow
        }
    }

    /// Whether the main window stays hidden at start: the setting asks for
    /// it, or the command line does.
    pub fn hides_window(&self, setting_start_hidden: bool) -> (hidden: bool)
        ensures
            hidden == (setting_start_hidden || self.start_hidden),
    {
        setting_start_hidden || self.start_hidden
    }

    /// Whether closing the main window ends the application: it does when
    /// there is no tray icon to go on living in.
    pub fn quits_on_close(&self, setting_show_tray_icon: bool) -> (quits: bool)
        ensures
            quits == (!setting_show_tray_icon || self.no_tray),
    {
        !setting_show_tray_icon || self.no_tray
    }
}

} // verus!
