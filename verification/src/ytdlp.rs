//! The downloader binary: which release file belongs to a platform.

use vstd::prelude::*;

verus! {

/// The operating system a build runs on.
#[derive(Clone, Copy, Debug, PartialEq, Eq, Structural)]
pub enum OperatingSystem {
    Windows,
    Linux,
    /// Any other system; the macOS binary is used there.
    Other,
}

/// The processor architecture a build runs on.
#[derive(Clone, Copy, Debug, PartialEq, Eq, Structural)]
pub enum Architecture {
    Aarch64,
    /// Any other architecture; the default binary of the system is used.
    Other,
}

/// The release file of the downloader for a platform.
pub open spec fn binary_name_spec(os: OperatingSystem, arch: Architecture) -> Seq<char> {
    match (os, arch) {
        (OperatingSystem::Windows, Architecture::Aarch64) => "yt-dlp_arm64.exe"@,
        (OperatingSystem::Windows, Architecture::Other) => "yt-dlp.exe"@,
        (OperatingSystem::Linux, Architecture::Aarch64) => "yt-dlp_linux_aarch64"@,
        (OperatingSystem::Linux, Architecture::Other) => "yt-dlp_linux"@,
        (OperatingSystem::Other, _) => "yt-dlp_macos"@,
    }
}

/// The name of the downloader's release file for `os` and `arch`.
pub fn get_binary_name(os: OperatingSystem, arch: Architecture) -> (name: &'static str)
    ensures
        name@ == binary_name_spec(os, arch),
{
    match os {
        OperatingSystem::Windows => match arch {
            Architecture::Aarch64 => "yt-dlp_arm64.exe",
            Architecture::Other => "yt-dlp.exe",
        },
        OperatingSystem::Linux => match arch {
            Architecture::Aarch64 => "yt-dlp_linux_aarch64",
            Architecture::Other => "yt-dlp_linux",
        },
        OperatingSystem::Other => "yt-dlp_macos",
    }
}

} // verus!
