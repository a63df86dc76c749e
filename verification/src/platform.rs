//! Platform choices made once at start-up: which WebView2 runtime to use and
//! where downloads go by default on Windows.

use vstd::prelude::*;


verus! {

/// The environment variable through which WebView2 is pointed at a runtime.
pub const WEBVIEW2_RUNTIME_VAR: &'static str = "WEBVIEW2_BROWSER_EXECUTABLE_FOLDER";

/// The folder, next to the executable, that holds a private runtime.
pub const PRIVATE_RUNTIME_DIR: &'static str = "webview2-runtime";

/// The browser executable a private runtime must contain.
pub const RUNTIME_EXECUTABLE: &'static str = "msedgewebview2.exe";

/// The folder name used for downloads under the user profile, and alone as
/// the last resort.
pub const DEFAULT_DOWNLOAD_FOLDER_NAME: &'static str = "Downloads";

/// The private runtime folder to point WebView2 at, if any: none when a
/// runtime is already configured, otherwise the private folder next to the
/// executable when it exists and holds the browser executable.
pub fn prefer_private_webview2_runtime<P>(
    already_configured: bool,
    private_runtime: Option<P>,
    runtime_has_browser: bool,
) -> (r: Option<P>)
    ensures
        r == if already_configured || !runtime_has_browser {
            None
        } else {
            private_runtime
        },
{
    if already_configured {
        return None;
    }
    match private_runtime {
        Some(runtime) => if runtime_has_browser {
            Some(runtime)
        } else {
            None
        },
        None => None,
    }
}

/// Where downloads go by default; `P` is the platform's path type.
pub enum DownloadDirChoice<P> {
    /// The Downloads known folder of the shell.
    KnownFolder(P),
    /// `Downloads` under the user profile.
    UnderProfile(P),
    /// `Downloads` relative to the working directory.
    Relative,
}

/// The default download folder: the shell's known folder when it resolves,
/// else `Downloads` under the user profile, else a relative `Downloads`.
pub fn default_download_dir<P>(known_folder: Option<P>, user_profile: Option<P>) -> (r:
    DownloadDirChoice<P>)
    ensures
        match r {
            DownloadDirChoice::KnownFolder(k) => known_folder == Some(k),
            DownloadDirChoice::UnderProfile(p) => known_folder is None && user_profile == Some(p),
            DownloadDirChoice::Relative => known_folder is None && user_profile is None,
        },
{
    match known_folder {
        Some(k) => DownloadDirChoice::KnownFolder(k),
        None => match user_profile {
            Some(p) => DownloadDirChoice::UnderProfile(p),
            None => DownloadDirChoice::Relative,
        },
    }
}

} // verus!
