use zlack::platform::{default_download_dir, prefer_private_webview2_runtime, DownloadDirChoice};
use zlack::text::{chars_of, lower_chars, string_of};

#[test]
fn a_private_runtime_is_used_only_when_complete_and_not_overridden() {
    assert_eq!(
        prefer_private_webview2_runtime(false, Some("C:/app/webview2-runtime".to_string()), true),
        Some("C:/app/webview2-runtime".to_string())
    );
    assert_eq!(prefer_private_webview2_runtime(true, Some("r".to_string()), true), None);
    assert_eq!(prefer_private_webview2_runtime(false, Some("r".to_string()), false), None);
    assert_eq!(prefer_private_webview2_runtime(false, None::<String>, true), None);
}

#[test]
fn download_dir_falls_back_in_order() {
    assert!(matches!(
        default_download_dir(Some("K".to_string()), Some("P".to_string())),
        DownloadDirChoice::KnownFolder(k) if k == "K"
    ));
    assert!(matches!(
        default_download_dir(None, Some("P".to_string())),
        DownloadDirChoice::UnderProfile(p) if p == "P"
    ));
    assert!(matches!(default_download_dir(None::<String>, None), DownloadDirChoice::Relative));
}

#[test]
fn ascii_lowering_leaves_other_characters() {
    assert_eq!(string_of(&lower_chars(&chars_of("AbC-ÄÖ9"))), "abc-ÄÖ9");
}
