use base64::Engine as _;
use zlack::downloads::{
    after_probe, candidate_file_name, clean_extension, clean_stem, decode_base64_payload, extension_for_mime,
    extension_from_name, file_extension, image_extension, sanitize_stem, settle_payload,
    sniff_extension, unique_path, CandidateStep, SaveError, DEFAULT_FILE_STEM, DEFAULT_STEM, MAX_FILE_BYTES,
    MAX_IMAGE_BYTES,
};

#[test]
fn sniffs_known_image_signatures() {
    assert_eq!(
        sniff_extension(&[0x89, 0x50, 0x4E, 0x47, 0x0D, 0x0A, 0x1A, 0x0A, 0, 0]),
        Some("png")
    );
    assert_eq!(sniff_extension(&[0xFF, 0xD8, 0xFF, 0xE0]), Some("jpg"));
    assert_eq!(sniff_extension(b"GIF89a and more"), Some("gif"));
    let mut webp = Vec::from(&b"RIFF"[..]);
    webp.extend_from_slice(&[0, 0, 0, 0]);
    webp.extend_from_slice(b"WEBPVP8 ");
    assert_eq!(sniff_extension(&webp), Some("webp"));
    assert_eq!(sniff_extension(b"not an image"), None);
}

#[test]
fn extension_prefers_bytes_then_mime_then_name() {
    let png = [0x89, 0x50, 0x4E, 0x47, 0x0D, 0x0A, 0x1A, 0x0A];
    // Real PNG bytes beat a misleading name and empty MIME.
    assert_eq!(image_extension(&png, "", "photo.jpg"), "png");
    // Unknown bytes fall back to MIME.
    assert_eq!(image_extension(b"????unknown", "image/webp", "x"), "webp");
    // Unknown bytes and MIME fall back to the URL name.
    assert_eq!(image_extension(b"????unknown", "", "clip.GIF"), "gif");
    // MIME parameters are ignored.
    assert_eq!(
        image_extension(b"????unknown", "image/png; charset=binary", "x"),
        "png"
    );
    // Nothing usable defaults to png.
    assert_eq!(image_extension(b"????unknown", "", "noext"), "png");
}

#[test]
fn sanitizes_stems_and_falls_back() {
    assert_eq!(sanitize_stem("my photo.png", DEFAULT_STEM), "my photo");
    assert_eq!(sanitize_stem("passwd", DEFAULT_STEM), "passwd");
    assert_eq!(sanitize_stem("", DEFAULT_STEM), DEFAULT_STEM);
    assert_eq!(sanitize_stem("....", DEFAULT_FILE_STEM), DEFAULT_FILE_STEM);
    let sanitized = sanitize_stem("a?b<c>d", DEFAULT_STEM);
    assert!(!sanitized.contains('?') && !sanitized.contains('<') && !sanitized.contains('>'));
    // Unicode letters (e.g. Korean) are preserved.
    assert_eq!(sanitize_stem("사진.png", DEFAULT_STEM), "사진");
    // Multi-dot names keep the inner dots in the stem.
    assert_eq!(
        sanitize_stem("archive.tar.gz", DEFAULT_FILE_STEM),
        "archive.tar"
    );
}

#[test]
fn file_extension_is_sanitized_or_absent() {
    assert_eq!(file_extension("report.PDF"), Some("pdf".to_string()));
    assert_eq!(file_extension("archive.tar.gz"), Some("gz".to_string()));
    assert_eq!(file_extension("noext"), None);
    assert_eq!(file_extension(""), None);
    // Illegal characters are stripped rather than written to disk.
    assert_eq!(file_extension("evil.p?d"), Some("pd".to_string()));
    // An extension with nothing usable left disappears entirely.
    assert_eq!(file_extension("weird.???"), None);
}

#[test]
fn decode_base64_payload_validates_input() {
    assert!(matches!(
        decode_base64_payload("", 16),
        Err(SaveError::EmptyData)
    ));
    assert!(matches!(
        decode_base64_payload("not base64!!", 1024),
        Err(SaveError::InvalidData)
    ));
    let encoded = base64::engine::general_purpose::STANDARD.encode(b"hello");
    assert_eq!(decode_base64_payload(&encoded, 1024).unwrap(), b"hello");
    assert!(matches!(
        decode_base64_payload(&encoded, 4),
        Err(SaveError::TooLarge)
    ));
}

#[test]
fn decode_caps_the_decoded_bytes_not_the_text() {
    // "aGVsbA==" decodes to the four bytes "hell": within a cap of four.
    assert!(matches!(
        decode_base64_payload("aGVsbA==", 4),
        Ok(ref data) if data == b"hell"
    ));
    assert!(matches!(
        decode_base64_payload("aGVsbA==", 3),
        Err(SaveError::TooLarge)
    ));
    assert!(matches!(
        decode_base64_payload("aGVsbG8=", 5),
        Ok(ref data) if data == b"hello"
    ));
    // Sixteen characters decode to at least ten bytes, so a cap of eight
    // refuses them before decoding, valid or not.
    assert!(matches!(
        decode_base64_payload("!!!!!!!!!!!!!!!!", 8),
        Err(SaveError::TooLarge)
    ));
    // Non-canonical padding and trailing bits are not base64 here.
    assert!(matches!(
        decode_base64_payload("aGVsbA=", 16),
        Err(SaveError::InvalidData)
    ));
    assert!(matches!(
        decode_base64_payload("aGVsbB==", 16),
        Err(SaveError::InvalidData)
    ));
}

#[test]
fn settle_payload_covers_every_outcome() {
    assert!(matches!(settle_payload(0, None, 10), Err(SaveError::EmptyData)));
    assert!(matches!(settle_payload(40, None, 10), Err(SaveError::TooLarge)));
    assert!(matches!(settle_payload(8, None, 10), Err(SaveError::InvalidData)));
    assert!(matches!(
        settle_payload(8, Some(Vec::new()), 10),
        Err(SaveError::EmptyData)
    ));
    assert!(matches!(
        settle_payload(8, Some(vec![1; 9]), 8),
        Err(SaveError::TooLarge)
    ));
    assert_eq!(settle_payload(4, Some(vec![7, 8]), 8).unwrap(), vec![7, 8]);
}

#[test]
fn caps_are_sixty_four_and_two_hundred_fifty_six_mebibytes() {
    assert_eq!(MAX_IMAGE_BYTES, 64 * 1024 * 1024);
    assert_eq!(MAX_FILE_BYTES, 256 * 1024 * 1024);
}

#[test]
fn mime_types_are_matched_by_essence() {
    assert_eq!(extension_for_mime("IMAGE/JPEG"), Some("jpg"));
    assert_eq!(extension_for_mime("  image/svg+xml ; a=b"), Some("svg"));
    assert_eq!(extension_for_mime("image/x-icon"), Some("ico"));
    assert_eq!(extension_for_mime("image/vnd.microsoft.icon"), Some("ico"));
    assert_eq!(extension_for_mime("image/x-ms-bmp"), Some("bmp"));
    assert_eq!(extension_for_mime("image/avif"), Some("avif"));
    assert_eq!(extension_for_mime("image/tiff"), Some("tiff"));
    assert_eq!(extension_for_mime("text/html"), None);
    assert_eq!(extension_for_mime(""), None);
}

#[test]
fn name_extensions_map_to_image_extensions() {
    assert_eq!(extension_from_name("a.JPEG"), Some("jpg"));
    assert_eq!(extension_from_name("scan.tif"), Some("tiff"));
    assert_eq!(extension_from_name("icon.ico"), Some("ico"));
    assert_eq!(extension_from_name(".png"), None);
    assert_eq!(extension_from_name("notes.txt"), None);
}

#[test]
fn other_image_signatures_are_recognised() {
    assert_eq!(sniff_extension(b"BM...."), Some("bmp"));
    assert_eq!(sniff_extension(&[0, 0, 1, 0, 6]), Some("ico"));
    assert_eq!(sniff_extension(b"GIF87a"), Some("gif"));
    assert_eq!(sniff_extension(b"RIFF\0\0\0\0WEB"), None);
    assert_eq!(sniff_extension(&[]), None);
}

#[test]
fn stems_collapse_whitespace_and_keep_at_most_eighty_characters() {
    assert_eq!(clean_stem("  a   b\tc ", DEFAULT_STEM), "a b_c");
    assert_eq!(clean_stem("__.name._ ", DEFAULT_STEM), "name");
    let long = "x".repeat(100);
    assert_eq!(clean_stem(&long, DEFAULT_STEM), "x".repeat(80));
    assert_eq!(clean_stem("???", DEFAULT_STEM), DEFAULT_STEM);
    assert_eq!(sanitize_stem(".hidden", DEFAULT_STEM), "hidden");
}

#[test]
fn extensions_keep_sixteen_lowercase_alphanumerics() {
    assert_eq!(
        clean_extension("ABCDEFGHIJKLMNOPQRST"),
        Some("abcdefghijklmnop".to_string())
    );
    assert_eq!(clean_extension("---"), None);
    assert_eq!(file_extension(".bashrc"), None);
}

#[test]
fn candidate_names_number_from_one() {
    assert_eq!(candidate_file_name("img", Some("png"), 0), "img.png");
    assert_eq!(candidate_file_name("img", Some("png"), 1), "img (1).png");
    assert_eq!(candidate_file_name("README", None, 0), "README");
    assert_eq!(candidate_file_name("README", None, 1), "README (1)");
    assert_eq!(candidate_file_name("a", Some("gz"), 9999), "a (9999).gz");
}

#[test]
fn unique_path_takes_the_plain_name_in_an_empty_place() {
    let target = unique_path("/nonexistent-zlack-dir/inner", "img", Some("png")).unwrap();
    assert_eq!(target.dir, "/nonexistent-zlack-dir/inner");
    assert_eq!(target.file_name, "img.png");
    let target = unique_path("/nonexistent-zlack-dir/inner", "README", None).unwrap();
    assert_eq!(target.file_name, "README");
}

#[test]
fn unique_path_skips_a_name_that_is_taken() {
    // The root directory of a Unix system always holds `tmp`.
    let target = unique_path("/", "tmp", None).unwrap();
    assert_eq!(target.dir, "/");
    assert_eq!(target.file_name, "tmp (1)");
}

#[test]
fn probing_moves_on_until_the_last_candidate() {
    assert!(matches!(after_probe(0, false), CandidateStep::Take(0)));
    assert!(matches!(after_probe(0, true), CandidateStep::Probe(1)));
    assert!(matches!(after_probe(41, false), CandidateStep::Take(41)));
    assert!(matches!(after_probe(9998, true), CandidateStep::Probe(9999)));
    assert!(matches!(after_probe(9999, false), CandidateStep::Take(9999)));
    // With every candidate taken the search gives up instead of reusing one.
    assert!(matches!(after_probe(9999, true), CandidateStep::Exhausted));
}

#[test]
fn only_the_final_path_component_names_the_file() {
    assert_eq!(sanitize_stem("../../etc/passwd", DEFAULT_STEM), "passwd");
    assert_eq!(sanitize_stem("photos/summer/beach.jpg", DEFAULT_STEM), "beach");
    assert_eq!(sanitize_stem("a/b/", DEFAULT_STEM), "b");
    assert_eq!(sanitize_stem("a/..", DEFAULT_STEM), DEFAULT_STEM);
    assert_eq!(file_extension("dir.v2/notes"), None);
    assert_eq!(file_extension("docs/report.PDF"), Some("pdf".to_string()));
    assert_eq!(extension_from_name("img/a.PNG"), Some("png"));
    assert_eq!(extension_from_name("x.tar.gz"), None);
    assert_eq!(image_extension(b"????", "", "cache/clip.GIF"), "gif");
}

#[test]
fn unsafe_characters_never_reach_a_stem() {
    let s = sanitize_stem("a:b*c|d\"e", DEFAULT_STEM);
    assert!(s.chars().all(|c| c.is_alphanumeric() || "-_ .".contains(c)));
    // Only the plain space survives among whitespace; other whitespace is
    // replaced before runs of spaces collapse.
    assert_eq!(sanitize_stem("a  \u{3000} b", DEFAULT_STEM), "a _ b");
}
