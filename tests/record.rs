use deep_archive::record::{
    build_record, detect_mimetype, is_visual_media, join_tags, media_type_or_default, Enrichment, FrameOutcome,
};
use deep_archive::scan::is_hidden;

#[test]
fn test_mimetype_detection() {
    let jpeg_header = [0xFFu8, 0xD8, 0xFF, 0xE0, 0x00, 0x10, b'J', b'F', b'I', b'F', 0x00];
    assert_eq!(detect_mimetype(&jpeg_header), "image/jpeg");
    assert_eq!(detect_mimetype(&[]), "application/octet-stream");
    assert_eq!(detect_mimetype(b"plain words"), "application/octet-stream");
}

#[test]
fn media_type_fallback() {
    assert_eq!(media_type_or_default(None), "application/octet-stream");
    assert_eq!(media_type_or_default(Some("video/mp4".to_string())), "video/mp4");
}

#[test]
fn visual_media_prefixes() {
    assert!(is_visual_media("image/jpeg"));
    assert!(is_visual_media("video/mp4"));
    assert!(!is_visual_media("text/plain"));
    assert!(!is_visual_media("image"));
    assert!(!is_visual_media("application/octet-stream"));
}

#[test]
fn tags_joined_by_single_spaces() {
    assert_eq!(join_tags(&vec![]), "");
    assert_eq!(join_tags(&vec!["a".to_string()]), "a");
    assert_eq!(join_tags(&vec!["a".to_string(), "bc".to_string(), "d".to_string()]), "a bc d");
}

#[test]
fn record_dimensions_only_for_sampled_frames() {
    let r = build_record("h".to_string(), "/p".to_string(), "text/plain".to_string(), FrameOutcome::NotVisual);
    assert_eq!((r.width, r.height), (None, None));
    assert!(r.tags.is_empty() && r.nsfw_score.is_none());
    let r = build_record("h".to_string(), "/p".to_string(), "video/mp4".to_string(), FrameOutcome::DecodeFailed);
    assert_eq!((r.width, r.height), (None, None));
    let r = build_record(
        "h".to_string(),
        "/p".to_string(),
        "image/png".to_string(),
        FrameOutcome::Decoded(Enrichment { tags: vec!["x".to_string()], nsfw_score: None }),
    );
    assert_eq!((r.width, r.height), (Some(224), Some(224)));
    assert_eq!(r.tags, vec!["x".to_string()]);
    assert_eq!(r.hash_sha256, "h");
    assert_eq!(r.media_type, "image/png");
}

#[test]
fn hidden_names() {
    assert!(is_hidden(".git"));
    assert!(is_hidden("."));
    assert!(!is_hidden("photo.jpg"));
    assert!(!is_hidden(""));
}
