use clipsub::errors::ClipError;
use clipsub::filter::{build_filter_complex, Dimensions, Timing, DEFAULT_SCALE_HEIGHT};
use clipsub::media::{audio_codec_name, best_audio_container, classify_upload, MediaFormat, UploadKind};
use clipsub::paths::{get_vtt_subtitle_path, public_media_path, public_suffixed_path, subtitle_paths};

fn ranges(pairs: &[(u64, u64)]) -> Vec<Timing> {
    pairs.iter().map(|&(s, e)| Timing { start_ms: s, end_ms: e }).collect()
}

#[test]
fn filter_two_ranges_no_crop() {
    let ts = ranges(&[(0, 5000), (10000, 15000)]);
    let out = build_filter_complex(&ts, None, 1920, 1080, DEFAULT_SCALE_HEIGHT).unwrap();
    let expected = "[0:v]trim=start=0:end=5,setpts=PTS-STARTPTS[v0];\
        [0:a]atrim=start=0:end=5,asetpts=PTS-STARTPTS[a0];\
        [0:v]trim=start=10:end=15,setpts=PTS-STARTPTS[v1];\
        [0:a]atrim=start=10:end=15,asetpts=PTS-STARTPTS[a1];\
        [v0][a0][v1][a1]concat=n=2:v=1:a=1[outv][outa]";
    assert_eq!(out, expected);
    // four trim/atrim stages, each pad produced once and consumed once
    assert_eq!(out.matches("trim=start=").count(), 4);
    assert_eq!(out.matches("[v0]").count(), 2);
    assert_eq!(out.matches("[a0]").count(), 2);
    assert_eq!(out.matches("[v1]").count(), 2);
    assert_eq!(out.matches("[a1]").count(), 2);
    assert!(out.ends_with("concat=n=2:v=1:a=1[outv][outa]"));
}

#[test]
fn filter_crop_stage() {
    let ts = ranges(&[(1500, 2000)]);
    let crop = Dimensions {
        width_milli_pct: 50_000,
        height_milli_pct: 50_000,
        x_milli_pct: 25_000,
        y_milli_pct: 25_000,
    };
    let out = build_filter_complex(&ts, Some(crop), 1920, 1080, DEFAULT_SCALE_HEIGHT).unwrap();
    assert!(out.contains("[0:v]trim=start=1.5:end=2,setpts=PTS-STARTPTS[v0];"));
    assert!(out.contains("[v0]crop=960:540:480:270,scale=-1:1920,setpts=PTS-STARTPTS[v0];"));
    assert!(out.ends_with("[v0][a0]concat=n=1:v=1:a=1[outv][outa]"));
}

#[test]
fn filter_crop_keeps_fractional_percentages() {
    let ts = ranges(&[(0, 1000)]);
    // 33.5 % of 1920 is 643.2, truncated to 643
    let crop = Dimensions {
        width_milli_pct: 33_500,
        height_milli_pct: 100_000,
        x_milli_pct: 0,
        y_milli_pct: 0,
    };
    let out = build_filter_complex(&ts, Some(crop), 1920, 1080, DEFAULT_SCALE_HEIGHT).unwrap();
    assert!(out.contains("[v0]crop=643:1080:0:0,scale=-1:1920,setpts=PTS-STARTPTS[v0];"));
}

#[test]
fn filter_renders_shortest_seconds() {
    let ts = ranges(&[(1234, 60005)]);
    let out = build_filter_complex(&ts, None, 1920, 1080, DEFAULT_SCALE_HEIGHT).unwrap();
    assert!(out.contains("trim=start=1.234:end=60.005,"));
    let ts = ranges(&[(1200, 1230)]);
    let out = build_filter_complex(&ts, None, 1920, 1080, DEFAULT_SCALE_HEIGHT).unwrap();
    assert!(out.contains("trim=start=1.2:end=1.23,"));
}

#[test]
fn filter_rejects_empty_range_list() {
    let ts: Vec<Timing> = Vec::new();
    let err = build_filter_complex(&ts, None, 1920, 1080, DEFAULT_SCALE_HEIGHT).unwrap_err();
    assert!(matches!(err, ClipError::ValidationError(_)));
    assert_eq!(err.message().as_str(), "no timing ranges given");
}

#[test]
fn filter_rejects_inverted_range() {
    let ts = ranges(&[(0, 1000), (5000, 4000)]);
    let err = build_filter_complex(&ts, None, 1920, 1080, DEFAULT_SCALE_HEIGHT).unwrap_err();
    assert!(matches!(err, ClipError::ValidationError(_)));
    assert_eq!(err.message().as_str(), "timing range start exceeds end");
}

fn media(mime: &str, bitrate: u64, container: &str) -> MediaFormat {
    MediaFormat { mime: mime.to_string(), bitrate, container: container.to_string() }
}

#[test]
fn best_audio_takes_highest_bitrate() {
    let formats = vec![
        media("video/mp4", 900, "mp4"),
        media("audio/webm", 64, "webm"),
        media("audio/mp4", 128, "m4a"),
        media("audio/webm", 96, "webm2"),
    ];
    assert_eq!(best_audio_container(&formats), Some("m4a".to_string()));
}

#[test]
fn best_audio_ties_go_to_the_last() {
    let formats = vec![
        media("audio/webm", 128, "first"),
        media("audio/mp4", 128, "second"),
    ];
    assert_eq!(best_audio_container(&formats), Some("second".to_string()));
}

#[test]
fn best_audio_none_without_audio() {
    let formats = vec![media("video/mp4", 900, "mp4")];
    assert_eq!(best_audio_container(&formats), None);
    assert_eq!(best_audio_container(&Vec::new()), None);
}

#[test]
fn upload_kinds() {
    assert_eq!(classify_upload(Some("mp4")), UploadKind::CopyMp4);
    assert_eq!(classify_upload(Some("webm")), UploadKind::ConvertToMp4);
    assert_eq!(classify_upload(Some("mkv")), UploadKind::ConvertToMp4);
    assert_eq!(classify_upload(Some("avi")), UploadKind::Unsupported);
    assert_eq!(classify_upload(None), UploadKind::Unsupported);
}

#[test]
fn audio_codec_names() {
    assert_eq!(audio_codec_name("mp3"), "libmp3lame");
    assert_eq!(audio_codec_name("aac"), "aac");
    assert_eq!(audio_codec_name("weba"), "aac");
}

#[test]
fn subtitle_path_by_granularity() {
    assert_eq!(get_vtt_subtitle_path("job1", "segments"), "../public/job1.vtt");
    assert_eq!(get_vtt_subtitle_path("job1", "words"), "../public/job1_words.vtt");
    assert_eq!(get_vtt_subtitle_path("job1", "3words"), "../public/job1_3words.vtt");
}

#[test]
fn subtitle_paths_for_cleanup() {
    assert_eq!(
        subtitle_paths("idx"),
        vec![
            "../public/idx.vtt".to_string(),
            "../public/idx_words.vtt".to_string(),
            "../public/idx_3words.vtt".to_string(),
            "../public/idx_4words.vtt".to_string(),
            "../public/idx_segments.vtt".to_string(),
            "../public/idx_pixel.vtt".to_string(),
        ]
    );
}

#[test]
fn media_paths() {
    assert_eq!(public_media_path("idx", "mp4"), "../public/idx.mp4");
    assert_eq!(public_suffixed_path("idx", "_trimmed", "mp4"), "../public/idx_trimmed.mp4");
}
