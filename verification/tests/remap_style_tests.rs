use clipsub::errors::ClipError;
use clipsub::remap::{percent_to_pixel, vtt_line_to_pixel, DEFAULT_LINE_DIVISOR};
use clipsub::style::{postprocess_style, vtt_to_ass};

#[test]
fn pixel_formula_examples() {
    // (1 - 50/100) * 200 = 100
    assert_eq!(percent_to_pixel(false, 50, 0, 200, 100), 100);
    // (1 - 0/92) * 1080 = 1080
    assert_eq!(percent_to_pixel(false, 0, 0, 1080, 92), 1080);
    // truncation toward zero, also past 100 percent
    assert_eq!(percent_to_pixel(false, 150, 0, 100, 100), -50);
    assert_eq!(percent_to_pixel(false, 33_333, 3, 100, 100), 66);
    // negative percentages move the caption down past the full height
    assert_eq!(percent_to_pixel(true, 50, 0, 200, 100), 300);
}

#[test]
fn pixel_formula_keeps_tiny_fractions_exact() {
    // (1 - 0.0005/100) * 200 = 199.999, truncated to 199, not 200
    assert_eq!(percent_to_pixel(false, 5, 4, 200, 100), 199);
    // eighteen fraction digits are carried exactly
    assert_eq!(percent_to_pixel(false, 1, 18, 1_000_000_000, 100), 999_999_999);
}

#[test]
fn remap_rewrites_marker_lines() {
    let content = "WEBVTT\n\n00:00:00.000 --> 00:00:01.000 line:50%\nhello\n";
    let out = vtt_line_to_pixel(content, 200, 100).unwrap();
    assert_eq!(out, "WEBVTT\n\n00:00:00.000 --> 00:00:01.000 line:100%\nhello\n");
}

#[test]
fn remap_uses_divisor() {
    let content = "00:00:00.000 --> 00:00:01.000 line:0%\ntext\n";
    let out = vtt_line_to_pixel(content, 1080, DEFAULT_LINE_DIVISOR).unwrap();
    assert_eq!(out, "00:00:00.000 --> 00:00:01.000 line:1080%\ntext\n");
}

#[test]
fn remap_accepts_decimal_and_signed_percentages() {
    let content = "00:00:00.000 --> 00:00:01.000 line:12.5%\nx\n";
    // (1 - 12.5/100) * 200 = 175
    let out = vtt_line_to_pixel(content, 200, 100).unwrap();
    assert_eq!(out, "00:00:00.000 --> 00:00:01.000 line:175%\nx\n");
    let content = "00:00:00.000 --> 00:00:01.000 line:-50%\nx\n";
    // (1 + 50/100) * 200 = 300
    let out = vtt_line_to_pixel(content, 200, 100).unwrap();
    assert_eq!(out, "00:00:00.000 --> 00:00:01.000 line:300%\nx\n");
    // the full fractional field counts: 199.999 truncates to 199
    let content = "00:00:00.000 --> 00:00:01.000 line:0.0005%\nx\n";
    let out = vtt_line_to_pixel(content, 200, 100).unwrap();
    assert_eq!(out, "00:00:00.000 --> 00:00:01.000 line:199%\nx\n");
    // trailing zeros of the fraction never push a value out of range
    let content = "00:00:00.000 --> 00:00:01.000 line:0.5000000000000000000000000%\nx\n";
    let out = vtt_line_to_pixel(content, 200, 100).unwrap();
    assert_eq!(out, "00:00:00.000 --> 00:00:01.000 line:199%\nx\n");
}

#[test]
fn remap_passes_other_lines_verbatim() {
    let content = "WEBVTT\nNOTE line:50% has no arrow\nplain text\n";
    let out = vtt_line_to_pixel(content, 200, 100).unwrap();
    assert_eq!(out, content);
}

#[test]
fn remap_is_idempotent_on_marker_free_content() {
    let content = "WEBVTT\r\n\r\n00:00:00.000 --> 00:00:01.000\nhello\n";
    let once = vtt_line_to_pixel(content, 200, 100).unwrap();
    let twice = vtt_line_to_pixel(&once, 200, 100).unwrap();
    assert_eq!(once, twice);
}

#[test]
fn remap_caps_follow_exact_arithmetic() {
    // the integer part is capped where 128-bit exactness ends
    let content = "00:00:00.000 --> 00:00:01.000 line:1000000000%\nx\n";
    assert!(vtt_line_to_pixel(content, 200, 100).is_ok());
    let content = "00:00:00.000 --> 00:00:01.000 line:1000000001%\nx\n";
    assert!(vtt_line_to_pixel(content, 200, 100).is_err());
    // so is the number of significant fraction digits
    let content = "00:00:00.000 --> 00:00:01.000 line:0.123456789012345678%\nx\n";
    assert!(vtt_line_to_pixel(content, 200, 100).is_ok());
    let content = "00:00:00.000 --> 00:00:01.000 line:0.1234567890123456789%\nx\n";
    assert!(vtt_line_to_pixel(content, 200, 100).is_err());
}

#[test]
fn remap_rejects_malformed_percentage() {
    let content = "00:00:00.000 --> 00:00:01.000 line:abc%\nx\n";
    let err = vtt_line_to_pixel(content, 200, 100).unwrap_err();
    assert!(matches!(err, ClipError::ParseError(_)));
    assert_eq!(err.message().as_str(), "invalid percentage value: abc");
}

#[test]
fn remap_rejects_empty_percentage() {
    let content = "00:00:00.000 --> 00:00:01.000 line:%\nx\n";
    let err = vtt_line_to_pixel(content, 200, 100).unwrap_err();
    assert!(matches!(err, ClipError::ParseError(_)));
}

#[test]
fn postprocess_merges_continuation_lines() {
    let content = "Dialogue: 0,0:00:00.00,hello\ncontinued\nPlayResY: 720\n";
    let out = postprocess_style(content, 1080);
    assert_eq!(out, "Dialogue: 0,0:00:00.00,hello\\Ncontinued\nPlayResY: 1080\n");
}

#[test]
fn postprocess_leaves_adjacent_dialogue_lines_alone() {
    let content = "Dialogue: a\nDialogue: b\n";
    let out = postprocess_style(content, 480);
    assert_eq!(out, "Dialogue: a\nDialogue: b\nPlayResY: 480\n");
}

#[test]
fn postprocess_appends_missing_resolution_line() {
    let content = "[Script Info]\nTitle: t\n";
    let out = postprocess_style(content, 720);
    assert_eq!(out, "[Script Info]\nTitle: t\nPlayResY: 720\n");
}

#[test]
fn postprocess_rewrites_resolution_value() {
    let content = "PlayResY: 288\n[Events]\n";
    let out = postprocess_style(content, 1920);
    assert_eq!(out, "PlayResY: 1920\n[Events]\n");
}

#[test]
fn vtt_to_ass_converts_and_sets_resolution() {
    let content = "WEBVTT\n\n00:00:00.000 --> 00:00:01.000\nhello there\n";
    let out = vtt_to_ass(content, 720).unwrap();
    assert!(out.contains("[Events]"));
    assert!(out.contains("PlayResY: 720"));
    assert!(out.contains("hello there"));
}

#[test]
fn vtt_to_ass_rejects_style_blocks() {
    let content = "WEBVTT\n\nSTYLE\n::cue {\ncolor: #a\u{e9}abcde\n}\n\n\
        00:00:00.000 --> 00:00:01.000\nhello\n";
    let err = vtt_to_ass(content, 720).unwrap_err();
    assert!(matches!(err, ClipError::ParseError(_)));
}

#[test]
fn vtt_to_ass_rejects_text_without_header() {
    let err = vtt_to_ass("not a cue file", 720).unwrap_err();
    assert!(matches!(err, ClipError::ParseError(_)));
}
