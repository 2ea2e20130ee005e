use clipsub::cue::{convert_to_vtt, Density, Token};
use clipsub::condense::{condense_subtitle, insert_line_breaks};
use clipsub::time::format_time;

fn token(text: &str, start_ms: u64, end_ms: u64) -> Token {
    Token { text: text.to_string(), start_ms, end_ms }
}

#[test]
fn format_time_examples() {
    assert_eq!(format_time(3661500), "01:01:01.500");
    assert_eq!(format_time(0), "00:00:00.000");
    assert_eq!(format_time(59999), "00:00:59.999");
    assert_eq!(format_time(60000), "00:01:00.000");
}

#[test]
fn format_time_shape() {
    // hours widen past two digits only when needed; every field stays padded
    assert_eq!(format_time(360000000), "100:00:00.000");
    for ms in [1u64, 999, 1000, 3599999, 3600000, 86399999] {
        let s = format_time(ms);
        let bytes = s.as_bytes();
        let n = bytes.len();
        assert!(n >= 12);
        for (pos, expected_digit) in [
            (n - 10, false),
            (n - 9, true),
            (n - 8, true),
            (n - 7, false),
            (n - 6, true),
            (n - 5, true),
            (n - 4, false),
            (n - 3, true),
            (n - 2, true),
            (n - 1, true),
        ] {
            if expected_digit {
                assert!(bytes[pos].is_ascii_digit());
            }
        }
        assert_eq!(bytes[n - 10], b':');
        assert_eq!(bytes[n - 7], b':');
        assert_eq!(bytes[n - 4], b'.');
        for b in &bytes[..n - 10] {
            assert!(b.is_ascii_digit());
        }
    }
}

#[test]
fn builder_drops_empty_tokens() {
    let tokens = vec![token("hello", 0, 1000), token("", 1000, 2000), token("world", 2000, 3000)];
    let out = convert_to_vtt(&tokens, Density::Plain);
    let expected = "WEBVTT\n\n\
        00:00:00.000 --> 00:00:01.000\nhello \n\n\
        00:00:02.000 --> 00:00:03.000\nworld \n\n";
    assert_eq!(out, expected);
}

#[test]
fn builder_skips_whitespace_only_tokens() {
    let tokens = vec![token("   ", 0, 1000), token("only", 1000, 2000)];
    let out = convert_to_vtt(&tokens, Density::Plain);
    assert_eq!(out, "WEBVTT\n\n00:00:01.000 --> 00:00:02.000\nonly \n\n");
}

#[test]
fn builder_skips_unicode_whitespace_tokens() {
    // the whitespace set follows char::is_whitespace: a token of only
    // exotic whitespace is dropped like a blank one
    let tokens = vec![token("\u{2028}\u{00A0}", 0, 1000), token("kept", 1000, 2000)];
    let out = convert_to_vtt(&tokens, Density::Plain);
    assert_eq!(out, "WEBVTT\n\n00:00:01.000 --> 00:00:02.000\nkept \n\n");
}

#[test]
fn builder_wraps_across_tokens() {
    // the word counter runs across the whole stream: the third word gets the
    // break wherever it falls, and trailing whitespace is trimmed per cue
    let tokens = vec![token("one two three four", 0, 1000), token("five", 1000, 2000)];
    let out = convert_to_vtt(&tokens, Density::Wrapped);
    let expected = "WEBVTT\n\n\
        00:00:00.000 --> 00:00:01.000\none two three\nfour\n\n\
        00:00:01.000 --> 00:00:02.000\nfive\n\n";
    assert_eq!(out, expected);
}

#[test]
fn builder_empty_transcript_gives_header_only() {
    let tokens: Vec<Token> = Vec::new();
    assert_eq!(convert_to_vtt(&tokens, Density::Plain), "WEBVTT\n\n");
}

#[test]
fn insert_line_breaks_chunks_of_three() {
    let words: Vec<String> = ["a", "b", "c", "d"].iter().map(|w| w.to_string()).collect();
    assert_eq!(insert_line_breaks(&words, 3), "a b c \nd");
}

#[test]
fn insert_line_breaks_exact_chunk() {
    let words: Vec<String> = ["a", "b"].iter().map(|w| w.to_string()).collect();
    assert_eq!(insert_line_breaks(&words, 2), "a b");
    assert_eq!(insert_line_breaks(&words, 1), "a \nb");
}

fn nine_word_stream() -> String {
    let mut vtt = String::from("WEBVTT\n\n");
    for k in 0..9u64 {
        vtt.push_str(&format!(
            "{} --> {}\nw{}\n\n",
            format_time(k * 1000),
            format_time((k + 1) * 1000),
            k
        ));
    }
    vtt
}

#[test]
fn condense_nine_words_into_three_cues() {
    let out = condense_subtitle(&nine_word_stream(), 3);
    let expected = vec![
        "WEBVTT".to_string(),
        "".to_string(),
        "00:00:00.000 --> 00:00:03.000".to_string(),
        "w0 w1 w2".to_string(),
        "".to_string(),
        "00:00:03.000 --> 00:00:06.000".to_string(),
        "w3 w4 w5".to_string(),
        "".to_string(),
        "00:00:06.000 --> 00:00:09.000".to_string(),
        "w6 w7 w8".to_string(),
    ];
    assert_eq!(out, expected);
    // no word is dropped and the order is kept
    let words: Vec<&str> = out
        .iter()
        .filter(|l| l.starts_with('w'))
        .flat_map(|l| l.split_whitespace())
        .collect();
    assert_eq!(words, vec!["w0", "w1", "w2", "w3", "w4", "w5", "w6", "w7", "w8"]);
}

#[test]
fn condense_flushes_trailing_partial_group() {
    let out = condense_subtitle(&nine_word_stream(), 4);
    assert_eq!(
        out,
        vec![
            "WEBVTT".to_string(),
            "".to_string(),
            "00:00:00.000 --> 00:00:04.000".to_string(),
            "w0 w1 w2 \nw3".to_string(),
            "".to_string(),
            "00:00:04.000 --> 00:00:08.000".to_string(),
            "w4 w5 w6 \nw7".to_string(),
            "".to_string(),
            "00:00:08.000 --> 00:00:09.000".to_string(),
            "w8".to_string(),
        ]
    );
}

#[test]
fn condense_without_header_consumes_first_line() {
    let input = "00:00:00.000 --> 00:00:01.000\nalpha\n\n00:00:01.000 --> 00:00:02.000\nbeta\n";
    let out = condense_subtitle(input, 1);
    // the first timestamp line is consumed by the header check, so only the
    // second cue survives; its text line "alpha" has one field and is ignored
    assert_eq!(
        out,
        vec![
            "00:00:01.000 --> 00:00:02.000".to_string(),
            "beta".to_string(),
        ]
    );
}

#[test]
fn condense_empty_input() {
    let out = condense_subtitle("", 3);
    assert!(out.is_empty());
}
