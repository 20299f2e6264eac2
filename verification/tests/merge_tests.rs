use vtt_merge::VttError;
use vtt_merge::block::Block;
use vtt_merge::block::is_annotation_text;
use vtt_merge::block::make_voice_tag;
use vtt_merge::merge::merge_blocks;
use vtt_merge::merge_transcripts;
use vtt_merge::parser::check_header;
use vtt_merge::parser::parse_blocks;
use vtt_merge::render::render_transcript;
use vtt_merge::text::contains_arrow;
use vtt_merge::text::is_blank_str;
use vtt_merge::text::split_lines;
use vtt_merge::text::trim_str;
use vtt_merge::timekey::get_clue_number;

fn blk(timing: &str, key: usize, text: &str, tag: &str) -> Block {
    Block {
        timing_line: timing.to_string(),
        time_key: key,
        text: text.to_string(),
        source_tag: tag.to_string(),
    }
}

fn lines_of(v: &[&str]) -> Vec<String> {
    v.iter().map(|s| s.to_string()).collect()
}

#[test]
fn time_key_of_standard_timestamp() {
    // 00:00:01.000 strips to the digit string 000001000, which parses to 1000.
    let r = get_clue_number("00:00:01.000 --> 00:00:02.000");
    assert_eq!(r, Ok(1000));
}

#[test]
fn time_key_ignores_end_and_settings() {
    let r = get_clue_number("00:00:01.000 --> 00:00:02.000 align:start");
    assert_eq!(r, Ok(1000));
    let r = get_clue_number("1:2 --> 3");
    assert_eq!(r, Ok(12));
}

#[test]
fn time_key_requires_separator() {
    // A timing line without the ` --> ` separator is a parse error, even
    // when the whole line is digits.
    assert_eq!(get_clue_number("123"), Err(VttError::Parse));
    assert_eq!(get_clue_number("1:2.3"), Err(VttError::Parse));
}

#[test]
fn time_key_rejects_non_digits() {
    assert_eq!(get_clue_number("abc --> 1"), Err(VttError::Parse));
    assert_eq!(
        get_clue_number("00:00:01.000-->00:00:02.000"),
        Err(VttError::Parse)
    );
}

#[test]
fn time_key_rejects_empty_start() {
    assert_eq!(get_clue_number(" --> 1"), Err(VttError::Parse));
    assert_eq!(get_clue_number(""), Err(VttError::Parse));
}

#[test]
fn time_key_rejects_overflow() {
    assert_eq!(
        get_clue_number("99999999999999999999:00 --> x"),
        Err(VttError::Parse)
    );
}

#[test]
fn trim_and_blank_and_arrow() {
    assert_eq!(trim_str("  x \t"), "x");
    assert_eq!(trim_str("\r\n"), "");
    assert_eq!(trim_str("a b"), "a b");
    assert!(is_blank_str(" \t\r"));
    assert!(is_blank_str(""));
    assert!(!is_blank_str(" x "));
    assert!(contains_arrow("a-->b"));
    assert!(!contains_arrow("a->b"));
}

#[test]
fn unicode_whitespace_is_trimmed_and_blank() {
    assert_eq!(trim_str("\u{a0}x\u{a0}"), "x");
    assert_eq!(trim_str("\u{2003}a b\u{3000}"), "a b");
    assert!(is_blank_str("\u{a0}\u{2003}\u{3000}"));
}

#[test]
fn split_lines_keeps_empty_segments() {
    let r = split_lines("a\nb\n");
    assert_eq!(r, vec!["a".to_string(), "b".to_string(), "".to_string()]);
    assert_eq!(split_lines(""), vec!["".to_string()]);
}

#[test]
fn voice_tag_rendering() {
    assert_eq!(make_voice_tag(&Some("Alice".to_string())), "<v Alice>");
    assert_eq!(make_voice_tag(&None), "");
}

#[test]
fn annotation_filter_brackets_unconditional() {
    assert!(is_annotation_text("[note]", false));
    assert!(is_annotation_text("[note]", true));
    assert!(is_annotation_text("[]", false));
    assert!(!is_annotation_text("[note", false));
}

#[test]
fn annotation_filter_asterisks_gated() {
    assert!(!is_annotation_text("*sigh*", false));
    assert!(is_annotation_text("*sigh*", true));
    assert!(!is_annotation_text("**", true));
    assert!(!is_annotation_text("*", true));
}

#[test]
fn header_check_accepts_and_rejects() {
    assert!(check_header(&lines_of(&["WEBVTT", ""])));
    assert!(check_header(&lines_of(&["WEBVTT"])));
    assert!(check_header(&lines_of(&["  WEBVTT  ", "  "])));
    assert!(!check_header(&lines_of(&["WEBVTT", "X"])));
    assert!(!check_header(&lines_of(&["webvtt", ""])));
    assert!(!check_header(&lines_of(&[])));
}

#[test]
fn header_rejected_before_any_parsing() {
    // A non-blank second line breaks the header framing even when every
    // block would parse.
    let bad = "WEBVTT\nX\n00:00:01.000 --> 00:00:02.000\nhi\n";
    let good = "WEBVTT\n\n";
    let r = merge_transcripts(bad, good, &None, &None, false);
    assert_eq!(r, Err(VttError::Format));
    let r = merge_transcripts(good, bad, &None, &None, false);
    assert_eq!(r, Err(VttError::Format));
}

#[test]
fn parse_drops_cue_identifiers_and_accumulates_text() {
    let lines = lines_of(&[
        "WEBVTT",
        "",
        "7",
        "00:00:01.000 --> 00:00:02.000",
        "line one",
        "line two",
        "",
    ]);
    let blocks = parse_blocks(&lines, &String::new(), false).unwrap();
    assert_eq!(blocks.len(), 1);
    assert_eq!(blocks[0].timing_line, "00:00:01.000 --> 00:00:02.000");
    assert_eq!(blocks[0].time_key, 1000);
    assert_eq!(blocks[0].text, "line one\nline two");
    assert_eq!(blocks[0].source_tag, "");
}

#[test]
fn parse_second_timing_line_overwrites() {
    let lines = lines_of(&[
        "WEBVTT",
        "",
        "00:00:01.000 --> 00:00:02.000",
        "00:00:09.000 --> 00:00:09.500",
        "hi",
    ]);
    let blocks = parse_blocks(&lines, &String::new(), false).unwrap();
    assert_eq!(blocks.len(), 1);
    assert_eq!(blocks[0].time_key, 9000);
    assert_eq!(blocks[0].text, "hi");
}

#[test]
fn parse_finalizes_last_block_at_end_of_stream() {
    let lines = lines_of(&["WEBVTT", "", "00:00:01.000 --> 00:00:02.000", "hi"]);
    let blocks = parse_blocks(&lines, &String::new(), false).unwrap();
    assert_eq!(blocks.len(), 1);
    assert_eq!(blocks[0].text, "hi");
}

#[test]
fn parse_reports_bad_timing_line() {
    let lines = lines_of(&["WEBVTT", "", "abc --> def", "hi", ""]);
    let r = parse_blocks(&lines, &String::new(), false);
    assert_eq!(r.err(), Some(VttError::Parse));
}

#[test]
fn merge_interleaves_with_tie_to_second_source() {
    // First source keys 1000/3000/5000 tagged A; second source keys
    // 2000/3000/4000 tagged B. On the 3000 tie the second source goes first.
    let first = vec![
        blk("00:00:01.000 --> 00:00:01.500", 1000, "A one", "<v A>"),
        blk("00:00:03.000 --> 00:00:03.500", 3000, "A three", "<v A>"),
        blk("00:00:05.000 --> 00:00:05.500", 5000, "A five", "<v A>"),
    ];
    let second = vec![
        blk("00:00:02.000 --> 00:00:02.500", 2000, "B two", "<v B>"),
        blk("00:00:03.000 --> 00:00:03.600", 3000, "B three", "<v B>"),
        blk("00:00:04.000 --> 00:00:04.500", 4000, "B four", "<v B>"),
    ];
    let merged = merge_blocks(first, second);
    let keys: Vec<usize> = merged.iter().map(|b| b.time_key).collect();
    assert_eq!(keys, vec![1000, 2000, 3000, 3000, 4000, 5000]);
    let tags: Vec<&str> = merged.iter().map(|b| b.source_tag.as_str()).collect();
    assert_eq!(tags, vec!["<v A>", "<v B>", "<v B>", "<v A>", "<v B>", "<v A>"]);
}

#[test]
fn merge_cursor_never_moves_backwards() {
    // The scan cursor stays where the last block went in, so an
    // out-of-order second-source block lands relative to the cursor, not
    // relative to the list's start.
    let first = vec![
        blk("00:00:02.000 --> 00:00:02.500", 2000, "f", ""),
        blk("00:00:04.000 --> 00:00:04.500", 4000, "f", ""),
    ];
    let second = vec![
        blk("00:00:03.000 --> 00:00:03.500", 3000, "s", ""),
        blk("00:00:01.000 --> 00:00:01.500", 1000, "s", ""),
    ];
    let merged = merge_blocks(first, second);
    let keys: Vec<usize> = merged.iter().map(|b| b.time_key).collect();
    assert_eq!(keys, vec![2000, 1000, 3000, 4000]);
}

#[test]
fn merge_with_empty_second_source_keeps_first() {
    let first = vec![
        blk("00:00:01.000 --> 00:00:01.500", 1000, "one", ""),
        blk("00:00:02.000 --> 00:00:02.500", 2000, "two", ""),
    ];
    let merged = merge_blocks(first, Vec::new());
    assert_eq!(merged.len(), 2);
    assert_eq!(merged[0].text, "one");
    assert_eq!(merged[1].text, "two");
}

#[test]
fn render_layout() {
    let blocks = vec![blk("00:00:01.000 --> 00:00:02.000", 1000, "hi", "<v A>")];
    let r = render_transcript(&blocks);
    assert_eq!(r, "WEBVTT\n\n00:00:01.000 --> 00:00:02.000\n<v A> hi\n\n");
}

#[test]
fn untagged_output_keeps_leading_space() {
    let blocks = vec![blk("00:00:01.000 --> 00:00:02.000", 1000, "hi", "")];
    let r = render_transcript(&blocks);
    assert_eq!(r, "WEBVTT\n\n00:00:01.000 --> 00:00:02.000\n hi\n\n");
}

#[test]
fn full_merge_with_speakers() {
    let src1 = "WEBVTT\n\n00:00:01.000 --> 00:00:01.500\nA one\n\n00:00:03.000 --> 00:00:03.500\nA three\n";
    let src2 = "WEBVTT\n\n00:00:02.000 --> 00:00:02.500\nB two\n";
    let r = merge_transcripts(
        src1,
        src2,
        &Some("A".to_string()),
        &Some("B".to_string()),
        false,
    )
    .unwrap();
    assert_eq!(
        r,
        "WEBVTT\n\n00:00:01.000 --> 00:00:01.500\n<v A> A one\n\n00:00:02.000 --> 00:00:02.500\n<v B> B two\n\n00:00:03.000 --> 00:00:03.500\n<v A> A three\n\n"
    );
}

#[test]
fn output_length_is_sum_of_unfiltered_blocks() {
    // Source one: two blocks, one of them a bracket annotation that is
    // dropped. Source two: one block. The output holds 1 + 1 blocks.
    let src1 = "WEBVTT\n\n00:00:01.000 --> 00:00:01.500\n[note]\n\n00:00:03.000 --> 00:00:03.500\nkept\n";
    let src2 = "WEBVTT\n\n00:00:02.000 --> 00:00:02.500\nalso kept\n";
    let r = merge_transcripts(src1, src2, &None, &None, false).unwrap();
    let cues = r.matches("-->").count();
    assert_eq!(cues, 2);
}

#[test]
fn bracket_annotation_dropped_regardless_of_flag() {
    let src1 = "WEBVTT\n\n00:00:01.000 --> 00:00:01.500\n[note]\n";
    let empty = "WEBVTT\n\n";
    for rm in [false, true] {
        let r = merge_transcripts(src1, empty, &None, &None, rm).unwrap();
        assert_eq!(r, "WEBVTT\n\n");
    }
}

#[test]
fn asterisk_annotation_dropped_only_with_flag() {
    let src1 = "WEBVTT\n\n00:00:01.000 --> 00:00:01.500\n*sigh*\n";
    let empty = "WEBVTT\n\n";
    let kept = merge_transcripts(src1, empty, &None, &None, false).unwrap();
    assert_eq!(kept, "WEBVTT\n\n00:00:01.000 --> 00:00:01.500\n *sigh*\n\n");
    let dropped = merge_transcripts(src1, empty, &None, &None, true).unwrap();
    assert_eq!(dropped, "WEBVTT\n\n");
}

#[test]
fn round_trip_of_merged_output_is_identity() {
    // Merging an untagged source with an empty second source, then feeding
    // the result back in the same way, reproduces it exactly.
    let src = "WEBVTT\n\n00:00:01.000 --> 00:00:02.000\nhello\n\n00:00:03.000 --> 00:00:04.000\nworld\n";
    let empty = "WEBVTT\n\n";
    let once = merge_transcripts(src, empty, &None, &None, false).unwrap();
    let twice = merge_transcripts(&once, empty, &None, &None, false).unwrap();
    assert_eq!(twice, once);
}

#[test]
fn refeeding_tagged_output_keeps_blocks_with_embedded_tags() {
    // Re-feeding a tagged output with no speaker names keeps every block's
    // timing line, key and place; the old voice tag stays embedded at the
    // front of the re-trimmed text. From the second pass on, the output is
    // a fixed point.
    let src1 = "WEBVTT\n\n00:00:01.000 --> 00:00:02.000\nhello\n";
    let empty = "WEBVTT\n\n";
    let once = merge_transcripts(src1, empty, &Some("A".to_string()), &None, false).unwrap();
    assert_eq!(once, "WEBVTT\n\n00:00:01.000 --> 00:00:02.000\n<v A> hello\n\n");
    let twice = merge_transcripts(&once, empty, &None, &None, false).unwrap();
    assert_eq!(twice, "WEBVTT\n\n00:00:01.000 --> 00:00:02.000\n <v A> hello\n\n");
    let thrice = merge_transcripts(&twice, empty, &None, &None, false).unwrap();
    assert_eq!(thrice, twice);
}

#[test]
fn round_trip_keeps_multi_line_text() {
    let src = "WEBVTT\n\n00:00:01.000 --> 00:00:02.000\nfirst line\nsecond line\n";
    let empty = "WEBVTT\n\n";
    let once = merge_transcripts(src, empty, &None, &None, false).unwrap();
    assert_eq!(
        once,
        "WEBVTT\n\n00:00:01.000 --> 00:00:02.000\n first line\nsecond line\n\n"
    );
    let twice = merge_transcripts(&once, empty, &None, &None, false).unwrap();
    assert_eq!(twice, once);
}

#[test]
fn parse_error_is_fatal_for_either_source() {
    let bad = "WEBVTT\n\n00:00:0x.000 --> 00:00:02.000\nhi\n";
    let good = "WEBVTT\n\n00:00:01.000 --> 00:00:02.000\nok\n";
    assert_eq!(
        merge_transcripts(bad, good, &None, &None, false),
        Err(VttError::Parse)
    );
    assert_eq!(
        merge_transcripts(good, bad, &None, &None, false),
        Err(VttError::Parse)
    );
}

#[test]
fn header_alone_yields_header_only_output() {
    let r = merge_transcripts("WEBVTT", "WEBVTT\n\n", &None, &None, false).unwrap();
    assert_eq!(r, "WEBVTT\n\n");
}
