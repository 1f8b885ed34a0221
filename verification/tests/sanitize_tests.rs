use rla::sanitize::NoiseContext;
use rla::sanitize::split_lines;
use rla::sanitize::strip_control_bytes;
use rla::sanitize::strip_line;
use rla::sanitize::trim_line;

fn ctx(patterns: &[&[u8]], placeholder: &[u8]) -> NoiseContext {
    let pats: Vec<Vec<u8>> = patterns.iter().map(|p| p.to_vec()).collect();
    NoiseContext::new(pats, placeholder.to_vec()).expect("context should build")
}

#[test]
fn split_on_line_feeds() {
    let lines = split_lines(b"a\nbb\nccc\n");
    assert_eq!(lines, vec![b"a".to_vec(), b"bb".to_vec(), b"ccc".to_vec()]);
}

#[test]
fn split_keeps_trailing_fragment() {
    let lines = split_lines(b"a\nb");
    assert_eq!(lines, vec![b"a".to_vec(), b"b".to_vec()]);
}

#[test]
fn split_strips_carriage_return_before_line_feed() {
    let lines = split_lines(b"a\r\nb\r\n");
    assert_eq!(lines, vec![b"a".to_vec(), b"b".to_vec()]);
}

#[test]
fn split_keeps_bare_carriage_returns() {
    let lines = split_lines(b"a\rb\n");
    assert_eq!(lines, vec![b"a\rb".to_vec()]);
}

#[test]
fn split_of_empty_log_is_empty() {
    assert_eq!(split_lines(b""), Vec::<Vec<u8>>::new());
}

#[test]
fn split_keeps_empty_lines_between_separators() {
    let lines = split_lines(b"a\n\nb\n");
    assert_eq!(lines, vec![b"a".to_vec(), b"".to_vec(), b"b".to_vec()]);
}

#[test]
fn strip_removes_ansi_color_sequence() {
    assert_eq!(strip_line(b"\x1b[31merror\x1b[0m"), b"error".to_vec());
}

#[test]
fn strip_removes_control_bytes() {
    assert_eq!(strip_line(b"a\x07b\x00c"), b"abc".to_vec());
}

#[test]
fn strip_keeps_bare_carriage_returns() {
    assert_eq!(strip_line(b"50%\r100%"), b"50%\r100%".to_vec());
}

#[test]
fn clean_keeps_bare_carriage_returns() {
    let c = ctx(&[b"zzz"], b"[X]");
    assert_eq!(c.clean(b"b\rc"), b"b\rc".to_vec());
}

#[test]
fn strip_keeps_tabs_and_spaces() {
    assert_eq!(strip_line(b"a\tb c"), b"a\tb c".to_vec());
}

#[test]
fn trim_removes_edge_whitespace_only() {
    assert_eq!(trim_line(b"  a  b\t"), b"a  b".to_vec());
    assert_eq!(trim_line(b"\t \t"), b"".to_vec());
    assert_eq!(trim_line(b"ab"), b"ab".to_vec());
}

#[test]
fn clean_replaces_noise_patterns_with_placeholder() {
    let c = ctx(&[b"abc123"], b"[X]");
    assert_eq!(c.clean(b"run abc123 done"), b"run [X] done".to_vec());
}

#[test]
fn clean_replaces_every_occurrence() {
    let c = ctx(&[b"id"], b"*");
    assert_eq!(c.clean(b"id and id"), b"* and *".to_vec());
}

#[test]
fn clean_replaces_non_overlapping_occurrences() {
    let c = ctx(&[b"aa"], b"*");
    assert_eq!(c.clean(b"aaaa"), b"**".to_vec());
}

#[test]
fn clean_takes_the_earliest_match_of_overlapping_patterns() {
    let c = ctx(&[b"samwise", b"sam"], b"*");
    assert_eq!(c.clean(b"samwise"), b"*wise".to_vec());
}

#[test]
fn clean_passes_binary_input_through_with_control_removal_only() {
    let c = ctx(&[b"zzz"], b"[X]");
    assert_eq!(c.clean(b"\x01\x02ab\xff"), b"ab\xff".to_vec());
}

#[test]
fn clean_is_idempotent_on_its_output() {
    let c = ctx(&[b"deadbeef"], b"[SHA]");
    let once = c.clean(b"  \x1b[1mcommit deadbeef built\x1b[0m ");
    assert_eq!(once, b"commit [SHA] built".to_vec());
    let twice = c.clean(&once);
    assert_eq!(twice, once);
}

#[test]
fn clean_of_blank_line_is_empty() {
    let c = ctx(&[b"p"], b"[X]");
    assert_eq!(c.clean(b""), b"".to_vec());
    assert_eq!(c.clean(b"   \t "), b"".to_vec());
}

#[test]
fn context_rejects_control_bytes_in_placeholder() {
    assert!(NoiseContext::new(vec![b"p".to_vec()], b"\x1b[0m".to_vec()).is_none());
}

#[test]
fn strip_control_bytes_keeps_line_feeds() {
    assert_eq!(strip_control_bytes(b"a\x1b[31m\nb\r\x7f"), b"a[31m\nb".to_vec());
}
