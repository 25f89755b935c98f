use serialcom::framing::{
    end_line, find_sentinel, flush_lines, scan_lines, take_frames, take_lines,
};
use std::collections::VecDeque;

fn queue(bytes: &[u8]) -> VecDeque<u8> {
    bytes.iter().copied().collect()
}

#[test]
fn ended_lines_leave_and_the_rest_stays() {
    let mut q = queue(b"PING\nPO\0NG\nREST");
    let mut lines = Vec::new();
    take_lines(&mut q, &mut lines);
    assert_eq!(lines, vec!["PING\n".to_string(), "PONG\n".to_string()]);
    assert_eq!(q, queue(b"REST"));
}

#[test]
fn a_frame_becomes_one_base64_line() {
    let mut q = queue(b"AB\nCD\xff\xfe\xfc\xfbhello\xff\xfe\xfc\xfbEF\nG");
    let mut lines = Vec::new();
    let mut ascii = false;
    take_frames(&mut q, &mut lines, &mut ascii);
    assert_eq!(
        lines,
        vec![
            "AB\n".to_string(),
            "CD\n".to_string(),
            "aGVsbG8=\n".to_string(),
            "EF\n".to_string()
        ]
    );
    assert_eq!(q, queue(b"G"));
    assert!(ascii);
}

#[test]
fn an_open_frame_waits_for_its_close() {
    let mut q = queue(b"AB\n\xff\xfe\xfc\xfbhel");
    let mut lines = Vec::new();
    let mut ascii = false;
    take_frames(&mut q, &mut lines, &mut ascii);
    assert!(lines.is_empty());
    assert_eq!(q, queue(b"AB\n\xff\xfe\xfc\xfbhel"));
    assert!(!ascii);
    for b in b"lo\xff\xfe\xfc\xfb" {
        q.push_back(*b);
    }
    take_frames(&mut q, &mut lines, &mut ascii);
    assert_eq!(lines, vec!["AB\n".to_string(), "aGVsbG8=\n".to_string()]);
    assert!(q.is_empty());
    assert!(ascii);
}

#[test]
fn sentinel_is_found_at_its_first_index() {
    let q = queue(b"ab\xff\xfe\xfc\xfbcd\xff\xfe\xfc\xfb");
    assert_eq!(find_sentinel(&q, 0), 2);
    assert_eq!(find_sentinel(&q, 3), 8);
    assert_eq!(find_sentinel(&q, 9), 12);
}

#[test]
fn flushing_ends_the_last_line_by_force() {
    let mut q = queue(b"A\nB");
    let mut lines = Vec::new();
    flush_lines(&mut q, &mut lines);
    assert_eq!(lines, vec!["A\n".to_string(), "B\n".to_string()]);
    assert!(q.is_empty());
    let mut q = queue(b"A\n\0\0");
    let mut lines = Vec::new();
    flush_lines(&mut q, &mut lines);
    assert_eq!(lines, vec!["A\n".to_string()]);
}

#[test]
fn scanning_reports_the_pending_text() {
    let q = queue(b"xxA\nB\0Cyy");
    let mut lines = Vec::new();
    let (text, start) = scan_lines(&q, 2, 7, &mut lines);
    assert_eq!(lines, vec!["A\n".to_string()]);
    assert_eq!(text, "BC");
    assert_eq!(start, 4);
}

#[test]
fn padding_is_no_text_and_an_empty_line_is_a_line() {
    let mut q = queue(b"\0\0A\0B\0\n\n\0\n\0\0");
    let mut lines = Vec::new();
    take_lines(&mut q, &mut lines);
    assert_eq!(lines, vec!["AB\n".to_string(), "\n".to_string(), "\n".to_string()]);
    assert!(q.is_empty());
}

#[test]
fn lines_are_appended_to_those_already_there() {
    let mut q = queue(b"B\n");
    let mut lines = vec!["A\n".to_string()];
    take_lines(&mut q, &mut lines);
    assert_eq!(lines, vec!["A\n".to_string(), "B\n".to_string()]);
}

#[test]
fn a_byte_of_text_is_the_character_of_its_value() {
    let mut q = queue(b"\x41\x7f\x80\xe9\xfe\n");
    let mut lines = Vec::new();
    take_lines(&mut q, &mut lines);
    assert_eq!(lines, vec!["A\u{7f}\u{80}\u{e9}\u{fe}\n".to_string()]);
}

#[test]
fn a_payload_of_three_bytes_has_no_padding_in_its_base64() {
    let mut q = queue(b"\xff\xfe\xfc\xfb\x00\x01\x02\xff\xfe\xfc\xfb");
    let mut lines = Vec::new();
    let mut ascii = false;
    take_frames(&mut q, &mut lines, &mut ascii);
    assert_eq!(lines, vec!["AAEC\n".to_string()]);
    let mut q = queue(b"\xff\xfe\xfc\xfb\x00\xff\xfe\xfc\xfb");
    let mut lines = Vec::new();
    take_frames(&mut q, &mut lines, &mut ascii);
    assert_eq!(lines, vec!["AA==\n".to_string()]);
}

#[test]
fn a_sentinel_cut_short_is_not_a_sentinel() {
    let mut q = queue(b"A\n\xff\xfe\xfc");
    let mut lines = Vec::new();
    let mut ascii = false;
    take_frames(&mut q, &mut lines, &mut ascii);
    assert!(lines.is_empty());
    assert_eq!(q.len(), 5);
    assert!(!ascii);
    assert_eq!(find_sentinel(&q, 0), 5);
}

#[test]
fn text_between_a_close_and_an_open_waits_with_the_open_frame() {
    let mut q = queue(b"\xff\xfe\xfc\xfbone\xff\xfe\xfc\xfbB\nC\xff\xfe\xfc\xfbtw");
    let mut lines = Vec::new();
    let mut ascii = false;
    take_frames(&mut q, &mut lines, &mut ascii);
    assert_eq!(lines, vec!["b25l\n".to_string()]);
    assert_eq!(q, queue(b"B\nC\xff\xfe\xfc\xfbtw"));
    assert!(!ascii);
}

#[test]
fn text_without_a_frame_leaves_binary_mode_at_once() {
    let mut q = queue(b"A\nB\x80");
    let mut lines = Vec::new();
    let mut ascii = false;
    take_frames(&mut q, &mut lines, &mut ascii);
    assert_eq!(lines, vec!["A\n".to_string()]);
    assert_eq!(q, queue(b"B\x80"));
    assert!(ascii);
}

#[test]
fn a_line_ends_with_one_newline() {
    assert_eq!(end_line("aGVsbG8=".to_string()), "aGVsbG8=\n");
    assert_eq!(end_line(String::new()), "\n");
    assert_eq!(end_line("A\n".to_string()), "A\n\n");
}
