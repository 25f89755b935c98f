use serialcom::actions::{Actions, Functor, FunctorRes};
use serialcom::serialcomunicator::{
    process_ascii_lines, process_not_ascii_lines, BuffType, Processor, RawChunk, CHUNK_SIZE,
    LIMIT_MAX,
};
use std::collections::VecDeque;

const SENTINEL: &[u8] = b"\xff\xfe\xfc\xfb";

/// A handler that writes its tag and a semicolon to the sink.
struct Tag(String);

impl Functor<Vec<u8>> for Tag {
    fn execute(&self, sink: &mut Vec<u8>) -> FunctorRes<Self> {
        sink.extend_from_slice(self.0.as_bytes());
        sink.push(b';');
        FunctorRes::new()
    }
}

/// A processor whose table answers each of `lines` with the line's text
/// without its newline.
fn processor(lines: &[&str], limit: usize) -> Processor<Vec<u8>, Tag> {
    let mut table = Actions::new(Vec::new());
    for line in lines {
        table.add(line, Tag(line.trim_end_matches('\n').to_string()));
    }
    Processor::new(table, limit)
}

fn chunk(bytes: &[u8]) -> RawChunk {
    let mut buff = [0u8; 400];
    buff[..bytes.len()].copy_from_slice(bytes);
    RawChunk::classify(buff, bytes.len()).unwrap()
}

fn feed_all(mut p: Processor<Vec<u8>, Tag>, stream: &[u8], size: usize) -> Processor<Vec<u8>, Tag> {
    for part in stream.chunks(size) {
        p = p.feed(&chunk(part));
    }
    p
}

fn written(p: &Processor<Vec<u8>, Tag>) -> String {
    String::from_utf8(p.actions().writer().clone()).unwrap()
}

#[test]
fn a_read_is_classified_by_its_bytes() {
    let mut buff = [0u8; 400];
    buff[..5].copy_from_slice(b"PING\n");
    assert!(matches!(RawChunk::classify(buff, 5).unwrap().kind(), BuffType::ASCII(5)));
    assert!(matches!(RawChunk::classify(buff, 400).unwrap().kind(), BuffType::ASCII(400)));
    buff[4] = 0x80;
    assert!(matches!(RawChunk::classify(buff, 5).unwrap().kind(), BuffType::BYTES(5)));
    assert!(matches!(RawChunk::classify(buff, 4).unwrap().kind(), BuffType::ASCII(4)));
    buff[4] = 0x7f;
    assert!(matches!(RawChunk::classify(buff, 5).unwrap().kind(), BuffType::ASCII(5)));
    assert!(RawChunk::classify(buff, 0).is_none());
    assert!(RawChunk::classify(buff, CHUNK_SIZE + 1).is_none());
}

#[test]
fn valid_utf8_beyond_ascii_is_binary() {
    let text = "é\n".as_bytes();
    assert!(matches!(chunk(text).kind(), BuffType::BYTES(3)));
}

#[test]
fn text_is_dispatched_line_by_line_wherever_it_is_cut() {
    let stream = b"PING\nST\0ATUS\n\0\0PING\n\nSTOP\nREST";
    for size in 1..=stream.len() {
        let p = processor(&["PING\n", "STATUS\n", "STOP\n", "\n", "REST\n"], 1024);
        let p = feed_all(p, stream, size);
        assert_eq!(written(&p), "PING;STATUS;PING;;STOP;", "chunks of {}", size);
        assert_eq!(p.buffered_len(), 4);
        assert!(p.ascii_mode());
    }
}

#[test]
fn an_unended_line_waits_for_its_newline() {
    let p = processor(&["PING\n"], 1024);
    let p = p.feed(&chunk(b"PI"));
    assert_eq!(written(&p), "");
    assert_eq!(p.buffered_len(), 2);
    let p = p.feed(&chunk(b"NG"));
    assert_eq!(written(&p), "");
    let p = p.feed(&chunk(b"\n"));
    assert_eq!(written(&p), "PING;");
    assert_eq!(p.buffered_len(), 0);
}

#[test]
fn padding_in_front_of_what_stays_is_dropped() {
    let p = processor(&["A\n"], 1024);
    let p = p.feed(&chunk(b"A\n\0\0\0"));
    assert_eq!(p.buffered_len(), 0);
    let p = p.feed(&chunk(b"\0\0B\0"));
    assert_eq!(p.buffered_len(), 2);
}

#[test]
fn a_frame_in_text_is_one_line_of_base64() {
    let mut stream = b"ONE\nTWO".to_vec();
    stream.extend_from_slice(SENTINEL);
    stream.extend_from_slice(b"hello");
    stream.extend_from_slice(SENTINEL);
    stream.extend_from_slice(b"THREE\nFOUR");
    let p = processor(&["ONE\n", "TWO\n", "aGVsbG8=\n", "THREE\n", "FOUR\n"], 1024);
    let p = p.feed(&chunk(&stream));
    assert_eq!(written(&p), "ONE;TWO;aGVsbG8=;THREE;");
    assert_eq!(p.buffered_len(), 4);
    assert!(p.ascii_mode());
}

#[test]
fn a_payload_may_hold_any_bytes() {
    let payload: Vec<u8> = vec![0x00, 0x0a, b'A', 0xff, 0xfe, 0x00, 0x0a, 0xfb];
    let mut stream = b"X\n".to_vec();
    stream.extend_from_slice(SENTINEL);
    stream.extend_from_slice(&payload);
    stream.extend_from_slice(SENTINEL);
    stream.extend_from_slice(b"Y\n");
    let p = processor(&["X\n", "Y\n", "AApB//4ACvs=\n"], 1024);
    let p = p.feed(&chunk(&stream));
    assert_eq!(written(&p), "X;AApB//4ACvs=;Y;");
}

#[test]
fn an_empty_payload_is_an_empty_line() {
    let mut stream = SENTINEL.to_vec();
    stream.extend_from_slice(SENTINEL);
    let p = processor(&["\n"], 1024);
    let p = p.feed(&chunk(&stream));
    assert_eq!(written(&p), ";");
    assert!(p.ascii_mode());
}

#[test]
fn a_frame_cut_anywhere_comes_out_whole() {
    let mut stream = b"ONE\n".to_vec();
    stream.extend_from_slice(SENTINEL);
    stream.extend_from_slice(b"hello world");
    stream.extend_from_slice(SENTINEL);
    stream.extend_from_slice(b"TWO\n");
    for cut in 1..stream.len() {
        let p = processor(&["ONE\n", "TWO\n", "aGVsbG8gd29ybGQ=\n"], 1024);
        let p = p.feed(&chunk(&stream[..cut]));
        let p = p.feed(&chunk(&stream[cut..]));
        assert_eq!(written(&p), "ONE;aGVsbG8gd29ybGQ=;TWO;", "cut at {}", cut);
        assert_eq!(p.buffered_len(), 0);
        assert!(p.ascii_mode());
    }
}

#[test]
fn nothing_is_dispatched_before_the_close_is_seen() {
    let mut first = b"ONE\n".to_vec();
    first.extend_from_slice(SENTINEL);
    first.extend_from_slice(b"hel");
    let p = processor(&["ONE\n", "aGVsbG8=\n", "aGVs\n"], 1024);
    let p = p.feed(&chunk(&first));
    assert_eq!(written(&p), "");
    assert_eq!(p.buffered_len(), first.len());
    assert!(!p.ascii_mode());
    let p = p.feed(&chunk(b"lo"));
    assert_eq!(written(&p), "");
    assert_eq!(p.buffered_len(), first.len() + 2);
    let p = p.feed(&chunk(SENTINEL));
    assert_eq!(written(&p), "ONE;aGVsbG8=;");
    assert_eq!(p.buffered_len(), 0);
    assert!(p.ascii_mode());
}

#[test]
fn two_frames_in_one_chunk_keep_their_order() {
    let mut stream = b"A\n".to_vec();
    stream.extend_from_slice(SENTINEL);
    stream.extend_from_slice(b"one");
    stream.extend_from_slice(SENTINEL);
    stream.extend_from_slice(b"B\n");
    stream.extend_from_slice(SENTINEL);
    stream.extend_from_slice(b"two");
    stream.extend_from_slice(SENTINEL);
    stream.extend_from_slice(b"C\n");
    let p = processor(&["A\n", "B\n", "C\n", "b25l\n", "dHdv\n"], 1024);
    let p = p.feed(&chunk(&stream));
    assert_eq!(written(&p), "A;b25l;B;dHdv;C;");
}

#[test]
fn the_first_byte_of_the_sentinel_keeps_binary_mode() {
    let p = processor(&["A\n", "B\n"], 1024);
    let p = p.feed(&chunk(b"A\n\xff"));
    assert_eq!(written(&p), "");
    assert!(!p.ascii_mode());
    assert_eq!(p.buffered_len(), 3);
    let p = p.feed(&chunk(b"B\n"));
    assert_eq!(written(&p), "");
    assert!(!p.ascii_mode());
    assert_eq!(p.buffered_len(), 5);
}

#[test]
fn bytes_beyond_ascii_without_the_first_sentinel_byte_are_text() {
    let p = processor(&["\u{e9}\n"], 1024);
    let p = p.feed(&chunk(b"\xe9\n"));
    assert_eq!(written(&p), "\u{e9};");
    assert!(p.ascii_mode());
}

#[test]
fn more_than_the_limit_is_flushed_as_text() {
    let p = processor(&["A\n", "BCDEFGH\n", "IJ\n"], 6);
    let p = p.feed(&chunk(b"A\nBCDE"));
    assert_eq!(written(&p), "A;");
    assert_eq!(p.buffered_len(), 4);
    let p = p.feed(&chunk(b"FGH"));
    assert_eq!(written(&p), "A;BCDEFGH;");
    assert_eq!(p.buffered_len(), 0);
    assert!(p.ascii_mode());
    let p = p.feed(&chunk(b"IJ\n"));
    assert_eq!(written(&p), "A;BCDEFGH;IJ;");
}

#[test]
fn an_open_frame_beyond_the_limit_is_flushed_as_text() {
    let mut first = b"A\n".to_vec();
    first.extend_from_slice(SENTINEL);
    first.extend_from_slice(b"xy");
    let p = processor(&["A\n", "\u{ff}\u{fe}\u{fc}\u{fb}xy\n"], 7);
    let p = p.feed(&chunk(&first));
    assert_eq!(written(&p), "A;\u{ff}\u{fe}\u{fc}\u{fb}xy;");
    assert_eq!(p.buffered_len(), 0);
    assert!(p.ascii_mode());
}

#[test]
fn the_limit_is_capped() {
    let p = processor(&[], usize::MAX);
    let p = p.feed(&chunk(&[b'x'; 400]));
    assert_eq!(p.buffered_len(), 400);
    assert!(LIMIT_MAX < usize::MAX);
}

#[test]
fn a_registered_key_is_dispatched_from_the_next_chunk_on() {
    let p = processor(&["OLD\n"], 1024);
    let mut p = p.feed(&chunk(b"NEW\nOLD\n"));
    assert_eq!(written(&p), "OLD;");
    p.register("NEW\n".to_string(), Box::new(Tag("NEW".to_string())));
    let p = p.feed(&chunk(b"NEW\nOLD\n"));
    assert_eq!(written(&p), "OLD;NEW;OLD;");
    let table = p.into_actions();
    assert!(table.contains("NEW\n"));
}

fn table(lines: &[&str]) -> Actions<Vec<u8>, Tag> {
    let mut table = Actions::new(Vec::new());
    for line in lines {
        table.add(line, Tag(line.trim_end_matches('\n').to_string()));
    }
    table
}

#[test]
fn a_pass_in_ascii_mode_dispatches_what_was_waiting_first() {
    let mut dequeue: VecDeque<u8> = b"B\nC".iter().copied().collect();
    let mut lines = vec!["A\n".to_string()];
    let actions = process_ascii_lines(&mut dequeue, &mut lines, table(&["A\n", "B\n", "C\n"]));
    assert_eq!(actions.writer().as_slice(), b"A;B;");
    assert!(lines.is_empty());
    assert_eq!(dequeue, VecDeque::from(b"C".to_vec()));
}

#[test]
fn a_pass_in_binary_mode_dispatches_text_and_frames_in_order() {
    let mut dequeue: VecDeque<u8> =
        b"B\n\xff\xfe\xfc\xfb\x01\x02\x03\xff\xfe\xfc\xfbC\nD".iter().copied().collect();
    let mut lines = vec!["A\n".to_string()];
    let mut ascii_mode = false;
    let actions = process_not_ascii_lines(
        &mut dequeue,
        &mut lines,
        &mut ascii_mode,
        table(&["A\n", "B\n", "C\n", "D\n", "AQID\n"]),
    );
    assert_eq!(actions.writer().as_slice(), b"A;B;AQID;C;");
    assert!(lines.is_empty());
    assert!(ascii_mode);
    assert_eq!(dequeue, VecDeque::from(b"D".to_vec()));
}

#[test]
fn a_pass_in_binary_mode_holds_an_open_frame() {
    let held = b"B\n\xff\xfe\xfc\xfb\x01\x02".to_vec();
    let mut dequeue: VecDeque<u8> = held.iter().copied().collect();
    let mut lines = Vec::new();
    let mut ascii_mode = true;
    let actions =
        process_not_ascii_lines(&mut dequeue, &mut lines, &mut ascii_mode, table(&["B\n"]));
    assert!(actions.writer().is_empty());
    assert!(!ascii_mode);
    assert_eq!(dequeue, VecDeque::from(held));
}

/// A handler that writes a fixed reply.
fn ping_table() -> Actions<Vec<u8>, Tag> {
    let mut table = Actions::new(Vec::new());
    table.add("PING\n", Tag("PONG".to_string()));
    table
}

#[test]
fn a_command_is_answered_each_time_it_arrives() {
    let p = Processor::new(ping_table(), 1024);
    let p = p.feed(&chunk(b"PING\n"));
    assert_eq!(written(&p), "PONG;");
    let p = p.feed(&chunk(b"PING\n"));
    assert_eq!(written(&p), "PONG;PONG;");
    let p = p.feed(&chunk(b"PING"));
    assert_eq!(written(&p), "PONG;PONG;");
    let p = p.feed(&chunk(b"\nping\nPING \nPING\n"));
    assert_eq!(written(&p), "PONG;PONG;PONG;PONG;");
}
