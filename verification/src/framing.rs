//! The wire format: what a buffer of received bytes holds, as lines of text
//! and sentinel-framed binary segments, and the functions that take the
//! complete lines out of a byte queue.

use crate::actions::texts;
use crate::encoding::{base64_standard, encode_standard, push_char};
use std::collections::VecDeque;
use vstd::prelude::*;

verus! {

/// The byte that ends a line of text.
pub const NEWLINE: u8 = 0x0a;

/// The byte that pads the stream and belongs to no text.
pub const PADDING: u8 = 0x00;

/// The first byte of the sentinel. While it occurs among the buffered bytes
/// the buffer may still hold a frame.
pub const MARK: u8 = 0xff;

/// The length of the sentinel.
pub const WINDOWS_SIZE: usize = 4;

/// The sentinel: the four bytes that open a binary segment, and close it.
pub const SENTINEL: [u8; 4] = [0xff, 0xfe, 0xfc, 0xfb];

/// The character that a byte of text stands for, the one with the byte's
/// value as its code point; none for padding.
pub open spec fn glyph(b: u8) -> Option<char> {
    if b == PADDING {
        None
    } else {
        Some(b as char)
    }
}

/// The text that `bytes` hold: their characters in order, padding left out.
pub open spec fn text_of(bytes: Seq<u8>) -> Seq<char> {
    bytes.filter_map(|b: u8| glyph(b))
}

/// The line that `bytes` make once a newline ends them.
pub open spec fn line_of(bytes: Seq<u8>) -> Seq<char> {
    text_of(bytes).push('\n')
}

/// How many bytes of `s` stand before or at its last newline.
pub open spec fn terminated(s: Seq<u8>) -> int
    decreases s.len(),
{
    if s.len() == 0 {
        0
    } else if s.last() == NEWLINE {
        s.len() as int
    } else {
        terminated(s.drop_last())
    }
}

/// What follows the last newline of `s`: the line that is not ended yet.
pub open spec fn pending(s: Seq<u8>) -> Seq<u8> {
    s.skip(terminated(s))
}

/// The lines that `s` ends with a newline, first to last. Each holds the text
/// between two newlines, and the newline.
pub open spec fn lines_of(s: Seq<u8>) -> Seq<Seq<char>>
    decreases s.len(),
{
    if s.len() == 0 {
        Seq::empty()
    } else if s.last() == NEWLINE {
        lines_of(s.drop_last()).push(line_of(pending(s.drop_last())))
    } else {
        lines_of(s.drop_last())
    }
}

/// The lines of a stretch of text that nothing more will be joined to:
/// the ended lines, and then what follows the last newline as a line of its
/// own, unless that holds no text.
pub open spec fn text_lines(s: Seq<u8>) -> Seq<Seq<char>> {
    if text_of(pending(s)).len() == 0 {
        lines_of(s)
    } else {
        lines_of(s).push(line_of(pending(s)))
    }
}

/// `s` without the padding it begins with.
pub open spec fn trimmed(s: Seq<u8>) -> Seq<u8>
    decreases s.len(),
{
    if s.len() > 0 && s[0] == PADDING {
        trimmed(s.drop_first())
    } else {
        s
    }
}

proof fn lemma_texts_push(lines: Seq<String>, line: String)
    ensures
        texts(lines.push(line)) == texts(lines).push(line@),
{
    assert(texts(lines.push(line)) =~= texts(lines).push(line@));
}

pub proof fn lemma_text_push(bytes: Seq<u8>, b: u8)
    ensures
        text_of(bytes.push(b)) == if b == PADDING {
            text_of(bytes)
        } else {
            text_of(bytes).push(b as char)
        },
{
    let longer = bytes.push(b);
    assert(longer.drop_last() =~= bytes);
    assert(text_of(longer) =~= if b == PADDING {
        text_of(bytes)
    } else {
        text_of(bytes).push(b as char)
    });
}

pub proof fn lemma_terminated_bounds(s: Seq<u8>)
    ensures
        0 <= terminated(s) <= s.len(),
        terminated(s) > 0 ==> s[terminated(s) - 1] == NEWLINE,
        forall|i: int| terminated(s) <= i < s.len() ==> s[i] != NEWLINE,
    decreases s.len(),
{
    if s.len() > 0 && s.last() != NEWLINE {
        let shorter = s.drop_last();
        lemma_terminated_bounds(shorter);
        assert forall|i: int| terminated(s) <= i < s.len() implies s[i] != NEWLINE by {
            if i < shorter.len() {
                assert(shorter[i] == s[i]);
            }
        }
    }
}

pub proof fn lemma_pending_push(s: Seq<u8>, b: u8)
    ensures
        terminated(s.push(b)) == if b == NEWLINE {
            s.len() as int + 1
        } else {
            terminated(s)
        },
        pending(s.push(b)) == if b == NEWLINE {
            Seq::<u8>::empty()
        } else {
            pending(s).push(b)
        },
        lines_of(s.push(b)) == if b == NEWLINE {
            lines_of(s).push(line_of(pending(s)))
        } else {
            lines_of(s)
        },
{
    let longer = s.push(b);
    assert(longer.drop_last() =~= s);
    lemma_terminated_bounds(s);
    if b == NEWLINE {
        assert(pending(longer) =~= Seq::<u8>::empty());
    } else {
        assert(pending(longer) =~= pending(s).push(b));
    }
}

/// Ends `text` with a newline, which makes a line of it.
pub fn end_line(text: String) -> (line: String)
    ensures
        line@ == text@.push('\n'),
{
    let mut line = text;
    push_char(&mut line, '\n');
    line
}

/// Reads the bytes of `bytes` from `from` up to `to` as text, and appends each
/// line that a newline ends to `lines`. Returns the text after the last
/// newline, and the index in `bytes` at which that text begins.
pub fn scan_lines(bytes: &VecDeque<u8>, from: usize, to: usize, lines: &mut Vec<String>) -> (last: (
    String,
    usize,
))
    requires
        from <= to <= bytes@.len(),
    ensures
        texts(final(lines)@) == texts(old(lines)@) + lines_of(bytes@.subrange(from as int, to as int)),
        last.0@ == text_of(pending(bytes@.subrange(from as int, to as int))),
        last.1 == from + terminated(bytes@.subrange(from as int, to as int)),
{
    let mut current = String::new();
    let mut start: usize = from;
    let mut i: usize = from;
    proof {
        assert(bytes@.subrange(from as int, from as int) =~= Seq::<u8>::empty());
        assert(pending(Seq::<u8>::empty()) =~= Seq::<u8>::empty());
        assert(texts(lines@) + Seq::<Seq<char>>::empty() =~= texts(lines@));
    }
    while i < to
        invariant
            from <= i <= to <= bytes@.len(),
            texts(lines@) == texts(old(lines)@) + lines_of(bytes@.subrange(from as int, i as int)),
            current@ == text_of(pending(bytes@.subrange(from as int, i as int))),
            start == from + terminated(bytes@.subrange(from as int, i as int)),
        decreases to - i,
    {
        let b: u8 = bytes[i];
        proof {
            let seen = bytes@.subrange(from as int, i as int);
            assert(bytes@.subrange(from as int, i + 1) =~= seen.push(b));
            lemma_pending_push(seen, b);
            lemma_text_push(pending(seen), b);
        }
        if b == NEWLINE {
            let line = end_line(current);
            proof {
                lemma_texts_push(lines@, line);
            }
            lines.push(line);
            current = String::new();
            start = i + 1;
        } else if b != PADDING {
            push_char(&mut current, b as char);
        }
        i = i + 1;
    }
    (current, start)
}

/// Takes the ended lines of text out of `dequeue` and appends them to
/// `lines`. What follows the last newline stays, without the padding it
/// begins with.
pub fn take_lines(dequeue: &mut VecDeque<u8>, lines: &mut Vec<String>)
    ensures
        texts(final(lines)@) == texts(old(lines)@) + lines_of(old(dequeue)@),
        final(dequeue)@ == trimmed(pending(old(dequeue)@)),
{
    let n = dequeue.len();
    let (_, start) = scan_lines(dequeue, 0, n, lines);
    let mut keep: usize = start;
    proof {
        assert(dequeue@.subrange(0, n as int) =~= dequeue@);
        lemma_terminated_bounds(dequeue@);
    }
    while keep < n && dequeue[keep] == PADDING
        invariant
            start <= keep <= n == dequeue@.len(),
            trimmed(dequeue@.skip(keep as int)) == trimmed(dequeue@.skip(start as int)),
        decreases n - keep,
    {
        proof {
            assert(dequeue@.skip(keep as int).drop_first() =~= dequeue@.skip(keep + 1));
        }
        keep = keep + 1;
    }
    let rest = dequeue.split_off(keep);
    proof {
        assert(rest@ =~= old(dequeue)@.skip(keep as int));
    }
    *dequeue = rest;
}

/// Takes everything out of `dequeue` as text that nothing more will be
/// joined to, and appends its lines to `lines`.
pub fn flush_lines(dequeue: &mut VecDeque<u8>, lines: &mut Vec<String>)
    ensures
        texts(final(lines)@) == texts(old(lines)@) + text_lines(old(dequeue)@),
        final(dequeue)@ == Seq::<u8>::empty(),
{
    let n = dequeue.len();
    push_text_lines(dequeue, 0, n, lines);
    proof {
        assert(dequeue@.subrange(0, n as int) =~= dequeue@);
    }
    dequeue.clear();
}

/// Appends to `lines` the lines of the text that `bytes` hold from `from` up
/// to `to`, the last of them ended by the end of the stretch.
fn push_text_lines(bytes: &VecDeque<u8>, from: usize, to: usize, lines: &mut Vec<String>)
    requires
        from <= to <= bytes@.len(),
    ensures
        texts(final(lines)@) == texts(old(lines)@) + text_lines(
            bytes@.subrange(from as int, to as int),
        ),
{
    let (last, _) = scan_lines(bytes, from, to, lines);
    if !last.as_str().is_empty() {
        let line = end_line(last);
        proof {
            lemma_texts_push(lines@, line);
        }
        lines.push(line);
    }
}

/// Whether the sentinel stands in `s` at index `i`.
pub open spec fn sentinel_at(s: Seq<u8>, i: int) -> bool {
    &&& 0 <= i
    &&& i + WINDOWS_SIZE <= s.len()
    &&& s.subrange(i, i + WINDOWS_SIZE) == SENTINEL@
}

/// The sentinel stands where its four bytes stand one after the other.
pub proof fn lemma_sentinel_bytes(s: Seq<u8>, i: int)
    requires
        0 <= i,
        i + WINDOWS_SIZE <= s.len(),
    ensures
        sentinel_at(s, i) <==> s[i] == 0xff && s[i + 1] == 0xfe && s[i + 2] == 0xfc && s[i + 3]
            == 0xfb,
{
    let window = s.subrange(i, i + WINDOWS_SIZE);
    assert(window[0] == s[i] && window[1] == s[i + 1] && window[2] == s[i + 2] && window[3] == s[i
        + 3]);
    if s[i] == 0xff && s[i + 1] == 0xfe && s[i + 2] == 0xfc && s[i + 3] == 0xfb {
        assert(window =~= SENTINEL@);
    }
}

/// The least index at or after `from` at which the sentinel stands in `s`;
/// the length of `s` where it stands at none.
pub open spec fn next_sentinel(s: Seq<u8>, from: int) -> int
    decreases s.len() - from,
{
    if from + WINDOWS_SIZE > s.len() {
        s.len() as int
    } else if sentinel_at(s, from) {
        from
    } else {
        next_sentinel(s, from + 1)
    }
}

/// The line that a binary payload is delivered as: its base64 text and a newline.
pub open spec fn frame_line(payload: Seq<u8>) -> Seq<char> {
    base64_standard(payload).push('\n')
}

/// What the complete frames of `s` from index `from` on give: the lines, and
/// the index behind the last frame that is closed. The first sentinel at or
/// after `from` opens a frame and the next one behind it closes it. The text
/// before the opening sentinel gives its lines, the bytes between the two
/// give one line, and the same holds again behind the closing sentinel. Where
/// no frame is both opened and closed, there are no lines and nothing is
/// passed over.
pub open spec fn framed(s: Seq<u8>, from: int) -> (Seq<Seq<char>>, int)
    decreases s.len() - from,
{
    let open = next_sentinel(s, from);
    let close = next_sentinel(s, open + WINDOWS_SIZE);
    if 0 <= from <= open && open + WINDOWS_SIZE <= close && close + WINDOWS_SIZE <= s.len() {
        let more = framed(s, close + WINDOWS_SIZE);
        (
            text_lines(s.subrange(from, open)).push(
                frame_line(s.subrange(open + WINDOWS_SIZE, close)),
            ) + more.0,
            more.1,
        )
    } else {
        (Seq::empty(), from)
    }
}

/// Where `next_sentinel` points the sentinel stands, and nowhere before it.
pub proof fn lemma_next_sentinel(s: Seq<u8>, from: int)
    requires
        0 <= from,
    ensures
        next_sentinel(s, from) <= s.len(),
        next_sentinel(s, from) < s.len() ==> from <= next_sentinel(s, from) && sentinel_at(
            s,
            next_sentinel(s, from),
        ),
        forall|i: int| from <= i < next_sentinel(s, from) ==> !sentinel_at(s, i),
        next_sentinel(s, from) == s.len() ==> forall|i: int| from <= i ==> !sentinel_at(s, i),
    decreases s.len() - from,
{
    if from + WINDOWS_SIZE <= s.len() && !sentinel_at(s, from) {
        lemma_next_sentinel(s, from + 1);
    }
}

/// Finds the sentinel in `bytes` at or after `from`.
pub fn find_sentinel(bytes: &VecDeque<u8>, from: usize) -> (at: usize)
    ensures
        at == next_sentinel(bytes@, from as int),
{
    let n = bytes.len();
    let mut i: usize = from;
    while i < n && n - i >= WINDOWS_SIZE
        invariant
            from <= i,
            n == bytes@.len(),
            next_sentinel(bytes@, i as int) == next_sentinel(bytes@, from as int),
        decreases n - i,
    {
        proof {
            lemma_sentinel_bytes(bytes@, i as int);
        }
        if bytes[i] == SENTINEL[0] && bytes[i + 1] == SENTINEL[1] && bytes[i + 2] == SENTINEL[2]
            && bytes[i + 3] == SENTINEL[3] {
            return i;
        }
        i = i + 1;
    }
    n
}

/// What one pass over the buffered bytes gives: the lines to dispatch, in
/// order, the bytes that stay buffered, and the mode the pass ends in.
pub struct Pass {
    pub lines: Seq<Seq<char>>,
    pub rest: Seq<u8>,
    pub ascii: bool,
}

/// A pass in ASCII mode over the buffer `q`: the ended lines leave, and what
/// follows the last newline stays without the padding it begins with.
pub open spec fn ascii_pass(q: Seq<u8>) -> Pass {
    Pass { lines: lines_of(q), rest: trimmed(pending(q)), ascii: true }
}

/// A pass in binary mode over the buffer `q`. The complete frames leave with
/// the text before each. While the bytes behind them hold the sentinel's
/// first byte they stay as they are and the mode stays binary; once they do
/// not, they are passed over in ASCII mode at once.
pub open spec fn binary_pass(q: Seq<u8>) -> Pass {
    let rest = q.skip(framed(q, 0).1);
    if rest.contains(MARK) {
        Pass { lines: framed(q, 0).0, rest, ascii: false }
    } else {
        Pass { lines: framed(q, 0).0 + lines_of(rest), rest: trimmed(pending(rest)), ascii: true }
    }
}

fn copy_range(bytes: &VecDeque<u8>, from: usize, to: usize) -> (copy: Vec<u8>)
    requires
        from <= to <= bytes@.len(),
    ensures
        copy@ == bytes@.subrange(from as int, to as int),
{
    let mut copy: Vec<u8> = Vec::new();
    let mut i: usize = from;
    while i < to
        invariant
            from <= i <= to <= bytes@.len(),
            copy@ == bytes@.subrange(from as int, i as int),
        decreases to - i,
    {
        copy.push(bytes[i]);
        proof {
            assert(bytes@.subrange(from as int, i + 1) =~= bytes@.subrange(
                from as int,
                i as int,
            ).push(bytes@[i as int]));
        }
        i = i + 1;
    }
    copy
}

fn holds_mark(bytes: &VecDeque<u8>) -> (found: bool)
    ensures
        found == bytes@.contains(MARK),
{
    let mut i: usize = 0;
    while i < bytes.len()
        invariant
            i <= bytes@.len(),
            forall|j: int| 0 <= j < i ==> bytes@[j] != MARK,
        decreases bytes@.len() - i,
    {
        if bytes[i] == MARK {
            return true;
        }
        i = i + 1;
    }
    false
}

/// Appends to `lines` what the complete frames of `bytes` give, and returns
/// the index behind the last of them.
fn push_frames(bytes: &VecDeque<u8>, lines: &mut Vec<String>) -> (end: usize)
    requires
        bytes@.len() / 3 * 4 + 4 <= isize::MAX,
    ensures
        texts(final(lines)@) == texts(old(lines)@) + framed(bytes@, 0).0,
        end == framed(bytes@, 0).1,
        end <= bytes@.len(),
{
    let n = bytes.len();
    let mut pos: usize = 0;
    let mut open = find_sentinel(bytes, 0);
    let mut close = if open < n {
        find_sentinel(bytes, open + WINDOWS_SIZE)
    } else {
        n
    };
    proof {
        lemma_next_sentinel(bytes@, 0);
        lemma_next_sentinel(bytes@, open + WINDOWS_SIZE);
        assert(texts(lines@) + framed(bytes@, 0).0 =~= texts(old(lines)@) + framed(bytes@, 0).0);
    }
    while close < n
        invariant
            n == bytes@.len(),
            n / 3 * 4 + 4 <= isize::MAX,
            pos <= n,
            open == next_sentinel(bytes@, pos as int),
            close == next_sentinel(bytes@, open + WINDOWS_SIZE),
            pos <= open || open == n,
            close <= n,
            close < n ==> open + WINDOWS_SIZE <= close && close + WINDOWS_SIZE <= n,
            texts(lines@) + framed(bytes@, pos as int).0 == texts(old(lines)@) + framed(
                bytes@,
                0,
            ).0,
            framed(bytes@, pos as int).1 == framed(bytes@, 0).1,
        decreases n - pos,
    {
        let ghost before = texts(lines@);
        let ghost text = bytes@.subrange(pos as int, open as int);
        let ghost payload = bytes@.subrange(open + WINDOWS_SIZE, close as int);
        push_text_lines(bytes, pos, open, lines);
        let inner = copy_range(bytes, open + WINDOWS_SIZE, close);
        let line = end_line(encode_standard(inner.as_slice()));
        proof {
            lemma_texts_push(lines@, line);
        }
        lines.push(line);
        proof {
            let more = framed(bytes@, close + WINDOWS_SIZE);
            assert(framed(bytes@, pos as int).0 == text_lines(text).push(frame_line(payload))
                + more.0);
            assert(texts(lines@) == (before + text_lines(text)).push(frame_line(payload)));
            assert(texts(lines@) + more.0 =~= before + framed(bytes@, pos as int).0);
        }
        pos = close + WINDOWS_SIZE;
        open = find_sentinel(bytes, pos);
        close = if open < n {
            find_sentinel(bytes, open + WINDOWS_SIZE)
        } else {
            n
        };
        proof {
            lemma_next_sentinel(bytes@, pos as int);
            lemma_next_sentinel(bytes@, open + WINDOWS_SIZE);
        }
    }
    proof {
        assert(framed(bytes@, pos as int).0 =~= Seq::<Seq<char>>::empty());
        assert(texts(lines@) + Seq::<Seq<char>>::empty() =~= texts(lines@));
    }
    pos
}

/// One pass in binary mode: takes the complete frames out of `dequeue`, each
/// with the text before it, and appends their lines to `lines`. If what
/// stays no longer holds the sentinel's first byte, `ascii_mode` is set and
/// the ended lines of what stays leave as well.
pub fn take_frames(dequeue: &mut VecDeque<u8>, lines: &mut Vec<String>, ascii_mode: &mut bool)
    requires
        old(dequeue)@.len() / 3 * 4 + 4 <= isize::MAX,
    ensures
        texts(final(lines)@) == texts(old(lines)@) + binary_pass(old(dequeue)@).lines,
        final(dequeue)@ == binary_pass(old(dequeue)@).rest,
        *final(ascii_mode) == binary_pass(old(dequeue)@).ascii,
{
    let end = push_frames(dequeue, lines);
    let rest = dequeue.split_off(end);
    proof {
        assert(rest@ =~= old(dequeue)@.skip(end as int));
    }
    *dequeue = rest;
    if holds_mark(dequeue) {
        *ascii_mode = false;
    } else {
        *ascii_mode = true;
        take_lines(dequeue, lines);
        proof {
            let q = old(dequeue)@;
            assert(texts(lines@) =~= texts(old(lines)@) + (framed(q, 0).0 + lines_of(
                q.skip(end as int),
            )));
        }
    }
}

} // verus!
