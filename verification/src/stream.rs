//! What holds of a whole stream however it is cut into chunks: text comes out
//! line by line wherever the cuts fall, and a frame in text comes out as one
//! line whether it arrives whole or cut in two.

use crate::framing::{
    ascii_pass, binary_pass, frame_line, framed, lemma_pending_push, lemma_sentinel_bytes,
    lemma_terminated_bounds, lemma_text_push, lines_of, next_sentinel, pending, sentinel_at,
    terminated, text_lines, text_of, trimmed, Pass, MARK, NEWLINE, PADDING, SENTINEL,
    WINDOWS_SIZE,
};
use crate::actions::{
    dispatches, dispatches_all, lemma_dispatches_all_concat, mutated, Functor, FunctorRes,
};
use crate::serialcomunicator::{accepted, all_ascii, Processor, RawChunk};
use vstd::prelude::*;

verus! {

/// What a processor that starts with nothing buffered, in ASCII mode, has
/// made of `chunks` once it has taken them one after the other: all the
/// lines it has dispatched, what it holds, and its mode. Each chunk is marked
/// binary exactly if a byte of it is not ASCII.
pub open spec fn fed(chunks: Seq<Seq<u8>>, limit: nat) -> Pass
    decreases chunks.len(),
{
    if chunks.len() == 0 {
        Pass { lines: Seq::empty(), rest: Seq::empty(), ascii: true }
    } else {
        let before = fed(chunks.drop_last(), limit);
        let step = accepted(
            before.rest,
            before.ascii,
            chunks.last(),
            !all_ascii(chunks.last()),
            limit,
        );
        Pass { lines: before.lines + step.lines, rest: step.rest, ascii: step.ascii }
    }
}

/// The text of two stretches joined is the text of the first and then the
/// text of the second.
pub proof fn lemma_text_concat(a: Seq<u8>, b: Seq<u8>)
    ensures
        text_of(a + b) == text_of(a) + text_of(b),
    decreases b.len(),
{
    if b.len() == 0 {
        assert(a + b =~= a);
        assert(text_of(a) + text_of(b) =~= text_of(a));
    } else {
        let shorter = b.drop_last();
        lemma_text_concat(a, shorter);
        assert(a + b =~= (a + shorter).push(b.last()));
        assert(b =~= shorter.push(b.last()));
        lemma_text_push(a + shorter, b.last());
        lemma_text_push(shorter, b.last());
        assert(text_of(a + b) =~= text_of(a) + text_of(b));
    }
}

/// Bytes without a newline end no line: all of them are pending.
pub proof fn lemma_plain_text(s: Seq<u8>)
    requires
        forall|i: int| 0 <= i < s.len() ==> s[i] != NEWLINE,
    ensures
        terminated(s) == 0,
        pending(s) == s,
        lines_of(s) == Seq::<Seq<char>>::empty(),
    decreases s.len(),
{
    if s.len() > 0 {
        let shorter = s.drop_last();
        assert forall|i: int| 0 <= i < shorter.len() implies shorter[i] != NEWLINE by {
            assert(shorter[i] == s[i]);
        }
        lemma_plain_text(shorter);
    }
    assert(s.skip(0) =~= s);
}

/// Trimming takes bytes from the front only, and takes no text.
pub proof fn lemma_trimmed(s: Seq<u8>)
    ensures
        trimmed(s).len() <= s.len(),
        trimmed(s) == s.skip(s.len() - trimmed(s).len()),
        text_of(trimmed(s)) == text_of(s),
        trimmed(trimmed(s)) == trimmed(s),
    decreases s.len(),
{
    if s.len() > 0 && s[0] == PADDING {
        let shorter = s.drop_first();
        lemma_trimmed(shorter);
        assert(trimmed(s) =~= s.skip(s.len() - trimmed(s).len()));
        assert(s =~= seq![PADDING] + shorter);
        lemma_text_concat(seq![PADDING], shorter);
        lemma_text_push(Seq::<u8>::empty(), PADDING);
        assert(Seq::<u8>::empty().push(PADDING) =~= seq![PADDING]);
        assert(text_of(Seq::<u8>::empty()) =~= Seq::<char>::empty());
        assert(text_of(s) =~= text_of(shorter));
    } else {
        assert(s.skip(0) =~= s);
    }
}

/// What trimming leaves of bytes with one more byte behind them.
pub proof fn lemma_trimmed_push(s: Seq<u8>, b: u8)
    ensures
        trimmed(s.push(b)) == if trimmed(s).len() == 0 {
            trimmed(seq![b])
        } else {
            trimmed(s).push(b)
        },
    decreases s.len(),
{
    if s.len() == 0 {
        assert(s.push(b) =~= seq![b]);
    } else if s[0] == PADDING {
        lemma_trimmed_push(s.drop_first(), b);
        assert(s.push(b).drop_first() =~= s.drop_first().push(b));
    } else {
    }
}

/// Taking the ended lines out of a buffer and going on with what is left
/// gives the same lines, and leaves the same, as going on with the whole
/// buffer would.
pub proof fn lemma_lines_resume(a: Seq<u8>, b: Seq<u8>)
    ensures
        lines_of(a + b) == lines_of(a) + lines_of(trimmed(pending(a)) + b),
        text_of(pending(a + b)) == text_of(pending(trimmed(pending(a)) + b)),
        trimmed(pending(a + b)) == trimmed(pending(trimmed(pending(a)) + b)),
    decreases b.len(),
{
    let r = trimmed(pending(a));
    if b.len() == 0 {
        assert(a + b =~= a);
        assert(r + b =~= r);
        lemma_terminated_bounds(a);
        lemma_trimmed(pending(a));
        assert forall|i: int| 0 <= i < r.len() implies r[i] != NEWLINE by {
            let cut = pending(a).len() - r.len();
            assert(r[i] == pending(a)[cut + i]);
            assert(pending(a)[cut + i] == a[terminated(a) + cut + i]);
        }
        lemma_plain_text(r);
        assert(lines_of(a) + lines_of(r) =~= lines_of(a));
    } else {
        let shorter = b.drop_last();
        let x = b.last();
        lemma_lines_resume(a, shorter);
        assert(a + b =~= (a + shorter).push(x));
        assert(r + b =~= (r + shorter).push(x));
        lemma_pending_push(a + shorter, x);
        lemma_pending_push(r + shorter, x);
        if x == NEWLINE {
            assert(lines_of(a + b) =~= lines_of(a) + lines_of(r + b));
        } else {
            lemma_text_push(pending(a + shorter), x);
            lemma_text_push(pending(r + shorter), x);
            lemma_trimmed_push(pending(a + shorter), x);
            lemma_trimmed_push(pending(r + shorter), x);
        }
    }
}

/// A stream of ASCII bytes gives the same lines however it is cut into
/// chunks, as long as no line outgrows the limit while it waits for its
/// newline: after the last chunk the processor has dispatched exactly the
/// lines that the stream ends with a newline, in the order of the stream, and
/// holds what follows the last newline.
pub proof fn lemma_ascii_stream_is_cut_anywhere(chunks: Seq<Seq<u8>>, limit: nat)
    requires
        forall|k: int| 0 <= k < chunks.len() ==> all_ascii(#[trigger] chunks[k]),
        forall|k: int|
            0 <= k <= chunks.len() ==> trimmed(pending(#[trigger] chunks.take(k).flatten())).len()
                <= limit,
    ensures
        fed(chunks, limit).lines == lines_of(chunks.flatten()),
        fed(chunks, limit).rest == trimmed(pending(chunks.flatten())),
        fed(chunks, limit).ascii,
    decreases chunks.len(),
{
    if chunks.len() == 0 {
        assert(chunks.flatten() =~= Seq::<u8>::empty());
        assert(pending(Seq::<u8>::empty()) =~= Seq::<u8>::empty());
    } else {
        let earlier = chunks.drop_last();
        let chunk = chunks.last();
        assert forall|k: int| 0 <= k < earlier.len() implies all_ascii(#[trigger] earlier[k]) by {
            assert(earlier[k] == chunks[k]);
        }
        assert forall|k: int| 0 <= k <= earlier.len() implies trimmed(
            pending(#[trigger] earlier.take(k).flatten()),
        ).len() <= limit by {
            assert(earlier.take(k) =~= chunks.take(k));
        }
        lemma_ascii_stream_is_cut_anywhere(earlier, limit);
        let stream = earlier.flatten();
        earlier.lemma_flatten_push(chunk);
        assert(earlier.push(chunk) =~= chunks);
        assert(chunks.flatten() == stream + chunk);
        lemma_lines_resume(stream, chunk);
        assert(chunks.take(chunks.len() as int) =~= chunks);
        assert(all_ascii(chunks[chunks.len() - 1]));
    }
}

/// Every line of text ends with its newline and holds no padding.
pub proof fn lemma_lines_are_ended(s: Seq<u8>, k: int)
    requires
        0 <= k < lines_of(s).len(),
    ensures
        lines_of(s)[k].len() > 0,
        lines_of(s)[k].last() == '\n',
        forall|i: int| 0 <= i < lines_of(s)[k].len() ==> lines_of(s)[k][i] != '\0',
    decreases s.len(),
{
    if s.len() > 0 {
        let shorter = s.drop_last();
        if s.last() == NEWLINE && k == lines_of(shorter).len() {
            lemma_text_holds_no_padding(pending(shorter));
        } else {
            lemma_lines_are_ended(shorter, k);
        }
    }
}

/// Text holds no padding.
pub proof fn lemma_text_holds_no_padding(bytes: Seq<u8>)
    ensures
        forall|i: int| 0 <= i < text_of(bytes).len() ==> text_of(bytes)[i] != '\0',
    decreases bytes.len(),
{
    if bytes.len() > 0 {
        let shorter = bytes.drop_last();
        lemma_text_holds_no_padding(shorter);
        assert(bytes =~= shorter.push(bytes.last()));
        lemma_text_push(shorter, bytes.last());
    }
}

/// There are as many lines as there are newlines.
pub proof fn lemma_one_line_for_each_newline(s: Seq<u8>)
    ensures
        lines_of(s).len() == s.filter(|b: u8| b == NEWLINE).len(),
    decreases s.len(),
{
    reveal(Seq::filter);
    if s.len() > 0 {
        lemma_one_line_for_each_newline(s.drop_last());
    }
}

/// The sentinel is found at the first index at which it stands.
pub proof fn lemma_next_sentinel_is(s: Seq<u8>, from: int, at: int)
    requires
        0 <= from <= at,
        sentinel_at(s, at),
        forall|i: int| from <= i < at ==> !sentinel_at(s, i),
    ensures
        next_sentinel(s, from) == at,
    decreases at - from,
{
    if from < at {
        lemma_next_sentinel_is(s, from + 1, at);
    }
}

/// Where the sentinel stands nowhere, none is found.
pub proof fn lemma_next_sentinel_none(s: Seq<u8>, from: int)
    requires
        0 <= from,
        forall|i: int| from <= i ==> !sentinel_at(s, i),
    ensures
        next_sentinel(s, from) == s.len(),
    decreases s.len() - from,
{
    if from + WINDOWS_SIZE <= s.len() {
        lemma_next_sentinel_none(s, from + 1);
    }
}

/// Whether a payload can be framed: the sentinel stands nowhere in it.
pub open spec fn frameable(payload: Seq<u8>) -> bool {
    forall|i: int| !sentinel_at(payload, i)
}

/// `payload` between two sentinels, with `before` in front and `after` behind.
pub open spec fn embedded(before: Seq<u8>, payload: Seq<u8>, after: Seq<u8>) -> Seq<u8> {
    before + SENTINEL@ + payload + SENTINEL@ + after
}

/// The byte of an embedded payload at each index.
proof fn lemma_embedded_bytes(before: Seq<u8>, payload: Seq<u8>, after: Seq<u8>)
    ensures
        ({
            let q = embedded(before, payload, after);
            let open = before.len() as int;
            let close = open + WINDOWS_SIZE + payload.len();
            &&& q.len() == close + WINDOWS_SIZE + after.len()
            &&& forall|i: int| 0 <= i < open ==> q[i] == before[i]
            &&& q[open] == 0xff && q[open + 1] == 0xfe && q[open + 2] == 0xfc && q[open + 3] == 0xfb
            &&& forall|i: int|
                0 <= i < payload.len() ==> q[open + WINDOWS_SIZE + i] == #[trigger] payload[i]
            &&& q[close] == 0xff && q[close + 1] == 0xfe && q[close + 2] == 0xfc && q[close + 3]
                == 0xfb
            &&& forall|i: int|
                0 <= i < after.len() ==> q[close + WINDOWS_SIZE + i] == #[trigger] after[i]
        }),
{
    let a = before + SENTINEL@;
    let b = a + payload;
    let c = b + SENTINEL@;
    let q = c + after;
    assert(q == embedded(before, payload, after));
    let open = before.len() as int;
    let close = open + WINDOWS_SIZE + payload.len();
    assert(a[open] == 0xff && a[open + 1] == 0xfe && a[open + 2] == 0xfc && a[open + 3] == 0xfb);
    assert(c[close] == 0xff && c[close + 1] == 0xfe && c[close + 2] == 0xfc && c[close + 3]
        == 0xfb);
    assert forall|i: int| 0 <= i < payload.len() implies q[open + WINDOWS_SIZE + i]
        == #[trigger] payload[i] by {
        assert(b[open + WINDOWS_SIZE + i] == payload[i]);
    }
}

/// Where the sentinels of an embedded payload stand, and that no other
/// sentinel stands before the closing one.
proof fn lemma_embedded_layout(before: Seq<u8>, payload: Seq<u8>, after: Seq<u8>)
    requires
        all_ascii(before),
        frameable(payload),
    ensures
        ({
            let q = embedded(before, payload, after);
            let open = before.len() as int;
            let close = open + WINDOWS_SIZE + payload.len();
            &&& q.len() == close + WINDOWS_SIZE + after.len()
            &&& q.subrange(0, open) == before
            &&& q.subrange(open + WINDOWS_SIZE, close) == payload
            &&& q.skip(close + WINDOWS_SIZE) == after
            &&& next_sentinel(q, 0) == open
            &&& next_sentinel(q, open + WINDOWS_SIZE) == close
        }),
{
    let q = embedded(before, payload, after);
    let open = before.len() as int;
    let close = open + WINDOWS_SIZE + payload.len();
    lemma_embedded_bytes(before, payload, after);
    assert(q.subrange(0, open) =~= before);
    assert(q.subrange(open + WINDOWS_SIZE, close) =~= payload) by {
        assert forall|i: int| 0 <= i < payload.len() implies q.subrange(
            open + WINDOWS_SIZE,
            close,
        )[i] == payload[i] by {}
    }
    assert(q.skip(close + WINDOWS_SIZE) =~= after) by {
        assert forall|i: int| 0 <= i < after.len() implies q.skip(close + WINDOWS_SIZE)[i]
            == after[i] by {}
    }
    lemma_sentinel_bytes(q, open);
    lemma_sentinel_bytes(q, close);
    assert forall|i: int| 0 <= i < open implies !sentinel_at(q, i) by {
        if i + WINDOWS_SIZE <= q.len() {
            lemma_sentinel_bytes(q, i);
        }
    }
    lemma_next_sentinel_is(q, 0, open);
    assert forall|i: int| open + WINDOWS_SIZE <= i < close implies !sentinel_at(q, i) by {
        lemma_embedded_gap(before, payload, after, i);
    }
    lemma_next_sentinel_is(q, open + WINDOWS_SIZE, close);
}

/// No sentinel begins between the two that enclose a payload.
#[verifier::rlimit(30)]
proof fn lemma_embedded_gap(before: Seq<u8>, payload: Seq<u8>, after: Seq<u8>, i: int)
    requires
        frameable(payload),
        before.len() + WINDOWS_SIZE <= i < before.len() + WINDOWS_SIZE + payload.len(),
    ensures
        !sentinel_at(embedded(before, payload, after), i),
{
    let q = embedded(before, payload, after);
    let open = before.len() as int;
    let close = open + WINDOWS_SIZE + payload.len();
    lemma_embedded_bytes(before, payload, after);
    if i + WINDOWS_SIZE <= q.len() {
        lemma_sentinel_bytes(q, i);
        let j = i - open - WINDOWS_SIZE;
        if i + WINDOWS_SIZE <= close {
            lemma_sentinel_bytes(payload, j);
            assert(q[i] == payload[j]);
            assert(q[i + 1] == payload[j + 1]);
            assert(q[i + 2] == payload[j + 2]);
            assert(q[i + 3] == payload[j + 3]);
            assert(!sentinel_at(payload, j));
        } else {
            assert(q[close] == 0xff);
        }
    }
}

/// A payload that is embedded between two sentinels in ASCII text comes out
/// as exactly one line, its base64 text and a newline. The text before it
/// comes out before that line, ended by the sentinel where no newline ends
/// it, and the text behind it comes out behind that line as far as a newline
/// ends it. What follows the last newline stays buffered, and the mode is
/// ASCII again.
pub proof fn lemma_frame_in_text(before: Seq<u8>, payload: Seq<u8>, after: Seq<u8>)
    requires
        all_ascii(before),
        all_ascii(after),
        frameable(payload),
    ensures
        binary_pass(embedded(before, payload, after)) == (Pass {
            lines: text_lines(before).push(frame_line(payload)) + lines_of(after),
            rest: trimmed(pending(after)),
            ascii: true,
        }),
{
    let q = embedded(before, payload, after);
    let open = before.len() as int;
    let close = open + WINDOWS_SIZE + payload.len();
    let behind = close + WINDOWS_SIZE;
    lemma_embedded_layout(before, payload, after);
    assert forall|i: int| behind <= i implies !sentinel_at(q, i) by {
        if i + WINDOWS_SIZE <= q.len() {
            lemma_sentinel_bytes(q, i);
            assert(q[i] == after[i - behind]);
        }
    }
    lemma_next_sentinel_none(q, behind);
    assert(framed(q, behind) == (Seq::<Seq<char>>::empty(), behind));
    assert(framed(q, 0).0 =~= text_lines(before).push(frame_line(payload)));
    assert(framed(q, 0).1 == behind);
    assert(!after.contains(MARK));
}

/// A chunk that holds one frame in ASCII text, taken by a processor with
/// nothing buffered, gives the lines of the text before the frame, the one
/// line of the frame, and the ended lines of the text behind it, in that
/// order, and leaves the processor in ASCII mode. This holds as long as what
/// follows the last newline is not longer than the limit.
pub proof fn lemma_frame_in_one_chunk(
    before: Seq<u8>,
    payload: Seq<u8>,
    after: Seq<u8>,
    limit: nat,
)
    requires
        all_ascii(before),
        all_ascii(after),
        frameable(payload),
        trimmed(pending(after)).len() <= limit,
    ensures
        !all_ascii(embedded(before, payload, after)),
        fed(seq![embedded(before, payload, after)], limit) == (Pass {
            lines: text_lines(before).push(frame_line(payload)) + lines_of(after),
            rest: trimmed(pending(after)),
            ascii: true,
        }),
{
    let q = embedded(before, payload, after);
    lemma_embedded_bytes(before, payload, after);
    lemma_part_with_mark(q, before.len() as int);
    lemma_frame_in_text(before, payload, after);
    assert(seq![q].drop_last() =~= Seq::<Seq<u8>>::empty());
    assert(seq![q].last() == q);
    assert(Seq::<u8>::empty() + q =~= q);
    let step = accepted(Seq::empty(), true, q, true, limit);
    assert(step == binary_pass(q));
    assert(fed(Seq::<Seq<u8>>::empty(), limit).lines + step.lines =~= step.lines);
}

/// The start of bytes that hold no sentinel holds none.
proof fn lemma_frameable_start(whole: Seq<u8>, k: int)
    requires
        frameable(whole),
        0 <= k <= whole.len(),
    ensures
        frameable(whole.take(k)),
{
    let start = whole.take(k);
    assert forall|i: int| !sentinel_at(start, i) by {
        if 0 <= i && i + WINDOWS_SIZE <= start.len() {
            lemma_sentinel_bytes(start, i);
            lemma_sentinel_bytes(whole, i);
            assert(start[i] == whole[i] && start[i + 1] == whole[i + 1] && start[i + 2] == whole[i
                + 2] && start[i + 3] == whole[i + 3]);
            assert(!sentinel_at(whole, i));
        }
    }
}

/// Bytes that hold no sentinel hold none with the start of a sentinel
/// behind them.
proof fn lemma_frameable_with_start_of_sentinel(inner: Seq<u8>, j: int)
    requires
        frameable(inner),
        0 <= j < WINDOWS_SIZE,
    ensures
        frameable(inner + SENTINEL@.take(j)),
{
    let longer = inner + SENTINEL@.take(j);
    let n = inner.len() as int;
    assert forall|i: int| !sentinel_at(longer, i) by {
        if 0 <= i && i + WINDOWS_SIZE <= longer.len() {
            lemma_sentinel_bytes(longer, i);
            if i + WINDOWS_SIZE <= n {
                lemma_sentinel_bytes(inner, i);
                assert(longer[i] == inner[i] && longer[i + 1] == inner[i + 1] && longer[i + 2]
                    == inner[i + 2] && longer[i + 3] == inner[i + 3]);
                assert(!sentinel_at(inner, i));
            } else {
                assert(longer[n] == SENTINEL@.take(j)[0]);
                assert(longer[n] == 0xff);
            }
        }
    }
}

/// Bytes that hold the sentinel's first byte, and the sentinel nowhere, are
/// held back whole in binary mode.
proof fn lemma_nothing_framed(q: Seq<u8>)
    requires
        q.contains(MARK),
        forall|i: int| 0 <= i ==> !sentinel_at(q, i),
    ensures
        binary_pass(q) == (Pass { lines: Seq::empty(), rest: q, ascii: false }),
{
    lemma_next_sentinel_none(q, 0);
    assert(framed(q, 0) == (Seq::<Seq<char>>::empty(), 0int));
    assert(q.skip(0) =~= q);
}

/// Text, an opening sentinel and bytes that hold no sentinel are held back
/// whole in binary mode.
proof fn lemma_one_sentinel_waits(before: Seq<u8>, inner: Seq<u8>)
    requires
        all_ascii(before),
        frameable(inner),
    ensures
        binary_pass(before + SENTINEL@ + inner) == (Pass {
            lines: Seq::empty(),
            rest: before + SENTINEL@ + inner,
            ascii: false,
        }),
{
    let first = before + SENTINEL@ + inner;
    let open = before.len() as int;
    assert(first.subrange(open, open + WINDOWS_SIZE) =~= SENTINEL@);
    assert forall|i: int| 0 <= i < open implies !sentinel_at(first, i) by {
        if i + WINDOWS_SIZE <= first.len() {
            lemma_sentinel_bytes(first, i);
            assert(first[i] == before[i]);
        }
    }
    lemma_next_sentinel_is(first, 0, open);
    assert forall|i: int| open + WINDOWS_SIZE <= i implies !sentinel_at(first, i) by {
        if i + WINDOWS_SIZE <= first.len() {
            let j = i - open - WINDOWS_SIZE;
            lemma_sentinel_bytes(first, i);
            lemma_sentinel_bytes(inner, j);
            assert(inner[j] == first[i] && inner[j + 1] == first[i + 1] && inner[j + 2] == first[i
                + 2] && inner[j + 3] == first[i + 3]);
            assert(!sentinel_at(inner, j));
        }
    }
    lemma_next_sentinel_none(first, open + WINDOWS_SIZE);
    assert(framed(first, 0) == (Seq::<Seq<char>>::empty(), 0int));
    assert(first.skip(0) =~= first);
    assert(first[open] == MARK);
    assert(first.contains(MARK));
}

/// A frame whose opening sentinel has arrived and whose closing sentinel has
/// not is held back whole, with the text before it: nothing is dispatched and
/// nothing is dropped. Once the rest of the frame has arrived it comes out as
/// one line, as it would have if it had arrived in one piece.
pub proof fn lemma_open_frame_waits(
    before: Seq<u8>,
    head: Seq<u8>,
    tail: Seq<u8>,
    after: Seq<u8>,
    later_binary: bool,
    limit: nat,
)
    requires
        all_ascii(before),
        all_ascii(after),
        frameable(head + tail),
        (before + SENTINEL@ + head).len() <= limit,
        trimmed(pending(after)).len() <= limit,
    ensures
        accepted(Seq::empty(), true, before + SENTINEL@ + head, true, limit) == (Pass {
            lines: Seq::empty(),
            rest: before + SENTINEL@ + head,
            ascii: false,
        }),
        accepted(before + SENTINEL@ + head, false, tail + SENTINEL@ + after, later_binary, limit)
            == (Pass {
            lines: text_lines(before).push(frame_line(head + tail)) + lines_of(after),
            rest: trimmed(pending(after)),
            ascii: true,
        }),
{
    let first = before + SENTINEL@ + head;
    assert(frameable(head)) by {
        lemma_frameable_start(head + tail, head.len() as int);
        assert((head + tail).take(head.len() as int) =~= head);
    }
    lemma_one_sentinel_waits(before, head);
    assert(Seq::<u8>::empty() + first == first) by {
        assert(Seq::<u8>::empty() + first =~= first);
    }
    lemma_two_parts_joined(before, head, tail, after);
    lemma_frame_in_text(before, head + tail, after);
}

/// The two parts of a frame that is cut in its payload, joined again.
proof fn lemma_two_parts_joined(before: Seq<u8>, head: Seq<u8>, tail: Seq<u8>, after: Seq<u8>)
    ensures
        (before + SENTINEL@ + head) + (tail + SENTINEL@ + after) == embedded(
            before,
            head + tail,
            after,
        ),
{
    assert((before + SENTINEL@ + head) + (tail + SENTINEL@ + after) =~= embedded(
        before,
        head + tail,
        after,
    ));
}

/// The lines of a stretch of text that is cut in two: the ended lines of the
/// first part, and then the lines of what the first part leaves pending
/// with the second part behind it.
pub proof fn lemma_text_lines_resume(a: Seq<u8>, b: Seq<u8>)
    ensures
        text_lines(a + b) == lines_of(a) + text_lines(trimmed(pending(a)) + b),
{
    lemma_lines_resume(a, b);
    let r = trimmed(pending(a));
    assert(text_lines(a + b) =~= lines_of(a) + text_lines(r + b));
}

/// What a processor with nothing buffered has made of two chunks: what it
/// makes of the first, and then what it makes of the second with what the
/// first left.
proof fn lemma_fed_two(first: Seq<u8>, second: Seq<u8>, limit: nat)
    ensures
        ({
            let one = accepted(Seq::empty(), true, first, !all_ascii(first), limit);
            let two = accepted(one.rest, one.ascii, second, !all_ascii(second), limit);
            fed(seq![first, second], limit) == (Pass {
                lines: one.lines + two.lines,
                rest: two.rest,
                ascii: two.ascii,
            })
        }),
{
    let chunks = seq![first, second];
    assert(chunks.drop_last() =~= seq![first]);
    assert(chunks.last() == second);
    assert(seq![first].drop_last() =~= Seq::<Seq<u8>>::empty());
    assert(seq![first].last() == first);
    let one = accepted(Seq::empty(), true, first, !all_ascii(first), limit);
    assert(fed(Seq::<Seq<u8>>::empty(), limit).lines + one.lines =~= one.lines);
    assert(fed(seq![first], limit) == one);
}

/// What is left pending of ASCII text is ASCII.
proof fn lemma_held_text_is_ascii(text: Seq<u8>)
    requires
        all_ascii(text),
    ensures
        all_ascii(trimmed(pending(text))),
        trimmed(pending(text)).len() <= text.len(),
{
    lemma_rest_of_text(text);
    let k = choose|k: int| 0 <= k <= text.len() && ascii_pass(text).rest == #[trigger] text.skip(k);
    assert forall|i: int| 0 <= i < text.skip(k).len() implies text.skip(k)[i] < 0x80 by {
        assert(text.skip(k)[i] == text[k + i]);
    }
}

/// The cut falls in the text before the frame.
#[verifier::rlimit(30)]
proof fn lemma_cut_before_frame(
    before: Seq<u8>,
    payload: Seq<u8>,
    after: Seq<u8>,
    cut: int,
    limit: nat,
)
    requires
        all_ascii(before),
        all_ascii(after),
        frameable(payload),
        0 <= cut <= before.len(),
        embedded(before, payload, after).len() <= limit,
    ensures
        fed(
            seq![
                embedded(before, payload, after).take(cut),
                embedded(before, payload, after).skip(cut),
            ],
            limit,
        ) == (Pass {
            lines: text_lines(before).push(frame_line(payload)) + lines_of(after),
            rest: trimmed(pending(after)),
            ascii: true,
        }),
{
    let q = embedded(before, payload, after);
    let first = q.take(cut);
    let second = q.skip(cut);
    let later = before.skip(cut);
    let held = trimmed(pending(first));
    lemma_fed_two(first, second, limit);
    lemma_embedded_bytes(before, payload, after);
    assert(first =~= before.take(cut));
    assert(before.take(cut) + later =~= before);
    assert(all_ascii(first));
    assert(Seq::<u8>::empty() + first =~= first);
    lemma_held_text_is_ascii(first);
    assert(all_ascii(held + later)) by {
        assert forall|i: int| 0 <= i < (held + later).len() implies (held + later)[i] < 0x80 by {
            if i >= held.len() {
                assert(later[i - held.len()] == before[cut + i - held.len()]);
            }
        }
    }
    assert(held + second =~= embedded(held + later, payload, after)) by {
        assert(second =~= later + SENTINEL@ + payload + SENTINEL@ + after);
    }
    lemma_frame_in_text(held + later, payload, after);
    lemma_held_text_is_ascii(after);
    lemma_text_lines_resume(first, later);
    assert(first + later =~= before);
    assert(second[before.len() - cut] == MARK);
    assert(!all_ascii(second));
    assert(lines_of(first) + (text_lines(held + later).push(frame_line(payload)) + lines_of(
        after,
    )) =~= text_lines(before).push(frame_line(payload)) + lines_of(after));
}

/// A stretch that holds the sentinel's first byte is not ASCII.
proof fn lemma_part_with_mark(part: Seq<u8>, at: int)
    requires
        0 <= at < part.len(),
        part[at] == MARK,
    ensures
        !all_ascii(part),
        part.contains(MARK),
{
}

/// The parts of an embedded payload that is cut in the frame: the first part
/// is the text, the opening sentinel and bytes that hold no sentinel.
proof fn lemma_parts_cut_in_frame(
    before: Seq<u8>,
    payload: Seq<u8>,
    after: Seq<u8>,
    cut: int,
) -> (inner: Seq<u8>)
    requires
        frameable(payload),
        before.len() + WINDOWS_SIZE <= cut < before.len() + WINDOWS_SIZE + payload.len()
            + WINDOWS_SIZE,
    ensures
        frameable(inner),
        embedded(before, payload, after).take(cut) == before + SENTINEL@ + inner,
{
    let q = embedded(before, payload, after);
    let first = q.take(cut);
    let open = before.len() as int;
    let close = open + WINDOWS_SIZE + payload.len();
    lemma_embedded_bytes(before, payload, after);
    if cut <= close {
        let head = payload.take(cut - open - WINDOWS_SIZE);
        lemma_frameable_start(payload, cut - open - WINDOWS_SIZE);
        assert(first =~= before + SENTINEL@ + head);
        head
    } else {
        let j = cut - close;
        lemma_frameable_with_start_of_sentinel(payload, j);
        assert(first =~= before + SENTINEL@ + (payload + SENTINEL@.take(j)));
        payload + SENTINEL@.take(j)
    }
}

/// The first part of an embedded payload that is cut in the frame is held
/// back whole.
proof fn lemma_first_part_waits(before: Seq<u8>, payload: Seq<u8>, after: Seq<u8>, cut: int)
    requires
        all_ascii(before),
        frameable(payload),
        before.len() < cut < before.len() + WINDOWS_SIZE + payload.len() + WINDOWS_SIZE,
    ensures
        !all_ascii(embedded(before, payload, after).take(cut)),
        binary_pass(embedded(before, payload, after).take(cut)) == (Pass {
            lines: Seq::empty(),
            rest: embedded(before, payload, after).take(cut),
            ascii: false,
        }),
{
    let q = embedded(before, payload, after);
    let first = q.take(cut);
    let open = before.len() as int;
    assert(first[open] == MARK) by {
        lemma_embedded_bytes(before, payload, after);
    }
    lemma_part_with_mark(first, open);
    if cut < open + WINDOWS_SIZE {
        assert forall|i: int| 0 <= i implies !sentinel_at(first, i) by {
            if i + WINDOWS_SIZE <= first.len() {
                lemma_sentinel_bytes(first, i);
                lemma_embedded_bytes(before, payload, after);
                assert(first[i] == before[i]);
            }
        }
        lemma_nothing_framed(first);
    } else {
        let inner = lemma_parts_cut_in_frame(before, payload, after, cut);
        lemma_one_sentinel_waits(before, inner);
    }
}

/// The cut falls in the frame: behind the first byte of its opening sentinel
/// and before the end of its closing sentinel.
#[verifier::rlimit(30)]
proof fn lemma_cut_in_frame(
    before: Seq<u8>,
    payload: Seq<u8>,
    after: Seq<u8>,
    cut: int,
    limit: nat,
)
    requires
        all_ascii(before),
        all_ascii(after),
        frameable(payload),
        before.len() < cut < before.len() + WINDOWS_SIZE + payload.len() + WINDOWS_SIZE,
        embedded(before, payload, after).len() <= limit,
    ensures
        fed(
            seq![
                embedded(before, payload, after).take(cut),
                embedded(before, payload, after).skip(cut),
            ],
            limit,
        ) == (Pass {
            lines: text_lines(before).push(frame_line(payload)) + lines_of(after),
            rest: trimmed(pending(after)),
            ascii: true,
        }),
{
    let q = embedded(before, payload, after);
    let first = q.take(cut);
    let second = q.skip(cut);
    lemma_fed_two(first, second, limit);
    lemma_first_part_waits(before, payload, after, cut);
    lemma_frame_in_text(before, payload, after);
    lemma_held_text_is_ascii(after);
    assert(Seq::<u8>::empty() + first =~= first);
    assert(first + second =~= q);
    assert(after.len() <= q.len());
    assert(Seq::<Seq<char>>::empty() + binary_pass(q).lines =~= binary_pass(q).lines);
}

/// The parts of an embedded payload that is cut behind the frame: the first
/// part holds the frame and the start of the text behind it, the second part
/// is the rest of that text.
proof fn lemma_parts_cut_behind_frame(
    before: Seq<u8>,
    payload: Seq<u8>,
    after: Seq<u8>,
    cut: int,
)
    requires
        all_ascii(after),
        before.len() + WINDOWS_SIZE + payload.len() + WINDOWS_SIZE <= cut <= embedded(
            before,
            payload,
            after,
        ).len(),
    ensures
        ({
            let q = embedded(before, payload, after);
            let behind = before.len() + WINDOWS_SIZE + payload.len() + WINDOWS_SIZE;
            let sooner = after.take(cut - behind);
            let later = after.skip(cut - behind);
            &&& q.take(cut) == embedded(before, payload, sooner)
            &&& q.skip(cut) == later
            &&& sooner + later == after
            &&& all_ascii(sooner)
            &&& all_ascii(later)
            &&& !all_ascii(q.take(cut))
        }),
{
    let q = embedded(before, payload, after);
    let open = before.len() as int;
    let behind = open + WINDOWS_SIZE + payload.len() + WINDOWS_SIZE;
    let sooner = after.take(cut - behind);
    let later = after.skip(cut - behind);
    lemma_embedded_bytes(before, payload, after);
    assert(q.take(cut) =~= embedded(before, payload, sooner));
    assert(q.skip(cut) =~= later);
    assert(sooner + later =~= after);
    assert(q.take(cut)[open] == MARK);
    lemma_part_with_mark(q.take(cut), open);
}

/// The cut falls in the text behind the frame.
proof fn lemma_cut_behind_frame(
    before: Seq<u8>,
    payload: Seq<u8>,
    after: Seq<u8>,
    cut: int,
    limit: nat,
)
    requires
        all_ascii(before),
        all_ascii(after),
        frameable(payload),
        before.len() + WINDOWS_SIZE + payload.len() + WINDOWS_SIZE <= cut <= embedded(
            before,
            payload,
            after,
        ).len() <= limit,
    ensures
        fed(
            seq![
                embedded(before, payload, after).take(cut),
                embedded(before, payload, after).skip(cut),
            ],
            limit,
        ) == (Pass {
            lines: text_lines(before).push(frame_line(payload)) + lines_of(after),
            rest: trimmed(pending(after)),
            ascii: true,
        }),
{
    let q = embedded(before, payload, after);
    let first = q.take(cut);
    let second = q.skip(cut);
    let behind = before.len() + WINDOWS_SIZE + payload.len() + WINDOWS_SIZE;
    let sooner = after.take(cut - behind);
    let later = after.skip(cut - behind);
    lemma_fed_two(first, second, limit);
    lemma_parts_cut_behind_frame(before, payload, after, cut);
    assert(Seq::<u8>::empty() + first =~= first);
    lemma_frame_in_text(before, payload, sooner);
    lemma_held_text_is_ascii(sooner);
    lemma_lines_resume(sooner, later);
    lemma_held_text_is_ascii(after);
    assert(after.len() <= q.len());
    assert((text_lines(before).push(frame_line(payload)) + lines_of(sooner)) + lines_of(
        trimmed(pending(sooner)) + later,
    ) =~= text_lines(before).push(frame_line(payload)) + lines_of(after));
}

/// A stream that holds one frame in ASCII text and reaches a processor cut
/// in two, at any index, is dispatched as if it had come in one piece: the
/// lines of the text before the frame, the one line of the frame, and the
/// ended lines of the text behind it, in that order, each exactly once. This
/// holds for every stream that is not longer than the limit.
pub proof fn lemma_frame_cut_in_two(
    before: Seq<u8>,
    payload: Seq<u8>,
    after: Seq<u8>,
    cut: int,
    limit: nat,
)
    requires
        all_ascii(before),
        all_ascii(after),
        frameable(payload),
        0 <= cut <= embedded(before, payload, after).len() <= limit,
    ensures
        fed(
            seq![
                embedded(before, payload, after).take(cut),
                embedded(before, payload, after).skip(cut),
            ],
            limit,
        ) == (Pass {
            lines: text_lines(before).push(frame_line(payload)) + lines_of(after),
            rest: trimmed(pending(after)),
            ascii: true,
        }),
{
    if cut <= before.len() {
        lemma_cut_before_frame(before, payload, after, cut, limit);
    } else if cut < before.len() + WINDOWS_SIZE + payload.len() + WINDOWS_SIZE {
        lemma_cut_in_frame(before, payload, after, cut, limit);
    } else {
        lemma_cut_behind_frame(before, payload, after, cut, limit);
    }
}

/// What a pass of one kind or the other leaves buffered is the end of what
/// was buffered: bytes leave from the front only, and none changes place.
pub proof fn lemma_pass_keeps_the_end(q: Seq<u8>)
    ensures
        exists|k: int| 0 <= k <= q.len() && ascii_pass(q).rest == #[trigger] q.skip(k),
        exists|k: int| 0 <= k <= q.len() && binary_pass(q).rest == #[trigger] q.skip(k),
{
    lemma_rest_of_text(q);
    let end = framed(q, 0).1;
    lemma_framed_end(q, 0);
    let behind = q.skip(end);
    if behind.contains(MARK) {
        assert(binary_pass(q).rest == q.skip(end));
    } else {
        lemma_rest_of_text(behind);
        let k = choose|k: int| 0 <= k <= behind.len() && ascii_pass(behind).rest == behind.skip(k);
        assert(behind.skip(k) =~= q.skip(end + k));
        assert(binary_pass(q).rest == q.skip(end + k));
    }
}

proof fn lemma_rest_of_text(q: Seq<u8>)
    ensures
        exists|k: int| 0 <= k <= q.len() && ascii_pass(q).rest == #[trigger] q.skip(k),
{
    lemma_terminated_bounds(q);
    lemma_trimmed(pending(q));
    let cut = pending(q).len() - trimmed(pending(q)).len();
    assert(pending(q).skip(cut) =~= q.skip(terminated(q) + cut));
    assert(ascii_pass(q).rest == q.skip(terminated(q) + cut));
}

/// The frames end inside the buffer, at or behind the index they were
/// looked for from.
pub proof fn lemma_framed_end(q: Seq<u8>, from: int)
    requires
        0 <= from <= q.len(),
    ensures
        from <= framed(q, from).1 <= q.len(),
    decreases q.len() - from,
{
    let open = next_sentinel(q, from);
    let close = next_sentinel(q, open + WINDOWS_SIZE);
    if 0 <= from <= open && open + WINDOWS_SIZE <= close && close + WINDOWS_SIZE <= q.len() {
        lemma_framed_end(q, close + WINDOWS_SIZE);
    }
}

/// A pass that ends in ASCII mode leaves nothing buffered that could begin a
/// sentinel, as long as the mode before it and the mark of the chunk were
/// right: in ASCII mode nothing buffered held the sentinel's first byte, and
/// the chunk was marked binary if a byte of it was not ASCII.
pub proof fn lemma_ascii_mode_holds_no_mark(
    queue: Seq<u8>,
    ascii: bool,
    chunk: Seq<u8>,
    binary: bool,
    limit: nat,
)
    requires
        ascii ==> !queue.contains(MARK),
        binary == !all_ascii(chunk),
    ensures
        accepted(queue, ascii, chunk, binary, limit).ascii ==> !accepted(
            queue,
            ascii,
            chunk,
            binary,
            limit,
        ).rest.contains(MARK),
{
    let q = queue + chunk;
    lemma_pass_keeps_the_end(q);
    if ascii && !binary {
        let k = choose|k: int| 0 <= k <= q.len() && ascii_pass(q).rest == #[trigger] q.skip(k);
        assert forall|i: int| 0 <= i < q.len() implies q[i] != MARK by {
            if i < queue.len() {
                assert(queue.contains(queue[i]));
            } else {
                assert(chunk[i - queue.len()] < 0x80);
            }
        }
        lemma_end_holds_no_mark(q, k);
    } else {
        let behind = q.skip(framed(q, 0).1);
        if !behind.contains(MARK) {
            lemma_rest_of_text(behind);
            let k = choose|k: int|
                0 <= k <= behind.len() && ascii_pass(behind).rest == #[trigger] behind.skip(k);
            assert forall|i: int| 0 <= i < behind.len() implies behind[i] != MARK by {
                assert(behind.contains(behind[i]));
            }
            lemma_end_holds_no_mark(behind, k);
        }
    }
    assert(!Seq::<u8>::empty().contains(MARK));
}

proof fn lemma_end_holds_no_mark(q: Seq<u8>, k: int)
    requires
        0 <= k <= q.len(),
        forall|i: int| 0 <= i < q.len() ==> q[i] != MARK,
    ensures
        !q.skip(k).contains(MARK),
{
    assert forall|i: int| 0 <= i < q.skip(k).len() implies q.skip(k)[i] != MARK by {
        assert(q.skip(k)[i] == q[k + i]);
    }
}

/// Bytes that hold the sentinel's first byte nowhere are passed over in
/// binary mode exactly as in ASCII mode: how a chunk without that byte is
/// marked makes no difference to what is dispatched.
pub proof fn lemma_binary_pass_of_text(q: Seq<u8>)
    requires
        !q.contains(MARK),
    ensures
        binary_pass(q) == ascii_pass(q),
{
    assert forall|i: int| 0 <= i implies !sentinel_at(q, i) by {
        if i + WINDOWS_SIZE <= q.len() {
            lemma_sentinel_bytes(q, i);
            assert(q.contains(q[i]));
        }
    }
    lemma_next_sentinel_none(q, 0);
    assert(framed(q, 0) == (Seq::<Seq<char>>::empty(), 0int));
    assert(q.skip(0) =~= q);
    assert(Seq::<Seq<char>>::empty() + lines_of(q) =~= lines_of(q));
}

/// The bytes of each chunk of `chunks`.
pub open spec fn payloads(chunks: Seq<RawChunk>) -> Seq<Seq<u8>> {
    chunks.map_values(|c: RawChunk| c.bytes())
}

/// Whether the processor `states[i]` takes the chunk `chunks[i]` and becomes
/// `states[i + 1]` by it.
pub open spec fn taken_at<T, H: Functor<T>>(
    states: Seq<Processor<T, H>>,
    chunks: Seq<RawChunk>,
    i: int,
) -> bool {
    chunks[i].wf() && states[i].feeds(&chunks[i], &states[i + 1])
}

/// Whether `states` are the states of one processor that starts with nothing
/// buffered, in ASCII mode, and takes `chunks` one after the other.
pub open spec fn taken_in_a_row<T, H: Functor<T>>(
    states: Seq<Processor<T, H>>,
    chunks: Seq<RawChunk>,
) -> bool {
    &&& states.len() == chunks.len() + 1
    &&& states[0].buffered() == Seq::<u8>::empty()
    &&& states[0].ascii()
    &&& forall|i: int| 0 <= i < chunks.len() ==> #[trigger] taken_at(states, chunks, i)
}

/// A processor that takes chunks one after the other ends as `fed` says: it
/// has dispatched the lines of all its passes in order, and holds what the
/// last pass left.
pub proof fn lemma_fed_in_a_row<T, H: Functor<T>>(
    states: Seq<Processor<T, H>>,
    chunks: Seq<RawChunk>,
)
    requires
        taken_in_a_row(states, chunks),
    ensures
        states.last().limit() == states[0].limit(),
        states.last().buffered() == fed(payloads(chunks), states[0].limit()).rest,
        states.last().ascii() == fed(payloads(chunks), states[0].limit()).ascii,
        dispatches_all(
            states[0].table(),
            states[0].sink(),
            fed(payloads(chunks), states[0].limit()).lines,
            states.last().table(),
            states.last().sink(),
        ),
    decreases chunks.len(),
{
    if chunks.len() > 0 {
        let n = chunks.len() as int;
        let earlier = chunks.drop_last();
        let reached = states.drop_last();
        assert forall|i: int| 0 <= i < earlier.len() implies #[trigger] taken_at(
            reached,
            earlier,
            i,
        ) by {
            assert(taken_at(states, chunks, i));
        }
        lemma_fed_in_a_row(reached, earlier);
        assert(payloads(chunks).drop_last() =~= payloads(earlier));
        assert(payloads(chunks).last() == chunks[n - 1].bytes());
        assert(taken_at(states, chunks, n - 1));
        assert(reached.last() == states[n - 1]);
        let before = fed(payloads(earlier), states[0].limit());
        let step = accepted(
            before.rest,
            before.ascii,
            chunks[n - 1].bytes(),
            chunks[n - 1].binary(),
            states[0].limit(),
        );
        lemma_dispatches_all_concat(
            states[0].table(),
            states[0].sink(),
            before.lines,
            states[n - 1].table(),
            states[n - 1].sink(),
            step.lines,
            states[n].table(),
            states[n].sink(),
        );
    }
}

/// A stream of ASCII bytes that reaches a processor in chunks, cut anywhere,
/// is dispatched line by line: once the last chunk is taken, every line that
/// the stream ends with a newline has been dispatched exactly once, in the
/// order of the stream and without its padding, and what follows the last
/// newline is held. This holds as long as no line outgrows the limit while
/// it waits for its newline.
pub proof fn lemma_text_is_dispatched_line_by_line<T, H: Functor<T>>(
    states: Seq<Processor<T, H>>,
    chunks: Seq<RawChunk>,
)
    requires
        taken_in_a_row(states, chunks),
        forall|i: int| 0 <= i < chunks.len() ==> !(#[trigger] chunks[i]).binary(),
        forall|k: int|
            0 <= k <= chunks.len() ==> trimmed(
                pending(#[trigger] payloads(chunks).take(k).flatten()),
            ).len() <= states[0].limit(),
    ensures
        dispatches_all(
            states[0].table(),
            states[0].sink(),
            lines_of(payloads(chunks).flatten()),
            states.last().table(),
            states.last().sink(),
        ),
        states.last().buffered() == trimmed(pending(payloads(chunks).flatten())),
        states.last().ascii(),
{
    lemma_fed_in_a_row(states, chunks);
    assert forall|k: int| 0 <= k < payloads(chunks).len() implies all_ascii(
        #[trigger] payloads(chunks)[k],
    ) by {
        assert(taken_at(states, chunks, k));
        assert(!chunks[k].binary());
    }
    lemma_ascii_stream_is_cut_anywhere(payloads(chunks), states[0].limit());
}

/// A key that is in the table when a chunk arrives, as one that was
/// registered before the chunk is, is dispatched to its handler when the
/// chunk brings the matching line: where that line is all that the pass
/// gives, the pass is one run of that handler, and the table is then
/// changed as that run asked.
pub proof fn lemma_registered_key_is_dispatched<T, H: Functor<T>>(
    before: Processor<T, H>,
    key: Seq<char>,
    chunk: RawChunk,
    after: Processor<T, H>,
)
    requires
        before.table().contains_key(key),
        before.feeds(&chunk, &after),
        accepted(
            before.buffered(),
            before.ascii(),
            chunk.bytes(),
            chunk.binary(),
            before.limit(),
        ).lines == seq![key],
    ensures
        exists|asked: FunctorRes<H>|
            #[trigger] before.table()[key].effect(before.sink(), after.sink(), asked)
                && after.table() == mutated(
                before.table(),
                asked.additions(),
                asked.removals(),
            ),
{
    let lines = seq![key];
    assert(lines.drop_last() =~= Seq::<Seq<char>>::empty());
    assert(lines.last() == key);
    let (tm, sm) = choose|tm: Map<Seq<char>, H>, sm: T|
        dispatches_all(before.table(), before.sink(), lines.drop_last(), tm, sm)
            && #[trigger] dispatches(tm, sm, lines.last(), after.table(), after.sink());
    assert(tm == before.table() && sm == before.sink());
}

} // verus!
