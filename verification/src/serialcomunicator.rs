//! The processor: the state that turns classified chunks of received bytes
//! into dispatched lines, and the classification that the reader gives each
//! chunk before it hands it over.

use crate::actions::{dispatches_all, lemma_dispatches_all_concat, texts, Actions, Functor};
use crate::framing::{
    ascii_pass, binary_pass, flush_lines, take_frames, take_lines, text_lines, Pass, MARK,
};
use crate::stream::lemma_ascii_mode_holds_no_mark;
use std::collections::VecDeque;
use vstd::prelude::*;

verus! {

/// How many bytes one chunk can hold.
pub const CHUNK_SIZE: usize = 400;

/// The most bytes that a processor can be told to keep buffered.
pub const LIMIT_MAX: usize = 0x4000_0000;

/// What the reader found a chunk to hold, with the number of bytes that were
/// read into it: `ASCII` where every one of them is below 0x80, `BYTES`
/// otherwise.
#[derive(Debug, Clone, Copy, PartialEq, Eq)]
pub enum BuffType {
    ASCII(usize),
    BYTES(usize),
}

/// One read from the source: the buffer, and what it was found to hold.
pub struct RawChunk {
    buff: [u8; 400],
    kind: BuffType,
}

/// Whether every byte of `bytes` is below 0x80.
pub open spec fn all_ascii(bytes: Seq<u8>) -> bool {
    forall|i: int| 0 <= i < bytes.len() ==> bytes[i] < 0x80
}

impl RawChunk {
    /// How many bytes of the buffer were read.
    pub closed spec fn count(&self) -> nat {
        match self.kind {
            BuffType::ASCII(n) => n as nat,
            BuffType::BYTES(n) => n as nat,
        }
    }

    /// The bytes that were read.
    pub closed spec fn bytes(&self) -> Seq<u8> {
        self.buff@.take(self.count() as int)
    }

    /// Whether the chunk is marked as holding binary data.
    pub closed spec fn binary(&self) -> bool {
        self.kind is BYTES
    }

    /// A chunk holds at least one byte and no more than fit, and is marked as
    /// binary exactly if a byte of it is not ASCII.
    pub open spec fn wf(&self) -> bool {
        &&& 0 < self.count() <= CHUNK_SIZE
        &&& self.binary() == !all_ascii(self.bytes())
    }

    /// Classifies the first `n` bytes of `buff`, as the reader does after each
    /// read. An empty read gives no chunk, and neither does a count that the
    /// buffer cannot hold.
    pub fn classify(buff: [u8; 400], n: usize) -> (chunk: Option<RawChunk>)
        ensures
            chunk is Some <==> 0 < n <= CHUNK_SIZE,
            chunk matches Some(c) ==> c.wf() && c.bytes() == buff@.take(n as int) && c.binary()
                == !all_ascii(buff@.take(n as int)),
    {
        if n == 0 || n > CHUNK_SIZE {
            return None;
        }
        let mut i: usize = 0;
        while i < n
            invariant
                i <= n <= CHUNK_SIZE,
                all_ascii(buff@.take(i as int)),
            decreases n - i,
        {
            if buff[i] >= 0x80 {
                assert(buff@.take(n as int)[i as int] >= 0x80);
                return Some(RawChunk { buff, kind: BuffType::BYTES(n) });
            }
            i = i + 1;
        }
        Some(RawChunk { buff, kind: BuffType::ASCII(n) })
    }

    /// What the chunk was found to hold.
    pub fn kind(&self) -> (kind: BuffType)
        ensures
            (kind is BYTES) == self.binary(),
            kind matches BuffType::ASCII(n) ==> n == self.count(),
            kind matches BuffType::BYTES(n) ==> n == self.count(),
    {
        self.kind
    }
}

/// One pass in ASCII mode: takes the ended lines out of `dequeue`, then
/// dispatches what `lines` held and those lines, in that order.
pub fn process_ascii_lines<T, H: Functor<T>>(
    dequeue: &mut VecDeque<u8>,
    lines: &mut Vec<String>,
    actions: Actions<T, H>,
) -> (res: Actions<T, H>)
    ensures
        final(dequeue)@ == ascii_pass(old(dequeue)@).rest,
        final(lines)@.len() == 0,
        dispatches_all(
            actions.table(),
            actions.sink(),
            texts(old(lines)@) + ascii_pass(old(dequeue)@).lines,
            res.table(),
            res.sink(),
        ),
{
    take_lines(dequeue, lines);
    actions.apply_all(lines)
}

/// One pass in binary mode: takes the complete frames out of `dequeue`, each
/// as one base64 line behind the lines of the text before it; goes back to
/// ASCII mode, and takes the ended lines as well, once no byte that stays
/// could begin a sentinel; then dispatches what `lines` held and those lines,
/// in that order.
pub fn process_not_ascii_lines<T, H: Functor<T>>(
    dequeue: &mut VecDeque<u8>,
    lines: &mut Vec<String>,
    ascii_mode: &mut bool,
    actions: Actions<T, H>,
) -> (res: Actions<T, H>)
    requires
        old(dequeue)@.len() / 3 * 4 + 4 <= isize::MAX,
    ensures
        final(dequeue)@ == binary_pass(old(dequeue)@).rest,
        *final(ascii_mode) == binary_pass(old(dequeue)@).ascii,
        final(lines)@.len() == 0,
        dispatches_all(
            actions.table(),
            actions.sink(),
            texts(old(lines)@) + binary_pass(old(dequeue)@).lines,
            res.table(),
            res.sink(),
        ),
{
    take_frames(dequeue, lines, ascii_mode);
    actions.apply_all(lines)
}

/// What a processor with `queue` buffered, in ASCII mode or not, makes of one
/// more chunk. The chunk is appended; a binary chunk forces binary mode; one
/// pass is made in the mode then current. If more than `limit` bytes stay
/// buffered after the pass, they all leave as text, the last line ended by
/// force, and the mode is ASCII again.
pub open spec fn accepted(
    queue: Seq<u8>,
    ascii: bool,
    chunk: Seq<u8>,
    binary: bool,
    limit: nat,
) -> Pass {
    let pass = if ascii && !binary {
        ascii_pass(queue + chunk)
    } else {
        binary_pass(queue + chunk)
    };
    if pass.rest.len() <= limit {
        pass
    } else {
        Pass { lines: pass.lines + text_lines(pass.rest), rest: Seq::empty(), ascii: true }
    }
}

/// The processor's state: the bytes received and not yet consumed, the mode,
/// the bound on what may stay buffered, and the table that lines are
/// dispatched through.
#[verifier::reject_recursive_types(H)]
pub struct Processor<T, H> {
    dequeue: VecDeque<u8>,
    ascii_mode: bool,
    limit: usize,
    actions: Actions<T, H>,
}

impl<T, H: Functor<T>> Processor<T, H> {
    /// The bytes that are buffered, oldest first.
    pub closed spec fn buffered(&self) -> Seq<u8> {
        self.dequeue@
    }

    /// Whether the processor is in ASCII mode.
    pub closed spec fn ascii(&self) -> bool {
        self.ascii_mode
    }

    /// The most bytes that stay buffered between two chunks.
    pub closed spec fn limit(&self) -> nat {
        self.limit as nat
    }

    /// The action table.
    pub closed spec fn table(&self) -> Map<Seq<char>, H> {
        self.actions.table()
    }

    /// The sink.
    pub closed spec fn sink(&self) -> T {
        self.actions.sink()
    }

    /// What holds of a processor between two chunks: no more is buffered than
    /// the limit allows, the limit is no more than `LIMIT_MAX`, and in ASCII
    /// mode no byte that is buffered could begin a sentinel.
    pub open spec fn inv(&self) -> bool {
        &&& self.limit() <= LIMIT_MAX
        &&& self.buffered().len() <= self.limit()
        &&& self.ascii() ==> !self.buffered().contains(MARK)
    }

    /// Whether `after` is what this processor becomes by taking `chunk`: the
    /// chunk is accepted as `accepted` says, what stays buffered and the mode
    /// are those of the pass, and the lines of the pass have been dispatched
    /// in order.
    pub open spec fn feeds(&self, chunk: &RawChunk, after: &Self) -> bool {
        let pass = accepted(
            self.buffered(),
            self.ascii(),
            chunk.bytes(),
            chunk.binary(),
            self.limit(),
        );
        &&& after.limit() == self.limit()
        &&& after.buffered() == pass.rest
        &&& after.ascii() == pass.ascii
        &&& dispatches_all(self.table(), self.sink(), pass.lines, after.table(), after.sink())
    }

    /// A processor with nothing buffered, in ASCII mode, that dispatches
    /// through `actions` and keeps at most `limit` bytes buffered, or
    /// `LIMIT_MAX` if `limit` is more than that.
    pub fn new(actions: Actions<T, H>, limit: usize) -> (res: Self)
        ensures
            res.inv(),
            res.buffered() == Seq::<u8>::empty(),
            res.ascii(),
            res.limit() == if limit <= LIMIT_MAX {
                limit
            } else {
                LIMIT_MAX
            },
            res.table() == actions.table(),
            res.sink() == actions.sink(),
    {
        let limit = if limit <= LIMIT_MAX {
            limit
        } else {
            LIMIT_MAX
        };
        Processor { dequeue: VecDeque::new(), ascii_mode: true, limit, actions }
    }

    /// Enters `func` under `key`, as a registration that arrived between two
    /// chunks: a line that matches `key` is dispatched to `func` from the next
    /// chunk on.
    pub fn register(&mut self, key: String, func: Box<H>)
        ensures
            final(self).table() == old(self).table().insert(key@, *func),
            final(self).sink() == old(self).sink(),
            final(self).buffered() == old(self).buffered(),
            final(self).ascii() == old(self).ascii(),
            final(self).limit() == old(self).limit(),
    {
        self.actions.add_box(key, func);
    }

    /// Takes one chunk: appends its bytes, makes one pass in the mode that the
    /// chunk leaves the processor in, and dispatches the lines of that pass in
    /// order.
    pub fn feed(self, chunk: &RawChunk) -> (res: Self)
        requires
            self.inv(),
            chunk.wf(),
        ensures
            res.inv(),
            self.feeds(chunk, &res),
    {
        proof {
            lemma_ascii_mode_holds_no_mark(
                self.buffered(),
                self.ascii(),
                chunk.bytes(),
                chunk.binary(),
                self.limit(),
            );
        }
        let Processor { mut dequeue, mut ascii_mode, limit, mut actions } = self;
        let n = match chunk.kind {
            BuffType::ASCII(n) => n,
            BuffType::BYTES(n) => {
                ascii_mode = false;
                n
            },
        };
        let mut i: usize = 0;
        while i < n
            invariant
                i <= n <= CHUNK_SIZE,
                n == chunk.count(),
                dequeue@ == self.dequeue@ + chunk.buff@.take(i as int),
            decreases n - i,
        {
            dequeue.push_back(chunk.buff[i]);
            proof {
                assert(chunk.buff@.take(i + 1) =~= chunk.buff@.take(i as int).push(
                    chunk.buff@[i as int],
                ));
            }
            i = i + 1;
        }
        let ghost queue = dequeue@;
        let ghost pass = if ascii_mode {
            ascii_pass(queue)
        } else {
            binary_pass(queue)
        };
        let mut lines: Vec<String> = Vec::new();
        proof {
            assert(texts(lines@) + pass.lines =~= pass.lines);
        }
        if ascii_mode {
            actions = process_ascii_lines(&mut dequeue, &mut lines, actions);
        } else {
            actions = process_not_ascii_lines(&mut dequeue, &mut lines, &mut ascii_mode, actions);
        }
        if dequeue.len() > limit {
            let ghost tm = actions.table();
            let ghost sm = actions.sink();
            flush_lines(&mut dequeue, &mut lines);
            ascii_mode = true;
            actions = actions.apply_all(&mut lines);
            proof {
                assert(texts(Seq::<String>::empty()) + text_lines(pass.rest) =~= text_lines(
                    pass.rest,
                ));
                lemma_dispatches_all_concat(
                    self.table(),
                    self.sink(),
                    pass.lines,
                    tm,
                    sm,
                    text_lines(pass.rest),
                    actions.table(),
                    actions.sink(),
                );
            }
        }
        Processor { dequeue, ascii_mode, limit, actions }
    }

    /// How many bytes are buffered.
    pub fn buffered_len(&self) -> (n: usize)
        ensures
            n == self.buffered().len(),
    {
        self.dequeue.len()
    }

    /// Whether the processor is in ASCII mode.
    pub fn ascii_mode(&self) -> (ascii: bool)
        ensures
            ascii == self.ascii(),
    {
        self.ascii_mode
    }

    /// The action table.
    pub fn actions(&self) -> (actions: &Actions<T, H>)
        ensures
            actions.table() == self.table(),
            actions.sink() == self.sink(),
    {
        &self.actions
    }

    /// Gives the action table back.
    pub fn into_actions(self) -> (actions: Actions<T, H>)
        ensures
            actions.table() == self.table(),
            actions.sink() == self.sink(),
    {
        self.actions
    }
}

} // verus!
