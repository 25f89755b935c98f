//! The keystream: a block that a fixed number of rounds of AES-128 derive
//! from a fixed seed, kept until a reset asks for it to be derived again, and
//! handed out one byte at a time.

use openssl::error::ErrorStack;
use vstd::prelude::*;

verus! {

/// The length of one cipher block.
pub const BLOCK: usize = 16;

/// How many times the seed is encrypted to derive the keystream block.
pub const ROUNDS: usize = 1500;

/// The block that the derivation starts from.
pub const SEED: [u8; 16] = [
    0x53, 0x6f, 0x6d, 0x65, 0x20, 0x43, 0x72, 0x79, 0x70, 0x74, 0x6f, 0x20, 0x54, 0x65, 0x78, 0x74,
];

/// The key of every round.
pub const KEY: [u8; 16] = [
    0x2b, 0x7e, 0x15, 0x16, 0x28, 0xae, 0xd2, 0xa6, 0xab, 0xf7, 0x15, 0x88, 0x09, 0xcf, 0x4f, 0x3c,
];

/// The errors that OpenSSL reports.
#[verifier::external_type_specification]
#[verifier::external_body]
pub struct ExErrorStack(ErrorStack);

/// The ciphertext that AES-128 in ECB mode, with padding, gives for `data`
/// under `key`.
pub uninterp spec fn aes_128_ecb(key: Seq<u8>, data: Seq<u8>) -> Seq<u8>;

/// Calls `openssl::symm::encrypt` with the cipher `Cipher::aes_128_ecb()` and
/// no initialisation vector. Believed of it: where it succeeds, the
/// ciphertext depends on the key and the data alone, and is what
/// `aes_128_ecb` names. Nothing is believed of when it succeeds.
#[verifier::external_body]
fn encrypt_block(key: &[u8; 16], data: &[u8; 16]) -> (res: Result<Vec<u8>, ErrorStack>)
    ensures
        res matches Ok(out) ==> out@ == aes_128_ecb(key@, data@),
{
    openssl::symm::encrypt(openssl::symm::Cipher::aes_128_ecb(), key, None, data)
}

/// Why a keystream block could not be derived.
#[derive(Debug, PartialEq, Eq, Clone, Copy)]
pub enum CipherFailure {
    /// The cipher reported an error.
    Refused,
    /// The cipher gave less than one block of ciphertext.
    Short,
}

/// The first block of `ciphertext`, where it holds one.
pub open spec fn head(ciphertext: Seq<u8>) -> Option<Seq<u8>> {
    if ciphertext.len() >= BLOCK {
        Some(ciphertext.take(BLOCK as int))
    } else {
        None
    }
}

/// What `n` rounds make of `block`: each round encrypts the block under
/// `KEY` and keeps the first block of the ciphertext. There is no result once
/// a round gives less than one block.
pub open spec fn rounds(block: Seq<u8>, n: nat) -> Option<Seq<u8>>
    decreases n,
{
    if n == 0 {
        Some(block)
    } else {
        match rounds(block, (n - 1) as nat) {
            Some(b) => head(aes_128_ecb(KEY@, b)),
            None => None,
        }
    }
}

/// The keystream block: `ROUNDS` rounds on `SEED`.
pub open spec fn keystream() -> Option<Seq<u8>> {
    rounds(SEED@, ROUNDS as nat)
}

/// Takes the first block of `ciphertext`, if it holds a whole one.
pub fn first_block(ciphertext: &Vec<u8>) -> (block: Option<[u8; 16]>)
    ensures
        block is Some <==> ciphertext@.len() >= BLOCK,
        block matches Some(b) ==> Some(b@) == head(ciphertext@),
{
    if ciphertext.len() < BLOCK {
        return None;
    }
    let mut block: [u8; 16] = [0; 16];
    let mut i: usize = 0;
    while i < BLOCK
        invariant
            i <= BLOCK <= ciphertext@.len(),
            forall|j: int| 0 <= j < i ==> block@[j] == ciphertext@[j],
        decreases BLOCK - i,
    {
        block[i] = ciphertext[i];
        i = i + 1;
    }
    assert(block@ =~= ciphertext@.take(BLOCK as int));
    Some(block)
}

/// The cache of the keystream block: the block last derived, and whether it
/// has to be derived again before it is used.
pub struct AesBlock {
    recompute: bool,
    data: [u8; 16],
}

impl AesBlock {
    /// Whether the block has to be derived before it is used.
    pub closed spec fn stale(&self) -> bool {
        self.recompute
    }

    /// The block that is held.
    pub closed spec fn cached(&self) -> Seq<u8> {
        self.data@
    }

    /// A cache that holds `data` and will derive the block on first use.
    pub fn new(data: [u8; 16]) -> (res: Self)
        ensures
            res.stale(),
            res.cached() == data@,
    {
        Self { recompute: true, data }
    }
}

/// Gives the keystream block. A stale cache derives it first, and keeps it; a
/// cache that is not stale gives what it holds. Where the derivation fails the
/// cache stays as it was.
pub fn compute_aes(cache: &mut AesBlock) -> (res: Result<[u8; 16], CipherFailure>)
    ensures
        !old(cache).stale() ==> *final(cache) == *old(cache) && (res matches Ok(block) && block@
            == old(cache).cached()),
        old(cache).stale() ==> match res {
            Ok(block) => {
                &&& keystream() == Some(block@)
                &&& !final(cache).stale()
                &&& final(cache).cached() == block@
            },
            Err(CipherFailure::Short) => keystream() is None && *final(cache) == *old(cache),
            Err(CipherFailure::Refused) => *final(cache) == *old(cache),
        },
{
    if !cache.recompute {
        return Ok(cache.data);
    }
    let mut data: [u8; 16] = SEED;
    let mut round: usize = 0;
    while round < ROUNDS
        invariant
            round <= ROUNDS,
            rounds(SEED@, round as nat) == Some(data@),
            *cache == *old(cache),
            old(cache).stale(),
        decreases ROUNDS - round,
    {
        let ciphertext = match encrypt_block(&KEY, &data) {
            Ok(ciphertext) => ciphertext,
            Err(_) => {
                return Err(CipherFailure::Refused);
            },
        };
        match first_block(&ciphertext) {
            Some(block) => {
                data = block;
            },
            None => {
                proof {
                    lemma_rounds_stay_none(SEED@, round as nat + 1, ROUNDS as nat);
                }
                return Err(CipherFailure::Short);
            },
        }
        round = round + 1;
    }
    cache.recompute = false;
    cache.data = data;
    Ok(data)
}

/// Once a round has no result, no later round has one.
pub proof fn lemma_rounds_stay_none(block: Seq<u8>, failed: nat, n: nat)
    requires
        rounds(block, failed) is None,
        failed <= n,
    ensures
        rounds(block, n) is None,
    decreases n,
{
    if failed < n {
        lemma_rounds_stay_none(block, failed, (n - 1) as nat);
    }
}

/// Marks the cache stale, so that the next use derives the block again.
pub fn aes_reset(cache: &mut AesBlock)
    ensures
        final(cache).stale(),
        final(cache).cached() == old(cache).cached(),
{
    cache.recompute = true;
}

/// The position in the block that a counter stands for: itself while it is
/// inside the block, the first position again once it is past the end.
pub open spec fn position(counter: usize) -> usize {
    if counter >= BLOCK {
        0
    } else {
        counter
    }
}

/// Takes the position that `counter` stands for, and moves the counter one
/// past it.
pub fn next_position(counter: &mut usize) -> (at: usize)
    ensures
        at == position(*old(counter)),
        at < BLOCK,
        *final(counter) == at + 1,
{
    let at = if *counter >= BLOCK {
        0
    } else {
        *counter
    };
    *counter = at + 1;
    at
}

/// Gives the byte of the seed to send next: the byte of `SEED` at the position
/// that `counter` stands for.
pub fn plain_send(counter: &mut usize) -> (byte: u8)
    ensures
        byte == SEED@[position(*old(counter)) as int],
        *final(counter) == position(*old(counter)) + 1,
{
    let at = next_position(counter);
    SEED[at]
}

/// Gives the keystream byte to send next: the byte of the keystream block at
/// the position that `counter` stands for. The counter moves on whether or
/// not the block could be had.
pub fn aes_send(cache: &mut AesBlock, counter: &mut usize) -> (res: Result<u8, CipherFailure>)
    ensures
        *final(counter) == position(*old(counter)) + 1,
        !old(cache).stale() ==> res == Ok::<u8, CipherFailure>(
            old(cache).cached()[position(*old(counter)) as int],
        ) && *final(cache) == *old(cache),
        old(cache).stale() ==> match res {
            Ok(byte) => {
                &&& keystream() == Some(final(cache).cached())
                &&& byte == final(cache).cached()[position(*old(counter)) as int]
                &&& !final(cache).stale()
            },
            Err(CipherFailure::Short) => keystream() is None && *final(cache) == *old(cache),
            Err(CipherFailure::Refused) => *final(cache) == *old(cache),
        },
{
    let at = next_position(counter);
    match compute_aes(cache) {
        Ok(block) => Ok(block[at]),
        Err(e) => Err(e),
    }
}

} // verus!
