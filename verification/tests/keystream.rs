use serialcom::keystream::{
    aes_reset, aes_send, compute_aes, first_block, next_position, plain_send, AesBlock, BLOCK,
    KEY, ROUNDS, SEED,
};

/// The keystream block, derived here round by round with a cipher context
/// for each round.
fn expected() -> [u8; 16] {
    let cipher = openssl::cipher::Cipher::aes_128_ecb();
    let mut data = SEED;
    for _ in 0..ROUNDS {
        let mut ctx = openssl::cipher_ctx::CipherCtx::new().unwrap();
        ctx.encrypt_init(Some(cipher), Some(&KEY), None).unwrap();
        let mut ciphertext = vec![];
        ctx.cipher_update_vec(&data, &mut ciphertext).unwrap();
        ctx.cipher_final_vec(&mut ciphertext).unwrap();
        data.copy_from_slice(&ciphertext[0..16]);
    }
    data
}

#[test]
fn test_aes() {
    let mut cache = AesBlock::new(SEED);
    let mut counter = 0;
    let byte = aes_send(&mut cache, &mut counter).unwrap();
    assert_eq!(byte, expected()[0]);
    assert_eq!(counter, 1);
}

#[test]
fn the_seed_is_the_text_it_spells() {
    assert_eq!(&SEED, b"Some Crypto Text");
    assert_eq!(BLOCK, 16);
    assert_eq!(ROUNDS, 1500);
}

#[test]
fn one_round_is_one_block_of_aes() {
    // The first ECB-AES128 example of NIST SP 800-38A, which uses this key.
    let plain = [
        0x6b, 0xc1, 0xbe, 0xe2, 0x2e, 0x40, 0x9f, 0x96, 0xe9, 0x3d, 0x7e, 0x11, 0x73, 0x93, 0x17,
        0x2a,
    ];
    let cipher = [
        0x3a, 0xd7, 0x7b, 0xb4, 0x0d, 0x7a, 0x36, 0x60, 0xa8, 0x9e, 0xca, 0xf3, 0x24, 0x66, 0xef,
        0x97,
    ];
    let out =
        openssl::symm::encrypt(openssl::symm::Cipher::aes_128_ecb(), &KEY, None, &plain).unwrap();
    assert_eq!(first_block(&out), Some(cipher));
}

#[test]
fn the_block_is_derived_once_and_kept() {
    let mut cache = AesBlock::new(SEED);
    let first = compute_aes(&mut cache).unwrap();
    assert_eq!(first, expected());
    assert_ne!(first, SEED);
    let second = compute_aes(&mut cache).unwrap();
    assert_eq!(first, second);
}

#[test]
fn a_cache_that_is_not_the_seed_still_derives_from_the_seed() {
    let mut cache = AesBlock::new([0; 16]);
    assert_eq!(compute_aes(&mut cache).unwrap(), expected());
}

#[test]
fn a_reset_derives_the_same_block_again() {
    let mut cache = AesBlock::new(SEED);
    let first = compute_aes(&mut cache).unwrap();
    aes_reset(&mut cache);
    assert_eq!(compute_aes(&mut cache).unwrap(), first);
}

#[test]
fn the_first_block_needs_sixteen_bytes() {
    assert_eq!(first_block(&vec![1; 15]), None);
    assert_eq!(first_block(&Vec::new()), None);
    let mut long: Vec<u8> = (0..32).collect();
    assert_eq!(
        first_block(&long),
        Some([0, 1, 2, 3, 4, 5, 6, 7, 8, 9, 10, 11, 12, 13, 14, 15])
    );
    long.truncate(16);
    assert_eq!(
        first_block(&long),
        Some([0, 1, 2, 3, 4, 5, 6, 7, 8, 9, 10, 11, 12, 13, 14, 15])
    );
}

#[test]
fn the_position_goes_round_the_block() {
    let mut counter = 0;
    for lap in 0..3 {
        for at in 0..16 {
            assert_eq!(next_position(&mut counter), at, "lap {}", lap);
            assert_eq!(counter, at + 1);
        }
    }
    let mut counter = 16;
    assert_eq!(next_position(&mut counter), 0);
    assert_eq!(counter, 1);
    let mut counter = usize::MAX;
    assert_eq!(next_position(&mut counter), 0);
    assert_eq!(counter, 1);
}

#[test]
fn the_keystream_is_sent_byte_by_byte() {
    let block = expected();
    let mut cache = AesBlock::new(SEED);
    let mut counter = 0;
    for i in 0..40 {
        assert_eq!(aes_send(&mut cache, &mut counter), Ok(block[i % 16]));
    }
}

#[test]
fn the_seed_is_sent_byte_by_byte() {
    let mut counter = 0;
    let mut sent = Vec::new();
    for _ in 0..20 {
        sent.push(plain_send(&mut counter));
    }
    assert_eq!(sent, b"Some Crypto TextSome".to_vec());
}
