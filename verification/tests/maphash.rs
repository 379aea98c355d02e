use std::collections::HashSet;

use hash::maphash;
use hash::maphash::{memhash, HashKey, Seed};
use hash::Hash as _;
use hash::Hash64;

fn process_key() -> HashKey {
    HashKey::new().expect("[HASH_KEY] rand data")
}

fn new_hash(key: HashKey) -> maphash::Hash {
    maphash::Hash::new(key).expect("getrandom")
}

fn fixed_key() -> HashKey {
    HashKey::from_words([0x0123456789abcdef, 2, 3, 4])
}

fn fixed_seed() -> Seed {
    Seed::from_word(0x9e3779b97f4a7c15).expect("a word that is not zero")
}

fn pattern(n: usize) -> Vec<u8> {
    (0..n).map(|i| (i * 7 + 3) as u8).collect()
}

#[test]
fn hash_bytes_vs_string() {
    let s = "foo";
    let b = s.as_bytes();

    let key = process_key();
    let mut h1 = new_hash(key);
    let mut h2 = new_hash(key);
    h2.set_seed(*h1.seed());

    let n1 = h1.write_string(s);
    assert_eq!(s.len(), n1, "write_string consumes wrong length");

    let n2 = h2.write(b);
    assert_eq!(b.len(), n2, "write consumes wrong length");

    assert_eq!(
        h1.sum64(),
        h2.sum64(),
        "hash of string and bytes not identical"
    );
}

#[test]
fn hash_grouping() {
    let b = {
        let s = "foo";
        const N: usize = 100;
        let mut out = String::with_capacity(s.len() * N);
        for _i in 0..N {
            out.push_str(s);
        }
        out
    };

    let key = process_key();
    let mut hh = Vec::with_capacity(7);
    for _i in 0..hh.capacity() {
        hh.push(new_hash(key));
    }
    let seed0 = *hh[0].seed();
    for h in hh.iter_mut().skip(1) {
        h.set_seed(seed0);
    }
    hh[0].write(b.as_bytes());
    hh[1].write_string(&b);

    let must_write_byte = |h: &mut maphash::Hash, b: u8| {
        h.write_byte(b);
    };
    let must_write_single_byte = |h: &mut maphash::Hash, b: u8| {
        h.write(&[b]);
    };
    let must_write_string_single_byte = |h: &mut maphash::Hash, b: u8| {
        let mut s = String::with_capacity(1);
        s.push(b as char);
        h.write_string(&s);
    };

    for (i, &x) in b.as_bytes().iter().enumerate() {
        must_write_byte(&mut hh[2], x);
        must_write_single_byte(&mut hh[3], x);

        if i == 0 {
            must_write_byte(&mut hh[4], x);
        } else {
            must_write_single_byte(&mut hh[4], x);
        }

        must_write_string_single_byte(&mut hh[5], x);
        if i == 0 {
            must_write_byte(&mut hh[6], x);
        } else {
            must_write_single_byte(&mut hh[6], x);
        }
    }

    let sum = hh[0].sum64();
    for (i, h) in hh.iter_mut().enumerate().skip(1) {
        assert_eq!(sum, h.sum64(), "hash {i} identical to a single Write");
    }
}

#[test]
fn hash_high_bytes() {
    const N: usize = 10;
    let key = process_key();
    let mut m = HashSet::<u64>::new();
    for _i in 0..N {
        let mut h = new_hash(key);
        h.write_string("foo");
        m.insert(h.sum64() >> 32);
    }

    assert!(
        m.len() >= N / 2,
        "from {N} seeds, not enough different hashes"
    );
}

#[test]
fn repeat() {
    let key = process_key();
    let mut h1 = new_hash(key);
    h1.write_string("testing");
    let sum1 = h1.sum64();

    h1.reset();
    h1.write_string("testing");
    let sum2 = h1.sum64();

    assert_eq!(sum1, sum2, "different sum after reseting");

    let mut h2 = new_hash(key);
    h2.set_seed(*h1.seed());
    h2.write_string("testing");
    let sum3 = h2.sum64();

    assert_eq!(sum1, sum3, "different sum on the same seed");
}

#[test]
fn seed_from_flush() {
    let b = [0u8; 65];

    let key = process_key();
    let mut h1 = new_hash(key);
    h1.write(&b);
    let x = h1.sum64();

    let mut h2 = new_hash(key);
    h2.set_seed(*h1.seed());
    h2.write(&b);
    let y = h2.sum64();

    assert_eq!(x, y, "hashes don't match");
}

#[test]
fn seed_from_reset() {
    let key = process_key();
    let mut h1 = new_hash(key);
    h1.write_string("foo");
    h1.reset();
    h1.write_string("foo");
    let x = h1.sum64();

    let mut h2 = new_hash(key);
    h2.set_seed(*h1.seed());
    h2.write_string("foo");
    let y = h2.sum64();

    assert_eq!(x, y, "hashes don't match");
}

#[test]
fn seed_from_sum64() {
    let key = process_key();
    let mut h1 = new_hash(key);
    h1.write_string("foo");
    let x = h1.sum64();

    let mut h2 = new_hash(key);
    h2.set_seed(*h1.seed());
    h2.write_string("foo");
    let y = h2.sum64();

    assert_eq!(x, y, "hashes don't match");
}

#[test]
fn seeded_hash() {
    let key = process_key();
    let s = maphash::make_seed().expect("getrandom");
    let mut m = HashSet::<u64>::new();

    let expect = 1000usize;
    for _i in 0..expect {
        let mut h = new_hash(key);
        h.set_seed(s);
        m.insert(h.sum64());
    }

    assert_eq!(m.len(), 1, "seeded hash is random",);
}

#[test]
fn unseeded_hash() {
    let key = process_key();
    let mut m = HashSet::<u64>::new();

    let expect = 1000usize;
    for _i in 0..expect {
        let mut h = new_hash(key);
        m.insert(h.sum64());
    }

    assert!(
        m.len() >= 900,
        "empty hash not sufficiently random: expect {}, got {}",
        expect,
        m.len()
    );
}

#[test]
fn different_seeds_give_different_hashes() {
    let key = process_key();
    let mut m = HashSet::<u64>::new();
    for _i in 0..1000 {
        let mut h = new_hash(key);
        h.write_string("foo");
        m.insert(h.sum64());
    }
    assert!(m.len() >= 900);
}

#[test]
fn seeds_are_random_and_never_zero() {
    let mut m = HashSet::<u64>::new();
    let key = fixed_key();
    for _i in 0..100 {
        let s = Seed::new().expect("getrandom");
        let mut h = maphash::Hash::with_seed(key, s);
        // the digest of nothing is the seed itself
        let word = h.sum64();
        assert_ne!(word, 0);
        m.insert(word);
    }
    assert!(m.len() >= 90);
    assert!(Seed::from_word(0).is_none());
    assert!(Seed::from_word(1).is_some());
}

#[test]
fn keys_are_random() {
    let seed = fixed_seed();
    let mut m = HashSet::<u64>::new();
    for _i in 0..100 {
        let mut h = maphash::Hash::with_seed(process_key(), seed);
        h.write_string("foo");
        m.insert(h.sum64());
    }
    assert!(m.len() >= 90);
}

#[test]
fn key_from_bytes_reads_words_most_significant_byte_first() {
    let mut b = [0u8; 32];
    for (i, x) in b.iter_mut().enumerate() {
        *x = i as u8 + 1;
    }
    let key = HashKey::from_bytes(&b);
    assert_eq!(key.first(), 0x0102030405060708);
    assert_eq!(maphash::be_word(&b, 8), 0x090a0b0c0d0e0f10);
    assert_eq!(maphash::be_word(&b, 24), 0x191a1b1c1d1e1f20);
    let same = HashKey::from_words([
        0x0102030405060708,
        0x090a0b0c0d0e0f10,
        0x1112131415161718,
        0x191a1b1c1d1e1f20,
    ]);
    let seed = fixed_seed();
    assert_eq!(
        memhash::sum(b"hello", 5, &key),
        memhash::sum(b"hello", 5, &same)
    );
    let mut h1 = maphash::Hash::with_seed(key, seed);
    let mut h2 = maphash::Hash::with_seed(same, seed);
    h1.write_string("hello");
    h2.write_string("hello");
    assert_eq!(h1.sum64(), h2.sum64());
}

#[test]
fn mix_folds_the_wide_product() {
    assert_eq!(memhash::mix(0, 5), 0);
    assert_eq!(memhash::mix(1, 5), 5);
    assert_eq!(memhash::mix(1 << 63, 2), 1);
    assert_eq!(
        memhash::mix(0x123456789abcdef0, 0xfedcba9876543210),
        0x317228f48165bb22
    );
}

#[test]
fn words_are_read_least_significant_byte_first() {
    let b = [1u8, 2, 3, 4, 5, 6, 7, 8, 9];
    assert_eq!(memhash::r4(&b, 0), 0x04030201);
    assert_eq!(memhash::r4(&b, 5), 0x09080706);
    assert_eq!(memhash::r8(&b, 0), 0x0807060504030201);
    assert_eq!(memhash::r8(&b, 1), 0x0908070605040302);
}

#[test]
fn memhash_known_values() {
    let key = fixed_key();
    let seed = 0x9e3779b97f4a7c15u64;
    let expected: [(usize, u64); 20] = [
        (0, 0x3f6221ba8e5cd5d5),
        (1, 0x7cb343ea0d61645c),
        (2, 0x5155d69de2daa7f5),
        (3, 0xbd63e3b22b6563b5),
        (4, 0xb749fe962f825135),
        (5, 0xa1edd4b86dcffa93),
        (7, 0x9a457128c731e418),
        (8, 0x365882fbcce7006c),
        (9, 0x49d95bd97aedf9b3),
        (16, 0x52124088ef250b9d),
        (17, 0xae5c80b6e87fdd35),
        (48, 0x0bb86560b51de690),
        (49, 0x9032c2f934234599),
        (64, 0xcb538aaa0a724b26),
        (100, 0x832842a995ea7eb4),
        (127, 0xb1d78ce7e217e6b9),
        (128, 0xeb37ac37851e5b25),
        (129, 0x67fcfce21199993e),
        (256, 0x789c6c6f4d1340d1),
        (300, 0x7107e724c01a6e06),
    ];
    for (n, want) in expected {
        assert_eq!(memhash::sum(&pattern(n), seed, &key), want, "length {n}");
    }
}

#[test]
fn rthash_takes_the_first_bytes() {
    let key = fixed_key();
    let seed = 0x9e3779b97f4a7c15u64;
    let data = pattern(300);
    assert_eq!(maphash::rthash(&data, 0, seed, &key), seed);
    assert_eq!(maphash::rthash(&data, 9, seed, &key), 0x49d95bd97aedf9b3);
    assert_eq!(maphash::rthash(&data, 128, seed, &key), 0xeb37ac37851e5b25);
    assert_eq!(maphash::rthash(&data, 300, seed, &key), 0x7107e724c01a6e06);
}

#[test]
fn digest_known_values() {
    let key = fixed_key();
    let expected: [(usize, u64); 8] = [
        (0, 0x9e3779b97f4a7c15),
        (1, 0x7cb343ea0d61645c),
        (16, 0x52124088ef250b9d),
        (127, 0xb1d78ce7e217e6b9),
        (128, 0xeb37ac37851e5b25),
        (129, 0x59be11e7a3c4d54d),
        (256, 0xcbd978b97ed9fec1),
        (300, 0x6d6fc438707fe62f),
    ];
    for (n, want) in expected {
        let mut h = maphash::Hash::with_seed(key, fixed_seed());
        assert_eq!(h.write(&pattern(n)), n);
        assert_eq!(h.sum64(), want, "length {n}");
        assert_eq!(h.sum64(), want, "second sum, length {n}");
        assert_eq!(h.sum(None), want.to_le_bytes().to_vec());
        assert_eq!(h.sum(Some(vec![1, 2]))[2..], want.to_le_bytes());
    }
}

#[test]
fn digest_chunks_do_not_matter() {
    let key = fixed_key();
    let data = pattern(300);
    let want = 0x6d6fc438707fe62fu64;
    for cut in [0usize, 1, 100, 127, 128, 129, 172, 255, 256, 257, 299, 300] {
        let mut h = maphash::Hash::with_seed(key, fixed_seed());
        h.write(&data[..cut]);
        assert_eq!(h.write(&data[cut..]), 300 - cut);
        assert_eq!(h.sum64(), want, "cut at {cut}");
    }
    for step in [1usize, 3, 64, 127, 128, 129] {
        let mut h = maphash::Hash::with_seed(key, fixed_seed());
        for piece in data.chunks(step) {
            h.write(piece);
            h.write(&[]);
        }
        assert_eq!(h.sum64(), want, "pieces of {step}");
    }
    let mut h = maphash::Hash::with_seed(key, fixed_seed());
    for b in data.iter() {
        h.write_byte(*b);
    }
    assert_eq!(h.sum64(), want);
    let mut h = maphash::Hash::with_seed(key, fixed_seed());
    for (i, b) in data.iter().enumerate() {
        if i % 2 == 0 {
            h.write_byte(*b);
        } else {
            h.write(&[*b]);
        }
    }
    assert_eq!(h.sum64(), want);
}

#[test]
fn digest_after_reset_and_set_seed() {
    let key = fixed_key();
    let data = pattern(129);
    let mut h = maphash::Hash::with_seed(key, fixed_seed());
    assert_eq!(h.size(), 8);
    assert_eq!(h.block_size(), 128);
    h.write(&pattern(300));
    h.reset();
    h.write(&data);
    assert_eq!(h.sum64(), 0x59be11e7a3c4d54d);
    let other = Seed::from_word(77).expect("a word that is not zero");
    h.set_seed(other);
    assert_eq!(h.sum64(), 77);
    h.write(&data);
    let with_other = h.sum64();
    assert_ne!(with_other, 0x59be11e7a3c4d54d);
    h.set_seed(fixed_seed());
    h.write(&data);
    assert_eq!(h.sum64(), 0x59be11e7a3c4d54d);
    let mut again = maphash::Hash::with_seed(key, *h.seed());
    again.write(&data);
    assert_eq!(again.sum64(), 0x59be11e7a3c4d54d);
}

#[test]
fn copy_takes_the_shorter_length() {
    let mut dst = [0u8; 4];
    assert_eq!(maphash::copy(&mut dst, &[1, 2, 3, 4, 5, 6]), 4);
    assert_eq!(dst, [1, 2, 3, 4]);
    assert_eq!(maphash::copy(&mut dst, &[9, 8]), 2);
    assert_eq!(dst, [9, 8, 3, 4]);
    assert_eq!(maphash::copy(&mut dst, &[]), 0);
    assert_eq!(dst, [9, 8, 3, 4]);
    let mut none: [u8; 0] = [];
    assert_eq!(maphash::copy(&mut none, &[1]), 0);
}
