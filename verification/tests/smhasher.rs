use std::collections::HashSet;

use hash::maphash;
use hash::maphash::{HashKey, Seed};
use hash::Hash as _;
use hash::Hash64;
use rand::rngs::StdRng;
use rand::{RngCore, SeedableRng};

const HASH_SIZE: usize = 64;

struct MyHashSet {
    key: HashKey,
    seed: Seed,
    m: HashSet<u64>,
    n: usize,
}

impl MyHashSet {
    fn new() -> Self {
        Self {
            key: HashKey::new().expect("[HASH_KEY] rand data"),
            seed: maphash::make_seed().expect("getrandom"),
            m: HashSet::new(),
            n: 0,
        }
    }

    fn add(&mut self, h: u64) {
        self.m.insert(h);
        self.n += 1;
    }

    fn add_bytes(&mut self, x: &[u8]) {
        self.add(bytes_hash(self.key, self.seed, x));
    }

    fn check(&self) {
        const SLOP: f64 = 10.0;

        let collisions = (self.n - self.m.len()) as f64;
        let pairs = (self.n as i64) * ((self.n - 1) as i64) / 2;
        let expected = (pairs as f64) / 2.0f64.powi(HASH_SIZE as i32);
        let stddev = expected.sqrt();

        assert!(
            collisions <= (expected + SLOP * (3.0 * stddev + 1.0)),
            "unexpected number of collisions: got={} mean={} stddev={}",
            collisions,
            expected,
            stddev
        );
    }
}

fn bytes_hash(key: HashKey, seed: Seed, b: &[u8]) -> u64 {
    let mut h = maphash::Hash::with_seed(key, seed);
    h.write(b);
    h.sum64()
}

#[test]
fn appended_zeros() {
    let s = {
        let ss = b"hello";
        let mut v = Vec::with_capacity(ss.len() + 255);
        v.extend_from_slice(ss);
        while v.len() < v.capacity() {
            v.push(0);
        }
        v
    };

    let mut h = MyHashSet::new();
    for i in 0..s.len() {
        h.add_bytes(&s[..i]);
    }
    h.check();
}

#[test]
fn sanity() {
    let mut r = StdRng::seed_from_u64(1234);
    let key = HashKey::new().expect("[HASH_KEY] rand data");
    let seed = maphash::make_seed().expect("getrandom");

    const REP: usize = 10;
    const KEYMAX: usize = 128;
    const PAD: usize = 16;
    const OFFMAX: usize = 16;

    for _k in 0..REP {
        for n in 0..KEYMAX {
            for i in 0..OFFMAX {
                let mut b = vec![0u8; KEYMAX + OFFMAX + 2 * PAD];
                let mut c = vec![0u8; KEYMAX + OFFMAX + 2 * PAD];

                r.fill_bytes(&mut b);
                r.fill_bytes(&mut c);

                let cc = &mut c[(PAD + i)..(PAD + i + n)];
                let bb = &b[PAD..(PAD + n)];
                maphash::copy(cc, bb);

                assert_eq!(
                    bytes_hash(key, seed, bb),
                    bytes_hash(key, seed, cc),
                    "hash depends on bytes outside key"
                );
            }
        }
    }
}

#[test]
fn sanity_after_other_writes() {
    let mut r = StdRng::seed_from_u64(4321);
    let key = HashKey::new().expect("[HASH_KEY] rand data");
    let seed = maphash::make_seed().expect("getrandom");
    for n in 0..130usize {
        let mut data = vec![0u8; n];
        r.fill_bytes(&mut data);
        let mut noise = vec![0u8; 200];
        r.fill_bytes(&mut noise);
        let mut h = maphash::Hash::with_seed(key, seed);
        h.write(&noise);
        h.reset();
        h.write(&data);
        assert_eq!(h.sum64(), bytes_hash(key, seed, &data), "length {n}");
    }
}

#[test]
fn small_keys() {
    let mut h = MyHashSet::new();
    let mut b = [0u8; 3];
    for i in 0u8..255 {
        b[0] = i;
        h.add_bytes(&b[..1]);
        for j in 0u8..=255 {
            b[1] = j;
            h.add_bytes(&b[..2]);
        }
    }
    h.check();
}

#[test]
fn zeros() {
    const N: usize = 1024;

    let mut h = MyHashSet::new();
    let b = [0u8; N];
    for i in 0..N {
        h.add_bytes(&b[..i]);
    }
    h.check();
}
