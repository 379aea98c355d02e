use hash::crc64;
use hash::crc64::{ECMA, ISO};
use hash::Hash as _;
use hash::Hash64;

struct Test {
    out_iso: u64,
    out_ecma: u64,
    input: &'static str,
}

impl Test {
    fn new(out_iso: u64, out_ecma: u64, input: &'static str) -> Self {
        Self {
            out_iso,
            out_ecma,
            input,
        }
    }
}

fn golden_test_vector() -> Vec<Test> {
    vec![
        Test::new(0x0, 0x0, ""),
        Test::new(0x3420000000000000, 0x330284772e652b05, "a"),
        Test::new(0x36c4200000000000, 0xbc6573200e84b046, "ab"),
        Test::new(0x3776c42000000000, 0x2cd8094a1a277627, "abc"),
        Test::new(0x336776c420000000, 0x3c9d28596e5960ba, "abcd"),
        Test::new(0x32d36776c4200000, 0x40bdf58fb0895f2, "abcde"),
        Test::new(0x3002d36776c42000, 0xd08e9f8545a700f4, "abcdef"),
        Test::new(0x31b002d36776c420, 0xec20a3a8cc710e66, "abcdefg"),
        Test::new(0xe21b002d36776c4, 0x67b4f30a647a0c59, "abcdefgh"),
        Test::new(0x8b6e21b002d36776, 0x9966f6c89d56ef8e, "abcdefghi"),
        Test::new(0x7f5b6e21b002d367, 0x32093a2ecd5773f4, "abcdefghij"),
        Test::new(0x8ec0e7c835bf9cdf, 0x8a0825223ea6d221, "Discard medicine more than two years old."),
        Test::new(0xc7db1759e2be5ab4, 0x8562c0ac2ab9a00d, "He who has a shady past knows that nice guys finish last."),
        Test::new(0xfbf9d9603a6fa020, 0x3ee2a39c083f38b4, "I wouldn't marry him with a ten foot pole."),
        Test::new(0xeafc4211a6daa0ef, 0x1f603830353e518a, "Free! Free!/A trip/to Mars/for 900/empty jars/Burma Shave"),
        Test::new(0x3e05b21c7a4dc4da, 0x2fd681d7b2421fd, "The days of the digital watch are numbered.  -Tom Stoppard"),
        Test::new(0x5255866ad6ef28a6, 0x790ef2b16a745a41, "Nepal premier won't resign."),
        Test::new(0x8a79895be1e9c361, 0x3ef8f06daccdcddf, "For every action there is an equal and opposite government program."),
        Test::new(0x8878963a649d4916, 0x49e41b2660b106d, "His money is twice tainted: 'taint yours and 'taint mine."),
        Test::new(0xa7b9d53ea87eb82f, 0x561cc0cfa235ac68, "There is no reason for any individual to have a computer in their home. -Ken Olsen, 1977"),
        Test::new(0xdb6805c0966a2f9c, 0xd4fe9ef082e69f59, "It's a tiny change to the code and not completely disgusting. - Bob Manchek"),
        Test::new(0xf3553c65dacdadd2, 0xe3b5e46cd8d63a4d, "size:  a.out:  bad magic"),
        Test::new(0x9d5e034087a676b9, 0x865aaf6b94f2a051, "The major problem is with sendmail.  -Mark Horton"),
        Test::new(0xa6db2d7f8da96417, 0x7eca10d2f8136eb4, "Give me a rock, paper and scissors and I will move the world.  CCFestoon"),
        Test::new(0x325e00cd2fe819f9, 0xd7dd118c98e98727, "If the enemy is within range, then so are you."),
        Test::new(0x88c6600ce58ae4c6, 0x70fb33c119c29318, "It's well we cannot hear the screams/That we create in others' dreams."),
        Test::new(0x28c4a3f3b769e078, 0x57c891e39a97d9b7, "You remind me of a TV show, but that's all right: I watch it anyway."),
        Test::new(0xa698a34c9d9f1dca, 0xa1f46ba20ad06eb7, "C is as portable as Stonehedge!!"),
        Test::new(0xf6c1e2a8c26c5cfc, 0x7ad25fafa1710407, "Even if I could be Shakespeare, I think I should still choose to be Faraday. - A. Huxley"),
        Test::new(0xd402559dfe9b70c, 0x73cef1666185c13f, "The fugacity of a constituent in a mixture of gases at a given temperature is proportional to its mole fraction.  Lewis-Randall Rule"),
        Test::new(0xdb6efff26aa94946, 0xb41858f73c389602, "How can you write a big system without C++?  -Paul Glick"),
        Test::new(0xe7fcf1006b503b61, 0x27db187fc15bbc72, "This is a test of the emergency broadcast system."),
    ]
}

fn pattern(n: usize) -> Vec<u8> {
    (0..n).map(|i| (i * 3) as u8).collect()
}

#[test]
fn crc64_golden() {
    let table_iso = crc64::make_table(ISO);
    let table_ecma = crc64::make_table(ECMA);

    for (i, g) in golden_test_vector().iter().enumerate() {
        let mut c = crc64::new(table_iso);
        let _ = c.write(g.input.as_bytes());
        let s = c.sum64();
        assert_eq!(
            g.out_iso, s,
            "#{} ISO crc64({}) = {:016x}, expect {:016x}",
            i, g.input, s, g.out_iso
        );

        let mut c = crc64::new(table_ecma);
        let _ = c.write(g.input.as_bytes());
        let s = c.sum64();
        assert_eq!(
            g.out_ecma, s,
            "#{} ECMA crc64({}) = {:016x}, expect {:016x}",
            i, g.input, s, g.out_iso
        );
    }
}

#[test]
fn crc64_known_values() {
    let iso = crc64::make_table(ISO);
    let ecma = crc64::make_table(ECMA);
    assert_eq!(crc64::checksum(b"", &iso), 0);
    assert_eq!(crc64::checksum(b"", &ecma), 0);
    assert_eq!(crc64::checksum(b"hello world", &iso), 13388989860809387070u64);
    assert_eq!(crc64::checksum(b"a", &ecma), 0x330284772e652b05);
}

#[test]
fn crc64_table_entries() {
    let iso = crc64::Table::from_poly(ISO);
    assert_eq!(iso.0[0], 0);
    assert_eq!(iso.0[1], 0x01b0000000000000);
    assert_eq!(iso.0[128], ISO);
    let ecma = crc64::make_table(ECMA);
    assert_eq!(ecma.0[255], 0xe0ada17364673f59);
    assert!(ecma == crc64::Table::from_poly(ECMA));
    assert!(ecma.same(&crc64::Table::from_poly(ECMA)));
    assert!(!ecma.same(&iso));
    assert!(ecma.is_table_of(ECMA));
    assert!(!ecma.is_table_of(ISO));
    assert_eq!(crc64::Table::default().0, [0u64; 256]);
}

#[test]
fn crc64_slicing_tables_are_chained() {
    let base = crc64::make_table(ECMA);
    let t = crc64::slicing8::make_table(base);
    assert!(t[0] == base);
    for j in 1..8 {
        for i in 0..256 {
            let before = t[j - 1].0[i];
            assert_eq!(t[j].0[i], base.0[(before & 0xff) as usize] ^ (before >> 8));
        }
    }
}

#[test]
fn crc64_long_inputs() {
    let data = pattern(20000);
    let ecma = crc64::make_table(ECMA);
    assert_eq!(crc64::update(0xdeadbeef, &ecma, &data), 0xd7fe7fe8b1a8f9a6);
    assert_eq!(crc64::simple_update(0xdeadbeef, &ecma, &data), 0xd7fe7fe8b1a8f9a6);
    let helper = crc64::slicing8::make_table(ecma);
    assert_eq!(
        crc64::slicing8::update(0xdeadbeef, &helper, &data),
        0xd7fe7fe8b1a8f9a6
    );
    let mut d = crc64::digest::Digest::new(0xdeadbeef, ecma);
    assert_eq!(d.write(&data), 20000);
    assert_eq!(d.sum64(), 0xd7fe7fe8b1a8f9a6);
}

#[test]
fn crc64_update_with_a_table_of_no_polynomial() {
    let mut words = [0u64; 256];
    for (i, w) in words.iter_mut().enumerate() {
        *w = (i as u64).wrapping_mul(0x9e3779b97f4a7c15) ^ 0x55;
    }
    let odd = crc64::Table(words);
    let data = pattern(20000);
    assert_eq!(
        crc64::update(1, &odd, &data),
        crc64::simple_update(1, &odd, &data)
    );
    let mut d = crc64::new(odd);
    d.write(&data);
    assert_eq!(d.sum64(), crc64::simple_update(0, &odd, &data));
}

#[test]
fn crc64_engines_agree_on_fixed_inputs() {
    let lengths = [
        0usize, 1, 2, 3, 4, 5, 8, 9, 10, 16, 63, 64, 65, 71, 72, 73, 100, 255, 256, 257, 1000,
        10000,
    ];
    for poly in [ISO, ECMA, 0x42f0e1eba9ea3693u64, 1] {
        let base = crc64::make_table(poly);
        let helper = crc64::slicing8::make_table(base);
        for n in lengths {
            let data = pattern(n);
            for start in [0u64, 1, u64::MAX, 0x123456789abcdef0] {
                assert_eq!(
                    crc64::simple_update(start, &base, &data),
                    crc64::slicing8::update(start, &helper, &data),
                    "length {n}"
                );
                assert_eq!(
                    crc64::simple_update(start, &base, &data),
                    crc64::update(start, &base, &data),
                    "length {n}"
                );
            }
        }
    }
}

#[test]
fn crc64_chunks_do_not_matter() {
    let data = pattern(1000);
    for table in [crc64::make_table(ISO), crc64::make_table(7)] {
        let whole = crc64::checksum(&data, &table);
        for cut in [0usize, 1, 7, 8, 9, 63, 64, 65, 500, 999, 1000] {
            let mut d = crc64::new(table);
            assert_eq!(d.write(&data[..cut]), cut);
            assert_eq!(d.write(&data[cut..]), 1000 - cut);
            assert_eq!(d.sum64(), whole, "cut at {cut}");
        }
        let mut d = crc64::new(table);
        for b in data.iter() {
            d.write(&[*b]);
        }
        assert_eq!(d.sum64(), whole);
    }
}

#[test]
fn crc64_sum_and_reset() {
    let mut d = crc64::new(crc64::make_table(ECMA));
    assert_eq!(d.size(), 8);
    assert_eq!(d.size(), crc64::SIZE);
    assert_eq!(d.block_size(), 1);
    assert_eq!(d.sum(None), vec![0u8; 8]);
    d.write(b"a");
    assert_eq!(
        d.sum(Some(vec![7])),
        vec![7, 0x33, 0x02, 0x84, 0x77, 0x2e, 0x65, 0x2b, 0x05]
    );
    assert_eq!(d.sum64(), 0x330284772e652b05);
    d.reset();
    assert_eq!(d.sum64(), 0);
    d.write(b"a");
    assert_eq!(d.sum64(), 0x330284772e652b05);
}
