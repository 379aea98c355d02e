use hash::adler32;
use hash::Hash as _;
use hash::Hash32;

struct Test {
    out: u32,
    input: Vec<u8>,
}

impl Test {
    fn new(out: u32, input: Vec<u8>) -> Self {
        Self { out, input }
    }
}

fn golden_test_vector() -> Vec<Test> {
    vec![
        Test::new(0x00000001, "".as_bytes().to_vec()),
        Test::new(0x00620062, "a".as_bytes().to_vec()),
        Test::new(0x012600c4, "ab".as_bytes().to_vec()),
        Test::new(0x024d0127, "abc".as_bytes().to_vec()),
        Test::new(0x03d8018b, "abcd".as_bytes().to_vec()),
        Test::new(0x05c801f0, "abcde".as_bytes().to_vec()),
        Test::new(0x081e0256, "abcdef".as_bytes().to_vec()),
        Test::new(0x0adb02bd, "abcdefg".as_bytes().to_vec()),
        Test::new(0x0e000325, "abcdefgh".as_bytes().to_vec()),
        Test::new(0x118e038e, "abcdefghi".as_bytes().to_vec()),
        Test::new(0x158603f8, "abcdefghij".as_bytes().to_vec()),
        Test::new(0x3f090f02, "Discard medicine more than two years old.".as_bytes().to_vec()),
        Test::new(0x46d81477, "He who has a shady past knows that nice guys finish last.".as_bytes().to_vec()),
        Test::new(0x40ee0ee1, "I wouldn't marry him with a ten foot pole.".as_bytes().to_vec()),
        Test::new(0x16661315, "Free! Free!/A trip/to Mars/for 900/empty jars/Burma Shave".as_bytes().to_vec()),
        Test::new(0x5b2e1480, "The days of the digital watch are numbered.  -Tom Stoppard".as_bytes().to_vec()),
        Test::new(0x8c3c09ea, "Nepal premier won't resign.".as_bytes().to_vec()),
        Test::new(0x45ac18fd, "For every action there is an equal and opposite government program.".as_bytes().to_vec()),
        Test::new(0x53c61462, "His money is twice tainted: 'taint yours and 'taint mine.".as_bytes().to_vec()),
        Test::new(0x7e511e63, "There is no reason for any individual to have a computer in their home. -Ken Olsen, 1977".as_bytes().to_vec()),
        Test::new(0xe4801a6a, "It's a tiny change to the code and not completely disgusting. - Bob Manchek".as_bytes().to_vec()),
        Test::new(0x61b507df, "size:  a.out:  bad magic".as_bytes().to_vec()),
        Test::new(0xb8631171, "The major problem is with sendmail.  -Mark Horton".as_bytes().to_vec()),
        Test::new(0x8b5e1904, "Give me a rock, paper and scissors and I will move the world.  CCFestoon".as_bytes().to_vec()),
        Test::new(0x7cc6102b, "If the enemy is within range, then so are you.".as_bytes().to_vec()),
        Test::new(0x700318e7, "It's well we cannot hear the screams/That we create in others' dreams.".as_bytes().to_vec()),
        Test::new(0x1e601747, "You remind me of a TV show, but that's all right: I watch it anyway.".as_bytes().to_vec()),
        Test::new(0xb55b0b09, "C is as portable as Stonehedge!!".as_bytes().to_vec()),
        Test::new(0x39111dd0, "Even if I could be Shakespeare, I think I should still choose to be Faraday. - A. Huxley".as_bytes().to_vec()),
        Test::new(0x91dd304f, "The fugacity of a constituent in a mixture of gases at a given temperature is proportional to its mole fraction.  Lewis-Randall Rule".as_bytes().to_vec()),
        Test::new(0x2e5d1316, "How can you write a big system without C++?  -Paul Glick".as_bytes().to_vec()),
        Test::new(0xd0201df6, "'Invariant assertions' is the most elegant programming technique!  -Tom Szymanski".as_bytes().to_vec()),
        Test::new(0x211297c8, build_input(b"\xff",5548, Some("8"))),
        Test::new(0xbaa198c8, build_input(b"\xff", 5549, Some("9"))),
        Test::new(0x553499be, build_input(b"\xff", 5550, Some("0"))),
        Test::new(0xf0c19abe, build_input(b"\xff", 5551, Some("1"))),
        Test::new(0x8d5c9bbe, build_input(b"\xff", 5552, Some("2"))),
        Test::new(0x2af69cbe, build_input(b"\xff", 5553, Some("3"))),
        Test::new(0xc9809dbe, build_input(b"\xff", 5554, Some("4"))),
        Test::new(0x69189ebe, build_input(b"\xff", 5555, Some("5"))),
        Test::new(0x86af0001, build_input(b"\x00", 100000, None)),
        Test::new(0x79660b4d, build_input(b"a", 100000, None)),
        Test::new(0x110588ee, build_input(b"ABCDEFGHIJKLMNOPQRSTUVWXYZ", 10000, None)),
    ]
}

fn build_input(s: &[u8], n: usize, suffix: Option<&str>) -> Vec<u8> {
    let olen = match &suffix {
        Some(v) => s.len() * n + v.len(),
        None => s.len(),
    };

    let mut out = Vec::with_capacity(olen);
    for _i in 0..n {
        out.extend_from_slice(s);
    }

    if let Some(v) = suffix {
        out.extend_from_slice(v.as_bytes());
    }

    out
}

fn simpl_checksum(p: &[u8]) -> u32 {
    let (mut s1, mut s2) = (1, 0);

    for &x in p {
        s1 = (s1 + (x as u32)) % adler32::MODULO;
        s2 = (s2 + s1) % adler32::MODULO;
    }

    (s2 << 16) | s1
}

#[test]
fn golden() {
    for (i, g) in golden_test_vector().iter().enumerate() {
        let got = simpl_checksum(&g.input);
        assert_eq!(
            g.out, got,
            "simple implementation: #{i} expect 0x{:08x}, got 0x{:08x}",
            g.out, got
        );

        let got = adler32::checksum(&g.input);
        assert_eq!(
            g.out, got,
            "optimized implementation: #{i} expect 0x{:08x}, got 0x{:08x}",
            g.out, got
        );
    }
}

#[test]
fn adler_known_values() {
    assert_eq!(adler32::checksum(b""), 1);
    assert_eq!(adler32::checksum(b"a"), 0x00620062);
    assert_eq!(adler32::checksum(b"abc"), 0x024d0127);
}

#[test]
fn adler_engine_matches_checksum() {
    for g in golden_test_vector().iter() {
        let mut d = adler32::new();
        assert_eq!(d.write(&g.input), g.input.len());
        assert_eq!(d.sum32(), g.out);
        assert_eq!(d.sum(None), g.out.to_be_bytes().to_vec());
    }
}

#[test]
fn adler_chunks_do_not_matter() {
    let data: Vec<u8> = (0..20000usize).map(|i| (i * 5 + 1) as u8).collect();
    let whole = adler32::checksum(&data);
    assert_eq!(whole, 0xb7dee50b);
    for cut in [0usize, 1, 3, 4, 5, 5551, 5552, 5553, 11104, 19999, 20000] {
        let mut d = adler32::new();
        d.write(&data[..cut]);
        d.write(&data[cut..]);
        assert_eq!(d.sum32(), whole, "cut at {cut}");
    }
    let mut d = adler32::new();
    for b in data.iter() {
        d.write(&[*b]);
    }
    assert_eq!(d.sum32(), whole);
}

#[test]
fn adler_update_continues() {
    let a = adler32::update(1, b"ab");
    assert_eq!(a, 0x012600c4);
    assert_eq!(adler32::update(a, b"c"), 0x024d0127);
    assert_eq!(adler32::update(a, b""), a);
}

#[test]
fn adler_update_takes_any_register() {
    assert_eq!(adler32::update(0xffffffff, b""), 0xffffffff);
    assert_eq!(adler32::update(0xffffffff, b"a"), 0x007d006f);
}

#[test]
fn adler_sum_and_reset() {
    let mut d = adler32::new();
    assert_eq!(d.size(), 4);
    assert_eq!(d.size(), adler32::SIZE);
    assert_eq!(d.block_size(), 4);
    assert_eq!(d.sum(None), vec![0, 0, 0, 1]);
    d.write(b"abc");
    let first = d.sum(Some(vec![9, 8]));
    assert_eq!(first, vec![9, 8, 0x02, 0x4d, 0x01, 0x27]);
    assert_eq!(d.sum(None), vec![0x02, 0x4d, 0x01, 0x27]);
    d.reset();
    assert_eq!(d.sum32(), 1);
    d.write(b"abc");
    assert_eq!(d.sum32(), 0x024d0127);
}
