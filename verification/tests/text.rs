use stripchart::source::{one_line, LineSplitter, Rng};
use stripchart::timefmt::{clock, padded_string, trim_decimal};
use stripchart::tint::{palette, Tint};

#[test]
fn clock_readings() {
    assert_eq!(clock(75, 0), "1:15");
    assert_eq!(clock(3725, 0), "1:02:05");
    assert_eq!(clock(125, 2), "0:01.25");
    assert_eq!(clock(5, 1), "0:00.5");
    assert_eq!(clock(0, 0), "0:00");
    assert_eq!(clock(36_000_123, 3), "10:00:00.123");
}

#[test]
fn zero_padding() {
    assert_eq!(padded_string(7, 2), "07");
    assert_eq!(padded_string(123, 2), "123");
    assert_eq!(padded_string(5, 3), "005");
    assert_eq!(padded_string(0, 0), "0");
}

#[test]
fn trimmed_numbers() {
    assert_eq!(trim_decimal("1.50"), "1.5");
    assert_eq!(trim_decimal("2.0"), "2");
    assert_eq!(trim_decimal("500.0"), "500");
    assert_eq!(trim_decimal("60.0"), "60");
    assert_eq!(trim_decimal("0.5"), "0.5");
}

#[test]
fn lines_from_chunks() {
    let mut sp = LineSplitter::new();
    assert_eq!(sp.feed(b"ab\r\ncd\r"), vec!["ab".to_string(), "cd".to_string()]);
    assert!(sp.feed(b"e").is_empty());
    assert_eq!(sp.finish(), Some("e".to_string()));
}

#[test]
fn chunking_does_not_matter() {
    let mut a = LineSplitter::new();
    let mut got = a.feed(b"1 2");
    got.extend(a.feed(b"\n3"));
    got.extend(a.feed(b" 4\n"));
    let mut b = LineSplitter::new();
    let all = b.feed(b"1 2\n3 4\n");
    assert_eq!(got, all);
    assert_eq!(all, vec!["1 2".to_string(), "3 4".to_string()]);
    assert_eq!(a.finish(), None);
}

#[test]
fn lossy_bytes() {
    let mut sp = LineSplitter::new();
    let lines = sp.feed(b"t\xff=1\n\xc3\xa9\n");
    assert_eq!(lines, vec!["t\u{fffd}=1".to_string(), "é".to_string()]);
}

#[test]
fn command_output_is_one_line() {
    assert_eq!(one_line("a\nb\r"), "a b ");
    assert_eq!(one_line("12"), "12");
}

#[test]
fn random_bits() {
    let mut r = Rng::seeded(0);
    let x: u64 = 1 ^ (1 << 25);
    assert_eq!(r.next_bits(), x.wrapping_mul(0x2545_F491_4F6C_DD1D) >> 11);
    let mut a = Rng::seeded(4);
    let mut b = Rng::seeded(5);
    assert_eq!(a.next_bits(), b.next_bits());
    for _ in 0..100 {
        assert!(a.next_bits() < 1 << 53);
    }
}

#[test]
fn pens_cycle() {
    assert_eq!(palette(0), Tint::Red);
    assert_eq!(palette(6), Tint::White);
    assert_eq!(palette(7), Tint::Red);
    assert_eq!(palette(9), Tint::Green);
}

#[test]
fn line_endings_alike() {
    let lines = |bytes: &[u8]| {
        let mut sp = LineSplitter::new();
        let mut got = sp.feed(bytes);
        got.extend(sp.finish());
        got
    };
    let want = vec!["a".to_string(), "b".to_string()];
    assert_eq!(lines(b"a\nb"), want);
    assert_eq!(lines(b"a\r\nb"), want);
    assert_eq!(lines(b"a\rb"), want);
    assert_eq!(lines(b"\n\na\r\n\r\nb\n"), want);
}
