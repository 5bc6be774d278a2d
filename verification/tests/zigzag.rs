use save::zigzag::{ZigZag, ZugZug};

#[test]
fn test_zigzag_round_trip() {
    for uint in u8::MIN..=u8::MAX {
        assert_eq!(uint, uint.zigzag().zigzag());
    }

    for int in i8::MIN..=i8::MAX {
        assert_eq!(int, int.zigzag().zigzag());
    }

    for uint in u16::MIN..=u16::MAX {
        assert_eq!(uint, uint.zigzag().zigzag());
    }

    for int in i16::MIN..=i16::MAX {
        assert_eq!(int, int.zigzag().zigzag());
    }
}

#[test]
fn test_zigzag_known_values() {
    assert_eq!(0_u8.zigzag(), 0_i8);
    assert_eq!(1_u8.zigzag(), 1_i8);
    assert_eq!(2_u8.zigzag(), -1_i8);
    assert_eq!(3_u8.zigzag(), 2_i8);
    assert_eq!(4_u8.zigzag(), -2_i8);
    assert_eq!(5_u8.zigzag(), 3_i8);
    assert_eq!(125_u8.zigzag(), 63_i8);
    assert_eq!(126_u8.zigzag(), -63_i8);
    assert_eq!(127_u8.zigzag(), 64_i8);
    assert_eq!(128_u8.zigzag(), -64i8);
    assert_eq!(129_u8.zigzag(), 65i8);
    assert_eq!(130_u8.zigzag(), -65i8);
    assert_eq!(250_u8.zigzag(), -125_i8);
    assert_eq!(251_u8.zigzag(), 126_i8);
    assert_eq!(252_u8.zigzag(), -126_i8);
    assert_eq!(253_u8.zigzag(), 127_i8);
    assert_eq!(254_u8.zigzag(), -127_i8);
    assert_eq!(255_u8.zigzag(), -128_i8);
    assert_eq!(255_u16.zigzag(), 128_i16);
    assert_eq!(255_u32.zigzag(), 128_i32);
    assert_eq!(255_u64.zigzag(), 128_i64);
    assert_eq!(255_u128.zigzag(), 128_i128);
    assert_eq!(255_usize.zigzag(), 128_isize);
}

#[test]
fn zigzag_round_trip() {
    for uint in u8::MIN..=u8::MAX {
        assert_eq!(uint, uint.zigzag().zigzag());
    }

    for int in i8::MIN..=i8::MAX {
        assert_eq!(int, int.zigzag().zigzag());
    }

    for uint in u16::MIN..=u16::MAX {
        assert_eq!(uint, uint.zigzag().zigzag());
    }

    for int in i16::MIN..=i16::MAX {
        assert_eq!(int, int.zigzag().zigzag());
    }
}

#[test]
fn zigzag_known_values() {
    assert_eq!(0_u8.zigzag(), 0_i8);
    assert_eq!(0_u16.zigzag(), 0_i16);
    assert_eq!(0_u32.zigzag(), 0_i32);
    assert_eq!(0_u64.zigzag(), 0_i64);
    assert_eq!(0_u128.zigzag(), 0_i128);
    assert_eq!(0_usize.zigzag(), 0_isize);

    assert_eq!(1_u8.zigzag(), 1_i8);
    assert_eq!(2_u8.zigzag(), -1_i8);
    assert_eq!(3_u8.zigzag(), 2_i8);
    assert_eq!(4_u8.zigzag(), -2_i8);
    assert_eq!(5_u8.zigzag(), 3_i8);

    assert_eq!(125_u8.zigzag(), 63_i8);
    assert_eq!(126_u8.zigzag(), -63_i8);
    assert_eq!(127_u8.zigzag(), 64_i8);
    assert_eq!(128_u8.zigzag(), -64i8);
    assert_eq!(129_u8.zigzag(), 65i8);
    assert_eq!(130_u8.zigzag(), -65i8);

    assert_eq!(250_u8.zigzag(), -125_i8);
    assert_eq!(251_u8.zigzag(), 126_i8);
    assert_eq!(252_u8.zigzag(), -126_i8);
    assert_eq!(253_u8.zigzag(), 127_i8);
    assert_eq!(254_u8.zigzag(), -127_i8);

    assert_eq!(255_u8.zigzag(), -128_i8);
    assert_eq!(255_u16.zigzag(), 128_i16);
    assert_eq!(255_u32.zigzag(), 128_i32);
    assert_eq!(255_u64.zigzag(), 128_i64);
    assert_eq!(255_u128.zigzag(), 128_i128);
    assert_eq!(255_usize.zigzag(), 128_isize);

    assert_eq!(u8::MAX.zigzag(), i8::MIN);
    assert_eq!(u16::MAX.zigzag(), i16::MIN);
    assert_eq!(u32::MAX.zigzag(), i32::MIN);
    assert_eq!(u64::MAX.zigzag(), i64::MIN);
    assert_eq!(u128::MAX.zigzag(), i128::MIN);
    assert_eq!(usize::MAX.zigzag(), isize::MIN);

    assert_eq!((u8::MAX - 2).zigzag(), i8::MAX);
    assert_eq!((u16::MAX - 2).zigzag(), i16::MAX);
    assert_eq!((u32::MAX - 2).zigzag(), i32::MAX);
    assert_eq!((u64::MAX - 2).zigzag(), i64::MAX);
    assert_eq!((u128::MAX - 2).zigzag(), i128::MAX);
    assert_eq!((usize::MAX - 2).zigzag(), isize::MAX);
}

/// The signed value numbered `n`, by arithmetic alone.
fn signed(n: i64) -> i64 {
    if n % 2 == 0 {
        -(n / 2)
    } else {
        (n + 1) / 2
    }
}

/// The number of the signed value `x`, by arithmetic alone.
fn unsigned(x: i64) -> i64 {
    if x > 0 {
        2 * x - 1
    } else {
        -2 * x
    }
}

fn zigzag_table() -> String {
    let mut actual = String::new();

    for i in u8::MIN..=u8::MAX {
        let x = i.zigzag();
        let xp = (i as u16).zigzag();
        actual += &format!("{i:>4}_u8.zigzag() == {x:>4}_i8");
        if xp != (x as i16) {
            actual += &format!(", but {i:>4}_u16.zigzag() == {xp:>4}_i16");
        }
        actual += "\n";
    }

    actual += "\n";

    for i in i8::MIN..=i8::MAX {
        let x = i.zigzag();
        let xp = (i as i16).zigzag();
        actual += &format!("{i:>4}_i8.zigzag() == {x:>4}_u8");
        if xp != (x as u16) {
            actual += &format!(", but {i:>4}_i16.zigzag() == {xp:>4}_u16");
        }
        actual += "\n";
    }

    actual
}

fn zigzag_table_expected() -> String {
    let mut expected = String::new();
    for i in 0..=255_i64 {
        if i == 255 {
            expected += " 255_u8.zigzag() == -128_i8, but  255_u16.zigzag() ==  128_i16\n";
        } else {
            let x = signed(i);
            expected += &format!("{i:>4}_u8.zigzag() == {x:>4}_i8\n");
        }
    }
    expected += "\n";
    for i in -128..=127_i64 {
        if i == -128 {
            expected += "-128_i8.zigzag() ==  255_u8, but -128_i16.zigzag() ==  256_u16\n";
        } else {
            let x = unsigned(i);
            expected += &format!("{i:>4}_i8.zigzag() == {x:>4}_u8\n");
        }
    }
    expected
}

#[test]
fn zigzag_snapshot() {
    let actual = zigzag_table();
    assert_eq!(zigzag_table_expected(), actual);
    assert!(actual.starts_with("   0_u8.zigzag() ==    0_i8\n   1_u8.zigzag() ==    1_i8\n   2_u8.zigzag() ==   -1_i8\n"));
}

#[test]
fn zugzug_round_trip() {
    for uint in u8::MIN..=u8::MAX {
        assert_eq!(uint, uint.zugzug().zugzug());
    }

    for int in i8::MIN..=i8::MAX {
        assert_eq!(int, int.zigzag().zugzug().zugzug().zigzag());
    }

    for uint in u16::MIN..=u16::MAX {
        assert_eq!(uint, uint.zugzug().zugzug());
    }

    for int in i16::MIN..=i16::MAX {
        assert_eq!(int, int.zigzag().zugzug().zugzug().zigzag());
    }
}

#[test]
fn zugzug_known_values() {
    assert_eq!(0_u8.zugzug(), (0_i8, 0_i8));
    assert_eq!(1_u8.zugzug(), (0_i8, 1_i8));
    assert_eq!(2_u8.zugzug(), (1_i8, 1_i8));
    assert_eq!(3_u8.zugzug(), (-1_i8, 0_i8));
    assert_eq!(4_u8.zugzug(), (-1_i8, 1_i8));
    assert_eq!(5_u8.zugzug(), (-1_i8, -1_i8));
    assert_eq!(6_u8.zugzug(), (0_i8, 2_i8));
    assert_eq!(7_u8.zugzug(), (1_i8, 2_i8));
    assert_eq!(8_u8.zugzug(), (-1_i8, 2_i8));
    assert_eq!(9_u8.zugzug(), (2_i8, 2_i8));
    assert_eq!(10_u8.zugzug(), (-2_i8, 0_i8));
    assert_eq!(11_u8.zugzug(), (-2_i8, 1_i8));

    assert_eq!(254_u8.zugzug(), (-11_i8, 1_i8));
    assert_eq!(255_u8.zugzug(), (-11_i8, -1_i8));

    assert_eq!(u8::MAX.zugzug(), (-11_i8, -1_i8));
    assert_eq!(u16::MAX.zugzug(), (-97_i16, 181_i16));
    assert_eq!(u32::MAX.zugzug(), (-18537_i32, 46341_i32));
    assert_eq!(u64::MAX.zugzug(), (1373026058_i64, 3037000500_i64));
    assert_eq!(usize::MAX.zugzug(), (1373026058_isize, 3037000500_isize));
}

/// The greatest `a` with `a * (a + 1) / 2 <= i`, by counting up.
fn triangular_root(i: i64) -> i64 {
    let mut a = 0;
    while (a + 1) * (a + 2) / 2 <= i {
        a += 1;
    }
    a
}

fn zugzug_table() -> String {
    let mut actual = String::new();

    for i in 0..1024u16 {
        let (x, y) = i.zugzug();
        actual += &format!("{i:>4}.zugzug() == ({x:>3}, {y:>3})\n");
    }

    actual += "\n";

    for x in -16..16i16 {
        for y in x..32i16 {
            let i = (x, y).zugzug();
            actual += &format!("({x:>3}, {y:>3}).zugzug() == {i:>4}\n");
        }
    }

    actual
}

fn zugzug_table_expected() -> String {
    let mut expected = String::new();
    for i in 0..1024_i64 {
        let a = triangular_root(i);
        let b = i - a * (a + 1) / 2;
        let (c, d) = (signed(a), signed(b));
        let (x, y) = if c <= d { (c, d) } else { (d, c) };
        expected += &format!("{i:>4}.zugzug() == ({x:>3}, {y:>3})\n");
    }
    expected += "\n";
    for x in -16..16_i64 {
        for y in x..32_i64 {
            let (fx, fy) = (unsigned(x), unsigned(y));
            let (a, b) = if fx >= fy { (fx, fy) } else { (fy, fx) };
            let i = a * (a + 1) / 2 + b;
            expected += &format!("({x:>3}, {y:>3}).zugzug() == {i:>4}\n");
        }
    }
    expected
}

#[test]
fn zugzug_snapshot() {
    let actual = zugzug_table();
    assert_eq!(zugzug_table_expected(), actual);
    assert!(actual.starts_with("   0.zugzug() == (  0,   0)\n   1.zugzug() == (  0,   1)\n   2.zugzug() == (  1,   1)\n   3.zugzug() == ( -1,   0)\n"));
}

#[test]
fn zigzag_zigzag_round_trip() {
    for uint in u8::MIN..=u8::MAX {
        assert_eq!(uint, uint.zigzag().zigzag());
    }

    for int in i8::MIN..=i8::MAX {
        assert_eq!(int, int.zigzag().zigzag());
    }

    for uint in u16::MIN..=u16::MAX {
        assert_eq!(uint, uint.zigzag().zigzag());
    }

    for int in i16::MIN..=i16::MAX {
        assert_eq!(int, int.zigzag().zigzag());
    }
}

#[test]
fn zigzag_zigzag_known_values() {
    assert_eq!("0", format!("{:?}", 0_u8.zigzag()));
    assert_eq!("0", format!("{:?}", 0_u16.zigzag()));
    assert_eq!("0", format!("{:?}", 0_u32.zigzag()));
    assert_eq!("0", format!("{:?}", 0_u64.zigzag()));
    assert_eq!("0", format!("{:?}", 0_u128.zigzag()));
    assert_eq!("0", format!("{:?}", 0_usize.zigzag()));

    assert_eq!("1", format!("{:?}", 1_u8.zigzag()));
    assert_eq!("-1", format!("{:?}", 2_u8.zigzag()));
    assert_eq!("2", format!("{:?}", 3_u8.zigzag()));
    assert_eq!("-2", format!("{:?}", 4_u8.zigzag()));
    assert_eq!("3", format!("{:?}", 5_u8.zigzag()));

    assert_eq!("63", format!("{:?}", 125_u8.zigzag()));
    assert_eq!("-63", format!("{:?}", 126_u8.zigzag()));
    assert_eq!("64", format!("{:?}", 127_u8.zigzag()));
    assert_eq!("-64", format!("{:?}", 128_u8.zigzag()));
    assert_eq!("65", format!("{:?}", 129_u8.zigzag()));
    assert_eq!("-65", format!("{:?}", 130_u8.zigzag()));

    assert_eq!("-125", format!("{:?}", 250_u8.zigzag()));
    assert_eq!("126", format!("{:?}", 251_u8.zigzag()));
    assert_eq!("-126", format!("{:?}", 252_u8.zigzag()));
    assert_eq!("127", format!("{:?}", 253_u8.zigzag()));
    assert_eq!("-127", format!("{:?}", 254_u8.zigzag()));

    assert_eq!("-128", format!("{:?}", 255_u8.zigzag()));
    assert_eq!("128", format!("{:?}", 255_u16.zigzag()));
    assert_eq!("128", format!("{:?}", 255_u32.zigzag()));
    assert_eq!("128", format!("{:?}", 255_u64.zigzag()));
    assert_eq!("128", format!("{:?}", 255_u128.zigzag()));
    assert_eq!("128", format!("{:?}", 255_usize.zigzag()));

    assert_eq!(u8::MAX.zigzag(), i8::MIN);
    assert_eq!(u16::MAX.zigzag(), i16::MIN);
    assert_eq!(u32::MAX.zigzag(), i32::MIN);
    assert_eq!(u64::MAX.zigzag(), i64::MIN);
    assert_eq!(u128::MAX.zigzag(), i128::MIN);
    assert_eq!(usize::MAX.zigzag(), isize::MIN);

    assert_eq!((u8::MAX - 2).zigzag(), i8::MAX);
    assert_eq!((u16::MAX - 2).zigzag(), i16::MAX);
    assert_eq!((u32::MAX - 2).zigzag(), i32::MAX);
    assert_eq!((u64::MAX - 2).zigzag(), i64::MAX);
    assert_eq!((u128::MAX - 2).zigzag(), i128::MAX);
    assert_eq!((usize::MAX - 2).zigzag(), isize::MAX);
}

#[test]
fn zigzag_zigzag_snapshot() {
    let actual = zigzag_table();
    assert_eq!(zigzag_table_expected(), actual);
    assert!(actual.ends_with(" 126_i8.zigzag() ==  251_u8\n 127_i8.zigzag() ==  253_u8\n"));
}

#[test]
fn zigzag_zugzug_round_trip() {
    for uint in u8::MIN..=u8::MAX {
        assert_eq!(uint, uint.zugzug().zugzug());
    }

    for int in i8::MIN..=i8::MAX {
        assert_eq!(int, int.zigzag().zugzug().zugzug().zigzag());
    }

    for uint in u16::MIN..=u16::MAX {
        assert_eq!(uint, uint.zugzug().zugzug());
    }

    for int in i16::MIN..=i16::MAX {
        assert_eq!(int, int.zigzag().zugzug().zugzug().zigzag());
    }
}

#[test]
fn zigzag_zugzug_known_values() {
    assert_eq!("(0, 0)", format!("{:?}", 0_u8.zugzug()));
    assert_eq!("(0, 1)", format!("{:?}", 1_u8.zugzug()));
    assert_eq!("(1, 1)", format!("{:?}", 2_u8.zugzug()));
    assert_eq!("(-1, 0)", format!("{:?}", 3_u8.zugzug()));
    assert_eq!("(-1, 1)", format!("{:?}", 4_u8.zugzug()));
    assert_eq!("(-1, -1)", format!("{:?}", 5_u8.zugzug()));
    assert_eq!("(0, 2)", format!("{:?}", 6_u8.zugzug()));
    assert_eq!("(1, 2)", format!("{:?}", 7_u8.zugzug()));
    assert_eq!("(-1, 2)", format!("{:?}", 8_u8.zugzug()));
    assert_eq!("(2, 2)", format!("{:?}", 9_u8.zugzug()));
    assert_eq!("(-2, 0)", format!("{:?}", 10_u8.zugzug()));
    assert_eq!("(-2, 1)", format!("{:?}", 11_u8.zugzug()));

    assert_eq!("(-11, 1)", format!("{:?}", 254_u8.zugzug()));
    assert_eq!("(-11, -1)", format!("{:?}", 255_u8.zugzug()));

    assert_eq!(u8::MAX.zugzug(), (-11_i8, -1_i8));
    assert_eq!(u16::MAX.zugzug(), (-97_i16, 181_i16));
    assert_eq!(u32::MAX.zugzug(), (-18537_i32, 46341_i32));
    assert_eq!(u64::MAX.zugzug(), (1373026058_i64, 3037000500_i64));
    assert_eq!(usize::MAX.zugzug(), (1373026058_isize, 3037000500_isize));
}

#[test]
fn zigzag_zugzug_snapshot() {
    let actual = zugzug_table();
    assert_eq!(zugzug_table_expected(), actual);
    assert!(actual.contains("( -1,   2).zugzug() ==    8\n"));
    assert!(actual.contains("(  0,   0).zugzug() ==    0\n"));
}
