use proyecto_opencv::text::{
    decimal_string, parse_usize, push_decimal, push_padded_left, push_padded_right,
    push_repeated,
};

#[test]
fn decimal_of_zero_and_others() {
    assert_eq!(decimal_string(0), "0");
    assert_eq!(decimal_string(7), "7");
    assert_eq!(decimal_string(10), "10");
    assert_eq!(decimal_string(1234567), "1234567");
    assert_eq!(decimal_string(usize::MAX), usize::MAX.to_string());
}

#[test]
fn push_decimal_appends() {
    let mut s = String::from("n=");
    push_decimal(&mut s, 405);
    assert_eq!(s, "n=405");
}

#[test]
fn parse_accepts_what_std_accepts() {
    assert_eq!(parse_usize("3"), Some(3));
    assert_eq!(parse_usize("0042"), Some(42));
    assert_eq!(parse_usize("+7"), Some(7));
    assert_eq!(parse_usize(&usize::MAX.to_string()), Some(usize::MAX));
}

#[test]
fn parse_refuses_what_std_refuses() {
    for s in ["", "+", "-", "-1", "1a", " 1", "1 ", "1.5", "++1", "٣"] {
        assert_eq!(parse_usize(s), None, "{:?}", s);
        assert_eq!(parse_usize(s), s.parse::<usize>().ok(), "{:?}", s);
    }
    let too_big = format!("{}0", usize::MAX);
    assert_eq!(parse_usize(&too_big), None);
}

#[test]
fn parse_matches_std_on_many_texts() {
    let samples = [
        "0", "9", "10", "99999", "+0", "+12", "12+", "0x10", "1_000", "18446744073709551615",
        "18446744073709551616", "4294967295", "4294967296", "007",
    ];
    for s in samples {
        assert_eq!(parse_usize(s), s.parse::<usize>().ok(), "{:?}", s);
    }
}

#[test]
fn parse_reads_back_decimal() {
    for n in [0usize, 1, 9, 10, 11, 100, 65535, 123456789, usize::MAX] {
        assert_eq!(parse_usize(&decimal_string(n)), Some(n));
    }
}

#[test]
fn padding_right_and_left() {
    let mut s = String::new();
    push_padded_right(&mut s, "Rojo", 10);
    assert_eq!(s, "Rojo      ");
    let mut s = String::new();
    push_padded_left(&mut s, "42", 5);
    assert_eq!(s, "   42");
    let mut s = String::new();
    push_padded_left(&mut s, "123456", 5);
    assert_eq!(s, "123456");
    let mut s = String::new();
    push_padded_right(&mut s, "Amarillo extra", 12);
    assert_eq!(s, "Amarillo extra");
    let mut s = String::new();
    push_padded_right(&mut s, "ñá", 4);
    assert_eq!(s, format!("{:<4}", "ñá"));
}

#[test]
fn repeated_pieces() {
    let mut s = String::from(">");
    push_repeated(&mut s, "█", 3);
    assert_eq!(s, ">███");
    let mut s = String::new();
    push_repeated(&mut s, "═", 0);
    assert_eq!(s, "");
    let mut s = String::new();
    push_repeated(&mut s, "═", 52);
    assert_eq!(s, "═".repeat(52));
}
