use ringtones::order::{place_of, Place};
use ringtones::seconds::push_seconds;
use ringtones::text::{chars_of, push_decimal, text_of};

fn decimal(n: u128) -> String {
    let mut out = Vec::new();
    push_decimal(&mut out, n);
    text_of(&out)
}

fn seconds(nanos: u128) -> String {
    let mut out = Vec::new();
    push_seconds(&mut out, nanos);
    text_of(&out)
}

#[test]
fn decimal_numerals_have_no_leading_zero() {
    assert_eq!(decimal(0), "0");
    assert_eq!(decimal(9), "9");
    assert_eq!(decimal(10), "10");
    assert_eq!(decimal(159), "159");
    assert_eq!(decimal(1_000_000), "1000000");
    assert_eq!(decimal(u128::MAX), "340282366920938463463374607431768211455");
}

#[test]
fn push_decimal_appends() {
    let mut out = vec!['x', '='];
    push_decimal(&mut out, 42);
    push_decimal(&mut out, 0);
    assert_eq!(text_of(&out), "x=420");
}

#[test]
fn seconds_leave_out_the_zeros_at_the_end() {
    assert_eq!(seconds(0), "0");
    assert_eq!(seconds(1_000_000_000), "1");
    assert_eq!(seconds(1_500_000_000), "1.5");
    assert_eq!(seconds(1_050_000_000), "1.05");
    assert_eq!(seconds(999_999_999), "0.999999999");
    assert_eq!(seconds(100_000_000), "0.1");
    assert_eq!(seconds(10), "0.00000001");
    assert_eq!(seconds(59_000_000_000), "59");
}

#[test]
fn push_seconds_appends() {
    let mut out = vec!['('];
    push_seconds(&mut out, 2_250_000_000);
    out.push(')');
    assert_eq!(text_of(&out), "(2.25)");
}

#[test]
fn characters_and_text_go_back_and_forth() {
    for text in ["", "a", "TP_Bottle_Pop.m4r", "Ünïcödé ✓"] {
        let chars = chars_of(text);
        assert_eq!(chars, text.chars().collect::<Vec<char>>());
        assert_eq!(text_of(&chars), text);
    }
}

#[test]
fn names_are_placed_as_their_bytes_are() {
    assert_eq!(place_of("a", "b"), Place::Before);
    assert_eq!(place_of("b", "a"), Place::After);
    assert_eq!(place_of("a", "a"), Place::Same);
    assert_eq!(place_of("", ""), Place::Same);
    assert_eq!(place_of("", "a"), Place::Before);
    assert_eq!(place_of("a", ""), Place::After);
    assert_eq!(place_of("ab", "abc"), Place::Before);
    assert_eq!(place_of("abd", "abc"), Place::After);
    assert_eq!(place_of("Z", "a"), Place::Before);
    assert_eq!(place_of("z", "é"), Place::Before);
    let names = ["", "a", "ab", "b", "B", "é", "zz", "a.m4r"];
    for a in names {
        for b in names {
            let expected = if a < b {
                Place::Before
            } else if a == b {
                Place::Same
            } else {
                Place::After
            };
            assert_eq!(place_of(a, b), expected);
        }
    }
}
