use ringtones::identity::{guid_from_digest, pid_from_digest, string_to_guid, string_to_pid, synthesize};
use ringtones::identity::IdentityError;

#[test]
fn test_string_to_pid() {
    let filename_1 = "TP_Bottle_Pop.m4r";
    let filename_2 = "SC_Strategic_Launch.m4r";
    let filename_3 = "TP_HawkGrass.m4r";
    let filename_4 = "OuterWilds_End_Times.m4r";

    assert_eq!(string_to_pid(filename_1), 5550521009748555449);
    assert_eq!(string_to_pid(filename_2), 5049102565010010251);
    assert_eq!(string_to_pid(filename_3), 4898495154494849100);
    assert_eq!(string_to_pid(filename_4), 9102535255494951101);
}

#[test]
fn test_string_to_guid() {
    let filename_1 = "TP_Bottle_Pop.m4r";
    let filename_2 = "SC_Strategic_Launch.m4r";
    let filename_3 = "TP_HawkGrass.m4r";
    let filename_4 = "OuterWilds_End_Times.m4r";

    assert_eq!(string_to_guid(filename_1), "9ff460f724da0761");
    assert_eq!(string_to_guid(filename_2), "5231123621f82df3");
    assert_eq!(string_to_guid(filename_3), "03461b80b136101d");
    assert_eq!(string_to_guid(filename_4), "72f93bb1f547113e");
}

#[test]
fn pid_is_read_from_the_last_nineteen_digits() {
    // '2' '4' 'd' 'a' '0' '7' '6' '1' have the byte values
    // 50 52 100 97 48 55 54 49, after a '7' (55).
    assert_eq!(pid_from_digest("724da0761"), Ok(5550521009748555449));
    // exactly nineteen digits: 48 nine times and one more digit from "1"
    assert_eq!(pid_from_digest("000000000\u{1}"), Ok(4848484848484848481));
}

#[test]
fn pid_keeps_leading_zeros_of_the_window_out_of_the_number() {
    // bytes 1, 0 x 18: digits "1" then eighteen "0"
    let text = "\u{1}\u{0}\u{0}\u{0}\u{0}\u{0}\u{0}\u{0}\u{0}\u{0}\u{0}\u{0}\u{0}\u{0}\u{0}\u{0}\u{0}\u{0}\u{0}";
    assert_eq!(pid_from_digest(text), Ok(1_000_000_000_000_000_000));
    let text = "\u{0}\u{0}\u{0}\u{0}\u{0}\u{0}\u{0}\u{0}\u{0}\u{0}\u{0}\u{0}\u{0}\u{0}\u{0}\u{0}\u{0}\u{0}\u{7}";
    assert_eq!(pid_from_digest(text), Ok(7));
}

#[test]
fn pid_takes_the_largest_window() {
    // nineteen nines: bytes 99 ('c') nine times and one byte 9
    assert_eq!(pid_from_digest("ccccccccc\u{9}"), Ok(9_999_999_999_999_999_999));
}

#[test]
fn pid_counts_the_bytes_of_a_character_beyond_ascii() {
    // 'é' is the two bytes 195 169
    // four times 195169 are 24 digits, of which the last nineteen count
    assert_eq!(pid_from_digest("éééé"), Ok(9195169195169195169));
    assert_eq!(pid_from_digest("ééé"), Err(IdentityError::TooFewDigits));
}

#[test]
fn pid_rejects_a_text_with_too_few_digits() {
    assert_eq!(pid_from_digest(""), Err(IdentityError::TooFewDigits));
    assert_eq!(pid_from_digest("abc"), Err(IdentityError::TooFewDigits));
    // eighteen digits
    assert_eq!(pid_from_digest("000000000"), Err(IdentityError::TooFewDigits));
}

#[test]
fn guid_is_the_last_sixteen_characters() {
    assert_eq!(
        guid_from_digest("0123456789abcdef0123456789abcdef9ff460f724da0761"),
        Ok(String::from("9ff460f724da0761"))
    );
    assert_eq!(guid_from_digest("0123456789abcdef"), Ok(String::from("0123456789abcdef")));
    assert_eq!(guid_from_digest("ééééééééééééééééé"), Ok(String::from("éééééééééééééééé")));
}

#[test]
fn guid_rejects_a_text_with_too_few_characters() {
    assert_eq!(guid_from_digest(""), Err(IdentityError::TooFewCharacters));
    assert_eq!(guid_from_digest("0123456789abcde"), Err(IdentityError::TooFewCharacters));
}

#[test]
fn identity_is_the_same_on_every_call() {
    for name in ["TP_Bottle_Pop.m4r", "", "a", "Ünïcödé.m4r"] {
        assert_eq!(string_to_pid(name), string_to_pid(name));
        assert_eq!(string_to_guid(name), string_to_guid(name));
        assert_eq!(string_to_guid(name).chars().count(), 16);
        assert!(string_to_pid(name) < 10_000_000_000_000_000_000);
    }
}

#[test]
fn synthesize_gives_both_identifiers() {
    let expected = [
        ("TP_Bottle_Pop.m4r", 5550521009748555449u64, "9ff460f724da0761"),
        ("SC_Strategic_Launch.m4r", 5049102565010010251, "5231123621f82df3"),
        ("TP_HawkGrass.m4r", 4898495154494849100, "03461b80b136101d"),
        ("OuterWilds_End_Times.m4r", 9102535255494951101, "72f93bb1f547113e"),
    ];
    for (name, pid, guid) in expected {
        assert_eq!(synthesize(name), (pid, guid.to_string()));
        assert_eq!(synthesize(name), (string_to_pid(name), string_to_guid(name)));
    }
}

#[test]
fn identity_is_read_off_the_digest_of_the_name() {
    // the SHA-256 digest of "hello"
    let digest = "2cf24dba5fb0a30e26e83b2ac5b9e29e1b161e5c1fa7425e73043362938b9824";
    assert_eq!(string_to_guid("hello"), "73043362938b9824");
    assert_eq!(guid_from_digest(digest), Ok(string_to_guid("hello")));
    assert_eq!(pid_from_digest(digest), Ok(string_to_pid("hello")));
    // '3' '6' '2' '9' '3' '8' 'b' '9' '8' '2' '4' write 51 54 50 57 51 56 98 57 56 50 52
    assert_eq!(string_to_pid("hello"), 4505751569857565052);
}

#[test]
fn the_example_names_have_identities_of_their_own() {
    let names = ["TP_Bottle_Pop.m4r", "SC_Strategic_Launch.m4r", "TP_HawkGrass.m4r", "OuterWilds_End_Times.m4r"];
    for (i, first) in names.iter().enumerate() {
        for second in &names[i + 1..] {
            assert_ne!(string_to_pid(first), string_to_pid(second));
            assert_ne!(string_to_guid(first), string_to_guid(second));
        }
    }
}
