use ringtones::data::{MediaKind, Ringtones, Tone};
use ringtones::list_tones::{tones_in_directory, SoundFile};
use ringtones::ringtones_plist::{field_mismatches, ringtones_plist, validate_ringtones_plist};
use ringtones::ringtones_plist::{Discrepancy, Field, Mismatch};
use std::path::PathBuf;

fn sound(file_name: &str, millis: u128) -> SoundFile {
    SoundFile { file_name: file_name.to_string(), total_time: millis * 1_000_000 }
}

fn example_listing() -> Vec<SoundFile> {
    vec![
        sound("TP_Bottle_Pop.m4r", 244),
        sound("SC_Strategic_Launch.m4r", 1_741),
        sound("TP_HawkGrass.m4r", 11_190),
        sound("OuterWilds_End_Times.m4r", 14_943),
    ]
}

fn bottle_pop() -> Tone {
    Tone {
        name: "TP_Bottle_Pop".to_string(),
        total_time: 244_000_000,
        media_kind: MediaKind::Tone,
        protected_content: false,
        pid: 5550521009748555449,
        guid: "9ff460f724da0761".to_string(),
    }
}

fn mismatch(field: Field, fresh: &str, persisted: &str) -> Mismatch {
    Mismatch { field, fresh: fresh.to_string(), persisted: persisted.to_string() }
}

#[test]
fn ringtones_plist_is_below_the_media_directory() {
    assert_eq!(
        ringtones_plist(&PathBuf::from("/var/root/Media")),
        PathBuf::from("/var/root/Media/iTunes_Control/iTunes/Ringtones.plist")
    );
    assert_eq!(ringtones_plist(&PathBuf::new()), PathBuf::from("iTunes_Control/iTunes/Ringtones.plist"));
}

#[test]
fn an_inventory_agrees_with_an_inventory_built_alike() {
    let fresh = tones_in_directory(&example_listing(), &10);
    let persisted = tones_in_directory(&example_listing(), &10);
    assert_eq!(validate_ringtones_plist(&fresh, &persisted), Vec::new());
    assert_eq!(validate_ringtones_plist(&fresh, &fresh), Vec::new());
}

#[test]
fn records_that_only_the_catalog_holds_are_not_reported() {
    let fresh = tones_in_directory(&example_listing()[..2].to_vec(), &10);
    let persisted = tones_in_directory(&example_listing(), &10);
    assert_eq!(validate_ringtones_plist(&fresh, &persisted), Vec::new());

    let nothing = Ringtones::new();
    assert_eq!(validate_ringtones_plist(&nothing, &persisted), Vec::new());
}

#[test]
fn records_that_the_catalog_lacks_are_reported_as_missing() {
    let fresh = tones_in_directory(&example_listing(), &10);
    let persisted = tones_in_directory(&example_listing()[..2].to_vec(), &10);
    assert_eq!(
        validate_ringtones_plist(&fresh, &persisted),
        vec![
            Discrepancy::Missing { name: "OuterWilds_End_Times.m4r".to_string() },
            Discrepancy::Missing { name: "TP_HawkGrass.m4r".to_string() },
        ]
    );
    let nothing = Ringtones::new();
    let found = validate_ringtones_plist(&fresh, &nothing);
    assert_eq!(found.len(), 4);
    assert_eq!(found[0].name(), "OuterWilds_End_Times.m4r");
    assert_eq!(found[3].name(), "TP_HawkGrass.m4r");
}

#[test]
fn another_threshold_shows_in_the_kind_only() {
    let fresh = tones_in_directory(&example_listing(), &10);
    let persisted = tones_in_directory(&example_listing(), &1);
    assert_eq!(
        validate_ringtones_plist(&fresh, &persisted),
        vec![Discrepancy::Differs {
            name: "SC_Strategic_Launch.m4r".to_string(),
            mismatches: vec![mismatch(Field::MediaKind, "Tone", "Ringtone")],
        }]
    );
}

#[test]
fn two_fields_that_differ_are_both_reported_and_no_other() {
    let fresh = bottle_pop();
    let mut persisted = bottle_pop();
    persisted.total_time = 1_700_000_000;
    persisted.pid = 42;
    assert_eq!(
        field_mismatches(&fresh, &persisted),
        vec![
            mismatch(Field::TotalTime, "0.244", "1.7"),
            mismatch(Field::Pid, "5550521009748555449", "42"),
        ]
    );
    assert_eq!(
        field_mismatches(&persisted, &fresh),
        vec![
            mismatch(Field::TotalTime, "1.7", "0.244"),
            mismatch(Field::Pid, "42", "5550521009748555449"),
        ]
    );
}

#[test]
fn every_field_that_differs_is_reported_in_the_order_of_the_fields() {
    let fresh = bottle_pop();
    let persisted = Tone {
        name: "Other".to_string(),
        total_time: 12_000_000_001,
        media_kind: MediaKind::Ringtone,
        protected_content: true,
        pid: 0,
        guid: "0000000000000000".to_string(),
    };
    assert_eq!(
        field_mismatches(&fresh, &persisted),
        vec![
            mismatch(Field::Name, "TP_Bottle_Pop", "Other"),
            mismatch(Field::TotalTime, "0.244", "12.000000001"),
            mismatch(Field::MediaKind, "Tone", "Ringtone"),
            mismatch(Field::ProtectedContent, "false", "true"),
            mismatch(Field::Pid, "5550521009748555449", "0"),
            mismatch(Field::Guid, "9ff460f724da0761", "0000000000000000"),
        ]
    );
    assert_eq!(field_mismatches(&fresh, &fresh), Vec::new());
}

#[test]
fn each_single_field_is_told_apart() {
    let fresh = bottle_pop();

    let mut persisted = bottle_pop();
    persisted.name = "TP_Bottle_Pop ".to_string();
    assert_eq!(
        field_mismatches(&fresh, &persisted),
        vec![mismatch(Field::Name, "TP_Bottle_Pop", "TP_Bottle_Pop ")]
    );

    let mut persisted = bottle_pop();
    persisted.total_time = 244_000_001;
    assert_eq!(
        field_mismatches(&fresh, &persisted),
        vec![mismatch(Field::TotalTime, "0.244", "0.244000001")]
    );

    let mut persisted = bottle_pop();
    persisted.protected_content = true;
    assert_eq!(
        field_mismatches(&fresh, &persisted),
        vec![mismatch(Field::ProtectedContent, "false", "true")]
    );

    let mut persisted = bottle_pop();
    persisted.guid = "9FF460F724DA0761".to_string();
    assert_eq!(
        field_mismatches(&fresh, &persisted),
        vec![mismatch(Field::Guid, "9ff460f724da0761", "9FF460F724DA0761")]
    );
}

#[test]
fn playing_times_are_written_in_seconds() {
    let cases: [(u128, &str); 9] = [
        (0, "0"),
        (1, "0.000000001"),
        (244_000_000, "0.244"),
        (1_741_000_000, "1.741"),
        (11_190_000_000, "11.19"),
        (14_943_000_000, "14.943"),
        (3_000_000_000, "3"),
        (100_000_000_000, "100"),
        (1_000_000_010, "1.00000001"),
    ];
    let zero = Tone { total_time: 7, ..bottle_pop() };
    for (nanos, text) in cases {
        let tone = Tone { total_time: nanos, ..bottle_pop() };
        assert_eq!(field_mismatches(&tone, &zero), vec![mismatch(Field::TotalTime, text, "0.000000007")]);
    }
    let longest = Tone { total_time: u128::MAX, ..bottle_pop() };
    assert_eq!(
        field_mismatches(&longest, &zero),
        vec![mismatch(Field::TotalTime, "340282366920938463463374607431.768211455", "0.000000007")]
    );
}

#[test]
fn playing_times_are_written_as_their_seconds_are() {
    for millis in [244u64, 1_741, 11_190, 14_943, 3_000, 500, 10] {
        let tone = Tone { total_time: millis as u128 * 1_000_000, ..bottle_pop() };
        let other = Tone { total_time: 7, ..bottle_pop() };
        let found = field_mismatches(&tone, &other);
        assert_eq!(found[0].fresh, format!("{}", millis as f64 / 1e3));
    }
}

#[test]
fn numbers_are_written_in_decimal() {
    for pid in [0u64, 7, 10, 99, 100, 1234567890, u64::MAX] {
        let tone = Tone { pid, ..bottle_pop() };
        let other = Tone { pid: 1, ..bottle_pop() };
        assert_eq!(field_mismatches(&tone, &other), vec![mismatch(Field::Pid, &pid.to_string(), "1")]);
    }
}

#[test]
fn the_fields_are_called_as_in_a_catalog() {
    assert_eq!(Field::Name.name(), "Name");
    assert_eq!(Field::TotalTime.name(), "Total Time");
    assert_eq!(Field::MediaKind.name(), "Media Kind");
    assert_eq!(Field::ProtectedContent.name(), "Protected Content");
    assert_eq!(Field::Pid.name(), "PID");
    assert_eq!(Field::Guid.name(), "GUID");
}

#[test]
fn a_mismatch_is_shown_with_its_field_set_to_the_right() {
    assert_eq!(
        mismatch(Field::Name, "TP_Bottle_Pop", "Other").line(),
        format!("{:>21} {} != {}", "\"Name\"", "TP_Bottle_Pop", "Other")
    );
    assert_eq!(
        mismatch(Field::TotalTime, "0.244", "1.7").line(),
        "         \"Total Time\" 0.244 != 1.7"
    );
    assert_eq!(
        mismatch(Field::ProtectedContent, "false", "true").line(),
        "  \"Protected Content\" false != true"
    );
    assert_eq!(mismatch(Field::Pid, "", "").line(), "                \"PID\"  != ");
    for field in [Field::Name, Field::TotalTime, Field::MediaKind, Field::ProtectedContent, Field::Pid, Field::Guid] {
        let key = format!("\"{}\"", field.name());
        assert_eq!(mismatch(field, "a b", "c").line(), format!("{:>21} {} != {}", key, "a b", "c"));
    }
}

#[test]
fn a_discrepancy_is_reported_under_the_name_of_its_record() {
    let missing = Discrepancy::Missing { name: "TP_HawkGrass.m4r".to_string() };
    assert_eq!(
        missing.report("\"Media/iTunes_Control/iTunes/Ringtones.plist\""),
        vec![
            "TP_HawkGrass.m4r".to_string(),
            "not present in \"Media/iTunes_Control/iTunes/Ringtones.plist\"".to_string(),
        ]
    );
    let differs = Discrepancy::Differs {
        name: "TP_Bottle_Pop.m4r".to_string(),
        mismatches: vec![mismatch(Field::TotalTime, "0.244", "1.7"), mismatch(Field::Guid, "a", "b")],
    };
    assert_eq!(
        differs.report("catalog"),
        vec![
            "TP_Bottle_Pop.m4r".to_string(),
            "         \"Total Time\" 0.244 != 1.7".to_string(),
            "               \"GUID\" a != b".to_string(),
        ]
    );
    assert_eq!(differs.name(), "TP_Bottle_Pop.m4r");
    assert_eq!(missing.name(), "TP_HawkGrass.m4r");
}

#[test]
fn the_comparison_gives_the_same_report_every_time() {
    let fresh = tones_in_directory(&example_listing(), &10);
    let mut persisted = tones_in_directory(&example_listing()[1..].to_vec(), &12);
    persisted.insert("Zebra.m4r".to_string(), bottle_pop());
    let first = validate_ringtones_plist(&fresh, &persisted);
    let second = validate_ringtones_plist(&fresh, &persisted);
    assert_eq!(first, second);
    assert_eq!(
        first,
        vec![
            Discrepancy::Missing { name: "TP_Bottle_Pop.m4r".to_string() },
            Discrepancy::Differs {
                name: "TP_HawkGrass.m4r".to_string(),
                mismatches: vec![mismatch(Field::MediaKind, "Ringtone", "Tone")],
            },
        ]
    );
}
