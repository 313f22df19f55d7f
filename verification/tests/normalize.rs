use catalog_reconcile::normalize::normalize;
use catalog_reconcile::text::to_upper;

#[test]
fn strips_leading_zeros() {
    assert_eq!(normalize("00123"), "123");
    assert_eq!(normalize("123"), "123");
}

#[test]
fn strips_only_the_leading_run() {
    assert_eq!(normalize("0010200"), "10200");
    assert_eq!(normalize("1000"), "1000");
}

#[test]
fn upper_cases_the_remainder() {
    assert_eq!(normalize("usrc17607839"), "USRC17607839");
    assert_eq!(normalize("00gbAYE0601498"), "GBAYE0601498");
}

#[test]
fn empty_and_all_zero_codes_give_the_empty_identifier() {
    assert_eq!(normalize(""), "");
    assert_eq!(normalize("0"), "");
    assert_eq!(normalize("0000"), "");
}

#[test]
fn zeros_after_other_characters_stay() {
    assert_eq!(normalize("0a0b0"), "A0B0");
    assert_eq!(normalize(" 0123"), " 0123");
}

#[test]
fn non_ascii_codes_are_upper_cased_by_unicode() {
    assert_eq!(normalize("0stra\u{df}e"), "STRASSE");
    assert_eq!(normalize("00\u{e9}t\u{e9}"), "\u{c9}T\u{c9}");
    assert_eq!(normalize("\u{3b1}\u{3b2}"), "\u{391}\u{392}");
}

#[test]
fn normalizing_twice_changes_nothing() {
    let codes = [
        "", "0", "000", "00123", "123", "0a0b0", "usrc17607839", "USRC17607839", "00gbAYE0601498",
        "0stra\u{df}e", "\u{e9}t\u{e9}", "00\u{3b1}0", " 0x", "0 0",
    ];
    for code in codes {
        let once = normalize(code);
        let twice = normalize(&once);
        assert_eq!(twice, once);
    }
}

#[test]
fn different_raw_codes_may_share_an_identifier() {
    assert_eq!(normalize("00123"), normalize("123"));
    assert_eq!(normalize("0abc"), normalize("ABC"));
}

#[test]
fn upper_casing_agrees_with_the_standard_library() {
    let samples = [
        "", "abc", "ABC", "a1b2", "hello world", "tsch\u{fc}\u{df}", "\u{149}", "\u{1c5}",
        "\u{3c2}\u{3c3}", "~{}|", "z", "Z",
    ];
    for sample in samples {
        assert_eq!(to_upper(sample), sample.to_uppercase());
    }
    for code in 0u32..128 {
        let c = char::from_u32(code).unwrap();
        let text = c.to_string();
        assert_eq!(to_upper(&text), text.to_uppercase());
    }
}

#[test]
fn ascii_upper_casing_maps_letters_only() {
    assert_eq!(to_upper("az09AZ-_"), "AZ09AZ-_");
    assert_eq!(to_upper("`a{"), "`A{");
}

#[test]
fn every_single_character_code_normalizes_to_a_fixed_point() {
    for code in 0u32..=0x10FFFF {
        if let Some(c) = char::from_u32(code) {
            let raw = c.to_string();
            let once = normalize(&raw);
            let twice = normalize(&once);
            assert_eq!(twice, once);
        }
    }
}
