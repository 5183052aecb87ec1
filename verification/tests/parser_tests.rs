use croner::parser::CronParser;

fn bits_set(mut mask: u64, max_bit: u8) -> Vec<u8> {
    let mut out = Vec::new();
    for b in 0..=max_bit {
        if (mask & 1) == 1 {
            out.push(b);
        }
        mask >>= 1;
    }
    out
}

fn assert_has_bits(mask: u64, expected: &[u8], max_bit: u8) {
    let mut got = bits_set(mask, max_bit);
    got.sort_unstable();
    let mut want = expected.to_vec();
    want.sort_unstable();
    assert_eq!(got, want, "bitmask mismatch");
}

#[test]
fn parses_wildcards_for_all_fields() {
    let p = CronParser::new();
    let s = p.parse("* * * * *").unwrap();

    assert_eq!(bits_set(s.minute, 59).len(), 60);
    assert_eq!(bits_set(s.hour as u64, 23).len(), 24);
    assert_eq!(bits_set(s.day as u64, 31).len(), 31);
    assert_eq!(bits_set(s.month as u64, 12).len(), 12);
    assert_eq!(bits_set(s.weekday as u64, 6).len(), 7);
}

#[test]
fn parses_simple_values_and_boundaries() {
    let p = CronParser::new();
    let s = p.parse("59 23 31 12 6").unwrap();

    assert_has_bits(s.minute, &[59], 59);
    assert_has_bits(s.hour as u64, &[23], 23);
    assert_has_bits(s.day as u64, &[31], 31);
    assert_has_bits(s.month as u64, &[12], 12);
    assert_has_bits(s.weekday as u64, &[6], 6);
}

#[test]
fn parses_comma_lists_and_dedupes() {
    let p = CronParser::new();
    let s = p.parse("0,15,15,30,45 1,2,2 1,2,3 1,2 0,6").unwrap();

    assert_has_bits(s.minute, &[0, 15, 30, 45], 59);
    assert_has_bits(s.hour as u64, &[1, 2], 23);
    assert_has_bits(s.day as u64, &[1, 2, 3], 31);
    assert_has_bits(s.month as u64, &[1, 2], 12);
    assert_has_bits(s.weekday as u64, &[0, 6], 6);
}

#[test]
fn parses_ranges() {
    let p = CronParser::new();
    let s = p.parse("10-12 8-10 5-7 3-5 2-4").unwrap();

    assert_has_bits(s.minute, &[10, 11, 12], 59);
    assert_has_bits(s.hour as u64, &[8, 9, 10], 23);
    assert_has_bits(s.day as u64, &[5, 6, 7], 31);
    assert_has_bits(s.month as u64, &[3, 4, 5], 12);
    assert_has_bits(s.weekday as u64, &[2, 3, 4], 6);
}

#[test]
fn parses_steps_from_start() {
    let p = CronParser::new();

    let s = p.parse("*/15 * * * *").unwrap();
    assert_has_bits(s.minute, &[0, 15, 30, 45], 59);

    let s = p.parse("* */1 * * *").unwrap();
    assert_eq!(bits_set(s.hour as u64, 23).len(), 24);
}

#[test]
fn mixes_lists_ranges_wildcards_and_steps() {
    let p = CronParser::new();

    let s = p.parse("1,5-7,*/30 9-11 * 1,6 0,3,6").unwrap();
    assert_has_bits(s.minute, &[0, 1, 5, 6, 7, 30], 59);
    assert_has_bits(s.hour as u64, &[9, 10, 11], 23);
    assert_eq!(bits_set(s.day as u64, 31).len(), 31);
    assert_has_bits(s.month as u64, &[1, 6], 12);
    assert_has_bits(s.weekday as u64, &[0, 3, 6], 6);
}

#[test]
fn trims_and_requires_five_fields() {
    let p = CronParser::new();

    let s = p.parse("   0 0 1 1 0   ").unwrap();
    assert_has_bits(s.minute, &[0], 59);

    let err = p.parse("0 0 1 1").unwrap_err();
    assert!(err.contains("Expected 5 fields"), "got err: {}", err);

    let err = p.parse("0 0 1 1 0 extra").unwrap_err();
    assert!(err.contains("Expected 5 fields"), "got err: {}", err);
}

#[test]
fn rejects_out_of_range_values() {
    let p = CronParser::new();

    let err = p.parse("60 0 1 1 0").unwrap_err();
    assert!(err.contains("Invalid value"), "got err: {}", err);

    let err = p.parse("0 24 1 1 0").unwrap_err();
    assert!(err.contains("Invalid value"), "got err: {}", err);

    let err = p.parse("0 0 0 1 0").unwrap_err();
    assert!(err.contains("Invalid value"), "got err: {}", err);

    let err = p.parse("0 0 1 13 0").unwrap_err();
    assert!(err.contains("Invalid value"), "got err: {}", err);

    let err = p.parse("0 0 1 1 7").unwrap_err();
    assert!(err.contains("Invalid value"), "got err: {}", err);
}

#[test]
fn rejects_bad_ranges() {
    let p = CronParser::new();

    let err = p.parse("10-5 0 1 1 0").unwrap_err();
    assert!(err.contains("Invalid range"), "got err: {}", err);

    let err = p.parse("0 0 0-5 1 0").unwrap_err();
    assert!(
        err.contains("Invalid value") || (err.contains("Invalid range")),
        "got err: {}",
        err
    );

    let err = p.parse("0 0 1 10-15 0").unwrap_err();
    assert!(err.contains("Invalid range"), "got err: {}", err);

    let err = p.parse("0 0 1 a-b-c 0").unwrap_err();
    assert!(
        err.contains("Invalid range") || (err.contains("Invalid value")),
        "got err: {}",
        err
    );
}

#[test]
fn rejects_non_numeric_parts() {
    let p = CronParser::new();

    let err = p.parse("x * * * *").unwrap_err();
    assert!(err.contains("Invalid value"), "got err: {}", err);

    let err = p.parse("* y * * *").unwrap_err();
    assert!(err.contains("Invalid value"), "got err: {}", err);

    let err = p.parse("* * z * *").unwrap_err();
    assert!(err.contains("Invalid value"), "got err: {}", err);

    let err = p.parse("* * * w *").unwrap_err();
    assert!(err.contains("Invalid value"), "got err: {}", err);

    let err = p.parse("* * * * v").unwrap_err();
    assert!(err.contains("Invalid value"), "got err: {}", err);
}

#[test]
fn step_parsing_basic_sanity() {
    let p = CronParser::new();

    let s = p.parse("*/5 * * * *").unwrap();
    let mins = bits_set(s.minute, 59);
    assert_eq!(mins.len(), 12);
    assert!(mins.contains(&0) && mins.contains(&55));

    let s = p.parse("* * * * */2").unwrap();
    assert_has_bits(s.weekday as u64, &[0, 2, 4, 6], 6);
}

#[test]
fn range_edges_and_overlaps() {
    let p = CronParser::new();

    let s = p.parse("10-12,12-15,14 5-6,6 1-3,2 2-4,4 1-3,0-2").unwrap();

    assert_has_bits(s.minute, &[10, 11, 12, 13, 14, 15], 59);
    assert_has_bits(s.hour as u64, &[5, 6], 23);
    assert_has_bits(s.day as u64, &[1, 2, 3], 31);
    assert_has_bits(s.month as u64, &[2, 3, 4], 12);
    assert_has_bits(s.weekday as u64, &[0, 1, 2, 3], 6);
}

#[test]
fn error_messages_name_the_offending_part() {
    let p = CronParser::new();
    assert_eq!(p.parse("60 0 1 1 0").unwrap_err(), "Invalid value: 60");
    assert_eq!(p.parse("0 0 1 a-b-c 0").unwrap_err(), "Invalid range: a-b-c");
    assert_eq!(p.parse("10-5 0 1 1 0").unwrap_err(), "Invalid range: 10-5");
    assert_eq!(p.parse("*/x 0 1 1 0").unwrap_err(), "Invalid step: */x");
    assert_eq!(p.parse("*/0 0 1 1 0").unwrap_err(), "Invalid step: */0");
    assert_eq!(p.parse("1,,2 0 1 1 0").unwrap_err(), "Invalid value: ");
    assert_eq!(
        p.parse("0 0 1 1 0 extra").unwrap_err(),
        "Expected 5 fields in cron expression, got: 6"
    );
    assert_eq!(p.parse("").unwrap_err(), "Expected 5 fields in cron expression, got: 0");
    assert_eq!(
        p.parse("1 2 3 4 5 6 7 8 9 10 11 12").unwrap_err(),
        "Expected 5 fields in cron expression, got: 12"
    );
}

#[test]
fn first_error_in_field_order_wins() {
    let p = CronParser::new();
    assert_eq!(p.parse("61 25 1 1 0").unwrap_err(), "Invalid value: 61");
    assert_eq!(p.parse("0 1,25,26 1 1 0").unwrap_err(), "Invalid value: 25");
}

#[test]
fn large_step_sets_only_the_lowest_value() {
    let p = CronParser::new();
    let s = p.parse("*/200 */255 */255 */40 */7").unwrap();
    assert_has_bits(s.minute, &[0], 59);
    assert_has_bits(s.hour as u64, &[0], 23);
    assert_has_bits(s.day as u64, &[1], 31);
    assert_has_bits(s.month as u64, &[1], 12);
    assert_has_bits(s.weekday as u64, &[0], 6);
    assert_eq!(p.parse("*/256 * * * *").unwrap_err(), "Invalid step: */256");
}

#[test]
fn step_counts_from_the_fields_lowest_value() {
    let p = CronParser::new();
    let s = p.parse("* * */10 */5 *").unwrap();
    assert_has_bits(s.day as u64, &[1, 11, 21, 31], 31);
    assert_has_bits(s.month as u64, &[1, 6, 11], 12);
}

#[test]
fn numbers_may_carry_a_plus_sign_and_leading_zeros() {
    let p = CronParser::new();
    let s = p.parse("+5 007 +1-+3 1 0").unwrap();
    assert_has_bits(s.minute, &[5], 59);
    assert_has_bits(s.hour as u64, &[7], 23);
    assert_has_bits(s.day as u64, &[1, 2, 3], 31);
    assert_eq!(p.parse("+ 0 1 1 0").unwrap_err(), "Invalid value: +");
    assert_eq!(p.parse("-5 0 1 1 0").unwrap_err(), "Invalid range: -5");
}

#[test]
fn fields_may_be_separated_by_any_unicode_whitespace() {
    let p = CronParser::new();
    let s = p.parse("1\t2\u{a0}3\u{2003}4\n5").unwrap();
    assert_has_bits(s.minute, &[1], 59);
    assert_has_bits(s.hour as u64, &[2], 23);
    assert_has_bits(s.day as u64, &[3], 31);
    assert_has_bits(s.month as u64, &[4], 12);
    assert_has_bits(s.weekday as u64, &[5], 6);
}

#[test]
fn comma_joined_field_is_the_union_of_its_sides() {
    let p = CronParser::new();
    let a = p.parse("10-12 * * * *").unwrap().minute;
    let b = p.parse("12-15 * * * *").unwrap().minute;
    let c = p.parse("14 * * * *").unwrap().minute;
    let joined = p.parse("10-12,12-15,14 * * * *").unwrap().minute;
    assert_eq!(joined, a | b | c);
    assert_eq!(joined, p.parse("10-15 * * * *").unwrap().minute);
    assert_eq!(joined, 0b1111_1100_0000_0000);
}

#[test]
fn error_text_keeps_non_ascii_parts() {
    let p = CronParser::new();
    assert_eq!(p.parse("caf\u{e9} * * * *").unwrap_err(), "Invalid value: caf\u{e9}");
}
