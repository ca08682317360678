use contacts::codec::{
    create_csv_record, decode, encode, field_is_clean, parse_u16, u16_to_decimal, Record,
};
use contacts::input::{menu_choice, parse_i32, trim_line, MenuChoice};
use contacts::search::{line_match, search_csv, str_eq};
use contacts::store::{append_to_csv, next_id, read_from_csv};

fn rec(id: u16, name: &str, email: &str) -> Record {
    create_csv_record(id, name, email)
}

#[test]
fn round_trip_plain_record() {
    let r = rec(1, "Alice", "alice@x.com");
    let line = encode(&r);
    assert_eq!(line, "1,Alice,alice@x.com\n");
    assert_eq!(decode(&line), Some(r));
}

#[test]
fn round_trip_empty_email() {
    let r = rec(2, "Bob", "");
    assert_eq!(decode(&encode(&r)), Some(r));
}

#[test]
fn round_trip_empty_name() {
    let r = rec(9, "", "x@y.z");
    assert_eq!(decode(&encode(&r)), Some(r));
}

#[test]
fn round_trip_extreme_ids() {
    for id in [0u16, 7, 10, 999, 65535] {
        let r = rec(id, "n", "e");
        assert_eq!(decode(&encode(&r)), Some(r));
    }
}

#[test]
fn decode_accepts_line_with_and_without_terminator() {
    let with = decode("2,Bob,\n").unwrap();
    let without = decode("2,Bob,").unwrap();
    assert_eq!(with, without);
    assert_eq!(with.id, 2);
    assert_eq!(with.name, "Bob");
    assert_eq!(with.email, "");
}

#[test]
fn decode_wrong_field_count_is_malformed() {
    assert_eq!(decode("1,Alice"), None);
    assert_eq!(decode("1"), None);
    assert_eq!(decode("1,a,b,c"), None);
    assert_eq!(decode("a,b,c,d,e"), None);
}

#[test]
fn decode_non_numeric_id_is_malformed() {
    assert_eq!(decode("x,Bob,"), None);
    assert_eq!(decode(" 1,Bob,"), None);
    assert_eq!(decode("+1,Bob,"), None);
    assert_eq!(decode("-1,Bob,"), None);
    assert_eq!(decode("1.5,Bob,"), None);
    assert_eq!(decode(",Bob,"), None);
}

#[test]
fn decode_id_overflow_is_malformed() {
    assert_eq!(decode("65535,ok,"), Some(rec(65535, "ok", "")));
    assert_eq!(decode("65536,ok,"), None);
    assert_eq!(decode("99999999999999999999,ok,"), None);
}

#[test]
fn decode_empty_and_blank_lines_are_malformed() {
    assert_eq!(decode(""), None);
    assert_eq!(decode("\n"), None);
}

#[test]
fn load_mixed_contents_keeps_good_rows_in_order() {
    let contents = "1,Alice,alice@x.com\n\n2,Bob,\n";
    let (records, count) = read_from_csv(contents);
    assert_eq!(count, 2);
    assert_eq!(records.len(), 2);
    assert_eq!(records[0], rec(1, "Alice", "alice@x.com"));
    assert_eq!(records[1], rec(2, "Bob", ""));
}

#[test]
fn load_tolerates_many_bad_rows() {
    let contents = "junk\n5,Eve,e@x\nnot,numeric,row\n\n\n7,Gil,\ntoo,many,fields,here\n";
    let (records, count) = read_from_csv(contents);
    assert_eq!(count, 2);
    assert_eq!(records[0], rec(5, "Eve", "e@x"));
    assert_eq!(records[1], rec(7, "Gil", ""));
}

#[test]
fn load_empty_contents_gives_no_records() {
    let (records, count) = read_from_csv("");
    assert_eq!(count, 0);
    assert!(records.is_empty());
}

#[test]
fn load_keeps_duplicate_ids() {
    let (records, count) = read_from_csv("1,a,\n1,b,\n");
    assert_eq!(count, 2);
    assert_eq!(records[0].name, "a");
    assert_eq!(records[1].name, "b");
}

#[test]
fn append_then_load_adds_exactly_one_record() {
    let contents = "1,Alice,alice@x.com\n2,Bob,\n";
    let (before, n_before) = read_from_csv(contents);
    let r = rec(3, "Carol", "");
    let grown = append_to_csv(contents, &r);
    let (after, n_after) = read_from_csv(&grown);
    assert_eq!(n_after, n_before + 1);
    assert_eq!(after[..n_before], before[..]);
    assert_eq!(after[n_before], r);
}

#[test]
fn append_writes_the_encoded_line_verbatim() {
    let r = rec(3, "Carol", "");
    assert_eq!(encode(&r), "3,Carol,\n");
    let grown = append_to_csv("1,Alice,a@x\n", &r);
    assert_eq!(grown, "1,Alice,a@x\n3,Carol,\n");
}

#[test]
fn append_to_empty_contents() {
    let grown = append_to_csv("", &rec(1, "First", "f@x"));
    let (records, count) = read_from_csv(&grown);
    assert_eq!(count, 1);
    assert_eq!(records[0], rec(1, "First", "f@x"));
}

#[test]
fn search_exact_email_match() {
    let contents = "1,Alice,alice@example.com\n2,Bob,bob@example.com\n3,Alice,other@y\n";
    let rows = search_csv("alice@example.com", contents);
    assert_eq!(rows, vec!["1,Alice,alice@example.com".to_string()]);
}

#[test]
fn search_no_match_is_empty_not_an_error() {
    let contents = "1,Alice,alice@example.com\n";
    let rows = search_csv("nonexistent", contents);
    assert!(rows.is_empty());
}

#[test]
fn search_is_full_field_not_substring() {
    let contents = "1,Alice,alice@example.com\n";
    assert!(search_csv("alice", contents).is_empty());
    assert!(search_csv("Alic", contents).is_empty());
    assert_eq!(search_csv("Alice", contents).len(), 1);
}

#[test]
fn search_matches_id_and_name_fields_too() {
    let contents = "1,Alice,a@x\n2,Bob,b@x\n";
    assert_eq!(search_csv("2", contents), vec!["2,Bob,b@x".to_string()]);
    assert_eq!(search_csv("Bob", contents), vec!["2,Bob,b@x".to_string()]);
}

#[test]
fn search_treats_first_row_as_data_and_skips_malformed() {
    let contents = "1,Alice,a@x\nbad,row,\n\n1,Alice,a@x\n";
    let rows = search_csv("Alice", contents);
    assert_eq!(rows.len(), 2);
    assert_eq!(rows[0], "1,Alice,a@x");
    assert_eq!(rows[1], "1,Alice,a@x");
}

#[test]
fn line_match_requires_well_formed_row() {
    assert!(line_match("1,Alice,a@x", "Alice"));
    assert!(!line_match("x,Alice,a@x", "Alice"));
    assert!(!line_match("1,Alice", "Alice"));
    assert!(!line_match("", ""));
}

#[test]
fn str_eq_compares_exactly() {
    assert!(str_eq("", ""));
    assert!(str_eq("abc", "abc"));
    assert!(!str_eq("abc", "abd"));
    assert!(!str_eq("abc", "ab"));
}

#[test]
fn next_id_is_one_past_the_largest() {
    let (records, _) = read_from_csv("1,a,\n7,b,\n3,c,\n");
    assert_eq!(next_id(&records), Some(8));
}

#[test]
fn next_id_of_empty_store_is_one() {
    let records = Vec::new();
    assert_eq!(next_id(&records), Some(1));
}

#[test]
fn next_id_exhausted_at_largest_identifier() {
    let records = vec![rec(65535, "full", "")];
    assert_eq!(next_id(&records), None);
}

#[test]
fn parse_u16_reads_identifier_numerals() {
    assert_eq!(parse_u16("0"), Some(0));
    assert_eq!(parse_u16("007"), Some(7));
    assert_eq!(parse_u16("65535"), Some(65535));
    assert_eq!(parse_u16("65536"), None);
    assert_eq!(parse_u16(""), None);
    assert_eq!(parse_u16("12a"), None);
}

#[test]
fn u16_to_decimal_renders_without_sign_or_padding() {
    assert_eq!(u16_to_decimal(0), "0");
    assert_eq!(u16_to_decimal(42), "42");
    assert_eq!(u16_to_decimal(65535), "65535");
}

#[test]
fn parse_i32_reads_signed_numbers() {
    assert_eq!(parse_i32("4"), Some(4));
    assert_eq!(parse_i32("-5"), Some(-5));
    assert_eq!(parse_i32("2147483647"), Some(2147483647));
    assert_eq!(parse_i32("2147483648"), None);
    assert_eq!(parse_i32("-2147483648"), Some(i32::MIN));
    assert_eq!(parse_i32("-2147483649"), None);
    assert_eq!(parse_i32(""), None);
    assert_eq!(parse_i32("-"), None);
    assert_eq!(parse_i32("1 2"), None);
}

#[test]
fn parse_i32_accepts_a_leading_plus_like_std_parse() {
    assert_eq!(parse_i32("+5"), Some(5));
    assert_eq!(parse_i32("+0"), Some(0));
    assert_eq!(parse_i32("+2147483647"), Some(2147483647));
    assert_eq!(parse_i32("+2147483648"), None);
    assert_eq!(parse_i32("+"), None);
    assert_eq!(parse_i32("+-1"), None);
    assert_eq!(parse_i32("++1"), None);
    assert_eq!("+5".parse::<i32>().ok(), parse_i32("+5"));
    assert_eq!("+2147483648".parse::<i32>().ok(), parse_i32("+2147483648"));
}

#[test]
fn trim_line_strips_all_unicode_whitespace_like_std_trim() {
    assert_eq!(trim_line("\u{000B}3"), "3");
    assert_eq!(trim_line("\u{000C}x\u{00A0}"), "x");
    assert_eq!(trim_line("\u{2003} y \u{2028}"), "y");
    assert_eq!(trim_line("\u{0085}\u{1680}\u{200A}\u{202F}\u{205F}\u{3000}"), "");
    let noisy = "\u{000B}\u{00A0} keep \u{2029}\t";
    assert_eq!(trim_line(noisy), noisy.trim());
}

#[test]
fn field_is_clean_rejects_separator_and_terminator() {
    assert!(field_is_clean(""));
    assert!(field_is_clean("Alice"));
    assert!(field_is_clean("a b@x.y"));
    assert!(!field_is_clean("a,b"));
    assert!(!field_is_clean("a\nb"));
    assert!(!field_is_clean(","));
}

#[test]
fn trim_line_strips_input_whitespace() {
    assert_eq!(trim_line("  hello \n"), "hello");
    assert_eq!(trim_line("3\n"), "3");
    assert_eq!(trim_line("\t \r\n"), "");
    assert_eq!(trim_line("plain"), "plain");
    assert_eq!(trim_line("a b"), "a b");
}

#[test]
fn menu_choice_dispatch() {
    assert_eq!(menu_choice(1), MenuChoice::Show);
    assert_eq!(menu_choice(2), MenuChoice::Add);
    assert_eq!(menu_choice(3), MenuChoice::Search);
    assert_eq!(menu_choice(4), MenuChoice::Quit);
    assert_eq!(menu_choice(0), MenuChoice::Quit);
    assert_eq!(menu_choice(-1), MenuChoice::Quit);
}
