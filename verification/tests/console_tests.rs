use wiki_bfs::console_helper::{get_input_i16, get_input_i32, get_input_i8, Menu};

fn menu() -> Menu<'static> {
    Menu {
        name: "".to_string(),
        options: vec!["Exit", "Create New Search (Breadth First Search) ", "Create new Search (Bi Direction BFS)"],
    }
}

#[test]
fn get_option_with_one_option() {
    let m = Menu { name: "single ".to_string(), options: vec!["Only"] };
    assert_eq!(m.get_option(0), Some(0));
    assert_eq!(m.get_option(1), Some(1));
    assert_eq!(m.get_option(2), None);
}

#[test]
fn get_option_accepts_each_listed_option() {
    let m = menu();
    assert_eq!(m.get_option(0), Some(0));
    assert_eq!(m.get_option(1), Some(1));
    assert_eq!(m.get_option(2), Some(2));
}

#[test]
fn get_option_accepts_the_number_of_options() {
    // 0 up to the number of options, both included, are taken.
    assert_eq!(menu().get_option(3), Some(3));
}

#[test]
fn get_option_refuses_out_of_range_answers() {
    let m = menu();
    assert_eq!(m.get_option(-1), None);
    assert_eq!(m.get_option(-128), None);
    assert_eq!(m.get_option(4), None);
    assert_eq!(m.get_option(127), None);
}

#[test]
fn parses_plain_and_signed_numerals() {
    assert_eq!(get_input_i8("42"), Some(42));
    assert_eq!(get_input_i8("+5"), Some(5));
    assert_eq!(get_input_i8("-7"), Some(-7));
    assert_eq!(get_input_i8("0007"), Some(7));
    assert_eq!(get_input_i8("-0"), Some(0));
}

#[test]
fn parses_the_bounds_of_each_width() {
    assert_eq!(get_input_i8("127"), Some(127));
    assert_eq!(get_input_i8("-128"), Some(-128));
    assert_eq!(get_input_i16("32767"), Some(32767));
    assert_eq!(get_input_i16("-32768"), Some(-32768));
    assert_eq!(get_input_i32("2147483647"), Some(2147483647));
    assert_eq!(get_input_i32("-2147483648"), Some(-2147483648));
}

#[test]
fn refuses_numerals_out_of_range() {
    assert_eq!(get_input_i8("128"), None);
    assert_eq!(get_input_i8("-129"), None);
    assert_eq!(get_input_i16("32768"), None);
    assert_eq!(get_input_i32("2147483648"), None);
    assert_eq!(get_input_i32("99999999999999999999999"), None);
    assert_eq!(get_input_i8("-00000000000000000000000000000129"), None);
}

#[test]
fn refuses_what_is_no_numeral() {
    for s in ["", "+", "-", "1a", " 1", "1 ", "--1", "+-1", "1.0", "x", "١"] {
        assert_eq!(get_input_i8(s), None, "input {:?}", s);
        assert_eq!(get_input_i32(s), None, "input {:?}", s);
    }
}

#[test]
fn parsing_agrees_with_std() {
    let samples = [
        "0", "1", "-1", "+1", "127", "128", "-128", "-129", "255", "256", "32767", "32768", "-32768",
        "-32769", "65535", "2147483647", "2147483648", "-2147483648", "-2147483649", "007", "+0",
        "-0", "", "+", "-", "abc", "12x", "x12", " 3", "3 ", "1_000", "0x10", "4294967296",
    ];
    for s in samples {
        assert_eq!(get_input_i8(s), s.parse::<i8>().ok(), "i8 {:?}", s);
        assert_eq!(get_input_i16(s), s.parse::<i16>().ok(), "i16 {:?}", s);
        assert_eq!(get_input_i32(s), s.parse::<i32>().ok(), "i32 {:?}", s);
    }
}
