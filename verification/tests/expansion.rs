use sexpand::{expand_hostnames, expand_pattern, get_host_range, pad_number, ExpandError};

fn owned(names: &[&str]) -> Vec<String> {
    names.iter().map(|name| name.to_string()).collect()
}

#[test]
fn test_pad_number() {
    // pad_number(1, 3) -> "001"
    assert_eq!(pad_number(1, 3), "001");

    // pad_number(1, 2) -> "01"
    assert_eq!(pad_number(1, 2), "01");
}

#[test]
fn test_get_host_range() {
    // get_host_range("n", "01", "03") -> ["n01", "n02", "n03"]
    assert_eq!(
        get_host_range(&"n", &"01", &"03").unwrap(),
        ["n01", "n02", "n03"]
    );

    // get_host_range("n", "01", "02") -> ["n01", "n02"]
    assert_eq!(get_host_range(&"n", &"01", &"02").unwrap(), ["n01", "n02"]);

    // get_host_range("n", "1", "02") -> Error
    let res = get_host_range(&"n", &"1", &"02");
    assert!(res.is_err())
}

#[test]
fn test_expand_hostnames() {
    // expand_hostnames("n01,n02") -> ["n01", "n02"]
    assert_eq!(expand_hostnames("n01,n02").unwrap(), ["n01", "n02"]);

    // expand_hostnames("n[01-02]") -> ["n01", "n02"]
    assert_eq!(expand_hostnames("n[01-02]").unwrap(), ["n01", "n02"]);

    // expand_hostnames("n[0-2]") -> ["n0", "n1", "n2"]
    assert_eq!(expand_hostnames("n[0-2]").unwrap(), ["n0", "n1", "n2"]);

    // expand_hostnames("n[01-05]") -> ["n01", "n02", "n03", "n04", "n05"]
    assert_eq!(
        expand_hostnames("n[01-05]").unwrap(),
        ["n01", "n02", "n03", "n04", "n05"]
    );

    // expand_hostnames("n[01,02],n03,n[05-07,09]") -> ["n01", "n02", "n03", "n05", "n06", "n07"]
    assert_eq!(
        expand_hostnames("n[01,02],n03,n[05-07,09]").unwrap(),
        ["n01", "n02", "n03", "n05", "n06", "n07", "n09"]
    );

    // expand_hostnames("n[01,02],n03,n[05-07,09]") -> ["n01", "n02", "n03", "n05", "n06", "n07"]
    assert_eq!(
        expand_hostnames("n[01,02],n03,n[05-07,09]").unwrap(),
        ["n01", "n02", "n03", "n05", "n06", "n07", "n09"]
    );

    // expand_hostnames("n[[01,02]-03],n[05-07,09]") -> Err
    let res = expand_hostnames("n[[01,02]-03],n[05-07,09]");
    assert!(res.is_err())
}

#[test]
fn test_expand_pattern() {
    // expand_pattern(["n01", "n02"], "", ",") -> "n01,n02"
    assert_eq!(
        expand_pattern(vec!["n01".to_string(), "n02".to_string()], "", ",").unwrap(),
        "n01,n02"
    );

    // expand_pattern(["n01", "n02"], ".", ",") -> Error
    let res = expand_pattern(vec!["n01".to_string(), "n02".to_string()], ".", ",");
    assert!(res.is_err())
}

#[test]
fn pad_number_keeps_long_numbers_whole() {
    assert_eq!(pad_number(12345, 2), "12345");
    assert_eq!(pad_number(7, 1), "7");
    assert_eq!(pad_number(0, 0), "0");
    assert_eq!(pad_number(0, 3), "000");
    assert_eq!(pad_number(2147483647, 12), "002147483647");
}

#[test]
fn pad_number_pads_in_front_of_the_sign() {
    assert_eq!(pad_number(-5, 4), "00-5");
    assert_eq!(pad_number(-2147483648, 0), "-2147483648");
}

#[test]
fn range_crosses_a_power_of_ten() {
    assert_eq!(
        get_host_range("n", "08", "11").unwrap(),
        ["n08", "n09", "n10", "n11"]
    );
    assert_eq!(
        get_host_range("node-", "098", "101").unwrap(),
        ["node-098", "node-099", "node-100", "node-101"]
    );
}

#[test]
fn range_of_one_number() {
    assert_eq!(get_host_range("", "0", "0").unwrap(), ["0"]);
    assert_eq!(
        get_host_range("n", "2147483647", "2147483647").unwrap(),
        ["n2147483647"]
    );
    assert_eq!(get_host_range("n", "0000000007", "0000000007").unwrap(), ["n0000000007"]);
}

#[test]
fn range_has_as_many_names_as_numbers() {
    let names = get_host_range("host", "0095", "0120").unwrap();
    assert_eq!(names.len(), 26);
    for name in names.iter() {
        assert!(name.starts_with("host"));
        assert_eq!(name.len(), 8);
        assert!(name[4..].chars().all(|c| c.is_ascii_digit()));
    }
    assert_eq!(names[0], "host0095");
    assert_eq!(names[25], "host0120");
}

#[test]
fn descending_range_is_empty() {
    assert_eq!(get_host_range("n", "3", "1").unwrap(), Vec::<String>::new());
    assert_eq!(get_host_range("n", "10", "09").unwrap(), Vec::<String>::new());
}

#[test]
fn range_with_ends_of_different_width_is_refused() {
    assert_eq!(get_host_range("n", "1", "02"), Err(ExpandError::MismatchedWidth));
    assert_eq!(get_host_range("", "10", "9"), Err(ExpandError::MismatchedWidth));
    assert_eq!(get_host_range("any prefix", "", "5"), Err(ExpandError::MismatchedWidth));
    assert_eq!(get_host_range("n", "x", "10"), Err(ExpandError::MismatchedWidth));
}

#[test]
fn range_with_an_end_that_is_no_number_is_refused() {
    assert_eq!(
        get_host_range("n", "a", "1"),
        Err(ExpandError::InvalidNumber("a".to_string()))
    );
    assert_eq!(
        get_host_range("n", "1", "x"),
        Err(ExpandError::InvalidNumber("x".to_string()))
    );
    assert_eq!(
        get_host_range("n", "", ""),
        Err(ExpandError::InvalidNumber("".to_string()))
    );
    assert_eq!(
        get_host_range("n", "-1", "+3"),
        Err(ExpandError::InvalidNumber("-1".to_string()))
    );
    assert_eq!(
        get_host_range("n", "0000000001", "2147483648"),
        Err(ExpandError::InvalidNumber("2147483648".to_string()))
    );
    assert_eq!(
        get_host_range("n", "٣", "٤"),
        Err(ExpandError::InvalidNumber("٣".to_string()))
    );
}

#[test]
fn empty_pattern_has_no_names() {
    assert_eq!(expand_hostnames("").unwrap(), Vec::<String>::new());
}

#[test]
fn names_are_sorted_and_listed_once() {
    assert_eq!(expand_hostnames("b,a,c,a").unwrap(), ["a", "b", "c"]);
    assert_eq!(expand_hostnames("n1,n1").unwrap(), ["n1"]);
    assert_eq!(expand_hostnames("n10,n9,n1").unwrap(), ["n1", "n10", "n9"]);
    assert_eq!(expand_hostnames("n[2-3,1-2]").unwrap(), ["n1", "n2", "n3"]);
    assert_eq!(expand_hostnames("ab,a,B").unwrap(), ["B", "a", "ab"]);
}

#[test]
fn order_of_items_does_not_matter() {
    let one = expand_hostnames("n[01,02],m03,n[05-07,09]").unwrap();
    let two = expand_hostnames("n[05-07,09],n[01,02],m03").unwrap();
    let three = expand_hostnames("m03,n[05-07,09],n[01,02]").unwrap();
    assert_eq!(one, ["m03", "n01", "n02", "n05", "n06", "n07", "n09"]);
    assert_eq!(one, two);
    assert_eq!(one, three);
}

#[test]
fn comma_at_either_end() {
    assert_eq!(expand_hostnames("a,").unwrap(), ["a"]);
    assert_eq!(expand_hostnames(",a").unwrap(), ["", "a"]);
    assert_eq!(expand_hostnames("a,,b").unwrap(), ["", "a", "b"]);
}

#[test]
fn number_stays_after_a_closed_range() {
    assert_eq!(
        expand_hostnames("n[01-03]x").unwrap(),
        ["n01", "n02", "n03", "nx03"]
    );
    assert_eq!(expand_hostnames("n[1-2],m").unwrap(), ["m", "n1", "n2"]);
}

#[test]
fn range_followed_by_comma_in_brackets_adds_the_bare_end() {
    assert_eq!(
        expand_hostnames("n[1-2,7]").unwrap(),
        ["n1", "n2", "n7"]
    );
    assert_eq!(expand_hostnames("n[5-6],").unwrap(), ["n5", "n6"]);
}

#[test]
fn letters_in_brackets_are_dropped() {
    assert_eq!(expand_hostnames("n[a1,b2]").unwrap(), ["n1", "n2"]);
}

#[test]
fn other_characters_are_passed_over() {
    assert_eq!(expand_hostnames("n_1, n 2").unwrap(), ["n1", "n2"]);
    assert_eq!(expand_hostnames("ñ1,é[1-2]").unwrap(), ["é1", "é2", "ñ1"]);
}

#[test]
fn numerals_of_any_script_are_collected() {
    assert_eq!(expand_hostnames("n²,n٣").unwrap(), ["n²", "n٣"]);
}

#[test]
fn character_that_is_letter_and_numeral_is_collected_twice() {
    // The Roman numeral eight is alphabetic and numeric.
    assert_eq!(expand_hostnames("Ⅷ").unwrap(), ["ⅧⅧ"]);
    assert_eq!(expand_hostnames("n[Ⅷ]").unwrap(), ["nⅧ"]);
}

#[test]
fn unclosed_bracket_is_accepted() {
    assert_eq!(expand_hostnames("n[1-3").unwrap(), ["n1", "n2", "n3"]);
    assert_eq!(expand_hostnames("n[1,2").unwrap(), ["n1", "n2"]);
}

#[test]
fn bracket_closed_without_being_opened() {
    assert_eq!(expand_hostnames("a]b,c").unwrap(), ["a"]);
    assert_eq!(expand_hostnames("a]]b[c,d").unwrap(), ["a"]);
}

#[test]
fn descending_range_in_a_pattern() {
    assert_eq!(expand_hostnames("n[5-3]").unwrap(), ["n3"]);
}

#[test]
fn nested_bracket_is_refused() {
    assert_eq!(
        expand_hostnames("n[[01,02]-03],n[05-07,09]"),
        Err(ExpandError::NestedBrackets)
    );
    assert_eq!(expand_hostnames("n[1[2]]"), Err(ExpandError::NestedBrackets));
    assert_eq!(expand_hostnames("n[1],m[2]").unwrap(), ["m2", "n1"]);
}

#[test]
fn range_failures_come_through() {
    assert_eq!(expand_hostnames("n[0-09]"), Err(ExpandError::MismatchedWidth));
    assert_eq!(expand_hostnames("n[-5]"), Err(ExpandError::MismatchedWidth));
    assert_eq!(expand_hostnames("web-01"), Err(ExpandError::MismatchedWidth));
    assert_eq!(
        expand_hostnames("n[-]"),
        Err(ExpandError::InvalidNumber("".to_string()))
    );
    assert_eq!(
        expand_hostnames("n[9999999999-9999999999]"),
        Err(ExpandError::InvalidNumber("9999999999".to_string()))
    );
    assert_eq!(
        expand_hostnames("n[1-٣]"),
        Err(ExpandError::InvalidNumber("٣".to_string()))
    );
}

#[test]
fn first_failure_wins() {
    assert_eq!(
        expand_hostnames("n[0-09],m[[1]]"),
        Err(ExpandError::MismatchedWidth)
    );
    assert_eq!(
        expand_hostnames("m[[1]],n[0-09]"),
        Err(ExpandError::NestedBrackets)
    );
}

#[test]
fn template_is_filled_for_each_name() {
    assert_eq!(
        expand_pattern(owned(&["n01", "n02"]), "ssh {} uptime", "; ").unwrap(),
        "ssh n01 uptime; ssh n02 uptime"
    );
    assert_eq!(
        expand_pattern(owned(&["a", "b"]), "{}-{}", ",").unwrap(),
        "a-a,b-b"
    );
    assert_eq!(
        expand_pattern(owned(&["a"]), "{{}}", ",").unwrap(),
        "{a}"
    );
    assert_eq!(
        expand_pattern(owned(&["a"]), "}{}{", ",").unwrap(),
        "}a{"
    );
}

#[test]
fn what_was_put_in_is_not_searched_again() {
    assert_eq!(
        expand_pattern(owned(&["{}", "}"]), "{{}", "|").unwrap(),
        "{{}|{}"
    );
}

#[test]
fn rendering_keeps_order_and_repeats() {
    assert_eq!(
        expand_pattern(owned(&["b", "a", "b"]), "{}", ",").unwrap(),
        "b,a,b"
    );
}

#[test]
fn rendering_of_no_names_is_empty() {
    assert_eq!(expand_pattern(Vec::new(), "{}", ",").unwrap(), "");
    assert_eq!(expand_pattern(Vec::new(), "", "\\n").unwrap(), "");
    assert_eq!(expand_pattern(owned(&["a"]), "x{}", ",").unwrap(), "xa");
}

#[test]
fn separator_is_used_as_given() {
    assert_eq!(expand_pattern(owned(&["a", "b"]), "{}", "").unwrap(), "ab");
    assert_eq!(expand_pattern(owned(&["a", "b"]), "{}", " + ").unwrap(), "a + b");
    assert_eq!(expand_pattern(owned(&["a", "b"]), "{}", "\n").unwrap(), "a\nb");
    assert_eq!(expand_pattern(owned(&["a", "b"]), "{}", "\\n\\n").unwrap(), "a\\n\\nb");
    assert_eq!(expand_pattern(owned(&["a", "b"]), "{}", "\\t").unwrap(), "a\\tb");
}

#[test]
fn escaped_line_feed_separates_lines() {
    assert_eq!(
        expand_pattern(owned(&["n01", "n02", "n03"]), "", "\\n").unwrap(),
        "n01\nn02\nn03"
    );
}

#[test]
fn template_without_placeholder_is_refused() {
    assert_eq!(
        expand_pattern(owned(&["n01", "n02"]), ".", ","),
        Err(ExpandError::MissingPlaceholder)
    );
    assert_eq!(
        expand_pattern(Vec::new(), "{ }", ","),
        Err(ExpandError::MissingPlaceholder)
    );
    assert_eq!(
        expand_pattern(owned(&["a"]), "}{", ","),
        Err(ExpandError::MissingPlaceholder)
    );
    assert_eq!(
        expand_pattern(owned(&["a"]), "{", ","),
        Err(ExpandError::MissingPlaceholder)
    );
    assert!(expand_pattern(owned(&["a"]), "", ",").is_ok());
    assert!(expand_pattern(owned(&["a"]), "a{}", ",").is_ok());
}

#[test]
fn expansion_feeds_rendering() {
    let names = expand_hostnames("n[01-03]").unwrap();
    assert_eq!(
        expand_pattern(names, "{}.cluster", " ").unwrap(),
        "n01.cluster n02.cluster n03.cluster"
    );
}

#[test]
fn messages() {
    assert_eq!(
        ExpandError::NestedBrackets.message(),
        "Cannot nest brackets in pattern"
    );
    assert_eq!(
        ExpandError::MismatchedWidth.message(),
        "Numbers used in range must be the same character length. E.g. You cannot use [0-09], you must use [00,09] or [0,9]."
    );
    assert_eq!(
        ExpandError::InvalidNumber("12a".to_string()).message(),
        "Invalid number '12a' in hostname pattern"
    );
    assert_eq!(
        ExpandError::MissingPlaceholder.message(),
        "If pattern is used, it must contain at least one instance of '{}' for interpolation"
    );
}
