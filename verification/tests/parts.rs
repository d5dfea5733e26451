use sexpand::number::{padded_chars, parse_number};
use sexpand::order::{merge, place, sorted_distinct, Place};
use sexpand::pattern::{expand_symbols, symbol_of, symbols_of, Symbol};
use sexpand::range::host_range_chars;
use sexpand::render::{contains_placeholder, push_substituted, render_chars};
use sexpand::text::{chars_of, copy_chars, rows_of, string_of, strings_of};
use sexpand::ExpandError;

fn chars(text: &str) -> Vec<char> {
    text.chars().collect()
}

fn lists(names: &[&str]) -> Vec<Vec<char>> {
    names.iter().map(|name| chars(name)).collect()
}

#[test]
fn strings_and_characters_pass_into_each_other() {
    assert_eq!(chars_of("n01"), vec!['n', '0', '1']);
    assert_eq!(chars_of(""), Vec::<char>::new());
    assert_eq!(chars_of("é٣"), vec!['é', '٣']);
    assert_eq!(string_of(&vec!['n', '0', '1']), "n01");
    assert_eq!(string_of(&Vec::new()), "");
    assert_eq!(copy_chars(&vec!['a', 'b']), vec!['a', 'b']);
    assert_eq!(strings_of(&lists(&["a", "", "bc"])), ["a", "", "bc"]);
    assert_eq!(
        rows_of(&vec!["a".to_string(), "bc".to_string()]),
        lists(&["a", "bc"])
    );
}

#[test]
fn tokens_are_read_as_numbers() {
    assert_eq!(parse_number(&chars("0")), Some(0));
    assert_eq!(parse_number(&chars("007")), Some(7));
    assert_eq!(parse_number(&chars("120")), Some(120));
    assert_eq!(parse_number(&chars("2147483647")), Some(2147483647));
    assert_eq!(parse_number(&chars("00000000002147483647")), Some(2147483647));
}

#[test]
fn tokens_that_are_no_numbers() {
    assert_eq!(parse_number(&chars("")), None);
    assert_eq!(parse_number(&chars("2147483648")), None);
    assert_eq!(parse_number(&chars("99999999999999999999999999")), None);
    assert_eq!(parse_number(&chars("1a")), None);
    assert_eq!(parse_number(&chars("-1")), None);
    assert_eq!(parse_number(&chars("+1")), None);
    assert_eq!(parse_number(&chars(" 1")), None);
    assert_eq!(parse_number(&chars("٣")), None);
}

#[test]
fn numbers_are_written_with_padding() {
    assert_eq!(padded_chars(42, 5), chars("00042"));
    assert_eq!(padded_chars(42, 2), chars("42"));
    assert_eq!(padded_chars(42, 0), chars("42"));
    assert_eq!(padded_chars(1000, 3), chars("1000"));
    assert_eq!(padded_chars(-42, 5), chars("00-42"));
}

#[test]
fn names_are_placed_by_code_point() {
    assert_eq!(place(&chars("a"), &chars("b")), Place::Before);
    assert_eq!(place(&chars("b"), &chars("a")), Place::After);
    assert_eq!(place(&chars("n1"), &chars("n1")), Place::Same);
    assert_eq!(place(&chars(""), &chars("")), Place::Same);
    assert_eq!(place(&chars(""), &chars("a")), Place::Before);
    assert_eq!(place(&chars("n1"), &chars("n10")), Place::Before);
    assert_eq!(place(&chars("n10"), &chars("n9")), Place::Before);
    assert_eq!(place(&chars("Z"), &chars("a")), Place::Before);
    assert_eq!(place(&chars("z"), &chars("é")), Place::Before);
}

#[test]
fn merging_keeps_each_name_once() {
    assert_eq!(
        merge(&lists(&["a", "c", "e"]), &lists(&["b", "c", "d", "f"])),
        lists(&["a", "b", "c", "d", "e", "f"])
    );
    assert_eq!(merge(&lists(&[]), &lists(&["x"])), lists(&["x"]));
    assert_eq!(merge(&lists(&["x"]), &lists(&[])), lists(&["x"]));
    assert_eq!(merge(&lists(&[]), &lists(&[])), lists(&[]));
}

#[test]
fn sorting_orders_names_and_drops_repeats() {
    assert_eq!(
        sorted_distinct(&lists(&["n3", "n1", "n2", "n1", "n3", "n10"])),
        lists(&["n1", "n10", "n2", "n3"])
    );
    assert_eq!(sorted_distinct(&lists(&[])), lists(&[]));
    assert_eq!(sorted_distinct(&lists(&["a", "a", "a"])), lists(&["a"]));
}

#[test]
fn sorting_a_sorted_list_changes_nothing() {
    let once = sorted_distinct(&lists(&["c", "a", "b", "a"]));
    assert_eq!(sorted_distinct(&once), once);
}

#[test]
fn ranges_on_character_vectors() {
    assert_eq!(
        host_range_chars(&chars("n"), &chars("9"), &chars("9")).unwrap(),
        lists(&["n9"])
    );
    assert_eq!(
        host_range_chars(&chars("n"), &chars("09"), &chars("011")),
        Err(ExpandError::MismatchedWidth)
    );
}

#[test]
fn characters_get_their_classes() {
    assert_eq!(symbol_of('n'), Symbol { c: 'n', letter: true, numeral: false });
    assert_eq!(symbol_of('7'), Symbol { c: '7', letter: false, numeral: true });
    assert_eq!(symbol_of('['), Symbol { c: '[', letter: false, numeral: false });
    assert_eq!(symbol_of('_'), Symbol { c: '_', letter: false, numeral: false });
    assert_eq!(
        symbols_of("a1-"),
        vec![
            Symbol { c: 'a', letter: true, numeral: false },
            Symbol { c: '1', letter: false, numeral: true },
            Symbol { c: '-', letter: false, numeral: false },
        ]
    );
}

#[test]
fn classified_characters_are_expanded_by_their_classes() {
    let plain = symbols_of("n[1-2]");
    assert_eq!(expand_symbols(&plain).unwrap(), lists(&["n1", "n2"]));

    // A digit that is given as a letter goes to the prefix.
    let odd = vec![
        Symbol { c: 'n', letter: true, numeral: false },
        Symbol { c: '7', letter: true, numeral: false },
    ];
    assert_eq!(expand_symbols(&odd).unwrap(), lists(&["n7"]));

    // A letter that is given as nothing is passed over.
    let none = vec![
        Symbol { c: 'n', letter: false, numeral: false },
        Symbol { c: '7', letter: false, numeral: true },
    ];
    assert_eq!(expand_symbols(&none).unwrap(), lists(&["7"]));

    // A comma ends an item whatever classes it is given.
    let comma = vec![
        Symbol { c: 'a', letter: true, numeral: false },
        Symbol { c: ',', letter: true, numeral: true },
        Symbol { c: 'b', letter: true, numeral: false },
    ];
    assert_eq!(expand_symbols(&comma).unwrap(), lists(&["a", "b"]));
}

#[test]
fn placeholder_is_found() {
    assert!(contains_placeholder(&chars("{}")));
    assert!(contains_placeholder(&chars("a{}b")));
    assert!(contains_placeholder(&chars("{{}")));
    assert!(!contains_placeholder(&chars("")));
    assert!(!contains_placeholder(&chars("{")));
    assert!(!contains_placeholder(&chars("}{")));
    assert!(!contains_placeholder(&chars("{ }")));
}

#[test]
fn substitution_appends_to_what_is_there() {
    let mut out = chars("> ");
    push_substituted(&mut out, &chars("[{}|{}]"), &chars("n1"));
    assert_eq!(out, chars("> [n1|n1]"));
}

#[test]
fn rendering_on_character_vectors() {
    assert_eq!(
        render_chars(&lists(&["a", "b", "c"]), &chars("<{}>"), &chars(", ")),
        chars("<a>, <b>, <c>")
    );
    assert_eq!(
        render_chars(&lists(&["a", "b"]), &chars("x"), &chars("\\n")),
        chars("x\\nx")
    );
}
