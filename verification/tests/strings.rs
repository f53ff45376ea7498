use algorithms::strings::{
    bracket_checker, char_counter, chars_of, first_unique_character, is_anagram, is_mirrored,
    is_palindrome, is_white_space_char, longest_substring, number_from_digits,
    parse_small_number, reverse_integer, reverse_string, starts_negative, string_of,
    string_to_int,
};

#[test]
fn test_bracket_checker() {
    let test1 = String::from("({})");
    let test2 = String::from("({[]})");
    let test3 = String::from("(){}[]");
    let test4 = String::from("([]){}");
    let test5 = String::from("({)}[]");

    assert!(bracket_checker(test1));
    assert!(bracket_checker(test2));
    assert!(bracket_checker(test3));
    assert!(bracket_checker(test4));
    assert!(!bracket_checker(test5));
}

#[test]
fn test_string_reversal() {
    let test1 = String::from("Jello");
    let test2 = String::from("mellow");
    let test3 = String::from("purple");
    let test4 = String::from("");
    let test5 = String::from(" ");

    assert_eq!(reverse_string(test1), String::from("olleJ"));
    assert_eq!(reverse_string(test2), String::from("wollem"));
    assert_eq!(reverse_string(test3), String::from("elprup"));
    assert_eq!(reverse_string(test4), String::from(""));
    assert_eq!(reverse_string(test5), String::from(" "));
}

#[test]
fn test_number_reversal() {
    let test1 = 32;
    let test2 = 42;
    let test3 = 1;
    let test4 = -20;
    let test5 = -30001;

    assert_eq!(reverse_integer(test1), 23);
    assert_eq!(reverse_integer(test2), 24);
    assert_eq!(reverse_integer(test3), 1);
    assert_eq!(reverse_integer(test4), -2);
    assert_eq!(reverse_integer(test5), -10003);
}

#[test]
fn test_unique_char() {
    let test1 = String::from("foobar");
    let test2 = String::from("bazbar");
    let test3 = String::from("loopzoop");
    let test4 = String::from("zzzzzz");
    let test5 = String::from("zzzzzzzooom");

    assert_eq!(first_unique_character(test1), 0);
    assert_eq!(first_unique_character(test2), 2);
    assert_eq!(first_unique_character(test3), 0);
    assert_eq!(first_unique_character(test4), -1);
    assert_eq!(first_unique_character(test5), 10);
}

#[test]
fn test_anagram() {
    let test1 = (String::from("loop"), String::from("pool"));
    let test2 = (String::from("zing"), String::from("zang"));
    let test3 = (String::from("gooloog"), String::from("loogoog"));
    let test4 = (String::from("al"), String::from("la"));
    let test5 = (String::from("po"), String::from("p"));

    assert!(is_anagram(test1.0, test1.1));
    assert!(!is_anagram(test2.0, test2.1));
    assert!(is_anagram(test3.0, test3.1));
    assert!(is_anagram(test4.0, test4.1));
    assert!(!is_anagram(test5.0, test5.1));
}

#[test]
fn test_palindrome() {
    let test1 = String::from("ado://oda");
    let test2 = String::from("123zing gniz321");
    let test3 = String::from(":laBodO /a/  odobal:");
    let test4 = String::from("zoop loop");
    let test5 = String::from("");

    assert!(is_palindrome(test1));
    assert!(is_palindrome(test2));
    assert!(is_palindrome(test3));
    assert!(!is_palindrome(test4));
    assert!(is_palindrome(test5));
}

#[test]
fn test_longest_substring() {
    let test1 = String::from("avalanche");
    let test2 = String::from("");
    let test3 = String::from("foobar");
    let test4 = String::from("lollipops");
    let test5 = String::from("applesauce");

    assert_eq!(longest_substring(test1), Some(String::from("lanche")));
    assert_eq!(longest_substring(test2), Some(String::from("")));
    assert_eq!(longest_substring(test3), Some(String::from("obar")));
    assert_eq!(longest_substring(test4), Some(String::from("lipo")));
    assert_eq!(longest_substring(test5), Some(String::from("plesauc")));
}

#[test]
fn test_string_to_int() {
    let test1 = String::from("123");
    let test2 = String::from("-123");
    let test3 = String::from("-214748364899");
    let test4 = String::from("2147483648999");
    let test5 = String::from("1234 halp im stuck in a loop");

    assert_eq!(string_to_int(test1), 123);
    assert_eq!(string_to_int(test2), -123);
    assert_eq!(string_to_int(test3), -2147483648);
    assert_eq!(string_to_int(test4), 2147483647);
    assert_eq!(string_to_int(test5), 1234);
}

#[test]
fn characters_and_strings_convert_both_ways() {
    assert_eq!(chars_of("héllo"), vec!['h', 'é', 'l', 'l', 'o']);
    assert_eq!(chars_of(""), Vec::<char>::new());
    assert_eq!(string_of(&vec!['a', 'ß', 'c']), String::from("aßc"));
    assert_eq!(string_of(&Vec::new()), String::from(""));
}

#[test]
fn reverse_string_goes_by_characters() {
    assert_eq!(reverse_string(String::from("añb")), String::from("bña"));
}

#[test]
fn bracket_checker_rejects_what_is_left_open() {
    assert!(bracket_checker(String::from("")));
    assert!(!bracket_checker(String::from("(")));
    assert!(!bracket_checker(String::from("((")));
    assert!(!bracket_checker(String::from("([]")));
    assert!(!bracket_checker(String::from("(){")));
    assert!(bracket_checker(String::from("{[()()]}")));
    assert!(!bracket_checker(String::from("(]")));
    assert!(!bracket_checker(String::from("(a)")));
    assert!(!bracket_checker(String::from("[}")));
}

#[test]
fn reverse_integer_at_the_edges() {
    assert_eq!(reverse_integer(0), 0);
    assert_eq!(reverse_integer(100), 1);
    assert_eq!(reverse_integer(-1), -1);
    assert_eq!(reverse_integer(1463847412), 2147483641);
    assert_eq!(reverse_integer(-2147483641), -1463847412);
}

#[test]
fn first_unique_character_of_short_texts() {
    assert_eq!(first_unique_character(String::from("")), -1);
    assert_eq!(first_unique_character(String::from("a")), 0);
    assert_eq!(first_unique_character(String::from("aab")), 2);
    assert_eq!(first_unique_character(String::from("ääöä")), 2);
}

#[test]
fn char_counter_counts_by_code_point() {
    let counts = char_counter(String::from("hello"));
    assert_eq!(counts.len(), 4);
    assert_eq!(counts.get(&('h' as u32)), Some(&1));
    assert_eq!(counts.get(&('l' as u32)), Some(&2));
    assert_eq!(counts.get(&('z' as u32)), None);
    assert!(char_counter(String::from("")).is_empty());
}

#[test]
fn is_anagram_compares_the_counts_of_every_character() {
    assert!(is_anagram(String::from(""), String::from("")));
    assert!(!is_anagram(String::from(""), String::from("abc")));
    assert!(!is_anagram(String::from("abc"), String::from("")));
    assert!(!is_anagram(String::from("p"), String::from("po")));
    assert!(!is_anagram(String::from("po"), String::from("p")));
    assert!(!is_anagram(String::from("aab"), String::from("ab")));
    assert!(!is_anagram(String::from("aab"), String::from("abb")));
    assert!(is_anagram(String::from("aab"), String::from("aba")));
    assert!(is_anagram(String::from("ßäö"), String::from("öäß")));
    for (a, b) in [("loop", "pool"), ("zing", "zang"), ("aab", "abb"), ("x", "xy")] {
        assert_eq!(
            is_anagram(String::from(a), String::from(b)),
            is_anagram(String::from(b), String::from(a))
        );
    }
}

#[test]
fn is_mirrored_of_character_vectors() {
    assert!(is_mirrored(&vec![]));
    assert!(is_mirrored(&vec!['a']));
    assert!(is_mirrored(&vec!['a', 'b', 'a']));
    assert!(is_mirrored(&vec!['a', 'b', 'b', 'a']));
    assert!(!is_mirrored(&vec!['a', 'b']));
    assert!(!is_mirrored(&vec!['a', 'b', 'c', 'a']));
}

#[test]
fn is_palindrome_lowers_case_and_drops_punctuation() {
    assert!(is_palindrome(String::from("Aa")));
    assert!(is_palindrome(String::from("A man, a plan, a canal: Panama")));
    assert!(is_palindrome(String::from("?!")));
    assert!(!is_palindrome(String::from("Ab")));
    assert!(!is_palindrome(String::from("a_b")));
    assert!(is_palindrome(String::from("a_a")));
}

#[test]
fn longest_substring_takes_the_last_of_the_longest() {
    assert_eq!(longest_substring(String::from("a")), Some(String::from("a")));
    assert_eq!(longest_substring(String::from("aaaa")), Some(String::from("a")));
    assert_eq!(longest_substring(String::from("abcabc")), Some(String::from("abc")));
    assert_eq!(longest_substring(String::from("abba")), Some(String::from("ba")));
    assert_eq!(longest_substring(String::from("abcdef")), Some(String::from("abcdef")));
}

#[test]
fn string_to_int_takes_the_sign_behind_white_space() {
    assert_eq!(string_to_int(String::from("  -12")), -12);
    assert_eq!(string_to_int(String::from("\t\n-7 ")), -7);
    assert_eq!(string_to_int(String::from("x-12")), 12);
    assert_eq!(string_to_int(String::from("1-2")), 12);
    assert_eq!(string_to_int(String::from("")), 2147483647);
    assert_eq!(string_to_int(String::from("-")), -2147483648);
    assert_eq!(string_to_int(String::from("abc")), 2147483647);
    assert_eq!(string_to_int(String::from("2147483647")), 2147483647);
    assert_eq!(string_to_int(String::from("-2147483647")), -2147483647);
    assert_eq!(string_to_int(String::from("-2147483648")), -2147483648);
    assert_eq!(string_to_int(String::from("0000000000000000000012")), 12);
    assert_eq!(string_to_int(String::from("99999999999999999999999999")), 2147483647);
}

#[test]
fn number_from_digits_clamps_by_sign() {
    assert_eq!(number_from_digits(&vec!['4', 'x', '2'], false), 42);
    assert_eq!(number_from_digits(&vec!['4', 'x', '2'], true), -42);
    assert_eq!(number_from_digits(&vec![], true), i32::MIN);
    assert_eq!(number_from_digits(&vec!['x'], false), i32::MAX);
    assert_eq!(number_from_digits(&vec!['٣'], false), i32::MAX);
}

#[test]
fn parse_small_number_follows_the_number_grammar() {
    assert_eq!(parse_small_number("0"), Some(0));
    assert_eq!(parse_small_number("9"), Some(9));
    assert_eq!(parse_small_number("+9"), Some(9));
    assert_eq!(parse_small_number("007"), Some(7));
    assert_eq!(parse_small_number("255"), Some(255));
    assert_eq!(parse_small_number("0255"), Some(255));
    assert_eq!(parse_small_number("256"), None);
    assert_eq!(parse_small_number("1000"), None);
    assert_eq!(parse_small_number(""), None);
    assert_eq!(parse_small_number("+"), None);
    assert_eq!(parse_small_number("-1"), None);
    assert_eq!(parse_small_number("-0"), None);
    assert_eq!(parse_small_number("++1"), None);
    assert_eq!(parse_small_number("."), None);
    assert_eq!(parse_small_number(" 1"), None);
    assert_eq!(parse_small_number("1 "), None);
    assert_eq!(parse_small_number("1_0"), None);
    assert_eq!(parse_small_number("٣"), None);
    for n in 0..=255u32 {
        assert_eq!(parse_small_number(&n.to_string()), n.to_string().parse::<u8>().ok());
    }
    for text in ["+0", "+255", "+256", "00", "+-1", "1.0", "0x1", "١"] {
        assert_eq!(parse_small_number(text), text.parse::<u8>().ok());
    }
}

#[test]
fn white_space_is_what_the_standard_library_takes_for_it() {
    for code in 0..=0x10FFFFu32 {
        if let Some(c) = char::from_u32(code) {
            assert_eq!(is_white_space_char(c), c.is_whitespace(), "code point {}", code);
        }
    }
}

#[test]
fn starts_negative_looks_behind_the_white_space() {
    for text in [
        "", " ", "-", " -", "\u{3000}\u{85}-1", "- ", "x-", "  x", "\t\n\r -12 ", "--", "+-1",
        "\u{200B}-1", "\u{2000}-", "-\u{2000}", " \u{a0} ",
    ] {
        assert_eq!(starts_negative(&chars_of(text)), text.trim().starts_with("-"), "{:?}", text);
    }
    assert!(starts_negative(&chars_of("-123")));
    assert!(!starts_negative(&chars_of("123")));
}

#[test]
fn char_counter_counts_add_up_to_the_length() {
    let text = "mississippi river";
    let counts = char_counter(String::from(text));
    let total: u32 = counts.values().sum();
    assert_eq!(total as usize, text.chars().count());
    assert_eq!(counts.get(&('s' as u32)), Some(&4));
    assert_eq!(counts.get(&('i' as u32)), Some(&5));
    assert_eq!(counts.get(&(' ' as u32)), Some(&1));
}
