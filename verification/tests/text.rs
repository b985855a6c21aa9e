use ini_doc::line::{parse_line, Line};
use ini_doc::sorted::SortedMap;
use ini_doc::text::{
    chars_of, compare, find_char, find_last_char, is_whitespace, trimmed, without_leading_space,
    Rank,
};

#[test]
fn compare_orders_as_strings_do() {
    assert_eq!(compare("", ""), Rank::Same);
    assert_eq!(compare("", "a"), Rank::Before);
    assert_eq!(compare("a", ""), Rank::After);
    assert_eq!(compare("abc", "abd"), Rank::Before);
    assert_eq!(compare("abc", "ab"), Rank::After);
    assert_eq!(compare("Zeta", "alpha"), Rank::Before);
    assert_eq!(compare("same", "same"), Rank::Same);
    assert_eq!(compare("\u{e9}", "z"), Rank::After);
    assert_eq!("\u{e9}" > "z", true);
    assert_eq!(compare("\u{10000}", "\u{ffff}"), Rank::After);
    assert_eq!("\u{10000}" > "\u{ffff}", true);
}

#[test]
fn white_space_is_what_char_says() {
    let mut n: u32 = 0;
    while n <= 0x3100 {
        if let Some(c) = char::from_u32(n) {
            assert_eq!(is_whitespace(c), c.is_whitespace());
        }
        n += 1;
    }
}

#[test]
fn trimmed_takes_both_ends() {
    assert_eq!(trimmed("  a b \t"), "a b");
    assert_eq!(trimmed(""), "");
    assert_eq!(trimmed(" \n "), "");
    assert_eq!(trimmed("x"), "x");
    assert_eq!(trimmed("\u{a0}x\u{3000}"), "x");
}

#[test]
fn find_char_gives_the_first_place() {
    assert_eq!(find_char("a=b=c", '='), Some(1));
    assert_eq!(find_char("=", '='), Some(0));
    assert_eq!(find_char("abc", '='), None);
    assert_eq!(find_char("", '='), None);
    assert_eq!(find_char("\u{e9}\u{e9}=", '='), Some(2));
}

#[test]
fn without_leading_space_takes_one() {
    assert_eq!(without_leading_space(" a"), "a");
    assert_eq!(without_leading_space("  a"), " a");
    assert_eq!(without_leading_space("a "), "a ");
    assert_eq!(without_leading_space(""), "");
    assert_eq!(without_leading_space("\ta"), "\ta");
}

#[test]
fn lines_are_told_apart() {
    assert_eq!(parse_line(""), Line::Skip);
    assert_eq!(parse_line("# [a]"), Line::Skip);
    assert_eq!(parse_line(";k=v"), Line::Skip);
    assert_eq!(parse_line("[General]"), Line::Header("General".to_string()));
    assert_eq!(parse_line("[ spaced out ]"), Line::Header("spaced out".to_string()));
    assert_eq!(parse_line("[a] tail"), Line::Header("a tail".to_string()));
    assert_eq!(parse_line("[a]b]"), Line::Header("a]b".to_string()));
    assert_eq!(parse_line("[a]b]c"), Line::Header("a]bc".to_string()));
    assert_eq!(parse_line("[a]bc]"), Line::Header("a]bc".to_string()));
    assert_eq!(parse_line("[[a]"), Line::Header("[a".to_string()));
    assert_eq!(parse_line("[]"), Line::Header("".to_string()));
    assert_eq!(parse_line("[a=b]"), Line::Header("a=b".to_string()));
    assert_eq!(parse_line("k=v"), Line::Pair("k".to_string(), "v".to_string()));
    assert_eq!(parse_line("k=v=w"), Line::Pair("k".to_string(), "v=w".to_string()));
    assert_eq!(parse_line("="), Line::Pair("".to_string(), "".to_string()));
    assert_eq!(parse_line(" k = v "), Line::Pair(" k ".to_string(), " v ".to_string()));
    assert_eq!(parse_line("[open=1"), Line::Pair("[open".to_string(), "1".to_string()));
    assert_eq!(parse_line(" [a]"), Line::Unknown);
    assert_eq!(parse_line(" # not a comment"), Line::Unknown);
    assert_eq!(parse_line("[open"), Line::Unknown);
    assert_eq!(parse_line("word"), Line::Unknown);
}

#[test]
fn sorted_map_keeps_its_keys_in_order() {
    let mut m: SortedMap<u32> = SortedMap::new();
    m.insert("m".to_string(), 1);
    m.insert("a".to_string(), 2);
    m.insert("z".to_string(), 3);
    m.insert("m".to_string(), 4);
    assert_eq!(m.keys, vec!["a".to_string(), "m".to_string(), "z".to_string()]);
    assert_eq!(m.values, vec![2, 4, 3]);
    assert_eq!(m.get("m"), Some(&4));
    assert_eq!(m.get("b"), None);
    assert_eq!(m.search("b"), (false, 1));
    assert_eq!(m.search("z"), (true, 2));
    assert!(m.contains_key("a"));
    assert_eq!(m.remove("a"), Some(2));
    assert_eq!(m.remove("a"), None);
    assert_eq!(m.keys, vec!["m".to_string(), "z".to_string()]);
    assert_eq!(m.values, vec![4, 3]);
}

#[test]
fn chars_of_gives_each_character() {
    assert_eq!(chars_of(""), Vec::<char>::new());
    assert_eq!(chars_of("a=b"), vec!['a', '=', 'b']);
    assert_eq!(chars_of("\u{e9}\u{10000}z"), vec!['\u{e9}', '\u{10000}', 'z']);
}

#[test]
fn find_last_char_gives_the_last_place() {
    assert_eq!(find_last_char("[a]b]c", ']'), Some(4));
    assert_eq!(find_last_char("]", ']'), Some(0));
    assert_eq!(find_last_char("abc", ']'), None);
    assert_eq!(find_last_char("", ']'), None);
    assert_eq!(find_last_char("\u{e9}]\u{e9}", ']'), Some(1));
}
