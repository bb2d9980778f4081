use melee_anim_rs::text::{begins_with, chars_of, fields, has, is_text, matches_at, parse_integer, remove_all, slice, string_of, trim, whitespace};

fn chars(s: &str) -> Vec<char> {
    s.chars().collect()
}

fn text(v: &Vec<char>) -> String {
    v.iter().collect()
}

fn split(s: &str, sep: char) -> Vec<String> {
    fields(&chars(s), sep).iter().map(text).collect()
}

#[test]
fn chars_and_strings_convert_both_ways() {
    assert_eq!(chars_of("a b\u{e9}"), vec!['a', ' ', 'b', '\u{e9}']);
    assert_eq!(chars_of(""), Vec::<char>::new());
    assert_eq!(string_of(&vec!['x', '\u{3000}', 'y']), "x\u{3000}y");
    assert_eq!(string_of(&chars_of("0 \"Root\" -1")), "0 \"Root\" -1");
}

#[test]
fn slice_takes_a_range() {
    assert_eq!(text(&slice(&chars("skeleton"), 2, 5)), "ele");
    assert_eq!(text(&slice(&chars("skeleton"), 3, 3)), "");
    assert_eq!(text(&slice(&chars("skeleton"), 0, 8)), "skeleton");
}

#[test]
fn whitespace_is_what_std_calls_whitespace() {
    let mut n: u32 = 0;
    while n < 0x11_0000 {
        if let Some(c) = char::from_u32(n) {
            assert_eq!(whitespace(c), c.is_whitespace(), "U+{n:04X}");
        }
        n += 1;
    }
}

#[test]
fn trim_is_what_std_trims() {
    for s in [
        "",
        " ",
        "   ",
        "a",
        " a",
        "a ",
        "  a b  ",
        "\t0 1 2\r\n",
        "\u{a0}x\u{2003}",
        "x\u{200b}",
        " \"Bone A\" ",
    ] {
        assert_eq!(text(&trim(&chars(s))), s.trim(), "{s:?}");
    }
}

#[test]
fn fields_are_what_std_splits() {
    for s in ["", " ", "a", "a b", "a  b", " a b ", "0 \"Root\" -1", "1 2 3 4 5 6 7", "a b c d "] {
        let expected: Vec<String> = s.split(' ').map(|f| f.to_string()).collect();
        assert_eq!(split(s, ' '), expected, "{s:?}");
    }
    for s in ["", ",", "1,2", "1,,2", ",1,", "3,0.5,1,2,3,4,5,0.25,Low,1"] {
        let expected: Vec<String> = s.split(',').map(|f| f.to_string()).collect();
        assert_eq!(split(s, ','), expected, "{s:?}");
    }
}

#[test]
fn fields_of_a_text_without_separator_is_the_text() {
    assert_eq!(split("nodes", ' '), vec!["nodes".to_string()]);
    assert_eq!(split("", ' '), vec!["".to_string()]);
}

#[test]
fn two_separators_enclose_an_empty_field() {
    assert_eq!(split("a  b", ' '), vec!["a".to_string(), "".to_string(), "b".to_string()]);
    assert_eq!(split(" ", ' '), vec!["".to_string(), "".to_string()]);
}

#[test]
fn matches_at_finds_a_pattern_in_place() {
    let line = chars("Node 12:");
    assert!(matches_at(&line, &chars("Node "), 0));
    assert!(matches_at(&line, &chars("12"), 5));
    assert!(!matches_at(&line, &chars("12"), 4));
    assert!(!matches_at(&line, &chars("12:x"), 5));
    assert!(matches_at(&line, &chars(""), 8));
    assert!(!matches_at(&line, &chars(""), 9));
}

#[test]
fn begins_with_is_what_std_says() {
    for (s, p) in [
        ("FrameCount: 30", "FrameCount: "),
        ("FrameCount:30", "FrameCount: "),
        ("Node 3:", "Node "),
        ("Nod", "Node "),
        ("HSD_A_J_ROTX", "HSD_A_J_"),
        (" HSD_A_J_ROTX", "HSD_A_J_"),
        ("", ""),
        ("", "a"),
        ("a", ""),
    ] {
        assert_eq!(begins_with(&chars(s), &chars(p)), s.starts_with(p), "{s:?} {p:?}");
    }
}

#[test]
fn has_is_what_std_says() {
    for (s, p) in [
        ("nodes", "nodes"),
        ("  nodes  ", "nodes"),
        ("node", "nodes"),
        ("skeleton", "nodes"),
        ("0 0.5 0 HSD_A_OP_LIN", "HSD_A_OP"),
        ("0 0.5 0 HSD_A_J_ROTX", "HSD_A_OP"),
        ("xnodesy", "nodes"),
        ("nodenodes", "nodes"),
        ("", ""),
        ("", "a"),
        ("abc", ""),
    ] {
        assert_eq!(has(&chars(s), &chars(p)), s.contains(p), "{s:?} {p:?}");
    }
}

#[test]
fn is_text_compares_whole_texts() {
    assert!(is_text(&chars("}"), &chars("}")));
    assert!(!is_text(&chars("} "), &chars("}")));
    assert!(!is_text(&chars(""), &chars("}")));
    assert!(is_text(&chars(""), &chars("")));
    assert!(is_text(&chars("HSD_A_OP_SPL0"), &chars("HSD_A_OP_SPL0")));
    assert!(!is_text(&chars("HSD_A_OP_SPL"), &chars("HSD_A_OP_SPL0")));
}

#[test]
fn remove_all_is_replace_by_nothing() {
    for (s, p) in [
        ("Node 12:", "Node "),
        ("12:", ":"),
        ("\"Root\"", "\""),
        ("aaa", "aa"),
        ("aaaa", "aa"),
        ("abab", "ab"),
        ("xabyabz", "ab"),
        ("Node Node 3", "Node "),
        ("NoNode de 3", "Node "),
        ("", "a"),
        ("abc", "abcd"),
        ("abc", ""),
    ] {
        assert_eq!(text(&remove_all(&chars(s), &chars(p))), s.replace(p, ""), "{s:?} {p:?}");
    }
}

#[test]
fn parse_integer_is_what_std_parses() {
    for s in [
        "0",
        "7",
        "-1",
        "+5",
        "-0",
        "+0",
        "007",
        "12345",
        "2147483647",
        "2147483648",
        "-2147483648",
        "-2147483649",
        "+2147483647",
        "+2147483648",
        "99999999999999999999999999",
        "-99999999999999999999999999",
        "00000000000000000000000000000001",
        "",
        "-",
        "+",
        "--1",
        "+-1",
        "1-",
        " 1",
        "1 ",
        "1.0",
        "1e3",
        "a",
        "12a",
        "0x10",
        "\u{661}",
        "1_000",
    ] {
        assert_eq!(parse_integer(&chars(s)), s.parse::<i32>().ok(), "{s:?}");
    }
}

#[test]
fn parse_integer_takes_the_bounds() {
    assert_eq!(parse_integer(&chars("2147483647")), Some(i32::MAX));
    assert_eq!(parse_integer(&chars("-2147483648")), Some(i32::MIN));
    assert_eq!(parse_integer(&chars("2147483648")), None);
    assert_eq!(parse_integer(&chars("-2147483649")), None);
}
