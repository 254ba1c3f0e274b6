use roku_remote::text::{
    chars_of, decimal_string, is_white_space, rank, same_letter, same_text, starts_at,
    starts_at_ignoring_case, trim, Rank,
};

fn chars(s: &str) -> Vec<char> {
    s.chars().collect()
}

#[test]
fn chars_of_keeps_every_character_in_order() {
    assert_eq!(chars_of(""), Vec::<char>::new());
    assert_eq!(chars_of("abc"), vec!['a', 'b', 'c']);
    assert_eq!(chars_of("é☕𝄞"), vec!['é', '☕', '𝄞']);
}

#[test]
fn starts_at_finds_a_word_only_where_it_stands() {
    let t = chars("say <app now");
    let w = chars("<app");
    assert!(starts_at(&t, 4, &w));
    assert!(!starts_at(&t, 3, &w));
    assert!(!starts_at(&t, 5, &w));
    assert!(!starts_at(&t, 10, &w));
    assert!(!starts_at(&t, 12, &w));
    assert!(!starts_at(&t, 400, &w));
    assert!(starts_at(&t, 12, &chars("")));
}

#[test]
fn same_letter_agrees_with_std_on_ascii() {
    for a in 0u8..128 {
        for b in 0u8..128 {
            let (x, y) = (a as char, b as char);
            assert_eq!(same_letter(x, y), x.eq_ignore_ascii_case(&y), "{:?} {:?}", x, y);
        }
    }
    assert!(!same_letter('é', 'É'));
    assert!(same_letter('é', 'é'));
    assert!(!same_letter('k', '\u{212A}'));
}

#[test]
fn prefix_is_compared_without_regard_to_case() {
    let word = chars("location:");
    let t = chars("xxLoCaTiOn: y");
    assert!(starts_at_ignoring_case(&t, 2, t.len(), &word));
    assert!(!starts_at_ignoring_case(&t, 2, 10, &word));
    assert!(starts_at_ignoring_case(&t, 2, 11, &word));
    assert!(!starts_at_ignoring_case(&t, 3, t.len(), &word));
}

#[test]
fn white_space_is_what_std_calls_white_space() {
    for code in 0u32..=0x10FFFF {
        if let Some(c) = char::from_u32(code) {
            assert_eq!(is_white_space(c), c.is_whitespace(), "U+{:04X}", code);
        }
    }
}

#[test]
fn trim_agrees_with_std() {
    let cases = [
        "",
        " ",
        "\r\n",
        "abc",
        "  abc",
        "abc  ",
        " \t abc def \r\n",
        "\u{00A0}\u{3000}x y\u{2003}\u{0085}",
        " é ",
        "a",
        " a",
        "a ",
        "\u{200B} zero width is no space \u{200B}",
    ];
    for case in cases {
        assert_eq!(trim(case), case.trim(), "{:?}", case);
    }
}

#[test]
fn decimal_string_writes_exact_digits() {
    assert_eq!(decimal_string(0), "0");
    assert_eq!(decimal_string(7), "7");
    assert_eq!(decimal_string(10), "10");
    assert_eq!(decimal_string(250), "250");
    assert_eq!(decimal_string(1900), "1900");
    assert_eq!(decimal_string(8060), "8060");
    assert_eq!(decimal_string(65535), "65535");
    assert_eq!(decimal_string(4294967295), "4294967295");
}

#[test]
fn decimal_string_agrees_with_std() {
    let mut n: u32 = 0;
    while n < 70000 {
        assert_eq!(decimal_string(n), n.to_string());
        n += 7;
    }
}

#[test]
fn rank_agrees_with_the_order_of_std() {
    let words = [
        "",
        "a",
        "ab",
        "b",
        "B",
        "10.0.0.10:8060",
        "10.0.0.2:8060",
        "192.168.1.5:8060",
        "é",
        "z",
        "zé",
        "\u{FFFD}",
        "𝄞",
        "[::1]:8060",
    ];
    for a in words {
        for b in words {
            let expected = if a < b {
                Rank::Before
            } else if a == b {
                Rank::Same
            } else {
                Rank::After
            };
            assert_eq!(rank(a, b), expected, "{:?} {:?}", a, b);
            assert_eq!(same_text(a, b), a == b);
        }
    }
}
