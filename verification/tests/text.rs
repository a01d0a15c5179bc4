use ncm_nowplaying::text::{
    chars_of, find_either, lines, push_decimal, read_number, read_two_numbers, split_either,
    text_of, trim, white,
};

fn chars(s: &str) -> Vec<char> {
    s.chars().collect()
}

fn string(s: &[char]) -> String {
    s.iter().collect()
}

#[test]
fn whitespace_is_that_of_unicode() {
    for n in 0..=0x10_ffffu32 {
        if let Some(c) = char::from_u32(n) {
            assert_eq!(white(c), c.is_whitespace(), "{:x}", n);
        }
    }
}

#[test]
fn characters_and_back() {
    let s = "a海\u{1f600}\n";
    assert_eq!(chars_of(s), chars(s));
    assert_eq!(text_of(&chars(s)), s);
}

#[test]
fn trimming() {
    for s in ["", " ", "a", " a b\t", "\u{3000}海 风\r\n", "\u{200b}x"] {
        assert_eq!(string(trim(&chars(s))), s.trim());
    }
}

#[test]
fn line_breaks() {
    for s in ["", "a", "a\n", "a\r\nb", "\n\n", "a\r", "a\r\r\nb\n\nc", "\r\n"] {
        let cs = chars(s);
        let got: Vec<String> = lines(&cs).iter().map(|l| string(l)).collect();
        let want: Vec<String> = s.lines().map(|l| l.to_string()).collect();
        assert_eq!(got, want);
    }
}

#[test]
fn joined_lines_come_apart() {
    for parts in [vec![], vec!["a"], vec!["", "b"], vec!["a", "", "c\r"], vec!["a\rb", " "]] {
        let cs = chars(&parts.join("\n"));
        let got: Vec<String> = lines(&cs).iter().map(|l| string(l)).collect();
        assert_eq!(got, parts);
    }
}

#[test]
fn splitting() {
    let cs = chars("12.34:5");
    let (a, b) = split_either(&cs, '.', ':').unwrap();
    assert_eq!((string(a), string(b)), ("12".to_string(), "34:5".to_string()));
    assert!(split_either(&cs, 'x', 'y').is_none());
    assert_eq!(find_either(&cs, ':', ':'), 5);
    assert_eq!(find_either(&cs, 'x', 'x'), 7);
}

#[test]
fn numbers_are_those_of_std() {
    for s in [
        "", "0", "+", "-", "+7", "++7", "-0", "-1", "007", "1 ", " 1", "1_000", "12a", "٣",
        "18446744073709551615", "18446744073709551616", "99999999999999999999999",
        "00000000000000000000000012", "65535", "65536",
    ] {
        assert_eq!(read_number(&chars(s), u64::MAX), s.parse::<u64>().ok(), "{}", s);
        assert_eq!(
            read_number(&chars(s), u16::MAX as u64),
            s.parse::<u16>().ok().map(|n| n as u64),
            "{}",
            s
        );
    }
    assert_eq!(read_number(&chars("4"), 3), None);
    assert_eq!(read_number(&chars("3"), 3), Some(3));
}

#[test]
fn two_fields() {
    assert_eq!(read_two_numbers(&chars("1,2")), Some((1, 2)));
    assert_eq!(read_two_numbers(&chars(" 1 ,\t2,x")), Some((1, 2)));
    assert_eq!(read_two_numbers(&chars("1")), None);
    assert_eq!(read_two_numbers(&chars("1,")), None);
    assert_eq!(read_two_numbers(&chars(",2")), None);
}

#[test]
fn numbers_read_back() {
    for n in [0u64, 9, 10, 108_965, u64::MAX] {
        let mut s = String::from("n=");
        push_decimal(&mut s, n);
        assert_eq!(s, format!("n={}", n));
        assert_eq!(read_number(&chars(&s[2..]), u64::MAX), Some(n));
    }
}
