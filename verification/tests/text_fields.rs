use fem_rs::gmsh::Cursor;
use fem_rs::text::{fields, parse_unsigned, split_lines, trim};

fn chars(s: &str) -> Vec<char> {
    s.chars().collect()
}

fn strings(v: Vec<Vec<char>>) -> Vec<String> {
    v.into_iter().map(|l| l.into_iter().collect()).collect()
}

#[test]
fn lines_follow_str_lines() {
    for text in ["foo\r\nbar\n\nbaz\r", "", "a\n", "\n", "a\r\n\r\n", "x\ry\nz"] {
        let expected: Vec<String> = text.lines().map(str::to_string).collect();
        assert_eq!(strings(split_lines(&chars(text))), expected, "text {text:?}");
    }
}

#[test]
fn fields_and_trim_follow_str() {
    for text in ["  a b\tc ", "", "   ", "x\u{2003}y\u{85}z", "\u{3000}lead"] {
        let expected: Vec<String> = text.split_whitespace().map(str::to_string).collect();
        assert_eq!(strings(fields(&chars(text))), expected);
        let t: String = trim(&chars(text)).into_iter().collect();
        assert_eq!(t, text.trim());
    }
}

#[test]
fn unsigned_parsing_follows_str_parse() {
    for tok in ["0", "42", "+7", "-7", "+", "", "12a", "4294967295", "4294967296", "007"] {
        let got = parse_unsigned(&chars(tok), u32::MAX as usize);
        let expected = tok.parse::<u32>().ok().map(|v| v as usize);
        assert_eq!(got, expected, "token {tok:?}");
    }
    let big = "18446744073709551616";
    assert_eq!(parse_unsigned(&chars(big), usize::MAX), big.parse::<usize>().ok());
}

#[test]
fn cursor_walks_lines() {
    let mut cur = Cursor::new("a\n b \n$End\nc");
    assert_eq!(cur.peek(), Some(&chars("a")));
    cur.advance();
    assert_eq!(cur.next().unwrap(), chars(" b "));
    assert!(cur.skip_to(&chars("$End")).is_ok());
    assert_eq!(cur.i, 3);
    assert!(cur.skip_to(&chars("$End")).is_err());
    assert!(cur.next().is_err());
}
