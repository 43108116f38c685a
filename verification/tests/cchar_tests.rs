use cpre::{Lexer, Token};

#[test]
fn test_char() {
    let mut p = Lexer::new(b"'a' 'b' 'c' '\\t' '\\n' '\\\'' '\\\"' '\\12' '\\1' '\\x12' '\\x12\\x34' 'abcd' '\\u1a2b' '\\U1a2B3c4D'");
    assert_eq!(p.next(), Token::LiteralChar(u32::from('a')));
    assert_eq!(p.next(), Token::LiteralChar(u32::from('b')));
    assert_eq!(p.next(), Token::LiteralChar(u32::from('c')));
    assert_eq!(p.next(), Token::LiteralChar(u32::from('\t')));
    assert_eq!(p.next(), Token::LiteralChar(u32::from('\n')));
    assert_eq!(p.next(), Token::LiteralChar(u32::from('\'')));
    assert_eq!(p.next(), Token::LiteralChar(u32::from('\"')));
    assert_eq!(p.next(), Token::LiteralChar(0o12));
    assert_eq!(p.next(), Token::LiteralChar(0o1));
    assert_eq!(p.next(), Token::LiteralChar(0x12));
    assert_eq!(p.next(), Token::LiteralChar(0x1234));
    assert_eq!(p.next(), Token::LiteralChar(0x61626364));
    assert_eq!(p.next(), Token::LiteralChar(0x1a2b));
    assert_eq!(p.next(), Token::LiteralChar(0x1a2b3c4d));
}

#[test]
fn test_special_char() {
    let mut p = Lexer::new(b"u'a' U'b' u8'c' L'\\t'");
    assert_eq!(p.next(), Token::LiteralUChar(u32::from('a')));
    assert_eq!(p.next(), Token::LiteralUUChar(u32::from('b')));
    assert_eq!(p.next(), Token::LiteralU8Char(u32::from('c')));
    assert_eq!(p.next(), Token::LiteralLChar(u32::from('\t')));
}

#[test]
fn octal_escape_stops_after_three_digits() {
    // the first digit's value is handed in; at most two more are folded
    let mut p = Lexer::new(b"7777");
    assert_eq!(p.get_oct_char(1), 0o177);
}

#[test]
fn hex_escape_stops_after_three_digits() {
    let mut p = Lexer::new(b"1234");
    assert_eq!(p.get_hex_char(), 0x123);
    let mut q = Lexer::new(b"1g");
    assert_eq!(q.get_hex_char(), 0x1);
}

#[test]
fn universal_escapes_need_their_full_width() {
    let mut p = Lexer::new(b"123");
    assert_eq!(p.get_universal_short(), 0);
    let mut q = Lexer::new(b"1234567");
    assert_eq!(q.get_universal_long(), 0);
    let mut r = Lexer::new(b"00e9");
    assert_eq!(r.get_universal_short(), 0xe9);
    let mut s = Lexer::new(b"0001F600");
    assert_eq!(s.get_universal_long(), 0x1F600);
}

#[test]
fn simple_escapes_decode_to_fixed_codes() {
    let mut p = Lexer::new(b"a");
    assert_eq!(p.get_escape(), 0x07);
    let mut q = Lexer::new(b"v");
    assert_eq!(q.get_escape(), 0x0B);
    let mut r = Lexer::new(b"\\");
    assert_eq!(r.get_escape(), u32::from('\\'));
    let mut s = Lexer::new(b"");
    assert_eq!(s.get_escape(), 0);
}

#[test]
fn shift_follows_escape_magnitude() {
    assert_eq!(Lexer::get_shift(0x41), 0x100);
    assert_eq!(Lexer::get_shift(0x1234), 0x10000);
    assert_eq!(Lexer::get_shift(0x123456), 0);
}
