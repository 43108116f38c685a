use cpre::Lexer;

fn eval(p: &mut Lexer, name: &[u8]) -> String {
    let mut res: Vec<u8> = Vec::new();
    p.eval_macro(name, &mut res);
    String::from_utf8(res).unwrap()
}

#[test]
fn test_macro_in_context() {
    let mut p = Lexer::new(b"#define foo x + 1\n#define bar y + x\n#define foobar(x, y) x ## y");
    p.consume_tokens(3);
    assert!(p.context().get(&b"foo".to_vec()).is_some());
    assert!(p.context().get(&b"bar".to_vec()).is_some());
    assert!(p.context().get(&b"foobar".to_vec()).is_some());
}

#[test]
fn test_eval_object() {
    let mut p = Lexer::new(
        b"#define foo x + 1\n#define bar y + /* comment */ x\n#define oof (x)\n#define test1 foo\n#define test2 bar\n#define test3 oof\n",
    );
    p.consume_tokens(6);

    assert_eq!(eval(&mut p, b"test1"), "x + 1");
    assert_eq!(eval(&mut p, b"test2"), "y + x");
    assert_eq!(eval(&mut p, b"test3"), "(x)");
}

#[test]
fn test_eval_concat1() {
    let mut p = Lexer::new(
        b"#define foo(x, y) x ## y\n#define bar(x) x\n#define test1 foo(12, 34)\n#define test2 foo(12, bar(34))",
    );
    p.consume_tokens(4);

    assert_eq!(eval(&mut p, b"test1"), "1234");
    assert_eq!(eval(&mut p, b"test2"), "12bar(34)");
}

#[test]
fn test_eval_function() {
    let mut p = Lexer::new(b"#define foo(x) x\n#define bar(x) x + 1\n#define test foo(bar(1234))");
    p.consume_tokens(3);

    assert_eq!(eval(&mut p, b"test"), "1234 + 1");
}

#[test]
fn test_eval_mix() {
    let mut p = Lexer::new(
        b"#define xstr(s) str(s)\n#define str(s) #s\n#define foo 4\n#define test xstr(foo)",
    );
    p.consume_tokens(4);

    assert_eq!(eval(&mut p, b"test"), "\"4\"");
}

#[test]
fn test_eval_base() {
    let mut p = Lexer::new(b"#define foo(a, b) (a) + (b)\n#define test foo(  123 ,  456  )");
    p.consume_tokens(2);

    assert_eq!(eval(&mut p, b"test"), "(123) + (456)");
}

#[test]
fn test_eval_hex() {
    let mut p = Lexer::new(b"#define foo(x, abc) x + 0x123abc\n#define test foo(456, 789)");
    p.consume_tokens(2);

    assert_eq!(eval(&mut p, b"test"), "456 + 0x123abc");
}

#[test]
fn test_eval_comment() {
    let mut p = Lexer::new(
        b"#define foo(a,b,c) a b /* hello world*/     foo c\n#define bar(a,b,c) a / b // c\n#define test1 foo(A, B, C)\n#define test2 bar(A, B, C)",
    );
    p.consume_tokens(4);

    assert_eq!(eval(&mut p, b"test1"), "A B foo C");
    assert_eq!(eval(&mut p, b"test2"), "A / B ");
}

#[test]
fn test_eval_concat2() {
    let mut p = Lexer::new(
        b"#define Z(a,b) a ##b\n#define Y(a,b) c ## d\n#define X(a,b) c a ## d b\n#define W(a,b) a c ## b d\n#define V(a,b) A a##b B\n#define test1 Z(hello, world)\n#define test2 Y(hello, world)\n#define test3 X(hello, world)\n#define test4 W(hello, world)\n#define test5 V(hello, world)\n",
    );
    p.consume_tokens(10);

    assert_eq!(eval(&mut p, b"test1"), "helloworld");
    assert_eq!(eval(&mut p, b"test2"), "cd");
    assert_eq!(eval(&mut p, b"test3"), "c hellod world");
    assert_eq!(eval(&mut p, b"test4"), "hello cworld d");
    assert_eq!(eval(&mut p, b"test5"), "A helloworld B");
}

#[test]
fn test_eval_stringify() {
    let mut p = Lexer::new(
        b"#define foo(a, b) #a + #b\n#define bar BAR\n#define test1 foo(oof, rab)\n#define test2 foo(bar, bar)",
    );
    p.consume_tokens(4);

    assert_eq!(eval(&mut p, b"test1"), "\"oof\" + \"rab\"");
    assert_eq!(eval(&mut p, b"test2"), "\"bar\" + \"bar\"");
}

#[test]
fn test_eval_stringify_string() {
    let mut p = Lexer::new(
        b"#define foo(a) #a\n#define test foo(R\"delimiter( a string with some ', \" and \n.)delimiter\")",
    );
    p.consume_tokens(2);

    assert_eq!(
        eval(&mut p, b"test"),
        "\"R\\\"delimiter( a string with some \\', \\\" and \\\n.)delimiter\\\"\""
    );
}

#[test]
fn test_eval_auto_ref() {
    let mut p = Lexer::new(b"#define foo a foo\n#define test foo");
    p.consume_tokens(2);

    assert_eq!(eval(&mut p, b"test"), "a foo");
}

#[test]
fn test_eval_auto_ref2() {
    let mut p = Lexer::new(
        b"#define FOO x rab bar\n#define test FOO\n#define bar FOO\n#define rab oof\n#define oof y FOO\n",
    );

    p.consume_tokens(5);

    assert_eq!(eval(&mut p, b"test"), "x y FOO FOO");
}

#[test]
fn test_eval_auto_ref3() {
    let mut p = Lexer::new(
        b"#define foo(x) x bar(x)\n#define bar(x) x oof(x)\n#define oof(x) x foo(x)\n#define test foo(hello)\n",
    );

    p.consume_tokens(4);

    assert_eq!(eval(&mut p, b"test"), "hello hello hello foo(hello)");
}

#[test]
fn test_eval_va() {
    let mut p = Lexer::new(
        b"#define foo(x, y, ...) x y __VA_ARGS__\n#define bar(x, y, toto...) x y toto\n#define foo1(toto...) printf(toto)\n#define test1 foo(a, b, c, d, e, f)\n#define test2 bar(a, b, c, d, e, f)\n#define test3 foo1(a, b)\n#define test4 foo1()\n",
    );

    p.consume_tokens(7);

    assert_eq!(eval(&mut p, b"test1"), "a b c,d,e,f");
    assert_eq!(eval(&mut p, b"test2"), "a b c,d,e,f");
    assert_eq!(eval(&mut p, b"test3"), "printf(a,b)");
    assert_eq!(eval(&mut p, b"test4"), "printf()");
}
