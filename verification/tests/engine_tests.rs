use cpre::engine::{assemble_args, make_string, parse_groups};
use cpre::{Action, IfState, Lexer, MacroFunction, MacroObject, MacroType};

fn eval(p: &mut Lexer, name: &[u8]) -> (bool, String) {
    let mut res: Vec<u8> = Vec::new();
    let ok = p.eval_macro(name, &mut res);
    (ok, String::from_utf8(res).unwrap())
}

#[test]
fn object_macro_without_identifier_expands_verbatim_every_time() {
    let mut p = Lexer::new(b"#define k 42 + 7\n");
    p.consume_tokens(1);
    let (ok1, first) = eval(&mut p, b"k");
    let (ok2, second) = eval(&mut p, b"k");
    assert!(ok1 && ok2);
    assert_eq!(first, "42 + 7");
    assert_eq!(second, first);
}

#[test]
fn object_macro_expansion_is_repeatable() {
    let mut p = Lexer::new(b"#define foo x + 1\n#define test1 foo\n");
    p.consume_tokens(2);
    let (_, first) = eval(&mut p, b"test1");
    let (_, second) = eval(&mut p, b"test1");
    assert_eq!(first, "x + 1");
    assert_eq!(second, first);
}

#[test]
fn argument_expanded_before_substitution_but_not_for_stringify() {
    let mut p = Lexer::new(b"#define foo bar\n#define id(x) x\n#define s(x) #x\n#define a id(foo)\n#define b s(foo)\n");
    p.consume_tokens(5);
    assert_eq!(eval(&mut p, b"a").1, "bar");
    assert_eq!(eval(&mut p, b"b").1, "\"foo\"");
}

#[test]
fn token_paste_fuses_without_whitespace() {
    let mut p = Lexer::new(b"#define cat(a,b) a##b\n#define t cat(hello, world)\n");
    p.consume_tokens(2);
    assert_eq!(eval(&mut p, b"t").1, "helloworld");
}

#[test]
fn variadic_tail_joined_by_commas() {
    let mut p = Lexer::new(b"#define f(x,y,...) x y __VA_ARGS__\n#define t f(a,b,c,d,e,f)\n");
    p.consume_tokens(2);
    assert_eq!(eval(&mut p, b"t").1, "a b c,d,e,f");
}

#[test]
fn empty_variadic_tail_leaves_no_comma() {
    let mut p = Lexer::new(b"#define f(x,y,...) x y __VA_ARGS__\n#define t f(a,b)\n");
    p.consume_tokens(2);
    assert_eq!(eval(&mut p, b"t").1, "a b ");
}

#[test]
fn unknown_macro_fails_and_leaves_output_untouched() {
    let mut p = Lexer::new(b"#define foo 1\n");
    p.consume_tokens(1);
    let mut res: Vec<u8> = Vec::new();
    res.push(b'!');
    assert!(!p.eval_macro(b"nope", &mut res));
    assert_eq!(res, b"!".to_vec());
}

#[test]
fn wrong_arity_fails() {
    let mut p = Lexer::new(b"#define f(a,b) a b\n#define t f(1)\n#define u f(1,2,3)\n");
    p.consume_tokens(3);
    // the bad invocations sit inside object macros; the names stay literal
    assert_eq!(eval(&mut p, b"t"), (true, "f(1)".to_string()));
    assert_eq!(eval(&mut p, b"u"), (true, "f(1,2,3)".to_string()));
}

#[test]
fn unterminated_argument_list_fails() {
    let mut src = Lexer::new(b"#define f(a) a\n");
    src.consume_tokens(1);
    let mut ctx = src.into_context();
    let mut args = Lexer::new(b"(1, 2");
    let mut res: Vec<u8> = Vec::new();
    assert!(!ctx.eval(b"f", &mut args, &mut res));
    assert!(res.is_empty());
}

#[test]
fn function_macro_without_parenthesis_fails() {
    let mut p = Lexer::new(b"#define f(a) a\nnothing here");
    p.consume_tokens(1);
    let mut res: Vec<u8> = Vec::new();
    assert!(!p.eval_macro(b"f", &mut res));
    assert!(res.is_empty());
}

#[test]
fn eval_reads_arguments_from_scanner() {
    let mut src = Lexer::new(b"#define add(a,b) a + b\n");
    src.consume_tokens(1);
    let mut ctx = src.into_context();
    let mut args = Lexer::new(b"(1, 2)");
    let mut res: Vec<u8> = Vec::new();
    assert!(ctx.eval(b"add", &mut args, &mut res));
    assert_eq!(String::from_utf8(res).unwrap(), "1 + 2");
}

#[test]
fn undef_removes_definition() {
    let mut p = Lexer::new(b"#define foo 1\n#undef foo\n");
    p.consume_tokens(2);
    assert!(p.context().get(&b"foo".to_vec()).is_none());
    let mut res: Vec<u8> = Vec::new();
    assert!(!p.eval_macro(b"foo", &mut res));
}

#[test]
fn redefinition_overwrites() {
    let mut p = Lexer::new(b"#define foo 1\n#define foo 2\n");
    p.consume_tokens(2);
    assert_eq!(eval(&mut p, b"foo").1, "2");
}

#[test]
fn lookup_kind_reports_shape() {
    let mut p = Lexer::new(b"#define obj 1\n#define f(a,b) a b\n#define g(a,b,...) a\n");
    p.consume_tokens(3);
    let ctx = p.context();
    assert!(matches!(ctx.get_type(&b"obj".to_vec()), MacroType::Object(_)));
    assert!(matches!(ctx.get_type(&b"f".to_vec()), MacroType::Function(2, None)));
    assert!(matches!(ctx.get_type(&b"g".to_vec()), MacroType::Function(3, Some(2))));
    assert!(matches!(ctx.get_type(&b"none".to_vec()), MacroType::Undefined));
    assert!(ctx.defined(&b"obj".to_vec()));
    assert!(!ctx.defined(&b"none".to_vec()));
}

#[test]
fn conditional_stack_operations() {
    let mut c = Lexer::new(b"").into_context();
    assert!(c.if_state().is_none());
    c.add_if(IfState::Eval);
    assert_eq!(*c.if_state().unwrap(), IfState::Eval);
    c.add_if(IfState::Skip);
    assert_eq!(*c.if_state().unwrap(), IfState::Skip);
    c.if_change(IfState::SkipAndSwitch);
    assert_eq!(*c.if_state().unwrap(), IfState::SkipAndSwitch);
    c.rm_if();
    assert_eq!(*c.if_state().unwrap(), IfState::Eval);
    c.rm_if();
    assert!(c.if_state().is_none());
    c.rm_if();
    assert!(c.if_state().is_none());
}

#[test]
fn action_accessors() {
    assert!(Action::Arg(3).is_arg());
    assert!(!Action::Concat(3).is_arg());
    assert!(!Action::Chunk(0).is_arg());
    assert_eq!(Action::Arg(3).arg_n(), 3);
    assert_eq!(Action::Stringify(5).arg_n(), 0);
}

#[test]
fn macro_constructors() {
    let f = MacroFunction::new(Vec::new(), Vec::new(), 2, None);
    assert_eq!(f.len(), 2);
    assert!(!f.is_empty());
    let g = MacroFunction::new(Vec::new(), Vec::new(), 0, None);
    assert!(g.is_empty());
    let o = MacroObject::new(b"abc".to_vec(), true);
    let mut ctx = Lexer::new(b"").into_context();
    ctx.add_object(b"o".to_vec(), o);
    assert!(ctx.defined(&b"o".to_vec()));
}

#[test]
fn stringify_escapes_quotes_and_backslashes() {
    let arg: Vec<u8> = b"a\"b\\c".to_vec();
    let mut out: Vec<u8> = Vec::new();
    make_string(&arg, &mut out);
    assert_eq!(out, b"\"a\\\"b\\\\c\"".to_vec());
}

#[test]
fn group_parsing_respects_nesting_and_trims() {
    let buf: Vec<u8> = b"( a , (b,c) , d ) tail".to_vec();
    let (groups, close) = parse_groups(&buf, 1).unwrap();
    assert_eq!(groups.len(), 3);
    assert_eq!(groups[0], b"a".to_vec());
    assert_eq!(groups[1], b"(b,c)".to_vec());
    assert_eq!(groups[2], b"d".to_vec());
    assert_eq!(close, 17);
    let open_ended: Vec<u8> = b"(a, b".to_vec();
    assert!(parse_groups(&open_ended, 1).is_none());
}

#[test]
fn variadic_assembly_joins_and_collapses() {
    let groups: Vec<Vec<u8>> = vec![b"a".to_vec(), b"b".to_vec(), b"c".to_vec(), b"d".to_vec()];
    let args = assemble_args(&groups, 2, Some(1)).unwrap();
    assert_eq!(args.len(), 2);
    assert_eq!(args[0], b"a".to_vec());
    assert_eq!(args[1], b"b,c,d".to_vec());
    let fixed_only: Vec<Vec<u8>> = vec![b"a".to_vec()];
    let args2 = assemble_args(&fixed_only, 2, Some(1)).unwrap();
    assert_eq!(args2[1], b"".to_vec());
    let wrong: Vec<Vec<u8>> = vec![b"a".to_vec()];
    assert!(assemble_args(&wrong, 2, None).is_none());
}

#[test]
fn unknown_directive_is_consumed_without_effect() {
    let mut p = Lexer::new(b"#pragma whatever x y\n#define x 1\n");
    p.consume_tokens(2);
    assert!(p.context().defined(&b"x".to_vec()));
    assert!(!p.context().defined(&b"pragma".to_vec()));
    assert!(!p.context().defined(&b"whatever".to_vec()));
}
