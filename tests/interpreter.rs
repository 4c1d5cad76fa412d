use lox::context::Context;
use lox::environment::Environment;
use lox::expression::Expr;
use lox::literal::{Literal, Number};
use lox::parser::Parser;
use lox::scanner::{scan, tokenize, utf8_to_string, Token};
use lox::statement::{execute_program, Stmt};

#[derive(Debug, Clone, Copy, PartialEq)]
struct F(f64);

impl Number for F {
    fn from_lexeme(text: &str) -> Self {
        F(text.parse().expect("a numeric lexeme"))
    }
    fn plus(self, other: Self) -> Self {
        F(self.0 + other.0)
    }
    fn minus(self, other: Self) -> Self {
        F(self.0 - other.0)
    }
    fn times(self, other: Self) -> Self {
        F(self.0 * other.0)
    }
    fn divided_by(self, other: Self) -> Self {
        F(self.0 / other.0)
    }
    fn negated(self) -> Self {
        F(-self.0)
    }
    fn less(self, other: Self) -> bool {
        self.0 < other.0
    }
    fn less_equal(self, other: Self) -> bool {
        self.0 <= other.0
    }
    fn equal(self, other: Self) -> bool {
        self.0 == other.0
    }
    fn to_text(self) -> String {
        format!("{}", self.0)
    }
    fn is_integral(self) -> bool {
        self.0.fract() == 0.0
    }
}

fn get_parser(src: &str) -> Parser {
    let mut context = Context::new();
    let (tokens, lines) = scan(src, &mut context);
    assert!(context.errors.is_empty());
    Parser::with_lines(tokens, lines)
}

fn parse_expr(src: &str) -> Expr<F> {
    get_parser(src).expression::<F>().ok().expect("an expression")
}

fn eval(src: &str) -> Literal<F> {
    parse_expr(src)
        .evaluate(&mut Environment::new())
        .ok()
        .expect("a value")
}

fn program(src: &str) -> Vec<Stmt<F>> {
    get_parser(src).parse::<F>().ok().expect("a program")
}

/// Runs each statement, as a front end does, and returns what was printed.
fn run(code: &str) -> Vec<u8> {
    let mut environment = Environment::new();
    let mut buffer = Vec::<u8>::new();
    for statement in program(code) {
        let _ = statement.execute(&mut environment, &mut buffer);
    }
    buffer
}

fn kinds(tokens: &[Token]) -> Vec<String> {
    tokens.iter().map(|t| t.token_type()).collect()
}

// ---- expressions ----

#[test]
fn expression_basic() {
    let expr_text = "(5 + 2) * -6 == 9";
    let expr: Expr<F> = Expr::Binary {
        left: Expr::Binary {
            left: Expr::Grouping(
                Expr::Binary {
                    left: Expr::Literal(Literal::Number(F(5.0))).into(),
                    op: Token::Plus,
                    right: Expr::Literal(Literal::Number(F(2.0))).into(),
                }
                .into(),
            )
            .into(),
            op: Token::Star,
            right: Expr::Unary {
                op: Token::Minus,
                expr: Expr::Literal(Literal::Number(F(6.0))).into(),
            }
            .into(),
        }
        .into(),
        op: Token::EqualEqual,
        right: Expr::Literal(Literal::Number(F(9.0))).into(),
    };
    assert_eq!(expr.to_string_normal(), expr_text);
}

#[test]
fn complex() {
    let expr_text = "(5+2)*-6 == 9";
    assert_eq!(parse_expr(expr_text).to_string_normal(), "(5 + 2) * -6 == 9")
}

#[test]
fn equalities() {
    let expr_text = "(5==2) == -6 != 9";
    assert_eq!(parse_expr(expr_text).to_string_normal(), "(5 == 2) == -6 != 9")
}

#[test]
fn literal() {
    let expr_text = "\"testing\"";
    assert_eq!(parse_expr(expr_text).to_string_normal(), "\"testing\"")
}

#[test]
fn equality() {
    assert_eq!(eval("(5+2)*-6 == 9"), Literal::False)
}

#[test]
fn arithemtic() {
    assert_eq!(eval("(5+2)*-6"), Literal::Number(F(-42.0)))
}

#[test]
fn arithemtic2() {
    assert_eq!(eval("2 - 3 + 2"), Literal::Number(F(1.0)))
}

#[test]
fn relational() {
    assert_eq!(eval("2 - 3 + 2 < 2"), Literal::True)
}

#[test]
fn concatenation() {
    assert_eq!(
        eval("\"Hello,\" + \" \" + \"World!\""),
        Literal::String("Hello, World!".into())
    )
}

// ---- programs ----

#[test]
fn declare() {
    let code = "var x = 5;
                    var x = x + 2;
                    print x;";
    assert_eq!(run(code), b"7\n");
}

#[test]
fn declare2() {
    let code = "var x = 5;
                    var y = x + 2;
                    print x + y;";
    assert_eq!(run(code), b"12\n")
}

#[test]
fn assign() {
    let code = "var x = 5;
                    x = x + 2;
                    print x;";
    assert_eq!(run(code), b"7\n")
}

#[test]
fn complex_assign() {
    let code = "
                    var x = 5; 
                    x = x + 2; // x is 7
                    print x - 2; // prints 5
                    var y = x - 10; // y is -3
                    print y == -3; 
                    print x - y;
                    ";
    assert_eq!(run(code), b"5\ntrue\n10\n")
}

#[test]
#[should_panic]
fn basic() {
    let code = "
                var x = 2
                print x
                x = x+1
                ";
    let mut environment: Environment<F> = Environment::new();
    let mut buffer = Vec::<u8>::new();
    for statement in program(code) {
        statement.execute(&mut environment, &mut buffer).ok().expect("no runtime error");
    }
}

#[test]
#[should_panic]
fn undefined() {
    let code = "
                print(x);
                ";
    let mut environment: Environment<F> = Environment::new();
    let mut buffer = Vec::<u8>::new();
    for statement in program(code) {
        statement.execute(&mut environment, &mut buffer).ok().expect("no runtime error");
    }
}

#[test]
fn test_basic() {
    let code = "
{
    var x = 2;
    print x;
}
            ";
    assert_eq!(utf8_to_string(&run(code)), vec!["2", ""])
}

#[test]
fn test_nested() {
    let code = "
            var a = \"global a\";
            var b = \"global b\";
            var c = \"global c\";
            {
                var a = \"outer a\";
                var b = \"outer b\";
                {
                    var a = \"inner a\";
                    print a;
                    print b;
                    print c;
                }
                print a;
                print b;
                print c;
            }
            print a;
            print b;
            print c;
            ";
    let output = vec![
        "inner a", "outer b", "global c", //
        "outer a", "outer b", "global c", //
        "global a", "global b", "global c", //
        "",
    ];
    assert_eq!(utf8_to_string(&run(code)), output)
}

#[test]
fn blocks() {
    let code = "
            var i = 1;
            {
                print i;
                i = i + 1;
                print i;
            }
            print i;
            ";
    assert_eq!(utf8_to_string(&run(code)), vec!["1", "2", "2", ""])
}

#[test]
fn outputs() {
    let code = "
                print true or true;
                print true or false;
                print false or true;
                print false or false;
                print true and true;
                print true and false;
                print false and true;
                print false and false;
            ";
    let output = vec![
        "true", "true", "true", "false", "true", "false", "false", "false", "",
    ];
    assert_eq!(utf8_to_string(&run(code)), output)
}

#[test]
fn short_circuiting() {
    let code = "
                print \"hi\" or 2; 
                print nil or \"yes\"; 
            ";
    assert_eq!(utf8_to_string(&run(code)), vec!["hi", "yes", ""])
}

#[test]
fn just_if() {
    let code = "
                if (true) {
                print \"true\";
                }
            ";
    assert_eq!(utf8_to_string(&run(code)), vec!["true", ""])
}

#[test]
fn if_then_else() {
    let code = "
                if (true) {
                print \"true\";
                } else {
                print \"false\"; 
                }
            ";
    assert_eq!(utf8_to_string(&run(code)), vec!["true", ""])
}

#[test]
fn if_then_else_alt() {
    let code = "
                if (false) {
                print \"true\";
                } else {
                print \"false\"; 
                }
            ";
    assert_eq!(utf8_to_string(&run(code)), vec!["false", ""])
}

#[test]
fn if_then_else_no_brackets() {
    let code = "
                if (true) 
                print \"true\";
                 else 
                print \"false\"; 
                
            ";
    assert_eq!(utf8_to_string(&run(code)), vec!["true", ""])
}

#[test]
fn nested() {
    let code = "
                if (true) 
                    if (false)
                        print \"true then false\";
                     else 
                        print \"true then true\";
                else
                    print \"unreachable\"; 
                
            ";
    assert_eq!(utf8_to_string(&run(code)), vec!["true then true", ""])
}

#[test]
fn while_loop() {
    let code = "
                  var i = 0;
                  while (i < 10) {
                    print i;
                    i = i + 1;
                  }
                
            ";
    let output = vec!["0", "1", "2", "3", "4", "5", "6", "7", "8", "9", ""];
    assert_eq!(utf8_to_string(&run(code)), output)
}

#[test]
fn for_loop() {
    let code = "
                  for(var i = 0; i < 10; i = i+1) {
                    print i;
                  }
                
            ";
    let output = vec!["0", "1", "2", "3", "4", "5", "6", "7", "8", "9", ""];
    assert_eq!(utf8_to_string(&run(code)), output)
}

// ---- lexer ----

#[test]
fn test_single_char_tokens() {
    let input = "+ - * / ( ) { } ; , .";
    let mut ctx = Context::new();
    let tokens = tokenize(input, &mut ctx);
    let expected_tokens = vec![
        Token::Plus,
        Token::Minus,
        Token::Star,
        Token::Slash,
        Token::LeftParen,
        Token::RightParen,
        Token::LeftBrace,
        Token::RightBrace,
        Token::SemiColon,
        Token::Comma,
        Token::Dot,
        Token::EOF,
    ];
    assert_eq!(tokens, expected_tokens);
    assert!(ctx.errors.is_empty());
}

#[test]
fn test_numbers() {
    let input = "42 3.14 0.5";
    let mut ctx = Context::new();
    let tokens = tokenize(input, &mut ctx);
    let expected_tokens = vec![
        Token::Number("42".to_string()),
        Token::Number("3.14".to_string()),
        Token::Number("0.5".to_string()),
        Token::EOF,
    ];
    assert_eq!(tokens, expected_tokens);
    assert!(ctx.errors.is_empty());
}

#[test]
fn test_strings() {
    let input = "\"hello\" \"world\" \"unterminated string";
    let mut ctx = Context::new();
    let tokens = tokenize(input, &mut ctx);
    let expected_tokens = vec![
        Token::String("hello".to_string()),
        Token::String("world".to_string()),
        Token::EOF,
    ];
    assert_eq!(tokens, expected_tokens);
    assert_eq!(ctx.errors.len(), 1);
    assert_eq!(ctx.errors[0], ("Unterminated string.".to_string(), 1));
}

#[test]
fn test_identifiers_and_keywords() {
    let input = "var x = 42; if (x > 0) { print x; }";
    let mut ctx = Context::new();
    let tokens = tokenize(input, &mut ctx);
    let expected_tokens = vec![
        Token::Var,
        Token::Identifier("x".to_string()),
        Token::Equal,
        Token::Number("42".to_string()),
        Token::SemiColon,
        Token::If,
        Token::LeftParen,
        Token::Identifier("x".to_string()),
        Token::Greater,
        Token::Number("0".to_string()),
        Token::RightParen,
        Token::LeftBrace,
        Token::Print,
        Token::Identifier("x".to_string()),
        Token::SemiColon,
        Token::RightBrace,
        Token::EOF,
    ];
    assert_eq!(tokens, expected_tokens);
    assert!(ctx.errors.is_empty());
}

#[test]
fn test_operators() {
    let input = "== != <= >= = ! < >";
    let mut ctx = Context::new();
    let tokens = tokenize(input, &mut ctx);
    let expected_tokens = vec![
        Token::EqualEqual,
        Token::BangEqual,
        Token::LessEqual,
        Token::GreaterEqual,
        Token::Equal,
        Token::Bang,
        Token::Less,
        Token::Greater,
        Token::EOF,
    ];
    assert_eq!(tokens, expected_tokens);
    assert!(ctx.errors.is_empty());
}

#[test]
fn test_comments() {
    let input = "// This is a comment\nvar x = 42; // Another comment\nx;";
    let mut ctx = Context::new();
    let tokens = tokenize(input, &mut ctx);
    let expected_tokens = vec![
        Token::Var,
        Token::Identifier("x".to_string()),
        Token::Equal,
        Token::Number("42".to_string()),
        Token::SemiColon,
        Token::Identifier("x".to_string()),
        Token::SemiColon,
        Token::EOF,
    ];
    assert_eq!(tokens, expected_tokens);
    assert!(ctx.errors.is_empty());
}

#[test]
fn test_invalid_characters() {
    let input = "@ # $ % ^ &";
    let mut ctx = Context::new();
    let tokens = tokenize(input, &mut ctx);
    assert_eq!(tokens, vec![Token::EOF]);
    assert_eq!(ctx.errors.len(), 6);
    let expected_errors = vec![
        ("Unexpected character: '@'".to_string(), 1),
        ("Unexpected character: '#'".to_string(), 1),
        ("Unexpected character: '$'".to_string(), 1),
        ("Unexpected character: '%'".to_string(), 1),
        ("Unexpected character: '^'".to_string(), 1),
        ("Unexpected character: '&'".to_string(), 1),
    ];
    assert_eq!(ctx.errors, expected_errors);
}

#[test]
fn test_number_followed_by_identifier() {
    let input = "42abc";
    let mut ctx = Context::new();
    let tokens = tokenize(input, &mut ctx);
    let expected_tokens = vec![
        Token::Number("42".to_string()),
        Token::Identifier("abc".to_string()),
        Token::EOF,
    ];
    assert_eq!(tokens, expected_tokens);
    assert!(ctx.errors.is_empty());
}

#[test]
fn test_invalid_numbers() {
    let input = "1..2";
    let mut ctx = Context::new();
    let tokens = tokenize(input, &mut ctx);
    let expected_tokens = vec![
        Token::Number("1.".to_string()),
        Token::Dot,
        Token::Number("2".to_string()),
        Token::EOF,
    ];
    assert_eq!(tokens, expected_tokens);
    assert!(ctx.errors.is_empty());
}

#[test]
fn test_identifiers_with_underscores_and_digits() {
    let input = "_var var1 var_name";
    let mut ctx = Context::new();
    let tokens = tokenize(input, &mut ctx);
    let expected_tokens = vec![
        Token::Identifier("_var".to_string()),
        Token::Identifier("var1".to_string()),
        Token::Identifier("var_name".to_string()),
        Token::EOF,
    ];
    assert_eq!(tokens, expected_tokens);
    assert!(ctx.errors.is_empty());
}

#[test]
fn test_unterminated_string_with_newline() {
    let input = "\"This is a\nstring with a newline\"";
    let mut ctx = Context::new();
    let tokens = tokenize(input, &mut ctx);
    let expected_tokens = vec![
        Token::String("This is a\nstring with a newline".to_owned()),
        Token::EOF,
    ];
    assert_eq!(tokens, expected_tokens);
}

#[test]
fn test_multiline_comments() {
    let input = "// Comment line 1\n// Comment line 2\nvar x = 10;";
    let mut ctx = Context::new();
    let tokens = tokenize(input, &mut ctx);
    let expected_tokens = vec![
        Token::Var,
        Token::Identifier("x".to_string()),
        Token::Equal,
        Token::Number("10".to_string()),
        Token::SemiColon,
        Token::EOF,
    ];
    assert_eq!(tokens, expected_tokens);
    assert!(ctx.errors.is_empty());
}

// ---- further behaviour ----

fn run_result(code: &str, environment: &mut Environment<F>) -> (Vec<u8>, Option<(String, u64)>) {
    let mut buffer = Vec::<u8>::new();
    let r = execute_program(&program(code), environment, &mut buffer);
    (buffer, r.err().map(|e| (e.message, e.line)))
}

#[test]
fn inner_declarations_do_not_leak() {
    assert_eq!(run("{ var a = 1; { var a = 2; } print a; }"), b"1\n");
}

#[test]
fn assignment_updates_enclosing_binding() {
    assert_eq!(run("var a = 1; { a = 2; } print a;"), b"2\n");
}

#[test]
fn short_circuit_keeps_value_and_skips_right_operand() {
    assert_eq!(run("print \"hi\" or 2;"), b"hi\n");
    assert_eq!(run("print nil or \"yes\";"), b"yes\n");
    let code = "var a = 0; print true or (a = 1); print false and (a = 2); print a;";
    assert_eq!(run(code), b"true\nfalse\n0\n");
}

#[test]
fn for_loop_counts_to_three() {
    assert_eq!(run("for (var i = 0; i < 3; i = i + 1) print i;"), b"0\n1\n2\n");
}

#[test]
fn undefined_variable_is_a_runtime_error() {
    let (out, err) = run_result("print x;", &mut Environment::new());
    assert!(out.is_empty());
    assert_eq!(err, Some(("Undefined variable 'x'.".to_string(), 1)));
}

#[test]
fn distinct_kinds_are_never_equal() {
    assert_eq!(eval("1 == \"1\""), Literal::False);
    assert_eq!(eval("nil == false"), Literal::False);
    assert_eq!(eval("nil != false"), Literal::True);
    assert_eq!(eval("\"a\" == \"a\""), Literal::True);
    assert_eq!(eval("nil == nil"), Literal::True);
}

#[test]
fn relexing_lexemes_keeps_kinds() {
    let src = "var x=(1.5+2)*3; if(x>=2){print \"s t\";} else x = !nil and y or z;";
    let mut ctx = Context::new();
    let tokens = tokenize(src, &mut ctx);
    let joined: Vec<String> = tokens.iter().map(|t| t.lexeme()).collect();
    let again = tokenize(&joined.join(" "), &mut ctx);
    assert!(ctx.errors.is_empty());
    assert_eq!(kinds(&again), kinds(&tokens));
    assert_eq!(again, tokens);
}

#[test]
fn infix_print_reparses_to_same_tree() {
    for src in ["(5+2)*-6 == 9 - 3 / 1", "1 < 2 == !(3 >= 4) != false", "-(-1) * 2 + 3"] {
        let first = parse_expr(src);
        let printed = first.to_string_normal();
        let second = parse_expr(&printed);
        assert_eq!(second.pretty_string(), first.pretty_string());
        assert_eq!(second.to_string_normal(), printed);
    }
}

#[test]
fn prefix_form() {
    assert_eq!(
        parse_expr("(5+2)*-6 == 9").pretty_string(),
        "(== (* (group (+ 5 2)) (- 6)) 9)"
    );
    assert_eq!(parse_expr("a = b or c").pretty_string(), "(= a (or b c))");
}

#[test]
fn invalid_assignment_target() {
    let r = get_parser("1 = 2;").parse::<F>();
    assert_eq!(r.err().map(|e| e.message), Some("invalid assignment target".to_string()));
}

#[test]
fn missing_closing_brace() {
    let r = get_parser("{ print 1;").parse::<F>();
    let e = r.err().expect("a syntax error");
    assert_eq!(e.message, "expected '}' (RIGHT_BRACE), found '' (EOF)");
}

#[test]
fn missing_expression() {
    let r = get_parser("print ;").parse::<F>();
    let e = r.err().expect("a syntax error");
    assert_eq!(e.message, "expected an expression, found ';' (SEMICOLON)");
    assert_eq!(e.line, 1);
}

#[test]
fn operator_type_errors() {
    let (out, err) = run_result("print 1;\nprint 1 + \"a\";", &mut Environment::new());
    assert_eq!(out, b"1\n");
    assert_eq!(
        err,
        Some(("Invalid operation '+' on number and string".to_string(), 2))
    );
    let (_, err) = run_result("print -\"a\";", &mut Environment::new());
    assert_eq!(err, Some(("Operand must be a number.".to_string(), 1)));
    let (_, err) = run_result("print \"a\" < \"b\";", &mut Environment::new());
    assert_eq!(
        err,
        Some(("Invalid operation '<' on string and string".to_string(), 1))
    );
    let (_, err) = run_result("print nil * true;", &mut Environment::new());
    assert_eq!(err, Some(("Invalid operation '*' on nil and boolean".to_string(), 1)));
}

#[test]
fn assignment_never_declares() {
    let (_, err) = run_result("x = 1;", &mut Environment::new());
    assert_eq!(err, Some(("Undefined variable 'x'.".to_string(), 1)));
}

#[test]
fn program_stops_at_first_error() {
    let (out, err) = run_result("print 1; print x; print 2;", &mut Environment::new());
    assert_eq!(out, b"1\n");
    assert!(err.is_some());
}

#[test]
fn step_limit_stops_endless_loop() {
    let mut env: Environment<F> = Environment::with_step_limit(2);
    let (out, err) = run_result("while (true) print 1;", &mut env);
    assert_eq!(out, b"1\n1\n");
    assert_eq!(err, Some(("Step limit reached.".to_string(), 1)));
    assert_eq!(env.steps(), 0);
}

#[test]
fn truthiness_and_printing() {
    assert_eq!(
        run("print !0; print !\"\"; print !nil; print !false; var u; print u; print 2.5; print 1/0;"),
        b"false\nfalse\ntrue\ntrue\nnil\n2.5\ninf\n"
    );
}

#[test]
fn redeclaration_overwrites() {
    assert_eq!(run("var a = 1; var a = \"two\"; print a;"), b"two\n");
}

#[test]
fn token_texts() {
    assert_eq!(Token::Number("42".to_string()).literal::<F>(), "42.0");
    assert_eq!(Token::Number("3.14".to_string()).literal::<F>(), "3.14");
    assert_eq!(Token::String("hi".to_string()).literal::<F>(), "hi");
    assert_eq!(Token::Plus.literal::<F>(), "null");
    assert_eq!(Token::String("hi".to_string()).lexeme(), "\"hi\"");
    assert_eq!(Token::GreaterEqual.lexeme(), ">=");
    assert_eq!(Token::GreaterEqual.token_type(), "GREATER_EQUAL");
    assert_eq!(Token::While.token_type(), "WHILE");
    assert_eq!(Token::EOF.lexeme(), "");
}

#[test]
fn error_lines_count_newlines() {
    let mut ctx = Context::new();
    tokenize("\n\"abc", &mut ctx);
    assert_eq!(ctx.errors, vec![("Unterminated string.".to_string(), 2)]);
    let mut ctx = Context::new();
    tokenize("\"a\nb\" @ // c\n#", &mut ctx);
    assert_eq!(
        ctx.errors,
        vec![
            ("Unexpected character: '@'".to_string(), 2),
            ("Unexpected character: '#'".to_string(), 3)
        ]
    );
    ctx.error("custom", 9);
    assert_eq!(ctx.errors[2], ("custom".to_string(), 9));
}

#[test]
fn environment_scopes() {
    let mut env: Environment<F> = Environment::new();
    assert_eq!(env.scope(), 1);
    assert_eq!(env.insert("a".to_string(), Literal::Nil), None);
    assert_eq!(env.insert("a".to_string(), Literal::True), Some(Literal::Nil));
    env.push_scope();
    assert_eq!(env.scope(), 2);
    assert_eq!(env.get(&"a".to_string()), Some(Literal::True));
    env.insert("a".to_string(), Literal::False);
    assert!(env.assign(&"a".to_string(), Literal::Number(F(3.0))));
    assert!(!env.assign(&"b".to_string(), Literal::Nil));
    env.pop_scope();
    assert_eq!(env.scope(), 1);
    assert_eq!(env.get(&"a".to_string()), Some(Literal::True));
    assert_eq!(env.get(&"b".to_string()), None);
}

#[test]
fn splits_output_lines() {
    assert_eq!(utf8_to_string(b"a\nb"), vec!["a", "b"]);
    assert_eq!(utf8_to_string("é\n".as_bytes()), vec!["é", ""]);
    assert_eq!(utf8_to_string(b""), vec![""]);
}

#[test]
fn values_print_and_test() {
    let s: Literal<F> = Literal::String("x".to_string());
    assert_eq!(s.to_string(), "x");
    assert!(s.truthy());
    assert!(!Literal::<F>::Nil.truthy());
    assert_eq!(Literal::<F>::from_bool(true), Literal::True);
    assert_eq!(Literal::Number(F(7.0)).to_string(), "7");
}

#[test]
fn for_without_clauses_is_desugared() {
    let mut env: Environment<F> = Environment::with_step_limit(3);
    let (out, err) = run_result("for (;;) print 1;", &mut env);
    assert_eq!(out, b"1\n1\n1\n");
    assert_eq!(err, Some(("Step limit reached.".to_string(), 1)));
    assert_eq!(run("var i = 0; for (; i < 2;) i = i + 1; print i;"), b"2\n");
    let parsed = program("for (var i = 0; i < 1; i = i + 1) print i;");
    assert_eq!(parsed.len(), 1);
    assert!(matches!(&parsed[0], Stmt::Block(v) if v.len() == 2 && matches!(&v[1], Stmt::While(..))));
}

#[test]
fn loop_body_declarations_stay_inside() {
    let (out, err) = run_result("for (var i = 0; i < 1; i = i + 1) var inner = 1; print inner;", &mut Environment::new());
    assert!(out.is_empty());
    assert_eq!(err, Some(("Undefined variable 'inner'.".to_string(), 1)));
}

#[test]
fn dangling_else_binds_to_nearest_if() {
    assert_eq!(run("if (true) if (false) print 1; else print 2;"), b"2\n");
}

#[test]
fn assignment_is_right_associative() {
    assert_eq!(run("var a; var b; a = b = 3; print a; print b;"), b"3\n3\n");
    assert_eq!(parse_expr("a = b = c").pretty_string(), "(= a (= b c))");
}

#[test]
fn errors_carry_source_lines() {
    let (_, err) = run_result("var a = 1;\n\n{\n  print a + b;\n}", &mut Environment::new());
    assert_eq!(err, Some(("Undefined variable 'b'.".to_string(), 4)));
    let r = get_parser("print 1;\nprint (2;").parse::<F>();
    let e = r.err().expect("a syntax error");
    assert_eq!(e.line, 2);
    let mut ctx = Context::new();
    let (tokens, lines) = scan("a\n\"b\nc\" d", &mut ctx);
    assert_eq!(tokens.len(), 4);
    assert_eq!(lines, vec![1, 2, 3, 3]);
}

#[test]
fn plain_expression_round_trip() {
    let src = "a = !(b and c) or nil == d != -e + \"s t\"";
    let first = parse_expr(src);
    let printed = first.to_string_normal();
    assert_eq!(printed, src);
    let mut ctx = Context::new();
    let tokens = tokenize(&printed, &mut ctx);
    let from_source = tokenize(src, &mut ctx);
    assert_eq!(tokens, from_source);
    assert_eq!(parse_expr(&printed).pretty_string(), first.pretty_string());
    assert_eq!(first.pretty_string(), "(= a (or (! (group (and b c))) (!= (== nil d) (+ (- e) s t))))");
}
