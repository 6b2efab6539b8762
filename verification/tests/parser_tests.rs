use nmpolicy::ast::node::{current_state, eqfilter, identity, number, path, replace, string, Node};
use nmpolicy::error::ErrorKind;
use nmpolicy::lex::tokens::Token;
use nmpolicy::lex::tokens::Token::{Dot, EqFilter, Identity, Number, Pipe, Replace, Str};
use nmpolicy::parse::parser::{parse_expression, Parser};
use nmpolicy::NmpolicyError;

#[derive(Clone, Debug)]
struct FromTokens {
    expression: String,
    tokens: Vec<Result<Token, NmpolicyError>>,
}

impl FromTokens {
    fn new() -> Self {
        Self { expression: "".to_string(), tokens: vec![] }
    }
    fn identity(&mut self, literal: &str) -> &mut Self {
        self.tokens.push(Ok(Identity(self.expression.len(), literal.to_string())));
        self.expression.push_str(literal);
        self
    }
    fn string(&mut self, literal: &str) -> &mut Self {
        self.tokens.push(Ok(Str(self.expression.len(), literal.to_string())));
        self.expression.push_str(literal);
        self
    }
    fn number(&mut self, literal: u32) -> &mut Self {
        self.tokens.push(Ok(Number(self.expression.len(), literal)));
        self.expression.push_str(format!("{literal}").as_str());
        self
    }
    fn dot(&mut self) -> &mut Self {
        let dot = Dot(self.expression.len());
        self.tokens.push(Ok(dot.clone()));
        self.expression = format!("{}{}", self.expression, dot.literal());
        self
    }
    fn eqfilter(&mut self) -> &mut Self {
        let eqfilter = EqFilter(self.expression.len());
        self.tokens.push(Ok(eqfilter.clone()));
        self.expression = format!("{}{}", self.expression, eqfilter.literal());
        self
    }
    fn replace(&mut self) -> &mut Self {
        let replace = Replace(self.expression.len());
        self.tokens.push(Ok(replace.clone()));
        self.expression = format!("{}{}", self.expression, replace.literal());
        self
    }
    fn pipe(&mut self) -> &mut Self {
        let pipe = Pipe(self.expression.len());
        self.tokens.push(Ok(pipe.clone()));
        self.expression = format!("{}{}", self.expression, pipe.literal());
        self
    }
    fn token(&mut self, token: Token) -> &mut Self {
        self.expression = format!("{}{}", self.expression, token.literal());
        self.tokens.push(Ok(token));
        self
    }
    fn failure(&mut self, e: NmpolicyError) -> &mut Self {
        self.tokens.push(Err(e));
        self
    }
    fn eof(&self) -> Self {
        self.clone()
    }
}

fn from_tokens() -> FromTokens {
    FromTokens::new()
}

fn check_ast(from_tokens: FromTokens, expected_ast: Option<Box<Node>>) {
    let mut parser = Parser::new(from_tokens.expression.clone(), from_tokens.tokens.clone());
    let obtained_result = parser.parse();
    assert_eq!(Ok(expected_ast), obtained_result);
}

fn check_error(from_tokens: FromTokens, expected_error: &str) {
    let mut parser = Parser::new(from_tokens.expression.clone(), from_tokens.tokens.clone());
    let obtained_result = parser.parse();
    assert_eq!(true, obtained_result.is_err());
    let e = obtained_result.unwrap_err();
    assert_eq!(expected_error, e.to_string());
    assert_eq!(ErrorKind::ValidationError, e.kind());
}

#[test]
fn parse_empty() {
    check_ast(from_tokens().eof(), None);
}

#[test]
fn parse_path() {
    check_ast(
        from_tokens().identity("routes").dot().identity("running").dot().identity("destination").eof(),
        Some(path(
            0,
            vec![
                *identity(0, "routes".to_string()),
                *identity(7, "running".to_string()),
                *identity(15, "destination".to_string()),
            ],
        )),
    );
}

#[test]
fn parse_eqfilter_with_string() {
    check_ast(
        from_tokens()
            .identity("routes")
            .dot()
            .identity("running")
            .dot()
            .identity("destination")
            .eqfilter()
            .string("0.0.0.0/0")
            .eof(),
        Some(eqfilter(
            26,
            current_state(0),
            path(
                0,
                vec![
                    *identity(0, "routes".to_string()),
                    *identity(7, "running".to_string()),
                    *identity(15, "destination".to_string()),
                ],
            ),
            string(28, "0.0.0.0/0".to_string()),
        )),
    );
}

#[test]
fn parse_eqfilter_with_path() {
    check_ast(
        from_tokens()
            .identity("routes")
            .dot()
            .identity("running")
            .dot()
            .identity("next-hop-interface")
            .eqfilter()
            .identity("capture")
            .dot()
            .identity("default-gw")
            .dot()
            .identity("routes")
            .dot()
            .number(0)
            .dot()
            .identity("next-hop-interface")
            .eof(),
        Some(eqfilter(
            33,
            current_state(0),
            path(
                0,
                vec![
                    *identity(0, "routes".to_string()),
                    *identity(7, "running".to_string()),
                    *identity(15, "next-hop-interface".to_string()),
                ],
            ),
            path(
                35,
                vec![
                    *identity(35, "capture".to_string()),
                    *identity(43, "default-gw".to_string()),
                    *identity(54, "routes".to_string()),
                    *number(61, 0),
                    *identity(63, "next-hop-interface".to_string()),
                ],
            ),
        )),
    );
}

#[test]
fn parse_replace_with_string() {
    check_ast(
        from_tokens()
            .identity("routes")
            .dot()
            .identity("running")
            .dot()
            .identity("next-hop-interface")
            .replace()
            .string("br1")
            .eof(),
        Some(replace(
            33,
            current_state(0),
            path(
                0,
                vec![
                    *identity(0, "routes".to_string()),
                    *identity(7, "running".to_string()),
                    *identity(15, "next-hop-interface".to_string()),
                ],
            ),
            string(35, "br1".to_string()),
        )),
    );
}

#[test]
fn parse_replace_with_path() {
    check_ast(
        from_tokens()
            .identity("routes")
            .dot()
            .identity("running")
            .dot()
            .identity("next-hop-interface")
            .replace()
            .identity("capture")
            .dot()
            .identity("primary-nic")
            .dot()
            .identity("interfaces")
            .dot()
            .number(0)
            .dot()
            .identity("name")
            .eof(),
        Some(replace(
            33,
            current_state(0),
            path(
                0,
                vec![
                    *identity(0, "routes".to_string()),
                    *identity(7, "running".to_string()),
                    *identity(15, "next-hop-interface".to_string()),
                ],
            ),
            path(
                35,
                vec![
                    *identity(35, "capture".to_string()),
                    *identity(43, "primary-nic".to_string()),
                    *identity(55, "interfaces".to_string()),
                    *number(66, 0),
                    *identity(68, "name".to_string()),
                ],
            ),
        )),
    );
}

#[test]
fn parse_capture_pipe_replace() {
    check_ast(
        from_tokens()
            .identity("capture")
            .dot()
            .identity("default-gw")
            .pipe()
            .identity("routes")
            .dot()
            .identity("running")
            .dot()
            .identity("next-hop-interface")
            .replace()
            .string("br1")
            .eof(),
        Some(replace(
            52,
            path(
                0,
                vec![*identity(0, "capture".to_string()), *identity(8, "default-gw".to_string())],
            ),
            path(
                19,
                vec![
                    *identity(19, "routes".to_string()),
                    *identity(26, "running".to_string()),
                    *identity(34, "next-hop-interface".to_string()),
                ],
            ),
            string(54, "br1".to_string()),
        )),
    );
}

#[test]
fn parse_string_alone() {
    check_ast(from_tokens().string("foo").eof(), Some(string(0, "foo".to_string())));
}

#[test]
fn parse_basic_failures() {
    check_error(
        from_tokens().dot().eof(),
        r#"invalid expression: unexpected token `.`
| .
| ^"#,
    );
}

#[test]
fn parse_unexpected_tokens() {
    check_error(
        from_tokens().number(12).eof(),
        "invalid expression: unexpected token `12`\n| 12\n| ^",
    );
    check_error(
        from_tokens().token(Token::Merge(0)).eof(),
        "invalid expression: unexpected token `+`\n| +\n| ^",
    );
    check_error(
        from_tokens().token(Token::True(0)).eof(),
        "invalid expression: unexpected token `true`\n| true\n| ^",
    );
    check_error(
        from_tokens().string("a").token(Token::False(1)).eof(),
        "invalid expression: unexpected token `false`\n| afalse\n| .^",
    );
    // A merge ends a path and is then refused.
    check_error(
        from_tokens().identity("a").token(Token::Merge(1)).identity("b").eof(),
        "invalid expression: unexpected token `+`\n| a+b\n| .^",
    );
}

#[test]
fn parse_path_failure_0() {
    check_error(
        from_tokens().identity("routes").dot().eof(),
        r#"invalid path: missing identity or number after dot
| routes.
| ......^"#,
    );
}

#[test]
fn parse_path_failure_1() {
    check_error(
        from_tokens().identity("routes").identity("destination").eof(),
        r#"invalid path: missing dot
| routesdestination
| ......^"#,
    );
}

#[test]
fn parse_path_failure_2() {
    check_error(
        from_tokens().identity("routes").dot().dot().identity("destination").eof(),
        r#"invalid path: missing identity or number after dot
| routes..destination
| .......^"#,
    );
}

#[test]
fn parse_eqfilter_failure_0() {
    check_error(
        from_tokens().eqfilter().string("0.0.0.0/0").eof(),
        r#"invalid equality filter: missing left hand argument
| ==0.0.0.0/0
| ^"#,
    );
}

#[test]
fn parse_eqfilter_failure_1() {
    check_error(
        from_tokens().string("foo").eqfilter().string("0.0.0.0/0").eof(),
        r#"invalid equality filter: left hand argument is not a path
| foo==0.0.0.0/0
| ...^"#,
    );
}

#[test]
fn parse_eqfilter_failure_2() {
    check_error(
        from_tokens()
            .identity("routes")
            .dot()
            .identity("running")
            .dot()
            .identity("destination")
            .eqfilter()
            .eof(),
        r#"invalid equality filter: missing right hand argument
| routes.running.destination==
| ..........................^"#,
    );
}

#[test]
fn parse_eqfilter_failure_3() {
    check_error(
        from_tokens()
            .identity("routes")
            .dot()
            .identity("running")
            .dot()
            .identity("destination")
            .eqfilter()
            .eqfilter()
            .eof(),
        r#"invalid equality filter: right hand argument is not a string or identity
| routes.running.destination====
| ............................^"#,
    );
}

#[test]
fn parse_pipe_failure_0() {
    check_error(
        from_tokens()
            .pipe()
            .identity("routes")
            .dot()
            .identity("running")
            .dot()
            .identity("next-hop-interface")
            .replace()
            .string("br1")
            .eof(),
        r#"invalid pipe: missing pipe in expression
| |routes.running.next-hop-interface:=br1
| ^"#,
    );
}

#[test]
fn parse_pipe_failure_1() {
    check_error(
        from_tokens().identity("capture").dot().identity("default-gw").pipe().eof(),
        r#"invalid pipe: missing pipe out expression
| capture.default-gw|
| ..................^"#,
    );
}

#[test]
fn parse_pipe_failure_2() {
    check_error(
        from_tokens()
            .string("foo")
            .pipe()
            .identity("routes")
            .dot()
            .identity("running")
            .dot()
            .identity("next-hop-interface")
            .replace()
            .string("br1")
            .eof(),
        r#"invalid pipe: only paths can be piped in
| foo|routes.running.next-hop-interface:=br1
| ...^"#,
    );
}

#[test]
fn parse_pipe_without_operation() {
    // The piped path still waits when the input ends after another path.
    check_error(
        from_tokens().identity("a").pipe().identity("b").eof(),
        "invalid pipe: missing pipe out expression\n| a|b\n| ..^",
    );
}

#[test]
fn parse_replace_failure_0() {
    check_error(
        from_tokens().replace().string("0.0.0.0/0").eof(),
        r#"invalid replace: missing left hand argument
| :=0.0.0.0/0
| ^"#,
    );
}

#[test]
fn parse_replace_failure_1() {
    check_error(
        from_tokens().string("foo").replace().string("0.0.0.0/0").eof(),
        r#"invalid replace: left hand argument is not a path
| foo:=0.0.0.0/0
| ...^"#,
    );
}

#[test]
fn parse_replace_failure_2() {
    check_error(
        from_tokens()
            .identity("routes")
            .dot()
            .identity("running")
            .dot()
            .identity("destination")
            .replace()
            .eof(),
        r#"invalid replace: missing right hand argument
| routes.running.destination:=
| ..........................^"#,
    );
}

#[test]
fn parse_replace_failure_3() {
    check_error(
        from_tokens()
            .identity("routes")
            .dot()
            .identity("running")
            .dot()
            .identity("destination")
            .replace()
            .replace()
            .eof(),
        r#"invalid replace: right hand argument is not a string or identity
| routes.running.destination:=:=
| ............................^"#,
    );
}

#[test]
fn lexer_error_goes_through_the_parser() {
    let e = nmpolicy::error::validation_error("bad".to_string()).decorate("a.!".to_string(), 2);
    let mut input = from_tokens();
    input.identity("a").dot().failure(e.clone());
    input.expression = "a.!".to_string();
    let mut parser = Parser::new(input.expression.clone(), input.tokens.clone());
    assert_eq!(parser.parse(), Err(e));
}

#[test]
fn parse_expression_from_text() {
    assert_eq!(
        parse_expression("routes.running.destination == '0.0.0.0/0'"),
        Ok(Some(eqfilter(
            27,
            current_state(0),
            path(
                0,
                vec![
                    *identity(0, "routes".to_string()),
                    *identity(7, "running".to_string()),
                    *identity(15, "destination".to_string()),
                ],
            ),
            string(30, "0.0.0.0/0".to_string()),
        )))
    );
    assert_eq!(parse_expression("   "), Ok(None));
    let e = parse_expression("255 1,3").unwrap_err();
    assert_eq!(e.to_string(), "invalid expression: unexpected token `255`\n| 255 1,3\n| ^");
    let e = parse_expression("a.b 1,3").unwrap_err();
    assert_eq!(e.to_string(), "invalid number format (, is not a digit)\n| a.b 1,3\n| .....^");
}

#[test]
fn node_positions_are_inside_the_expression() {
    fn check(node: &Node, len: usize) {
        assert!(node.pos < len);
        match &node.kind {
            nmpolicy::ast::node::NodeKind::EqFilter(a, b, c)
            | nmpolicy::ast::node::NodeKind::Replace(a, b, c) => {
                check(a, len);
                check(b, len);
                check(c, len);
            }
            nmpolicy::ast::node::NodeKind::Path(items) => {
                for item in items {
                    check(item, len);
                }
            }
            _ => {}
        }
    }
    let expression = "capture.gw | routes.running.0.name := capture.other.a.1";
    let root = parse_expression(expression).unwrap().unwrap();
    check(&root, expression.len());
}

#[test]
fn number_above_the_signed_range_wraps_in_the_tree() {
    check_ast(
        from_tokens().identity("a").dot().number(2147483647).dot().number(2147483648).dot().number(4294967295).eof(),
        Some(path(
            0,
            vec![
                *identity(0, "a".to_string()),
                *number(2, 2147483647),
                *number(13, -2147483648),
                *number(24, -1),
            ],
        )),
    );
    assert_eq!(
        parse_expression("a.3000000000"),
        Ok(Some(path(0, vec![*identity(0, "a".to_string()), *number(2, -1294967296)])))
    );
}
