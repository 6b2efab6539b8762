use nmpolicy::error::ErrorKind;
use nmpolicy::lex::tokens::Token::{Dot, EqFilter, Identity, Merge, Number, Pipe, Replace, Str};
use nmpolicy::lex::tokens::{tokenize, Token, Tokens};
use nmpolicy::NmpolicyError;

fn collect(expression: &str) -> Vec<Result<Token, NmpolicyError>> {
    let mut tokens = Tokens::new(expression);
    let mut out = Vec::new();
    while let Some(item) = tokens.next_token() {
        out.push(item);
    }
    out
}

fn check_tokens(expression: &str, expected_tokens: Vec<Token>) {
    let obtained_result = collect(expression);
    let expected_result: Vec<Result<Token, NmpolicyError>> =
        expected_tokens.iter().map(|t| Ok(t.clone())).collect();
    assert_eq!(expected_result, obtained_result);
    assert_eq!(expected_result, tokenize(expression));
}

fn check_failure(expression: &str, expected_error: &str) {
    let mut tokens = Tokens::new(expression);
    let mut obtained_error = None;
    while let Some(item) = tokens.next_token() {
        if let Err(e) = item {
            obtained_error = Some(e);
            break;
        }
    }
    let obtained_error = obtained_error.unwrap();
    assert_eq!(expected_error, obtained_error.to_string());
    assert_eq!(ErrorKind::ValidationError, obtained_error.kind());
    assert_eq!(Some(expression.to_string()), obtained_error.source());
    assert_eq!(None, tokens.next_token());
    assert_eq!(None, tokens.next_token());
    let all = tokenize(expression);
    assert_eq!(all.last().unwrap().clone().unwrap_err(), obtained_error);
}

#[test]
fn expr_0() {
    check_tokens("", Vec::<Token>::new());
}

#[test]
fn expr_1() {
    check_tokens("    ", Vec::<Token>::new());
}

#[test]
fn expr_2() {
    check_tokens("    31    03   ", vec![Number(4, 31), Number(10, 3)]);
}

#[test]
fn expr_3() {
    check_tokens(
        r#" "foobar1" "foo 1 bar"    " foo bar - " ' bar foo' 789 "" "#,
        vec![
            Str(1, "foobar1".to_string()),
            Str(11, "foo 1 bar".to_string()),
            Str(26, " foo bar - ".to_string()),
            Str(40, " bar foo".to_string()),
            Number(51, 789),
            Str(55, "".to_string()),
        ],
    );
}

#[test]
fn expr_4() {
    check_tokens(
        r#" . foo1.dar1.0.dar2:=foo3 . dar3 ... moo3+boo3|doo3"#,
        vec![
            Dot(1),
            Identity(3, "foo1".to_string()),
            Dot(7),
            Identity(8, "dar1".to_string()),
            Dot(12),
            Number(13, 0),
            Dot(14),
            Identity(15, "dar2".to_string()),
            Replace(19),
            Identity(21, "foo3".to_string()),
            Dot(26),
            Identity(28, "dar3".to_string()),
            Dot(33),
            Dot(34),
            Dot(35),
            Identity(37, "moo3".to_string()),
            Merge(41),
            Identity(42, "boo3".to_string()),
            Pipe(46),
            Identity(47, "doo3".to_string()),
        ],
    );
}

#[test]
fn eqfilter_token() {
    check_tokens(
        "a-b==c",
        vec![Identity(0, "a-b".to_string()), EqFilter(3), Identity(5, "c".to_string())],
    );
}

#[test]
fn token_positions_are_byte_offsets() {
    check_tokens(
        "'é' x 'ab' 12",
        vec![
            Str(0, "é".to_string()),
            Identity(5, "x".to_string()),
            Str(7, "ab".to_string()),
            Number(12, 12),
        ],
    );
}

#[test]
fn token_positions_grow() {
    let items = tokenize(" a.b.0 == 'x' | c := d + 7");
    let mut last = None;
    for item in items {
        let pos = item.unwrap().pos();
        if let Some(before) = last {
            assert!(before < pos);
        }
        last = Some(pos);
    }
}

#[test]
fn largest_number() {
    check_tokens("2147483647", vec![Number(0, 2147483647)]);
    check_tokens("2147483648", vec![Number(0, 2147483648)]);
    check_tokens("a.3000000000.b", vec![
        Identity(0, "a".to_string()),
        Dot(1),
        Number(2, 3000000000),
        Dot(12),
        Identity(13, "b".to_string()),
    ]);
    check_tokens("4294967295", vec![Number(0, 4294967295)]);
    check_tokens("0000000000004294967295 ", vec![Number(0, 4294967295)]);
}

#[test]
fn number_out_of_range() {
    check_failure(
        "a 4294967296",
        "invalid number format (number is out of range)\n| a 4294967296\n| ..^",
    );
    check_failure(
        "99999999999999999999999999",
        "invalid number format (number is out of range)\n| 99999999999999999999999999\n| ^",
    );
    // The character after the run is looked at first.
    check_failure(
        "4294967296x",
        "invalid number format (x is not a digit)\n| 4294967296x\n| ..........^",
    );
}

#[test]
fn identity_format() {
    check_failure(
        "foo,bar",
        "invalid identity format (, is not a digit, letter or -)\n| foo,bar\n| ...^",
    );
    check_failure(
        "f'a'",
        "invalid identity format (' is not a digit, letter or -)\n| f'a'\n| .^",
    );
}

#[test]
fn letters_are_ascii() {
    check_failure("é", "illegal char é\n| é\n| ^");
    check_failure("aé", "invalid identity format (é is not a digit, letter or -)\n| aé\n| .^");
    check_failure("a ٣", "illegal char ٣\n| a ٣\n| ..^");
}

#[test]
fn token_literals() {
    assert_eq!(Dot(0).literal(), ".");
    assert_eq!(Pipe(0).literal(), "|");
    assert_eq!(Replace(0).literal(), ":=");
    assert_eq!(EqFilter(0).literal(), "==");
    assert_eq!(Merge(0).literal(), "+");
    assert_eq!(Token::True(0).literal(), "true");
    assert_eq!(Token::False(0).literal(), "false");
    assert_eq!(Number(0, 42).literal(), "42");
    assert_eq!(Identity(0, "a-b".to_string()).literal(), "a-b");
    assert_eq!(Str(0, "a b".to_string()).literal(), "a b");
}

#[test]
fn err_1() {
    check_failure(
        "foo=bar",
        r#"invalid EQFILTER operation format (b is not equal char)
| foo=bar
| ....^"#,
    );
}

#[test]
fn err_2() {
    check_failure(
        " foo 1foo ",
        "invalid number format (f is not a digit)\n|  foo 1foo \n| ......^",
    );
}

#[test]
fn err_3() {
    check_failure(" foo -foo ", "illegal char -\n|  foo -foo \n| .....^");
}

#[test]
fn err_4() {
    check_failure(
        r#" "bar1" "foo dar"#,
        r#"invalid string format (missing " terminator)
|  "bar1" "foo dar
| ...............^"#,
    );
}

#[test]
fn err_5() {
    check_failure(
        r#" "bar1" 'foo dar"#,
        r#"invalid string format (missing ' terminator)
|  "bar1" 'foo dar
| ...............^"#,
    );
}

#[test]
fn err_6() {
    check_failure(
        "155 -44",
        r#"illegal char -
| 155 -44
| ....^"#,
    );
}

#[test]
fn err_7() {
    check_failure(
        "255 1,3",
        r#"invalid number format (, is not a digit)
| 255 1,3
| .....^"#,
    );
}

#[test]
fn err_8() {
    check_failure(
        "355 1e3",
        r#"invalid number format (e is not a digit)
| 355 1e3
| .....^"#,
    );
}

#[test]
fn err_9() {
    check_failure(
        "455 0xEA",
        r#"invalid number format (x is not a digit)
| 455 0xEA
| .....^"#,
    );
}

#[test]
fn err_10() {
    check_failure(
        "555 2,3-4",
        r#"invalid number format (, is not a digit)
| 555 2,3-4
| .....^"#,
    );
}

#[test]
fn err_11() {
    check_failure(
        "655 3333_444_333",
        r#"invalid number format (_ is not a digit)
| 655 3333_444_333
| ........^"#,
    );
}

#[test]
fn err_12() {
    check_failure(
        "755 33 44 -.3",
        r#"illegal char -
| 755 33 44 -.3
| ..........^"#,
    );
}

#[test]
fn err_13() {
    check_failure(
        "foo:bar",
        r#"invalid REPLACE operation format (b is not equal char)
| foo:bar
| ....^"#,
    );
}

#[test]
fn err_14() {
    check_failure(
        "foo:",
        r#"invalid REPLACE operation format (EOF)
| foo:
| ...^"#,
    );
}

#[test]
fn err_15() {
    check_failure(
        "foo=",
        r#"invalid EQFILTER operation format (EOF)
| foo=
| ...^"#,
    );
}

#[test]
fn string_without_end_at_the_last_character() {
    check_failure("'", "invalid string format (missing ' terminator)\n| '\n| ^");
    check_failure("a \"", "invalid string format (missing \" terminator)\n| a \"\n| ..^");
}
