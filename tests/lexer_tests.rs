use minilang::lexer::{lex, DataType, LexError, LitValue, Token};

fn op(s: &str) -> Token {
    Token::Op(s.to_string())
}

fn id(s: &str) -> Token {
    Token::Id(s.to_string())
}

fn kw(s: &str) -> Token {
    Token::Keyword(s.to_string())
}

fn int_lit(n: i64) -> Token {
    Token::Literal(LitValue::Int(n))
}

#[test]
fn double_equals_is_one_operator() {
    assert_eq!(lex("==".to_string()), Ok(vec![op("==")]));
}

#[test]
fn operators_take_the_longest_match() {
    assert_eq!(
        lex("a==b = c || d && !e".to_string()),
        Ok(vec![
            id("a"),
            op("=="),
            id("b"),
            op("="),
            id("c"),
            op("||"),
            id("d"),
            op("&&"),
            op("!"),
            id("e"),
        ])
    );
    assert_eq!(
        lex("+-*/><===".to_string()),
        Ok(vec![op("+"), op("-"), op("*"), op("/"), op(">"), op("<"), op("=="), op("=")])
    );
}

#[test]
fn keyword_prefix_of_identifier_stays_identifier() {
    assert_eq!(lex("ifx = 1".to_string()), Ok(vec![id("ifx"), op("="), int_lit(1)]));
}

#[test]
fn keyword_followed_by_space_is_keyword() {
    assert_eq!(lex("if x".to_string()), Ok(vec![kw("if"), id("x")]));
}

#[test]
fn all_keywords_are_recognised() {
    assert_eq!(
        lex("else elif if fi out read".to_string()),
        Ok(vec![kw("else"), kw("elif"), kw("if"), kw("fi"), kw("out"), kw("read")])
    );
}

#[test]
fn keyword_at_end_of_input() {
    assert_eq!(lex("out x fi".to_string()), Ok(vec![kw("out"), id("x"), kw("fi")]));
}

#[test]
fn true_and_false_become_boolean_literals() {
    assert_eq!(lex("true".to_string()), Ok(vec![Token::Literal(LitValue::Bool(true))]));
    assert_eq!(
        lex("false true".to_string()),
        Ok(vec![Token::Literal(LitValue::Bool(false)), Token::Literal(LitValue::Bool(true))])
    );
    assert_eq!(lex("trueish".to_string()), Ok(vec![id("trueish")]));
}

#[test]
fn string_literal_drops_its_quotes() {
    assert_eq!(
        lex("\"abc\"".to_string()),
        Ok(vec![Token::Literal(LitValue::String("abc".to_string()))])
    );
    assert_eq!(
        lex("out \"a b\" x".to_string()),
        Ok(vec![kw("out"), Token::Literal(LitValue::String("a b".to_string())), id("x")])
    );
}

#[test]
fn empty_string_literal() {
    assert_eq!(lex("\"\"".to_string()), Ok(vec![Token::Literal(LitValue::String(String::new()))]));
}

#[test]
fn unterminated_string_is_an_error() {
    assert_eq!(lex("out \"abc".to_string()), Err(LexError::UnterminatedString));
}

#[test]
fn datatype_keywords_become_tags() {
    assert_eq!(
        lex("int x = 5".to_string()),
        Ok(vec![Token::DTypeToken(DataType::Integer), id("x"), op("="), int_lit(5)])
    );
    assert_eq!(
        lex("bool str".to_string()),
        Ok(vec![Token::DTypeToken(DataType::Boolean), Token::DTypeToken(DataType::String)])
    );
    assert_eq!(lex("integer strings".to_string()), Ok(vec![id("integer"), id("strings")]));
}

#[test]
fn identifiers_take_letters_digits_and_underscores() {
    assert_eq!(lex("_a1 b_2c".to_string()), Ok(vec![id("_a1"), id("b_2c")]));
}

#[test]
fn line_break_is_its_own_token() {
    assert_eq!(
        lex("a\n  b".to_string()),
        Ok(vec![id("a"), Token::Symbol("\n".to_string()), id("b")])
    );
}

#[test]
fn whitespace_only_and_empty_inputs_give_no_tokens() {
    assert_eq!(lex(String::new()), Ok(vec![]));
    assert_eq!(lex(" \t \r ".to_string()), Ok(vec![]));
}

#[test]
fn integer_literals() {
    assert_eq!(lex("42 007".to_string()), Ok(vec![int_lit(42), int_lit(7)]));
    assert_eq!(lex("9223372036854775807".to_string()), Ok(vec![int_lit(i64::MAX)]));
}

#[test]
fn integer_overflow_is_an_error() {
    assert_eq!(lex("9223372036854775808".to_string()), Err(LexError::InvalidNumericLiteral));
}

#[test]
fn digits_then_letters_split() {
    assert_eq!(lex("12ab".to_string()), Ok(vec![int_lit(12), id("ab")]));
}

#[test]
fn unknown_character_is_an_error() {
    assert_eq!(lex("x = $".to_string()), Err(LexError::UnknownCharacter('$')));
    assert_eq!(lex("(".to_string()), Err(LexError::UnknownCharacter('(')));
}

fn source_form(t: &Token) -> String {
    match t {
        Token::Keyword(s) | Token::Id(s) | Token::Symbol(s) | Token::Op(s) => s.clone(),
        Token::Literal(LitValue::Int(n)) => n.to_string(),
        Token::Literal(LitValue::Bool(b)) => b.to_string(),
        Token::Literal(LitValue::String(s)) => format!("\"{}\"", s),
        Token::DTypeToken(DataType::Integer) => "int".to_string(),
        Token::DTypeToken(DataType::Boolean) => "bool".to_string(),
        Token::DTypeToken(DataType::String) => "str".to_string(),
    }
}

#[test]
fn relexing_source_forms_gives_the_same_tokens() {
    let src = "int x=007\nif x==1 out \"hi there\" fi\nbool b = true || false\nread y";
    let first = lex(src.to_string()).unwrap();
    let rebuilt: Vec<String> = first.iter().map(source_form).collect();
    let second = lex(rebuilt.join(" ")).unwrap();
    assert_eq!(first, second);
}

#[test]
fn keyword_glued_to_an_operator_is_an_identifier() {
    assert_eq!(lex("true||x".to_string()), Ok(vec![id("true"), op("||"), id("x")]));
}

#[test]
fn type_keyword_glued_to_an_operator_is_an_identifier() {
    assert_eq!(lex("int=5".to_string()), Ok(vec![id("int"), op("="), int_lit(5)]));
}

#[test]
fn non_ascii_letters_form_identifiers() {
    assert_eq!(lex("größe = 1".to_string()), Ok(vec![id("größe"), op("="), int_lit(1)]));
}
