use tripledeck_core::filter::{parse, Error, Expression, ListMap, Token, TokenItem, Tokenizer};
use tripledeck_core::{Card, Id};

fn collect_tokens(input: &str) -> Vec<TokenItem> {
    let mut tok = Tokenizer::new(input);
    let mut out = Vec::new();
    while let Some(item) = tok.next() {
        out.push(item.unwrap());
    }
    out
}

fn id_from_hex(hex: &str) -> Id {
    Id(u128::from_str_radix(hex, 16).unwrap())
}

fn sample_map() -> ListMap {
    let mut map = ListMap::new();
    map.add("todo", id_from_hex("936DA01F9ABD4D9D80C7000011110001"));
    map.add("doing", id_from_hex("936DA01F9ABD4D9D80C7000011110002"));
    map.add("done", id_from_hex("936DA01F9ABD4D9D80C7000011110003"));
    map
}

fn card(title: &str, list: Id) -> Card {
    Card { id: Id(1), title: title.to_string(), list }
}

#[test]
fn test_tokenizer() {
    let input = "some-word pred:other-word OR pred2:(thing) AND \"other thing\"";
    let expected = [
        TokenItem { pos: 0, token: Token::Word("some-word".to_string()) },
        TokenItem { pos: 10, token: Token::Word("pred".to_string()) },
        TokenItem { pos: 14, token: Token::Colon },
        TokenItem { pos: 15, token: Token::Word("other-word".to_string()) },
        TokenItem { pos: 26, token: Token::Or },
        TokenItem { pos: 29, token: Token::Word("pred2".to_string()) },
        TokenItem { pos: 34, token: Token::Colon },
        TokenItem { pos: 35, token: Token::OpenParen },
        TokenItem { pos: 36, token: Token::Word("thing".to_string()) },
        TokenItem { pos: 41, token: Token::CloseParen },
        TokenItem { pos: 43, token: Token::And },
        TokenItem { pos: 47, token: Token::Word("other thing".to_string()) },
    ];
    let tokens = collect_tokens(input);
    assert!(tokens == expected);
}

#[test]
fn test_parse() {
    let map = sample_map();

    let string = "(list:todo OR list:doing) word1 (word2 word3 OR word4)";
    parse(string, &map).expect("Parsing failed");

    if let Err(Error { pos, what }) = parse("", &map) {
        assert!(pos == None);
        assert!(what == "Empty input");
    } else {
        panic!("Parsing empty input succeeded");
    }
}

#[test]
fn whitespace_only_is_empty_input() {
    let map = sample_map();
    for input in ["", " ", "   ", "\t", " \t\r\n "] {
        match parse(input, &map) {
            Err(Error { pos, what }) => {
                assert_eq!(pos, None);
                assert_eq!(what, "Empty input");
            },
            Ok(_) => panic!("whitespace-only input compiled"),
        }
    }
}

#[test]
fn list_predicate_matches_by_list_id() {
    let map = sample_map();
    let todo = id_from_hex("936DA01F9ABD4D9D80C7000011110001");
    let doing = id_from_hex("936DA01F9ABD4D9D80C7000011110002");
    let expr = parse("list:todo", &map).unwrap();
    assert_eq!(expr, Expression::InList(todo));
    assert!(expr.matches(&card("anything", todo)));
    assert!(!expr.matches(&card("anything", doing)));
}

#[test]
fn unknown_list_is_an_error_at_the_argument() {
    let map = sample_map();
    match parse("list:unknown-name", &map) {
        Err(Error { pos, what }) => {
            assert_eq!(pos, Some(5));
            assert_eq!(what, "Unknown list unknown-name");
        },
        Ok(_) => panic!("unknown list compiled"),
    }
}

#[test]
fn bare_word_is_a_title_test() {
    let map = sample_map();
    let todo = id_from_hex("936DA01F9ABD4D9D80C7000011110001");
    let expr = parse("foo", &map).unwrap();
    assert_eq!(expr, Expression::HasText("foo".to_string()));
    assert!(expr.matches(&card("foobar", todo)));
    assert!(!expr.matches(&card("bar", todo)));
}

#[test]
fn title_matching_is_case_sensitive_substring() {
    let map = sample_map();
    let todo = id_from_hex("936DA01F9ABD4D9D80C7000011110001");
    let expr = parse("Foo", &map).unwrap();
    assert!(expr.matches(&card("a Food truck", todo)));
    assert!(!expr.matches(&card("a foo truck", todo)));
    let empty = parse("\"\"", &map).unwrap();
    assert_eq!(empty, Expression::HasText(String::new()));
    assert!(empty.matches(&card("", todo)));
    assert!(empty.matches(&card("anything", todo)));
}

#[test]
fn quoted_words_keep_spaces() {
    let map = sample_map();
    let todo = id_from_hex("936DA01F9ABD4D9D80C7000011110001");
    let expr = parse("\"other thing\"", &map).unwrap();
    assert_eq!(expr, Expression::HasText("other thing".to_string()));
    assert!(expr.matches(&card("some other thing here", todo)));
    assert!(!expr.matches(&card("other-thing", todo)));
}

#[test]
fn juxtaposition_equals_explicit_and() {
    let map = sample_map();
    let todo = id_from_hex("936DA01F9ABD4D9D80C7000011110001");
    let explicit = parse("a AND b", &map).unwrap();
    let juxtaposed = parse("a b", &map).unwrap();
    assert_eq!(explicit, juxtaposed);
    assert_eq!(
        explicit,
        Expression::And(
            Box::new(Expression::HasText("a".to_string())),
            Box::new(Expression::HasText("b".to_string())),
        )
    );
    for title in ["a b", "a", "b", "ab", "xyz", ""] {
        let c = card(title, todo);
        assert_eq!(explicit.matches(&c), juxtaposed.matches(&c));
        assert_eq!(explicit.matches(&c), title.contains('a') && title.contains('b'));
    }
}

#[test]
fn and_binds_tighter_than_or() {
    let map = sample_map();
    let todo = id_from_hex("936DA01F9ABD4D9D80C7000011110001");
    let expr = parse("a AND b OR c", &map).unwrap();
    for title in ["", "a", "b", "c", "ab", "ac", "bc", "abc"] {
        let c = card(title, todo);
        let expected = (title.contains('a') && title.contains('b')) || title.contains('c');
        assert_eq!(expr.matches(&c), expected, "title {:?}", title);
    }
}

#[test]
fn or_then_parenthesized_and() {
    let map = sample_map();
    let todo = id_from_hex("936DA01F9ABD4D9D80C7000011110001");
    let expr = parse("a OR (b AND c)", &map).unwrap();
    for title in ["", "a", "b", "c", "ab", "ac", "bc", "abc"] {
        let c = card(title, todo);
        let expected = title.contains('a') || (title.contains('b') && title.contains('c'));
        assert_eq!(expr.matches(&c), expected, "title {:?}", title);
    }
}

#[test]
fn and_after_or_without_parens_is_rejected() {
    let map = sample_map();
    match parse("a OR b AND c", &map) {
        Err(Error { pos, what }) => {
            assert_eq!(pos, Some(7));
            assert_eq!(what, "Unexpected token AND");
        },
        Ok(_) => panic!("AND after OR compiled without parentheses"),
    }
}

#[test]
fn operator_chains_associate() {
    let map = sample_map();
    let a = || Box::new(Expression::HasText("a".to_string()));
    let b = || Box::new(Expression::HasText("b".to_string()));
    let c = || Box::new(Expression::HasText("c".to_string()));
    let left_and = Expression::And(Box::new(Expression::And(a(), b())), c());
    assert_eq!(parse("a b c", &map).unwrap(), left_and);
    assert_eq!(parse("a AND b AND c", &map).unwrap(), left_and);
    assert_eq!(parse("a AND b c", &map).unwrap(), left_and);
    let right_or = Expression::Or(a(), Box::new(Expression::Or(b(), c())));
    assert_eq!(parse("a OR b OR c", &map).unwrap(), right_or);
}

#[test]
fn compiling_twice_is_idempotent() {
    let map = sample_map();
    let todo = id_from_hex("936DA01F9ABD4D9D80C7000011110001");
    let done = id_from_hex("936DA01F9ABD4D9D80C7000011110003");
    let text = "(list:todo OR list:doing) word1 (word2 word3 OR word4)";
    let first = parse(text, &map).unwrap();
    let second = parse(text, &map).unwrap();
    assert_eq!(first, second);
    let cards = [
        card("word1 word2 word3", todo),
        card("word1 word4", done),
        card("word1", todo),
        card("word2 word3", todo),
        card("", done),
    ];
    for c in &cards {
        assert_eq!(first.matches(c), second.matches(c));
    }
}

#[test]
fn unterminated_quote_points_at_the_opening_quote() {
    let map = sample_map();
    match parse("x \"abc", &map) {
        Err(Error { pos, what }) => {
            assert_eq!(pos, Some(2));
            assert_eq!(what, "Unterminated quoted word");
        },
        Ok(_) => panic!("unterminated quote compiled"),
    }
}

#[test]
fn quote_inside_a_word_is_a_lexical_error() {
    let map = sample_map();
    match parse("ab\"cd", &map) {
        Err(Error { pos, what }) => {
            assert_eq!(pos, Some(2));
            assert_eq!(what, "Unexpected character in word");
        },
        Ok(_) => panic!("quote inside a word compiled"),
    }
}

#[test]
fn stray_tokens_are_rejected_with_positions() {
    let map = sample_map();
    match parse(": x", &map) {
        Err(Error { pos, what }) => {
            assert_eq!(pos, Some(0));
            assert_eq!(what, "Unexpected token :");
        },
        Ok(_) => panic!("stray colon compiled"),
    }
    match parse(") x", &map) {
        Err(Error { pos, what }) => {
            assert_eq!(pos, Some(0));
            assert_eq!(what, "Unexpected token )");
        },
        Ok(_) => panic!("stray close paren compiled"),
    }
    match parse("a )", &map) {
        Err(Error { pos, what }) => {
            assert_eq!(pos, Some(2));
            assert_eq!(what, "Unexpected token )");
        },
        Ok(_) => panic!("trailing close paren compiled"),
    }
}

#[test]
fn unmatched_parenthesis_points_at_the_open_paren() {
    let map = sample_map();
    match parse("(a", &map) {
        Err(Error { pos, what }) => {
            assert_eq!(pos, Some(0));
            assert_eq!(what, "Unmatched parenthesis");
        },
        Ok(_) => panic!("unmatched parenthesis compiled"),
    }
}

#[test]
fn missing_argument_after_operator() {
    let map = sample_map();
    match parse("list:", &map) {
        Err(Error { pos, what }) => {
            assert_eq!(pos, Some(0));
            assert_eq!(what, "Missing argument after operation");
        },
        Ok(_) => panic!("operator without argument compiled"),
    }
    match parse("list:)", &map) {
        Err(Error { pos, what }) => {
            assert_eq!(pos, Some(5));
            assert_eq!(what, "Missing argument after operation");
        },
        Ok(_) => panic!("operator with ) argument compiled"),
    }
}

#[test]
fn unknown_operator_points_at_the_operator() {
    let map = sample_map();
    match parse("foo:bar", &map) {
        Err(Error { pos, what }) => {
            assert_eq!(pos, Some(0));
            assert_eq!(what, "Unknown operator foo");
        },
        Ok(_) => panic!("unknown operator compiled"),
    }
}

#[test]
fn lowercase_and_or_are_ordinary_words() {
    let map = sample_map();
    let expr = parse("and or", &map).unwrap();
    assert_eq!(
        expr,
        Expression::And(
            Box::new(Expression::HasText("and".to_string())),
            Box::new(Expression::HasText("or".to_string())),
        )
    );
}

#[test]
fn list_map_lookup_is_exact_and_later_bindings_shadow() {
    let mut map = ListMap::new();
    assert_eq!(map.get("x"), None);
    map.add("x", Id(1));
    map.add("y", Id(2));
    assert_eq!(map.get("x"), Some(Id(1)));
    assert_eq!(map.get("y"), Some(Id(2)));
    assert_eq!(map.get("X"), None);
    assert_eq!(map.get("x "), None);
    map.add("x", Id(3));
    assert_eq!(map.get("x"), Some(Id(3)));
}

#[test]
fn parenthesized_group_is_anded_into_the_current_expression() {
    let map = sample_map();
    let todo = id_from_hex("936DA01F9ABD4D9D80C7000011110001");
    let expr = parse("a (b OR c)", &map).unwrap();
    for title in ["", "a", "ab", "ac", "b", "c", "abc"] {
        let c = card(title, todo);
        let expected = title.contains('a') && (title.contains('b') || title.contains('c'));
        assert_eq!(expr.matches(&c), expected, "title {:?}", title);
    }
}

#[test]
fn no_tokens_after_a_lexical_error() {
    let mut tok = Tokenizer::new("a(b");
    match tok.next() {
        Some(Err(Error { pos, what })) => {
            assert_eq!(pos, Some(1));
            assert_eq!(what, "Unexpected character in word");
        },
        other => panic!("expected a lexical error, got {:?}", other),
    }
    assert!(tok.next().is_none());
    assert!(tok.next().is_none());

    let mut tok = Tokenizer::new("x \"abc def");
    assert!(tok.next().unwrap().is_ok());
    assert!(tok.next().unwrap().is_err());
    assert!(tok.next().is_none());
}

#[test]
fn errors_render_as_one_line() {
    let map = sample_map();
    let e = parse("a OR b AND c", &map).unwrap_err();
    assert_eq!(e.render(), "pos 7: Unexpected token AND");
    let e = parse("   ", &map).unwrap_err();
    assert_eq!(e.render(), "Empty input");
    let e = Error { pos: Some(0), what: "x".to_string() };
    assert_eq!(e.render(), "pos 0: x");
    let e = Error { pos: Some(105), what: "y z".to_string() };
    assert_eq!(e.render(), "pos 105: y z");
}
