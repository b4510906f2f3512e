use idk::token::{Token, TokenType};
use idk::tokenizer::{tokenize, Tokenizer};

fn token(ttype: TokenType, value: &str) -> Token {
    Token::new(ttype, Some(value.to_string()))
}

fn keyword(ttype: TokenType) -> Token {
    Token::new(ttype, None)
}

fn raw_tokens(source: &str) -> Vec<Token> {
    let mut tokenizer = Tokenizer::new(source);
    let mut tokens = Vec::new();
    while !tokenizer.is_done() {
        if let Some(token) = tokenizer.get_next_token() {
            tokens.push(token);
        }
    }
    tokens
}

#[test]
fn token_new_keeps_its_parts() {
    let t = Token::new(TokenType::Variable, Some("abc".to_string()));
    assert_eq!(t.ttype, TokenType::Variable);
    assert_eq!(t.value, Some("abc".to_string()));
    let k = Token::new(TokenType::If, None);
    assert_eq!(k.ttype, TokenType::If);
    assert_eq!(k.value, None);
}

#[test]
fn token_clone_is_equal() {
    let t = token(TokenType::IntLiteral, "42");
    assert_eq!(t.clone(), t);
    let k = keyword(TokenType::While);
    assert_eq!(k.clone(), k);
}

#[test]
fn empty_source_is_done_at_once() {
    let mut tokenizer = Tokenizer::new("");
    assert!(tokenizer.is_done());
    assert_eq!(tokenizer.get_next_token(), None);
    assert!(tokenizer.is_done());
}

#[test]
fn every_keyword_is_recognised() {
    let tokens = raw_tokens("return var if endif while endwhile func endfunc call print");
    let kinds: Vec<TokenType> = tokens.iter().map(|t| t.ttype).collect();
    assert_eq!(
        kinds,
        vec![
            TokenType::KeyWord,
            TokenType::Var,
            TokenType::If,
            TokenType::EndIf,
            TokenType::While,
            TokenType::EndWhile,
            TokenType::Func,
            TokenType::Endfunc,
            TokenType::Call,
            TokenType::Print,
        ]
    );
    for t in &tokens {
        assert_eq!(t.value, None);
    }
}

#[test]
fn a_word_that_is_no_keyword_is_a_name() {
    assert_eq!(raw_tokens("variable"), vec![token(TokenType::Variable, "variable")]);
    assert_eq!(raw_tokens("iff"), vec![token(TokenType::Variable, "iff")]);
    assert_eq!(raw_tokens("Var"), vec![token(TokenType::Variable, "Var")]);
    assert_eq!(raw_tokens("x1"), vec![token(TokenType::Variable, "x1")]);
}

#[test]
fn a_numeral_up_to_255_is_a_literal() {
    assert_eq!(raw_tokens("0"), vec![token(TokenType::IntLiteral, "0")]);
    assert_eq!(raw_tokens("7"), vec![token(TokenType::IntLiteral, "7")]);
    assert_eq!(raw_tokens("255"), vec![token(TokenType::IntLiteral, "255")]);
    assert_eq!(raw_tokens("007"), vec![token(TokenType::IntLiteral, "007")]);
    assert_eq!(raw_tokens("0000000000000000000255"), vec![token(TokenType::IntLiteral, "0000000000000000000255")]);
}

#[test]
fn a_numeral_above_255_is_a_name() {
    assert_eq!(raw_tokens("256"), vec![token(TokenType::Variable, "256")]);
    assert_eq!(raw_tokens("1000"), vec![token(TokenType::Variable, "1000")]);
    assert_eq!(
        raw_tokens("99999999999999999999999999"),
        vec![token(TokenType::Variable, "99999999999999999999999999")]
    );
    assert_eq!(raw_tokens("12a"), vec![token(TokenType::Variable, "12a")]);
}

#[test]
fn punctuation_gives_single_character_tokens() {
    assert_eq!(
        raw_tokens(";,:()[]+-*/^<>="),
        vec![
            token(TokenType::SemiColon, ";"),
            token(TokenType::Comma, ","),
            token(TokenType::Colon, ":"),
            token(TokenType::OpenBracket, "("),
            token(TokenType::CloseBracket, ")"),
            token(TokenType::OpenArray, "["),
            token(TokenType::CloseArray, "]"),
            token(TokenType::BinaryOperator, "+"),
            token(TokenType::BinaryOperator, "-"),
            token(TokenType::BinaryOperator, "*"),
            token(TokenType::BinaryOperator, "/"),
            token(TokenType::BinaryOperator, "^"),
            token(TokenType::ComparisonOperator, "<"),
            token(TokenType::ComparisonOperator, ">"),
            token(TokenType::AssignmentOperator, "="),
        ]
    );
}

#[test]
fn an_exclamation_mark_is_a_comparison_operator() {
    assert_eq!(raw_tokens("!"), vec![token(TokenType::ComparisonOperator, "!")]);
    assert_eq!(
        raw_tokens("a!b"),
        vec![
            token(TokenType::Variable, "a"),
            token(TokenType::ComparisonOperator, "!"),
            token(TokenType::Variable, "b"),
        ]
    );
}

#[test]
fn the_lexer_makes_no_error_token() {
    for code in 0..=0x10ffffu32 {
        if let Some(c) = char::from_u32(code) {
            for t in raw_tokens(&c.to_string()) {
                assert_ne!(t.ttype, TokenType::Error, "U+{:04X}", code);
            }
        }
    }
}

#[test]
fn square_brackets_are_tokens_of_their_own() {
    assert_eq!(
        raw_tokens("arr[5]"),
        vec![
            token(TokenType::Variable, "arr"),
            token(TokenType::OpenArray, "["),
            token(TokenType::IntLiteral, "5"),
            token(TokenType::CloseArray, "]"),
        ]
    );
    assert_eq!(
        raw_tokens("a [ i+1 ] = 2"),
        vec![
            token(TokenType::Variable, "a"),
            token(TokenType::OpenArray, "["),
            token(TokenType::Variable, "i"),
            token(TokenType::BinaryOperator, "+"),
            token(TokenType::IntLiteral, "1"),
            token(TokenType::CloseArray, "]"),
            token(TokenType::AssignmentOperator, "="),
            token(TokenType::IntLiteral, "2"),
        ]
    );
}

#[test]
fn other_signs_are_part_of_a_word() {
    assert_eq!(raw_tokens("a{b}"), vec![token(TokenType::Variable, "a{b}")]);
    assert_eq!(raw_tokens("x.y"), vec![token(TokenType::Variable, "x.y")]);
    assert_eq!(raw_tokens("%"), vec![token(TokenType::Variable, "%")]);
}

#[test]
fn white_space_separates_and_is_dropped() {
    assert_eq!(
        raw_tokens("  var \t x\n=\r\n 1 ;  "),
        vec![
            keyword(TokenType::Var),
            token(TokenType::Variable, "x"),
            token(TokenType::AssignmentOperator, "="),
            token(TokenType::IntLiteral, "1"),
            token(TokenType::SemiColon, ";"),
        ]
    );
}

#[test]
fn unicode_white_space_separates_too() {
    assert_eq!(
        raw_tokens("a\u{a0}b\u{2003}c\u{3000}d\u{85}e"),
        vec![
            token(TokenType::Variable, "a"),
            token(TokenType::Variable, "b"),
            token(TokenType::Variable, "c"),
            token(TokenType::Variable, "d"),
            token(TokenType::Variable, "e"),
        ]
    );
    // U+200B, the zero width space, is no white space.
    assert_eq!(raw_tokens("a\u{200b}b"), vec![token(TokenType::Variable, "a\u{200b}b")]);
}

#[test]
fn a_call_before_a_word_after_white_space_gives_no_token() {
    let mut tokenizer = Tokenizer::new("  x");
    assert!(!tokenizer.is_done());
    assert_eq!(tokenizer.get_next_token(), None);
    assert!(!tokenizer.is_done());
    assert_eq!(tokenizer.get_next_token(), Some(token(TokenType::Variable, "x")));
    assert!(tokenizer.is_done());
    assert_eq!(tokenizer.get_next_token(), None);
}

#[test]
fn white_space_before_punctuation_is_skipped_in_the_same_call() {
    let mut tokenizer = Tokenizer::new("   ;x");
    assert_eq!(tokenizer.get_next_token(), Some(token(TokenType::SemiColon, ";")));
    assert!(!tokenizer.is_done());
    assert_eq!(tokenizer.get_next_token(), Some(token(TokenType::Variable, "x")));
    assert!(tokenizer.is_done());
}

#[test]
fn white_space_after_a_word_is_dropped_with_the_word() {
    let mut tokenizer = Tokenizer::new("x   ");
    assert_eq!(tokenizer.get_next_token(), Some(token(TokenType::Variable, "x")));
    assert!(tokenizer.is_done());
}

#[test]
fn only_white_space_gives_no_token() {
    let mut tokenizer = Tokenizer::new(" \n\t ");
    assert!(!tokenizer.is_done());
    assert_eq!(tokenizer.get_next_token(), None);
    assert!(tokenizer.is_done());
}

#[test]
fn fix_merges_assignment_and_comparison() {
    let mut tokens = vec![
        token(TokenType::Variable, "a"),
        token(TokenType::AssignmentOperator, "="),
        token(TokenType::ComparisonOperator, "<"),
        token(TokenType::Variable, "b"),
    ];
    Tokenizer::fix_comparison_operators(&mut tokens);
    assert_eq!(
        tokens,
        vec![
            token(TokenType::Variable, "a"),
            token(TokenType::ComparisonOperator, "=<"),
            token(TokenType::Variable, "b"),
        ]
    );
}

#[test]
fn fix_merges_two_assignments_into_equality() {
    let mut tokens = vec![
        token(TokenType::AssignmentOperator, "="),
        token(TokenType::AssignmentOperator, "="),
    ];
    Tokenizer::fix_comparison_operators(&mut tokens);
    assert_eq!(tokens, vec![token(TokenType::ComparisonOperator, "==")]);
}

#[test]
fn fix_merges_greater_or_equal() {
    let mut tokens = vec![
        token(TokenType::AssignmentOperator, "="),
        token(TokenType::ComparisonOperator, ">"),
    ];
    Tokenizer::fix_comparison_operators(&mut tokens);
    assert_eq!(tokens, vec![token(TokenType::ComparisonOperator, "=>")]);
}

#[test]
fn fix_leaves_a_comparison_followed_by_assignment() {
    let mut tokens = vec![
        token(TokenType::ComparisonOperator, "<"),
        token(TokenType::AssignmentOperator, "="),
        token(TokenType::IntLiteral, "1"),
    ];
    let before = tokens.clone();
    Tokenizer::fix_comparison_operators(&mut tokens);
    assert_eq!(tokens, before);
}

#[test]
fn fix_does_not_merge_a_merged_token_again() {
    // `===` is `==` followed by `=`, `====` is `==` twice.
    let eq = || token(TokenType::AssignmentOperator, "=");
    let mut three = vec![eq(), eq(), eq()];
    Tokenizer::fix_comparison_operators(&mut three);
    assert_eq!(three, vec![token(TokenType::ComparisonOperator, "=="), eq()]);
    let mut four = vec![eq(), eq(), eq(), eq()];
    Tokenizer::fix_comparison_operators(&mut four);
    assert_eq!(
        four,
        vec![
            token(TokenType::ComparisonOperator, "=="),
            token(TokenType::ComparisonOperator, "=="),
        ]
    );
}

#[test]
fn fix_uses_empty_text_for_a_missing_value() {
    let mut tokens = vec![
        Token::new(TokenType::AssignmentOperator, None),
        token(TokenType::ComparisonOperator, "<"),
    ];
    Tokenizer::fix_comparison_operators(&mut tokens);
    assert_eq!(tokens, vec![token(TokenType::ComparisonOperator, "<")]);
}

#[test]
fn fix_leaves_short_lists_alone() {
    let mut none: Vec<Token> = Vec::new();
    Tokenizer::fix_comparison_operators(&mut none);
    assert!(none.is_empty());
    let mut one = vec![token(TokenType::AssignmentOperator, "=")];
    Tokenizer::fix_comparison_operators(&mut one);
    assert_eq!(one, vec![token(TokenType::AssignmentOperator, "=")]);
}

#[test]
fn fix_merges_not_equal() {
    let mut tokens = raw_tokens("=!");
    Tokenizer::fix_comparison_operators(&mut tokens);
    assert_eq!(tokens, vec![token(TokenType::ComparisonOperator, "=!")]);
    // The other way round nothing merges.
    let mut tokens = raw_tokens("!=");
    Tokenizer::fix_comparison_operators(&mut tokens);
    assert_eq!(
        tokens,
        vec![
            token(TokenType::ComparisonOperator, "!"),
            token(TokenType::AssignmentOperator, "="),
        ]
    );
}

#[test]
fn fix_does_not_merge_equals_with_an_error_token() {
    let mut tokens =
        vec![token(TokenType::AssignmentOperator, "="), Token::new(TokenType::Error, None)];
    Tokenizer::fix_comparison_operators(&mut tokens);
    assert_eq!(
        tokens,
        vec![token(TokenType::AssignmentOperator, "="), keyword(TokenType::Error)]
    );
}

#[test]
fn tokenize_makes_the_six_comparison_operators() {
    for op in ["==", "=!", "<", ">", "=<", "=>"] {
        assert_eq!(
            tokenize(&format!("a {} b", op)),
            vec![
                token(TokenType::Variable, "a"),
                token(TokenType::ComparisonOperator, op),
                token(TokenType::Variable, "b"),
            ]
        );
    }
}

#[test]
fn tokenize_merges_operators() {
    assert_eq!(
        tokenize("if a == b;"),
        vec![
            keyword(TokenType::If),
            token(TokenType::Variable, "a"),
            token(TokenType::ComparisonOperator, "=="),
            token(TokenType::Variable, "b"),
            token(TokenType::SemiColon, ";"),
        ]
    );
    assert_eq!(
        tokenize("a = < b"),
        vec![
            token(TokenType::Variable, "a"),
            token(TokenType::ComparisonOperator, "=<"),
            token(TokenType::Variable, "b"),
        ]
    );
}

#[test]
fn tokenize_reads_a_small_program() {
    assert_eq!(
        tokenize("var x = 2; print (x + 10);"),
        vec![
            keyword(TokenType::Var),
            token(TokenType::Variable, "x"),
            token(TokenType::AssignmentOperator, "="),
            token(TokenType::IntLiteral, "2"),
            token(TokenType::SemiColon, ";"),
            keyword(TokenType::Print),
            token(TokenType::OpenBracket, "("),
            token(TokenType::Variable, "x"),
            token(TokenType::BinaryOperator, "+"),
            token(TokenType::IntLiteral, "10"),
            token(TokenType::CloseBracket, ")"),
            token(TokenType::SemiColon, ";"),
        ]
    );
}

#[test]
fn tokenize_of_nothing_is_nothing() {
    assert!(tokenize("").is_empty());
    assert!(tokenize("  \n ").is_empty());
}

#[test]
fn white_space_is_what_the_standard_library_says() {
    for code in 0..=0x10ffffu32 {
        if let Some(c) = char::from_u32(code) {
            assert_eq!(idk::tokenizer::is_space_char(c), c.is_whitespace(), "U+{:04X}", code);
        }
    }
}

#[test]
fn punctuation_is_the_sixteen_characters() {
    let punctuation = ";()=+-*/^<>!,:[]";
    for code in 0..=0x10ffffu32 {
        if let Some(c) = char::from_u32(code) {
            assert_eq!(idk::tokenizer::is_punctuation_char(c), punctuation.contains(c));
        }
    }
}

#[test]
fn a_word_is_a_literal_exactly_if_it_reads_as_a_byte() {
    let mut words: Vec<String> = Vec::new();
    for n in 0..1200u32 {
        words.push(n.to_string());
        words.push(format!("0{}", n));
        words.push(format!("000{}", n));
        words.push(format!("{}a", n));
        words.push(format!("a{}", n));
        words.push(format!("{}_", n));
    }
    for word in words {
        let tokens = raw_tokens(&word);
        assert_eq!(tokens.len(), 1, "{}", word);
        let literal = tokens[0].ttype == TokenType::IntLiteral;
        assert_eq!(literal, word.parse::<u8>().is_ok(), "{}", word);
        assert_eq!(tokens[0].value.as_deref(), Some(word.as_str()));
        if !literal {
            assert_eq!(tokens[0].ttype, TokenType::Variable);
        }
    }
}
