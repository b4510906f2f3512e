//! The lexer: cuts source text into tokens.

use crate::fsm::token_views;
use crate::text::{bounded_numeral, parse_numeral, same_text, string_of, text_or_empty};
use crate::token::{Token, TokenType, TokenView};
use vstd::prelude::*;

verus! {

/// Whether `c` is white space.
pub open spec fn is_space(c: char) -> bool {
    ||| '\u{9}' <= c && c <= '\u{d}'
    ||| c == ' '
    ||| c == '\u{85}'
    ||| c == '\u{a0}'
    ||| c == '\u{1680}'
    ||| '\u{2000}' <= c && c <= '\u{200a}'
    ||| c == '\u{2028}'
    ||| c == '\u{2029}'
    ||| c == '\u{202f}'
    ||| c == '\u{205f}'
    ||| c == '\u{3000}'
}

/// Whether `c` is punctuation: a character that ends a word and is a token
/// by itself.
pub open spec fn is_punctuation(c: char) -> bool {
    c == ';' || c == '(' || c == ')' || c == '=' || c == '+' || c == '-' || c == '*' || c == '/'
        || c == '^' || c == '<' || c == '>' || c == '!' || c == ',' || c == ':' || c == '['
        || c == ']'
}

/// The length of the word at the start of `s`: the longest run of
/// characters that are neither white space nor punctuation.
pub open spec fn word_length(s: Seq<char>) -> nat
    decreases s.len(),
{
    if s.len() == 0 || is_space(s[0]) || is_punctuation(s[0]) {
        0
    } else {
        1 + word_length(s.skip(1))
    }
}

/// The length of the white space at the start of `s`.
pub open spec fn space_length(s: Seq<char>) -> nat
    decreases s.len(),
{
    if s.len() == 0 || !is_space(s[0]) {
        0
    } else {
        1 + space_length(s.skip(1))
    }
}

/// The category of the keyword `word`, if it is one.
pub open spec fn keyword(word: Seq<char>) -> Option<TokenType> {
    if word == "return"@ {
        Some(TokenType::KeyWord)
    } else if word == "var"@ {
        Some(TokenType::Var)
    } else if word == "if"@ {
        Some(TokenType::If)
    } else if word == "endif"@ {
        Some(TokenType::EndIf)
    } else if word == "while"@ {
        Some(TokenType::While)
    } else if word == "endwhile"@ {
        Some(TokenType::EndWhile)
    } else if word == "func"@ {
        Some(TokenType::Func)
    } else if word == "endfunc"@ {
        Some(TokenType::Endfunc)
    } else if word == "call"@ {
        Some(TokenType::Call)
    } else if word == "print"@ {
        Some(TokenType::Print)
    } else {
        None
    }
}

/// The token that the word `word` is: a keyword, without text; a literal,
/// if the word is a numeral no larger than 255; a name otherwise.
pub open spec fn word_token(word: Seq<char>) -> TokenView {
    match keyword(word) {
        Some(ttype) => TokenView { ttype, value: None },
        None => if bounded_numeral(word, 255).is_some() {
            TokenView { ttype: TokenType::IntLiteral, value: Some(word) }
        } else {
            TokenView { ttype: TokenType::Variable, value: Some(word) }
        },
    }
}

/// The token that the punctuation character `c` is. `<`, `>` and `!` are
/// comparison operators by themselves and the second halves of `=<`, `=>`
/// and `=!`. A character that is no punctuation gives an error token
/// without text.
pub open spec fn punctuation_token(c: char) -> TokenView {
    if c == ';' {
        TokenView { ttype: TokenType::SemiColon, value: Some(seq![c]) }
    } else if c == ',' {
        TokenView { ttype: TokenType::Comma, value: Some(seq![c]) }
    } else if c == ':' {
        TokenView { ttype: TokenType::Colon, value: Some(seq![c]) }
    } else if c == '(' {
        TokenView { ttype: TokenType::OpenBracket, value: Some(seq![c]) }
    } else if c == ')' {
        TokenView { ttype: TokenType::CloseBracket, value: Some(seq![c]) }
    } else if c == '[' {
        TokenView { ttype: TokenType::OpenArray, value: Some(seq![c]) }
    } else if c == ']' {
        TokenView { ttype: TokenType::CloseArray, value: Some(seq![c]) }
    } else if c == '+' || c == '-' || c == '*' || c == '/' || c == '^' {
        TokenView { ttype: TokenType::BinaryOperator, value: Some(seq![c]) }
    } else if c == '<' || c == '>' || c == '!' {
        TokenView { ttype: TokenType::ComparisonOperator, value: Some(seq![c]) }
    } else if c == '=' {
        TokenView { ttype: TokenType::AssignmentOperator, value: Some(seq![c]) }
    } else {
        TokenView { ttype: TokenType::Error, value: None }
    }
}

/// What one call of the lexer gives: a token, or none, and the input left.
pub struct Lexed {
    pub token: Option<TokenView>,
    pub rest: Seq<char>,
}

/// One call of the lexer on the input `s`. A word at the start is a token,
/// and the white space after it is dropped. Otherwise the white space at
/// the start is dropped, and a punctuation character after it is a token;
/// before a word, or at the end of the input, the call gives no token.
pub open spec fn next_token(s: Seq<char>) -> Lexed {
    let word = word_length(s);
    if word > 0 {
        let after = s.skip(word as int);
        Lexed {
            token: Some(word_token(s.take(word as int))),
            rest: after.skip(space_length(after) as int),
        }
    } else {
        let after = s.skip(space_length(s) as int);
        if after.len() > 0 && is_punctuation(after[0]) {
            Lexed { token: Some(punctuation_token(after[0])), rest: after.skip(1) }
        } else {
            Lexed { token: None, rest: after }
        }
    }
}

/// A word is no longer than the text it starts.
pub proof fn lemma_word_length_bound(s: Seq<char>)
    ensures
        word_length(s) <= s.len(),
    decreases s.len(),
{
    if s.len() > 0 {
        lemma_word_length_bound(s.skip(1));
    }
}

/// White space is no longer than the text it starts.
pub proof fn lemma_space_length_bound(s: Seq<char>)
    ensures
        space_length(s) <= s.len(),
    decreases s.len(),
{
    if s.len() > 0 {
        lemma_space_length_bound(s.skip(1));
    }
}

/// On input that is not used up, a call of the lexer uses up at least one
/// character.
pub proof fn lemma_next_token_progress(s: Seq<char>)
    requires
        s.len() > 0,
    ensures
        next_token(s).rest.len() < s.len(),
{
    lemma_word_length_bound(s);
    let word = word_length(s);
    if word > 0 {
        lemma_space_length_bound(s.skip(word as int));
    } else {
        lemma_space_length_bound(s);
        let after = s.skip(space_length(s) as int);
        if space_length(s) == 0 {
            assert(after == s);
        }
    }
}

/// The tokens that repeated calls of the lexer give on the input `s`,
/// until the input is used up.
pub open spec fn tokens_of(s: Seq<char>) -> Seq<TokenView>
    decreases s.len(),
{
    if s.len() == 0 {
        Seq::empty()
    } else {
        proof {
            lemma_next_token_progress(s);
        }
        let lexed = next_token(s);
        match lexed.token {
            Some(token) => seq![token] + tokens_of(lexed.rest),
            None => tokens_of(lexed.rest),
        }
    }
}

/// Whether the token `first`, followed by `second`, is the start of a
/// comparison operator of two characters: `=` followed by `=`, `!`, `<` or
/// `>`.
pub open spec fn merges(first: TokenView, second: TokenView) -> bool {
    first.ttype == TokenType::AssignmentOperator && (second.ttype
        == TokenType::ComparisonOperator || second.ttype == TokenType::AssignmentOperator)
}

/// The comparison operator that two tokens make together.
pub open spec fn merged(first: TokenView, second: TokenView) -> TokenView {
    TokenView {
        ttype: TokenType::ComparisonOperator,
        value: Some(text_or_empty(first.value) + text_or_empty(second.value)),
    }
}

/// The tokens with each pair that makes a comparison operator merged into
/// one token, in one pass from the left: a merged token is not merged
/// again.
pub open spec fn merge_comparisons(tokens: Seq<TokenView>) -> Seq<TokenView>
    decreases tokens.len(),
{
    if tokens.len() < 2 {
        tokens
    } else if merges(tokens[0], tokens[1]) {
        seq![merged(tokens[0], tokens[1])] + merge_comparisons(tokens.skip(2))
    } else {
        seq![tokens[0]] + merge_comparisons(tokens.skip(1))
    }
}

/// The tokens of the source text `s`, as the parser reads them.
pub open spec fn lex(s: Seq<char>) -> Seq<TokenView> {
    merge_comparisons(tokens_of(s))
}

/// Whether `c` is white space.
pub fn is_space_char(c: char) -> (b: bool)
    ensures
        b == is_space(c),
{
    ('\u{9}' <= c && c <= '\u{d}') || c == ' ' || c == '\u{85}' || c == '\u{a0}' || c
        == '\u{1680}' || ('\u{2000}' <= c && c <= '\u{200a}') || c == '\u{2028}' || c
        == '\u{2029}' || c == '\u{202f}' || c == '\u{205f}' || c == '\u{3000}'
}

/// Whether `c` is punctuation.
pub fn is_punctuation_char(c: char) -> (b: bool)
    ensures
        b == is_punctuation(c),
{
    c == ';' || c == '(' || c == ')' || c == '=' || c == '+' || c == '-' || c == '*' || c == '/'
        || c == '^' || c == '<' || c == '>' || c == '!' || c == ',' || c == ':' || c == '['
        || c == ']'
}

/// The token that a word is.
pub fn classify_word(word: &Vec<char>) -> (token: Token)
    ensures
        token@ == word_token(word@),
{
    let text = string_of(word);
    let name = text.as_str();
    if same_text(name, "return") {
        Token::new(TokenType::KeyWord, None)
    } else if same_text(name, "var") {
        Token::new(TokenType::Var, None)
    } else if same_text(name, "if") {
        Token::new(TokenType::If, None)
    } else if same_text(name, "endif") {
        Token::new(TokenType::EndIf, None)
    } else if same_text(name, "while") {
        Token::new(TokenType::While, None)
    } else if same_text(name, "endwhile") {
        Token::new(TokenType::EndWhile, None)
    } else if same_text(name, "func") {
        Token::new(TokenType::Func, None)
    } else if same_text(name, "endfunc") {
        Token::new(TokenType::Endfunc, None)
    } else if same_text(name, "call") {
        Token::new(TokenType::Call, None)
    } else if same_text(name, "print") {
        Token::new(TokenType::Print, None)
    } else if parse_numeral(name, 255).is_some() {
        Token::new(TokenType::IntLiteral, Some(text))
    } else {
        Token::new(TokenType::Variable, Some(text))
    }
}

/// The token that a punctuation character is.
pub fn classify_punctuation(c: char) -> (token: Token)
    ensures
        token@ == punctuation_token(c),
{
    let mut one: Vec<char> = Vec::new();
    one.push(c);
    assert(one@ =~= seq![c]);
    let text = string_of(&one);
    if c == ';' {
        Token::new(TokenType::SemiColon, Some(text))
    } else if c == ',' {
        Token::new(TokenType::Comma, Some(text))
    } else if c == ':' {
        Token::new(TokenType::Colon, Some(text))
    } else if c == '(' {
        Token::new(TokenType::OpenBracket, Some(text))
    } else if c == ')' {
        Token::new(TokenType::CloseBracket, Some(text))
    } else if c == '[' {
        Token::new(TokenType::OpenArray, Some(text))
    } else if c == ']' {
        Token::new(TokenType::CloseArray, Some(text))
    } else if c == '+' || c == '-' || c == '*' || c == '/' || c == '^' {
        Token::new(TokenType::BinaryOperator, Some(text))
    } else if c == '<' || c == '>' || c == '!' {
        Token::new(TokenType::ComparisonOperator, Some(text))
    } else if c == '=' {
        Token::new(TokenType::AssignmentOperator, Some(text))
    } else {
        Token::new(TokenType::Error, None)
    }
}

/// The lexer: the source text and how far it has been read.
#[derive(Debug)]
pub struct Tokenizer<'a> {
    _body: &'a str,
    chars: Vec<char>,
    position: usize,
}

impl<'a> View for Tokenizer<'a> {
    type V = Seq<char>;

    /// The input that is left.
    closed spec fn view(&self) -> Seq<char> {
        if self.position <= self.chars@.len() {
            self.chars@.skip(self.position as int)
        } else {
            Seq::empty()
        }
    }
}

impl<'a> Tokenizer<'a> {
    /// A lexer at the start of `body`.
    pub fn new(body: &'a str) -> (tokenizer: Self)
        ensures
            tokenizer@ == body@,
    {
        let chars = crate::text::chars_of(body);
        assert(chars@.skip(0) == chars@);
        Tokenizer { _body: body, chars, position: 0 }
    }

    /// Whether the input is used up.
    pub fn is_done(&mut self) -> (done: bool)
        ensures
            done == (old(self)@.len() == 0),
            final(self)@ == old(self)@,
    {
        self.position >= self.chars.len()
    }

    /// Drops the white space at the start of the input.
    fn skip_spaces(&mut self)
        ensures
            final(self)@ == old(self)@.skip(space_length(old(self)@) as int),
    {
        let ghost start = self@;
        proof {
            assert(start.skip(0) == start);
        }
        let ghost mut count: nat = 0;
        while self.position < self.chars.len() && is_space_char(self.chars[self.position])
            invariant
                count <= start.len(),
                self@ == start.skip(count as int),
                space_length(start) == count + space_length(start.skip(count as int)),
            decreases self@.len(),
        {
            proof {
                assert(self@[0] == self.chars@[self.position as int]);
                assert(start.skip(count as int).skip(1) == start.skip(count as int + 1));
                count = count + 1;
            }
            self.position += 1;
        }
        proof {
            if self@.len() > 0 {
                assert(self@[0] == self.chars@[self.position as int]);
            }
        }
    }

    /// Takes the word at the start of the input.
    fn take_word(&mut self) -> (word: Vec<char>)
        ensures
            word@ == old(self)@.take(word_length(old(self)@) as int),
            final(self)@ == old(self)@.skip(word_length(old(self)@) as int),
    {
        let ghost start = self@;
        proof {
            assert(start.skip(0) == start);
        }
        let mut word: Vec<char> = Vec::new();
        while self.position < self.chars.len() && !is_space_char(self.chars[self.position])
            && !is_punctuation_char(self.chars[self.position])
            invariant
                word@.len() <= start.len(),
                word@ == start.take(word@.len() as int),
                self@ == start.skip(word@.len() as int),
                word_length(start) == word@.len() + word_length(start.skip(word@.len() as int)),
            decreases self@.len(),
        {
            let c = self.chars[self.position];
            proof {
                let count = word@.len() as int;
                assert(self@[0] == c);
                assert(start.skip(count).skip(1) == start.skip(count + 1));
                assert(start.take(count).push(c) == start.take(count + 1));
            }
            word.push(c);
            self.position += 1;
        }
        proof {
            if self@.len() > 0 {
                assert(self@[0] == self.chars@[self.position as int]);
            }
        }
        word
    }

    /// Reads the next token, if the input starts with one.
    pub fn get_next_token(&mut self) -> (token: Option<Token>)
        ensures
            final(self)@ == next_token(old(self)@).rest,
            match token {
                Some(token) => next_token(old(self)@).token == Some(token@),
                None => next_token(old(self)@).token.is_none(),
            },
    {
        let ghost start = self@;
        let word = self.take_word();
        if word.len() > 0 {
            self.skip_spaces();
            return Some(classify_word(&word));
        }
        proof {
            lemma_word_length_bound(start);
            assert(start.skip(0) == start);
        }
        self.skip_spaces();
        if self.position < self.chars.len() && is_punctuation_char(self.chars[self.position]) {
            let c = self.chars[self.position];
            proof {
                assert(self@[0] == c);
                assert(self.chars@.skip(self.position as int).skip(1) == self.chars@.skip(
                    self.position + 1,
                ));
            }
            self.position += 1;
            return Some(classify_punctuation(c));
        }
        proof {
            if self@.len() > 0 {
                assert(self@[0] == self.chars@[self.position as int]);
            }
        }
        None
    }
}

impl<'a> Tokenizer<'a> {
    /// Merges each `=` that is followed by `=`, `!`, `<` or `>` with that
    /// token into one comparison operator.
    pub fn fix_comparison_operators(tokens: &mut Vec<Token>)
        ensures
            token_views(final(tokens)@) == merge_comparisons(token_views(old(tokens)@)),
    {
        let ghost start = token_views(tokens@);
        let mut index: usize = 0;
        proof {
            assert(start.take(0) + merge_comparisons(start.skip(0)) == merge_comparisons(start))
                by {
                assert(start.skip(0) == start);
                assert(start.take(0) + merge_comparisons(start) == merge_comparisons(start));
            }
        }
        while index < tokens.len() && index + 1 < tokens.len()
            invariant
                index <= tokens.len(),
                merge_comparisons(start) == token_views(tokens@).take(index as int)
                    + merge_comparisons(token_views(tokens@).skip(index as int)),
            decreases tokens.len() - index,
        {
            let ghost views = token_views(tokens@);
            let ghost rest = views.skip(index as int);
            proof {
                assert(rest[0] == views[index as int]);
                assert(rest[1] == views[index + 1]);
            }
            if tokens[index].ttype == TokenType::AssignmentOperator && (tokens[index + 1].ttype
                == TokenType::ComparisonOperator || tokens[index + 1].ttype
                == TokenType::AssignmentOperator) {
                let mut aux = String::new();
                match &tokens[index].value {
                    Some(text) => {
                        aux.append(text.as_str());
                    },
                    None => {},
                }
                match &tokens[index + 1].value {
                    Some(text) => {
                        aux.append(text.as_str());
                    },
                    None => {},
                }
                assert(aux@ == text_or_empty(rest[0].value) + text_or_empty(rest[1].value)) by {
                    assert(Seq::<char>::empty() + text_or_empty(rest[0].value) == text_or_empty(
                        rest[0].value,
                    ));
                    assert(text_or_empty(rest[0].value) + Seq::<char>::empty() == text_or_empty(
                        rest[0].value,
                    ));
                }
                let token = Token::new(TokenType::ComparisonOperator, Some(aux));
                tokens.set(index, token);
                tokens.remove(index + 1);
                proof {
                    let after = token_views(tokens@);
                    assert(after.take(index + 1) == views.take(index as int) + seq![
                        merged(rest[0], rest[1]),
                    ]);
                    assert(after.skip(index + 1) == rest.skip(2));
                    assert(views.take(index as int) + (seq![merged(rest[0], rest[1])]
                        + merge_comparisons(rest.skip(2))) == (views.take(index as int) + seq![
                        merged(rest[0], rest[1]),
                    ]) + merge_comparisons(rest.skip(2)));
                }
            } else {
                proof {
                    assert(views.take(index + 1) == views.take(index as int) + seq![rest[0]]);
                    assert(views.skip(index + 1) == rest.skip(1));
                    assert(views.take(index as int) + (seq![rest[0]] + merge_comparisons(
                        rest.skip(1),
                    )) == (views.take(index as int) + seq![rest[0]]) + merge_comparisons(
                        rest.skip(1),
                    ));
                }
            }
            index += 1;
        }
        proof {
            let views = token_views(tokens@);
            assert(views.take(index as int) + views.skip(index as int) == views);
        }
    }
}

/// The tokens of `source`, as the parser reads them.
pub fn tokenize(source: &str) -> (tokens: Vec<Token>)
    ensures
        token_views(tokens@) == lex(source@),
{
    let mut tokenizer = Tokenizer::new(source);
    let mut tokens: Vec<Token> = Vec::new();
    proof {
        assert(token_views(tokens@) + tokens_of(source@) == tokens_of(source@));
    }
    while !tokenizer.is_done()
        invariant
            tokens_of(source@) == token_views(tokens@) + tokens_of(tokenizer@),
        decreases tokenizer@.len(),
    {
        let ghost input = tokenizer@;
        let ghost before = token_views(tokens@);
        proof {
            lemma_next_token_progress(input);
        }
        match tokenizer.get_next_token() {
            Some(token) => {
                tokens.push(token);
                proof {
                    assert(token_views(tokens@) == before + seq![token@]);
                    assert(before + (seq![token@] + tokens_of(tokenizer@)) == (before + seq![
                        token@,
                    ]) + tokens_of(tokenizer@));
                }
            },
            None => {},
        }
    }
    proof {
        assert(token_views(tokens@) + Seq::<TokenView>::empty() == token_views(tokens@));
    }
    Tokenizer::fix_comparison_operators(&mut tokens);
    tokens
}

} // verus!
