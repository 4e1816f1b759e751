//! The tokens of the query language.

use crate::ql::ast::{ComparisonOperator, LogicalOperator};
use crate::text::{char_is_space, chars_of, is_space, string_of_range};
use vstd::prelude::*;

verus! {

/// The mathematical model of a token.
pub enum TokenModel {
    /// `{`
    LeftBrace,
    /// `}`
    RightBrace,
    /// `(`
    LeftParen,
    /// `)`
    RightParen,
    /// `,`
    Comma,
    /// `=`
    Assign,
    /// A comparison operator
    Compare(ComparisonOperator),
    /// A logical operator
    Logic(LogicalOperator),
    /// A string literal, by what stands between its quotes
    Text(Seq<char>),
    /// A word: a keyword, a number, a name or a path
    Word(Seq<char>),
}

/// A token of the query language
#[derive(Debug, PartialEq)]
pub enum Token {
    /// `{`
    LeftBrace,
    /// `}`
    RightBrace,
    /// `(`
    LeftParen,
    /// `)`
    RightParen,
    /// `,`
    Comma,
    /// `=`
    Assign,
    /// A comparison operator
    Compare(ComparisonOperator),
    /// A logical operator
    Logic(LogicalOperator),
    /// A string literal, by what stands between its quotes
    Text(String),
    /// A word: a keyword, a number, a name or a path
    Word(String),
}

impl View for Token {
    type V = TokenModel;

    open spec fn view(&self) -> TokenModel {
        match self {
            Token::LeftBrace => TokenModel::LeftBrace,
            Token::RightBrace => TokenModel::RightBrace,
            Token::LeftParen => TokenModel::LeftParen,
            Token::RightParen => TokenModel::RightParen,
            Token::Comma => TokenModel::Comma,
            Token::Assign => TokenModel::Assign,
            Token::Compare(op) => TokenModel::Compare(*op),
            Token::Logic(op) => TokenModel::Logic(*op),
            Token::Text(s) => TokenModel::Text(s@),
            Token::Word(s) => TokenModel::Word(s@),
        }
    }
}

/// The models of a list of tokens, in order.
pub open spec fn tokens_model(v: Seq<Token>) -> Seq<TokenModel> {
    v.map_values(|t: Token| t@)
}

/// Whether `c` is one of the characters that make the symbols of the
/// language.
pub open spec fn is_symbol(c: char) -> bool {
    c == '{' || c == '}' || c == '(' || c == ')' || c == ',' || c == '=' || c == '!' || c == '<'
        || c == '>' || c == '&' || c == '|' || c == '"'
}

/// Whether `c` can stand in a word.
pub open spec fn is_word_char(c: char) -> bool {
    !is_space(c) && !is_symbol(c)
}

/// The position of the first `"` at or behind `i`, or the length of the
/// text where there is none.
pub open spec fn quote_position(t: Seq<char>, i: int) -> int
    decreases t.len() - i,
{
    if i < 0 || i >= t.len() || t[i] == '"' {
        i
    } else {
        quote_position(t, i + 1)
    }
}

/// The position of the first character at or behind `i` that cannot stand
/// in a word, or the length of the text where there is none.
pub open spec fn word_end(t: Seq<char>, i: int) -> int
    decreases t.len() - i,
{
    if i < 0 || i >= t.len() || !is_word_char(t[i]) {
        i
    } else {
        word_end(t, i + 1)
    }
}

/// The tokens with one more in front of them.
pub open spec fn token_then(first: TokenModel, rest: Option<Seq<TokenModel>>) -> Option<
    Seq<TokenModel>,
> {
    match rest {
        Some(r) => Some(seq![first] + r),
        None => None,
    }
}

/// The tokens of the text from position `i` on; nothing where the text is
/// not made of tokens. White space stands between tokens. `=` is the
/// assignment unless another `=` follows; `!` wants a `=`, `&` a second
/// `&` and `|` a second `|`. A `"` opens a string that ends at the next
/// `"`. Anything else begins a word, which runs as far as word characters
/// go.
pub open spec fn lex_from(t: Seq<char>, i: int) -> Option<Seq<TokenModel>>
    decreases t.len() - i,
{
    if i < 0 || i >= t.len() {
        Some(Seq::empty())
    } else {
        let c = t[i];
        let next_is = |d: char| i + 1 < t.len() && t[i + 1] == d;
        if is_space(c) {
            lex_from(t, i + 1)
        } else if c == '{' {
            token_then(TokenModel::LeftBrace, lex_from(t, i + 1))
        } else if c == '}' {
            token_then(TokenModel::RightBrace, lex_from(t, i + 1))
        } else if c == '(' {
            token_then(TokenModel::LeftParen, lex_from(t, i + 1))
        } else if c == ')' {
            token_then(TokenModel::RightParen, lex_from(t, i + 1))
        } else if c == ',' {
            token_then(TokenModel::Comma, lex_from(t, i + 1))
        } else if c == '=' {
            if next_is('=') {
                token_then(TokenModel::Compare(ComparisonOperator::Equal), lex_from(t, i + 2))
            } else {
                token_then(TokenModel::Assign, lex_from(t, i + 1))
            }
        } else if c == '!' {
            if next_is('=') {
                token_then(TokenModel::Compare(ComparisonOperator::NotEqual), lex_from(t, i + 2))
            } else {
                None
            }
        } else if c == '<' {
            if next_is('=') {
                token_then(
                    TokenModel::Compare(ComparisonOperator::LessThanOrEqual),
                    lex_from(t, i + 2),
                )
            } else {
                token_then(TokenModel::Compare(ComparisonOperator::LessThan), lex_from(t, i + 1))
            }
        } else if c == '>' {
            if next_is('=') {
                token_then(
                    TokenModel::Compare(ComparisonOperator::GreaterThanOrEqual),
                    lex_from(t, i + 2),
                )
            } else {
                token_then(
                    TokenModel::Compare(ComparisonOperator::GreaterThan),
                    lex_from(t, i + 1),
                )
            }
        } else if c == '&' {
            if next_is('&') {
                token_then(TokenModel::Logic(LogicalOperator::And), lex_from(t, i + 2))
            } else {
                None
            }
        } else if c == '|' {
            if next_is('|') {
                token_then(TokenModel::Logic(LogicalOperator::Or), lex_from(t, i + 2))
            } else {
                None
            }
        } else if c == '"' {
            let end = quote_position(t, i + 1);
            if i < end < t.len() {
                token_then(TokenModel::Text(t.subrange(i + 1, end)), lex_from(t, end + 1))
            } else {
                None
            }
        } else {
            let end = word_end(t, i);
            if i < end <= t.len() {
                token_then(TokenModel::Word(t.subrange(i, end)), lex_from(t, end))
            } else {
                None
            }
        }
    }
}

/// The tokens of a text; nothing where the text is not made of tokens.
pub open spec fn lex(t: Seq<char>) -> Option<Seq<TokenModel>> {
    lex_from(t, 0)
}

/// Whether `c` is one of the characters that make the symbols of the
/// language.
fn char_is_symbol(c: char) -> (r: bool)
    ensures
        r == is_symbol(c),
{
    c == '{' || c == '}' || c == '(' || c == ')' || c == ',' || c == '=' || c == '!' || c == '<'
        || c == '>' || c == '&' || c == '|' || c == '"'
}

/// The tokens of a text.
pub fn tokenize(text: &str) -> (r: Option<Vec<Token>>)
    ensures
        match r {
            Some(tokens) => lex(text@) == Some(tokens_model(tokens@)),
            None => lex(text@) is None,
        },
{
    let v = chars_of(text);
    let n = v.len();
    let mut out: Vec<Token> = Vec::new();
    let mut i: usize = 0;
    assert(tokens_model(out@) =~= Seq::<TokenModel>::empty());
    proof {
        match lex_from(v@, 0) {
            Some(rest) => {
                assert(tokens_model(out@) + rest == rest);
            },
            None => {},
        }
    }
    while i < n
        invariant
            i <= n,
            n == v.len(),
            v@ == text@,
            lex(text@) == (match lex_from(v@, i as int) {
                Some(rest) => Some(tokens_model(out@) + rest),
                None => None,
            }),
        decreases n - i,
    {
        let c = v[i];
        let ghost before = tokens_model(out@);
        let next: Option<char> = if i + 1 < n {
            Some(v[i + 1])
        } else {
            None
        };
        let mut step: usize = 1;
        let mut token: Option<Token> = None;
        if char_is_space(c) {
        } else if c == '{' {
            token = Some(Token::LeftBrace);
        } else if c == '}' {
            token = Some(Token::RightBrace);
        } else if c == '(' {
            token = Some(Token::LeftParen);
        } else if c == ')' {
            token = Some(Token::RightParen);
        } else if c == ',' {
            token = Some(Token::Comma);
        } else if c == '=' {
            if next == Some('=') {
                token = Some(Token::Compare(ComparisonOperator::Equal));
                step = 2;
            } else {
                token = Some(Token::Assign);
            }
        } else if c == '!' {
            if next == Some('=') {
                token = Some(Token::Compare(ComparisonOperator::NotEqual));
                step = 2;
            } else {
                return None;
            }
        } else if c == '<' {
            if next == Some('=') {
                token = Some(Token::Compare(ComparisonOperator::LessThanOrEqual));
                step = 2;
            } else {
                token = Some(Token::Compare(ComparisonOperator::LessThan));
            }
        } else if c == '>' {
            if next == Some('=') {
                token = Some(Token::Compare(ComparisonOperator::GreaterThanOrEqual));
                step = 2;
            } else {
                token = Some(Token::Compare(ComparisonOperator::GreaterThan));
            }
        } else if c == '&' {
            if next == Some('&') {
                token = Some(Token::Logic(LogicalOperator::And));
                step = 2;
            } else {
                return None;
            }
        } else if c == '|' {
            if next == Some('|') {
                token = Some(Token::Logic(LogicalOperator::Or));
                step = 2;
            } else {
                return None;
            }
        } else if c == '"' {
            let mut end: usize = i + 1;
            while end < n && v[end] != '"'
                invariant
                    i < end <= n,
                    n == v.len(),
                    quote_position(v@, i + 1) == quote_position(v@, end as int),
                decreases n - end,
            {
                end += 1;
            }
            if end >= n {
                return None;
            }
            token = Some(Token::Text(string_of_range(&v, i + 1, end)));
            step = end + 1 - i;
        } else {
            let mut end: usize = i + 1;
            assert(is_word_char(c));
            while end < n && !char_is_space(v[end]) && !char_is_symbol(v[end])
                invariant
                    i < end <= n,
                    n == v.len(),
                    word_end(v@, i as int) == word_end(v@, end as int),
                decreases n - end,
            {
                end += 1;
            }
            token = Some(Token::Word(string_of_range(&v, i, end)));
            step = end - i;
        }
        let ghost made: Option<TokenModel> = if token is Some {
            Some(token->0@)
        } else {
            None
        };
        proof {
            let rest = lex_from(v@, i + step);
            match made {
                Some(t) => {
                    assert(lex_from(v@, i as int) == token_then(t, rest));
                    match rest {
                        Some(r) => {
                            assert(before + (seq![t] + r) == before.push(t) + r);
                        },
                        None => {},
                    }
                },
                None => {
                    assert(lex_from(v@, i as int) == rest);
                },
            }
        }
        match token {
            Some(t) => {
                out.push(t);
                assert(tokens_model(out@) =~= before.push(t@));
            },
            None => {},
        }
        i = i + step;
    }
    proof {
        assert(tokens_model(out@) + Seq::<TokenModel>::empty() == tokens_model(out@));
    }
    Some(out)
}

} // verus!
