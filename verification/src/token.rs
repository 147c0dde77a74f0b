//! Tokens: the atoms of a log line, either a literal or the wildcard.

use vstd::prelude::*;

verus! {

/// One position of a log line or of a template.
#[derive(Debug, Eq, Hash)]
pub enum Token {
    /// Matches any literal at its position; rendered as `<*>`.
    WildCard,
    /// A literal atom.
    Val(String),
}

/// The mathematical value of a [`Token`].
pub ghost enum TokenV {
    WildCard,
    Val(Seq<char>),
}

impl View for Token {
    type V = TokenV;

    /// The value of the token: the wildcard, or the characters of the
    /// literal.
    open spec fn view(&self) -> TokenV {
        match self {
            Token::WildCard => TokenV::WildCard,
            Token::Val(s) => TokenV::Val(s@),
        }
    }
}

/// The values of a sequence of tokens, position by position.
pub open spec fn tokens_view(tokens: Seq<Token>) -> Seq<TokenV> {
    tokens.map_values(|t: Token| t@)
}

/// Whether `c` is one of the ten ASCII digits.
pub open spec fn is_digit(c: char) -> bool {
    '0' <= c && c <= '9'
}

/// Whether some character of `s` is an ASCII digit.
pub open spec fn has_digit(s: Seq<char>) -> bool {
    exists|i: int| 0 <= i < s.len() && is_digit(#[trigger] s[i])
}

/// The key under which a token selects a child of an inner node: the
/// wildcard for the wildcard and for every literal that holds a digit,
/// the literal itself otherwise.
pub open spec fn routing_key(token: TokenV) -> TokenV {
    match token {
        TokenV::WildCard => TokenV::WildCard,
        TokenV::Val(s) => if has_digit(s) {
            TokenV::WildCard
        } else {
            TokenV::Val(s)
        },
    }
}

/// The text of the wildcard.
pub open spec fn wildcard_text() -> Seq<char> {
    seq!['<', '*', '>']
}

/// The text a token is rendered as.
pub open spec fn token_text(token: TokenV) -> Seq<char> {
    match token {
        TokenV::WildCard => wildcard_text(),
        TokenV::Val(s) => s,
    }
}

/// Whether some character of `s` is an ASCII digit.
pub fn contains_digit(s: &str) -> (found: bool)
    ensures
        found == has_digit(s@),
{
    let mut found = false;
    for c in it: s.chars()
        invariant
            found == exists|i: int| 0 <= i < it.index() && is_digit(#[trigger] s@[i]),
            it.seq() == s@,
    {
        if '0' <= c && c <= '9' {
            found = true;
        }
    }
    found
}

impl Clone for Token {
    /// A token of the same value.
    fn clone(&self) -> (copy: Token)
        ensures
            copy@ == self@,
    {
        match self {
            Token::WildCard => Token::WildCard,
            Token::Val(s) => Token::Val(s.clone()),
        }
    }
}

impl PartialEq for Token {
    /// Whether the two tokens have the same value: both are the wildcard,
    /// or both are literals of the same characters.
    fn eq(&self, other: &Token) -> (equal: bool) {
        match (self, other) {
            (Token::WildCard, Token::WildCard) => true,
            (Token::Val(a), Token::Val(b)) => a.eq(b),
            _ => false,
        }
    }
}

impl vstd::std_specs::cmp::PartialEqSpecImpl for Token {
    /// Equality of tokens is what `eq_spec` says.
    open spec fn obeys_eq_spec() -> bool {
        true
    }

    /// Tokens are equal when their values are.
    open spec fn eq_spec(&self, other: &Token) -> bool {
        self@ == other@
    }
}

impl Token {
    /// Whether this token is the wildcard.
    pub fn is_wildcard(&self) -> (wild: bool)
        ensures
            wild == (self@ is WildCard),
    {
        match self {
            Token::WildCard => true,
            Token::Val(_) => false,
        }
    }

    /// The key under which this token selects a child of an inner node.
    pub fn routing_key(&self) -> (key: Token)
        ensures
            key@ == routing_key(self@),
    {
        match self {
            Token::WildCard => Token::WildCard,
            Token::Val(s) => if contains_digit(s.as_str()) {
                Token::WildCard
            } else {
                Token::Val(s.clone())
            },
        }
    }

    /// The text of this token: the literal itself, or `<*>` for the wildcard.
    pub fn to_string(&self) -> (text: String)
        ensures
            text@ == token_text(self@),
    {
        match self {
            Token::WildCard => {
                proof {
                    reveal_strlit("<*>");
                }
                let text = "<*>".to_owned();
                text
            },
            Token::Val(s) => s.clone(),
        }
    }
}

/// A copy of `tokens`, token by token.
pub fn clone_tokens(tokens: &[Token]) -> (copy: Vec<Token>)
    ensures
        tokens_view(copy@) == tokens_view(tokens@),
{
    let mut copy: Vec<Token> = Vec::new();
    let mut i: usize = 0;
    while i < tokens.len()
        invariant
            i <= tokens.len(),
            copy.len() == i,
            forall|j: int| 0 <= j < i ==> copy@[j]@ == tokens@[j]@,
        decreases tokens.len() - i,
    {
        copy.push(tokens[i].clone());
        i += 1;
    }
    copy
}

} // verus!
