//! Split a fields query into name and terminal tokens.
//!
//! Backslash escapes the next character, which then belongs to the name. A
//! name that is exactly one escaped star is the literal name `*`; an escaped
//! star inside a longer name keeps its backslash (`a\*b`). Neither is ever the
//! bare wildcard. A trailing backslash is a literal backslash.
//! The four terminals `, / ( )` end the current name and stand as tokens of
//! their own.

use vstd::prelude::*;

verus! {

/// The character that escapes the next one.
pub const ESCAPE_CHAR: char = '\\';

/// The wildcard selector.
pub const WILDCARD_CHAR: char = '*';

/// A scanned token: either a name or a structural terminal.
///
/// A name holds the key text and whether the whole token is a bare wildcard.
#[derive(Debug, PartialEq, Eq)]
pub enum Token {
    Name { value: String, is_wildcard: bool },
    Comma,
    Slash,
    Open,
    Close,
}

/// The model of a token.
pub enum TokenV {
    Name { value: Seq<char>, is_wildcard: bool },
    Comma,
    Slash,
    Open,
    Close,
}

impl View for Token {
    type V = TokenV;

    open spec fn view(&self) -> TokenV {
        match self {
            Token::Name { value, is_wildcard } => TokenV::Name { value: value@, is_wildcard: *is_wildcard },
            Token::Comma => TokenV::Comma,
            Token::Slash => TokenV::Slash,
            Token::Open => TokenV::Open,
            Token::Close => TokenV::Close,
        }
    }
}

/// The models of a sequence of tokens.
pub open spec fn tokens_view(s: Seq<Token>) -> Seq<TokenV> {
    Seq::new(s.len(), |i: int| s[i]@)
}

/// The four characters that end a name.
pub open spec fn spec_is_terminal(ch: char) -> bool {
    ch == ',' || ch == '/' || ch == '(' || ch == ')'
}

/// The token that a terminal character stands for.
pub open spec fn terminal_token(ch: char) -> TokenV {
    if ch == ',' {
        TokenV::Comma
    } else if ch == '/' {
        TokenV::Slash
    } else if ch == '(' {
        TokenV::Open
    } else {
        TokenV::Close
    }
}

/// `tokens` followed by the pending name, when there is one.
pub open spec fn flush_name(tokens: Seq<TokenV>, name: Seq<char>, is_wildcard: bool) -> Seq<TokenV> {
    if name.len() == 0 {
        tokens
    } else {
        tokens.push(TokenV::Name { value: name, is_wildcard })
    }
}

/// Whether the escape at index `i` starts a name that is exactly one escaped
/// star: no name is pending, and the star ends the query or is followed by a
/// terminal.
pub open spec fn lone_escaped_star(chars: Seq<char>, i: int, name: Seq<char>) -> bool {
    name.len() == 0 && (i + 2 >= chars.len() || spec_is_terminal(chars[i + 2]))
}

/// The tokens of `chars` from index `i` on, given the tokens so far, the
/// pending name and whether that name is a bare wildcard.
pub open spec fn scan_from(
    chars: Seq<char>,
    i: int,
    tokens: Seq<TokenV>,
    name: Seq<char>,
    is_wildcard: bool,
) -> Seq<TokenV>
    decreases chars.len() - i,
{
    if i < 0 || i >= chars.len() {
        flush_name(tokens, name, is_wildcard)
    } else if chars[i] == ESCAPE_CHAR {
        if i + 1 >= chars.len() {
            flush_name(tokens, name.push(ESCAPE_CHAR), false)
        } else {
            let next = chars[i + 1];
            let escaped = if next == WILDCARD_CHAR && !lone_escaped_star(chars, i, name) {
                name.push(ESCAPE_CHAR).push(WILDCARD_CHAR)
            } else {
                name.push(next)
            };
            scan_from(chars, i + 2, tokens, escaped, false)
        }
    } else if spec_is_terminal(chars[i]) {
        scan_from(
            chars,
            i + 1,
            flush_name(tokens, name, is_wildcard).push(terminal_token(chars[i])),
            Seq::empty(),
            false,
        )
    } else {
        scan_from(chars, i + 1, tokens, name.push(chars[i]), chars[i] == WILDCARD_CHAR && name.len() == 0)
    }
}

/// The tokens of a query.
pub open spec fn spec_scan(chars: Seq<char>) -> Seq<TokenV> {
    scan_from(chars, 0, Seq::empty(), Seq::empty(), false)
}

/// `String::push` of std appends the character to the end of the string; the
/// contract claims exactly that of the string's characters, and nothing of its
/// capacity.
pub assume_specification[ std::string::String::push ](s: &mut std::string::String, ch: char)
    ensures
        final(s)@ == old(s)@.push(ch),
;

/// Whether `ch` is one of the four terminals `, / ( )`.
pub fn is_terminal(ch: char) -> (r: bool)
    ensures
        r == spec_is_terminal(ch),
{
    ch == ',' || ch == '/' || ch == '(' || ch == ')'
}

/// Moves the pending name, when there is one, to the end of `tokens` and
/// resets the name and its wildcard flag.
pub fn push_name(tokens: &mut Vec<Token>, name: &mut String, name_is_wildcard: &mut bool)
    ensures
        tokens_view(final(tokens)@) == flush_name(tokens_view(old(tokens)@), old(name)@, *old(name_is_wildcard)),
        final(name)@ == Seq::<char>::empty(),
        *final(name_is_wildcard) == false,
{
    if name.as_str().is_empty() {
        *name_is_wildcard = false;
        assert(tokens_view(tokens@) =~= flush_name(tokens_view(old(tokens)@), old(name)@, *old(name_is_wildcard)));
        return;
    }
    let value = name.clone();
    *name = String::new();
    let ghost before = tokens@;
    tokens.push(Token::Name { value, is_wildcard: *name_is_wildcard });
    *name_is_wildcard = false;
    assert(tokens_view(tokens@) =~= tokens_view(before).push(tokens@.last()@));
}

/// The token for a terminal character.
fn terminal(ch: char) -> (t: Token)
    requires
        spec_is_terminal(ch),
    ensures
        t@ == terminal_token(ch),
{
    if ch == ',' {
        Token::Comma
    } else if ch == '/' {
        Token::Slash
    } else if ch == '(' {
        Token::Open
    } else {
        Token::Close
    }
}

/// Split the query into tokens.
///
/// Backslash escapes the next character. A trailing backslash becomes a literal
/// backslash. A name that is exactly one escaped star is the literal name `*`;
/// an escaped star inside a longer name keeps its backslash; any other escaped
/// character drops it. The four terminals `, / ( )` flush the current name and
/// emit a terminal token.
pub fn scan(text: &str) -> (r: Vec<Token>)
    ensures
        tokens_view(r@) == spec_scan(text@),
{
    let mut chars: Vec<char> = Vec::new();
    for ch in it: text.chars()
        invariant
            it.seq() == text@,
            chars@ == text@.take(it.index() as int),
    {
        chars.push(ch);
        proof {
            assert(chars@ =~= text@.take(it.index() + 1));
        }
    }
    proof {
        assert(chars@ =~= text@);
    }
    let len = chars.len();
    let mut tokens: Vec<Token> = Vec::new();
    let mut name = String::new();
    let mut name_is_wildcard = false;
    let mut i: usize = 0;
    assert(tokens_view(tokens@) =~= Seq::<TokenV>::empty());
    while i < len
        invariant
            len == chars@.len(),
            chars@ == text@,
            i <= len,
            spec_scan(text@) == scan_from(chars@, i as int, tokens_view(tokens@), name@, name_is_wildcard),
        decreases len - i,
    {
        let ch = chars[i];
        if ch == ESCAPE_CHAR {
            if i + 1 >= len {
                name.push(ESCAPE_CHAR);
                name_is_wildcard = false;
                i = len;
            } else {
                let next = chars[i + 1];
                let lone = name.as_str().is_empty() && (i + 2 >= len || is_terminal(chars[i + 2]));
                if next == WILDCARD_CHAR && !lone {
                    name.push(ESCAPE_CHAR);
                }
                name.push(next);
                name_is_wildcard = false;
                i = i + 2;
            }
        } else if is_terminal(ch) {
            push_name(&mut tokens, &mut name, &mut name_is_wildcard);
            let ghost before = tokens@;
            tokens.push(terminal(ch));
            proof {
                assert(tokens_view(tokens@) =~= tokens_view(before).push(terminal_token(ch)));
            }
            i = i + 1;
        } else {
            name_is_wildcard = ch == WILDCARD_CHAR && name.as_str().is_empty();
            name.push(ch);
            i = i + 1;
        }
    }
    push_name(&mut tokens, &mut name, &mut name_is_wildcard);
    tokens
}

} // verus!
