use vstd::prelude::*;
use vstd::string::*;
use crate::error::SyntaxError;

verus! {

/// The closed set of token kinds.
#[derive(Debug, Clone, Copy, PartialEq, Eq, Structural)]
pub enum TokenType {
    /// Any run of characters that is not punctuation, whitespace or a quote.
    Identifier,
    /// The content of a `"..."` literal, without the quotes.
    String,
    /// `;`
    Terminator,
    /// `(`
    LParen,
    /// `)`
    RParen,
    /// `,`
    Comma,
    /// `{`
    LCurly,
    /// `}`
    RCurly,
    /// `+`
    Plus,
    /// `=`
    Assign,
    /// The keyword `thread`.
    KwThread,
}

/// A token as a mathematical value: its kind and its text.
pub type TokenView = (TokenType, Seq<char>);

#[derive(Debug)]
pub struct Token {
    pub token_type: TokenType,
    pub content: String,
}

impl View for Token {
    type V = TokenView;

    open spec fn view(&self) -> TokenView {
        (self.token_type, self.content@)
    }
}

/// The views of a sequence of tokens.
pub open spec fn token_views(ts: Seq<Token>) -> Seq<TokenView> {
    ts.map_values(|t: Token| t@)
}

/// The kind of a single-character punctuation symbol, if `c` is one.
pub open spec fn punct_kind(c: char) -> Option<TokenType> {
    if c == '=' {
        Some(TokenType::Assign)
    } else if c == ';' {
        Some(TokenType::Terminator)
    } else if c == '(' {
        Some(TokenType::LParen)
    } else if c == ')' {
        Some(TokenType::RParen)
    } else if c == ',' {
        Some(TokenType::Comma)
    } else if c == '{' {
        Some(TokenType::LCurly)
    } else if c == '}' {
        Some(TokenType::RCurly)
    } else if c == '+' {
        Some(TokenType::Plus)
    } else {
        None
    }
}

/// Characters that are dropped from an identifier without ending it.
pub open spec fn is_skipped(c: char) -> bool {
    c == '\n' || c == '\t'
}

/// The kind of a finished identifier-shaped lexeme: a keyword if the keyword
/// table holds it, else an identifier.
pub open spec fn keyword_kind(text: Seq<char>) -> TokenType {
    if text == seq!['t', 'h', 'r', 'e', 'a', 'd'] {
        TokenType::KwThread
    } else {
        TokenType::Identifier
    }
}

/// Flushing the buffer: a non-empty buffer becomes one keyword or identifier
/// token; an empty one adds nothing.
pub open spec fn flush(buf: Seq<char>, acc: Seq<TokenView>) -> Seq<TokenView> {
    if buf.len() == 0 {
        acc
    } else {
        acc.push((keyword_kind(buf), buf))
    }
}

/// The scan from character `i` on, with `quote` the position of an open
/// string literal's opening quote (if inside one), `buf` the pending lexeme
/// and `acc` the tokens emitted so far. `Err(q)` means that the literal
/// opened at `q` is never closed.
pub open spec fn lex_from(
    s: Seq<char>,
    i: int,
    quote: Option<int>,
    buf: Seq<char>,
    acc: Seq<TokenView>,
) -> Result<Seq<TokenView>, int>
    decreases s.len() - i,
{
    if i >= s.len() {
        match quote {
            Some(q) => Err(q),
            None => Ok(flush(buf, acc)),
        }
    } else {
        let c = s[i];
        match quote {
            Some(q) => if c == '"' {
                lex_from(s, i + 1, None, seq![], acc.push((TokenType::String, buf)))
            } else {
                lex_from(s, i + 1, Some(q), buf.push(c), acc)
            },
            None => if c == '"' {
                lex_from(s, i + 1, Some(i), seq![], flush(buf, acc))
            } else if c == ' ' {
                lex_from(s, i + 1, None, seq![], flush(buf, acc))
            } else if punct_kind(c) is Some {
                lex_from(s, i + 1, None, seq![], flush(buf, acc).push((punct_kind(c)->0, seq![c])))
            } else if is_skipped(c) {
                lex_from(s, i + 1, None, buf, acc)
            } else {
                lex_from(s, i + 1, None, buf.push(c), acc)
            },
        }
    }
}

/// The token sequence of a whole source text, before empty tokens are purged.
pub open spec fn lex(s: Seq<char>) -> Result<Seq<TokenView>, int> {
    lex_from(s, 0, None, seq![], seq![])
}

/// Whether a token carries text.
pub open spec fn has_text(t: TokenView) -> bool {
    t.1.len() > 0
}

/// A token sequence with its empty-text tokens purged.
pub open spec fn purge(ts: Seq<TokenView>) -> Seq<TokenView>
    decreases ts.len(),
{
    if ts.len() == 0 {
        ts
    } else if has_text(ts.last()) {
        purge(ts.drop_last()).push(ts.last())
    } else {
        purge(ts.drop_last())
    }
}

impl Token {
    pub fn new(token_type: TokenType, content: String) -> (r: Self)
        ensures
            r.token_type == token_type,
            r.content@ == content@,
    {
        Self { token_type, content }
    }
}

/// The kind of a punctuation symbol, if `c` is one.
fn punctuation_kind(c: char) -> (r: Option<TokenType>)
    ensures
        r == punct_kind(c),
{
    match c {
        '=' => Some(TokenType::Assign),
        ';' => Some(TokenType::Terminator),
        '(' => Some(TokenType::LParen),
        ')' => Some(TokenType::RParen),
        ',' => Some(TokenType::Comma),
        '{' => Some(TokenType::LCurly),
        '}' => Some(TokenType::RCurly),
        '+' => Some(TokenType::Plus),
        _ => None,
    }
}

/// A character scanner over one source text.
pub struct Lexer {
    pub input: String,
    /// The cursor, in characters.
    pub current_index: usize,
    /// The identifier-shaped lexeme in progress.
    pub current_buffer: String,
    /// The tokens emitted so far.
    pub tokens: Vec<Token>,
}

impl Lexer {
    pub fn new(input: String) -> (r: Self)
        ensures
            r.input@ == input@,
            r.current_index == 0,
            r.current_buffer@.len() == 0,
            r.tokens@.len() == 0,
    {
        Self { input, current_index: 0, current_buffer: String::new(), tokens: Vec::new() }
    }

    /// The character under the cursor.
    pub fn current_character(&self) -> (r: Result<char, SyntaxError>)
        ensures
            self.current_index < self.input@.len() ==> r == Ok::<char, SyntaxError>(
                self.input@[self.current_index as int],
            ),
            self.current_index >= self.input@.len() ==> r == Err::<char, SyntaxError>(
                SyntaxError::UnexpectedEndOfInput(self.current_index),
            ),
    {
        if self.current_index < self.input.as_str().unicode_len() {
            Ok(self.input.as_str().get_char(self.current_index))
        } else {
            Err(SyntaxError::UnexpectedEndOfInput(self.current_index))
        }
    }

    /// Flushes the pending lexeme as a keyword or identifier token.
    fn push_identifier(&mut self)
        ensures
            token_views(final(self).tokens@) == flush(
                old(self).current_buffer@,
                token_views(old(self).tokens@),
            ),
            final(self).current_buffer@.len() == 0,
            final(self).input == old(self).input,
            final(self).current_index == old(self).current_index,
    {
        if !self.current_buffer.as_str().is_empty() {
            let keyword = "thread".to_owned();
            proof {
                reveal_strlit("thread");
                assert(keyword@ =~= seq!['t', 'h', 'r', 'e', 'a', 'd']);
            }
            let token_type = if self.current_buffer == keyword {
                TokenType::KwThread
            } else {
                TokenType::Identifier
            };
            let content = self.current_buffer.clone();
            self.current_buffer = String::new();
            self.emit(Token::new(token_type, content));
        }
    }

    /// Appends one token to the output.
    fn emit(&mut self, token: Token)
        ensures
            token_views(final(self).tokens@) == token_views(old(self).tokens@).push(token@),
            final(self).current_buffer == old(self).current_buffer,
            final(self).input == old(self).input,
            final(self).current_index == old(self).current_index,
    {
        let ghost before = self.tokens@;
        let ghost v = token@;
        self.tokens.push(token);
        assert(token_views(self.tokens@) =~= token_views(before).push(v));
    }

    /// Scans the input from the cursor to its end, emitting tokens. The
    /// pending lexeme is flushed when the input ends.
    pub fn tokenize(&mut self) -> (r: Result<(), SyntaxError>)
        ensures
            final(self).input == old(self).input,
            match lex_from(
                old(self).input@,
                old(self).current_index as int,
                None,
                old(self).current_buffer@,
                token_views(old(self).tokens@),
            ) {
                Ok(ts) => r is Ok && token_views(final(self).tokens@) == ts
                    && final(self).current_buffer@.len() == 0,
                Err(q) => r == Err::<(), SyntaxError>(SyntaxError::UnterminatedLiteral(q as usize)),
            },
    {
        let n = self.input.as_str().unicode_len();
        let ghost s = self.input@;
        let ghost total = lex_from(
            s,
            self.current_index as int,
            None,
            self.current_buffer@,
            token_views(self.tokens@),
        );
        while self.current_index < n
            invariant
                self.input == old(self).input,
                self.input@ == s,
                n == s.len(),
                total == lex_from(
                    old(self).input@,
                    old(self).current_index as int,
                    None,
                    old(self).current_buffer@,
                    token_views(old(self).tokens@),
                ),
                lex_from(
                    s,
                    self.current_index as int,
                    None,
                    self.current_buffer@,
                    token_views(self.tokens@),
                ) == total,
            decreases n - self.current_index,
        {
            let i = self.current_index;
            let c = match self.current_character() {
                Ok(c) => c,
                Err(e) => return Err(e),
            };
            if c == '"' {
                self.push_identifier();
                assert(self.current_buffer@ =~= seq![]);
                let start = i;
                self.current_index = i + 1;
                loop
                    invariant
                        self.input == old(self).input,
                        self.input@ == s,
                        n == s.len(),
                        start < self.current_index <= n,
                        total == lex_from(
                            old(self).input@,
                            old(self).current_index as int,
                            None,
                            old(self).current_buffer@,
                            token_views(old(self).tokens@),
                        ),
                        lex_from(
                            s,
                            self.current_index as int,
                            Some(start as int),
                            self.current_buffer@,
                            token_views(self.tokens@),
                        ) == total,
                    ensures
                        self.current_index < n,
                        s[self.current_index as int] == '"',
                    decreases n - self.current_index,
                {
                    if self.current_index >= n {
                        assert(total == Err::<Seq<TokenView>, int>(start as int));
                        return Err(SyntaxError::UnterminatedLiteral(start));
                    }
                    let j = self.current_index;
                    let d = self.input.as_str().get_char(j);
                    if d == '"' {
                        break;
                    }
                    let piece = self.input.as_str().substring_char(j, j + 1);
                    let ghost buf = self.current_buffer@;
                    self.current_buffer.append(piece);
                    assert(self.current_buffer@ =~= buf.push(d));
                    self.current_index = j + 1;
                }
                let ghost buf = self.current_buffer@;
                let literal = self.current_buffer.clone();
                self.current_buffer = String::new();
                self.emit(Token::new(TokenType::String, literal));
                self.current_index = self.current_index + 1;
                assert(self.current_buffer@ =~= seq![]);
            } else if c == ' ' {
                self.push_identifier();
                self.current_index = i + 1;
                assert(self.current_buffer@ =~= seq![]);
            } else {
                match punctuation_kind(c) {
                    Some(kind) => {
                        self.push_identifier();
                        let text = self.input.as_str().substring_char(i, i + 1).to_owned();
                        assert(text@ =~= seq![c]);
                        self.emit(Token::new(kind, text));
                        self.current_index = i + 1;
                        assert(self.current_buffer@ =~= seq![]);
                    },
                    None => {
                        if c != '\n' && c != '\t' {
                            let piece = self.input.as_str().substring_char(i, i + 1);
                            let ghost buf = self.current_buffer@;
                            self.current_buffer.append(piece);
                            assert(self.current_buffer@ =~= buf.push(c));
                        }
                        self.current_index = i + 1;
                    },
                }
            }
        }
        self.push_identifier();
        Ok(())
    }

    /// The emitted tokens, with those of empty text purged.
    pub fn get_tokens(self) -> (r: Vec<Token>)
        ensures
            token_views(r@) == purge(token_views(self.tokens@)),
    {
        let ghost all = token_views(self.tokens@);
        let mut tokens: Vec<Token> = Vec::new();
        for token in it: self.tokens
            invariant
                all == token_views(it.seq()),
                token_views(tokens@) == purge(all.subrange(0, it.index() as int)),
        {
            let ghost k = it.index() as int;
            assert(all.subrange(0, k + 1).drop_last() =~= all.subrange(0, k));
            if !token.content.as_str().is_empty() {
                let ghost before = tokens@;
                let ghost v = token@;
                tokens.push(token);
                assert(token_views(tokens@) =~= token_views(before).push(v));
            }
        }
        assert(all.subrange(0, all.len() as int) =~= all);
        tokens
    }

    /// Tokenizes the whole input from a fresh start and returns the tokens,
    /// empty ones purged.
    pub fn parse_input(self) -> (r: Result<Vec<Token>, SyntaxError>)
        ensures
            match lex_from(
                self.input@,
                self.current_index as int,
                None,
                self.current_buffer@,
                token_views(self.tokens@),
            ) {
                Ok(ts) => r is Ok && token_views(r->Ok_0@) == purge(ts),
                Err(q) => r == Err::<Vec<Token>, SyntaxError>(SyntaxError::UnterminatedLiteral(q as usize)),
            },
    {
        let mut lexer = self;
        match lexer.tokenize() {
            Ok(()) => Ok(lexer.get_tokens()),
            Err(e) => Err(e),
        }
    }
}

} // verus!
