use vstd::prelude::*;
use vstd::std_specs::iter::IteratorSpec;

verus! {

broadcast use {vstd::string::axiom_spec_iter, vstd::string::next_postcondition};

/// A lexical token. Number tokens carry `N`: the tokenizer yields the
/// numeral's source text, and a caller maps it to the number type it uses.
#[derive(Debug, Clone, PartialEq)]
pub enum Token<N> {
    LParen,
    RParen,
    Quote,
    Dot,
    Nil,
    String(String),
    Symbol(String),
    Number(N),
    Boolean(bool),
}

/// Mathematical model of a token: text is a sequence of chars.
pub enum SpecToken<N> {
    LParen,
    RParen,
    Quote,
    Dot,
    Nil,
    String(Seq<char>),
    Symbol(Seq<char>),
    Number(N),
    Boolean(bool),
}

/// Why tokenizing failed.
#[derive(Debug, Clone, Copy, PartialEq, Eq)]
pub enum LexError {
    UnexpectedCharacter { ch: char, line: usize, column: usize },
    UnterminatedEscape,
    UnterminatedString,
}

impl<N> Token<N> {
    /// The model of a token whose number payload is left as it is.
    pub open spec fn model(self) -> SpecToken<N> {
        match self {
            Token::LParen => SpecToken::LParen,
            Token::RParen => SpecToken::RParen,
            Token::Quote => SpecToken::Quote,
            Token::Dot => SpecToken::Dot,
            Token::Nil => SpecToken::Nil,
            Token::String(s) => SpecToken::String(s@),
            Token::Symbol(s) => SpecToken::Symbol(s@),
            Token::Number(n) => SpecToken::Number(n),
            Token::Boolean(b) => SpecToken::Boolean(b),
        }
    }
}

/// The model of a token the tokenizer produced, numerals as char sequences.
pub open spec fn lexeme_model(t: Token<String>) -> SpecToken<Seq<char>> {
    match t {
        Token::Number(n) => SpecToken::Number(n@),
        _ => match t.model() {
            SpecToken::LParen => SpecToken::LParen,
            SpecToken::RParen => SpecToken::RParen,
            SpecToken::Quote => SpecToken::Quote,
            SpecToken::Dot => SpecToken::Dot,
            SpecToken::Nil => SpecToken::Nil,
            SpecToken::String(s) => SpecToken::String(s),
            SpecToken::Symbol(s) => SpecToken::Symbol(s),
            SpecToken::Boolean(b) => SpecToken::Boolean(b),
            SpecToken::Number(_) => SpecToken::Nil,
        },
    }
}

pub open spec fn lexeme_models(ts: Seq<Token<String>>) -> Seq<SpecToken<Seq<char>>> {
    ts.map_values(|t: Token<String>| lexeme_model(t))
}

/// Whether `c` has the Unicode `Alphabetic` property, as `char::is_alphabetic` reports it.
pub uninterp spec fn is_alphabetic_char(c: char) -> bool;

/// Calls `char::is_alphabetic`; the result is the Unicode `Alphabetic`
/// property of `c`, named `is_alphabetic_char` here. Among ASCII chars the
/// property holds of the letters and of nothing else.
#[verifier::external_body]
fn char_is_alphabetic(c: char) -> (r: bool)
    ensures
        r == is_alphabetic_char(c),
        ('a' <= c <= 'z' || 'A' <= c <= 'Z') ==> r,
        c < '\u{80}' && !('a' <= c <= 'z' || 'A' <= c <= 'Z') ==> !r,
{
    c.is_alphabetic()
}

/// Whether `ch` may start an identifier, given whether it is alphabetic.
pub fn starts_identifier(alphabetic: bool, ch: char) -> (r: bool)
    ensures
        r == (alphabetic || is_identifier_punct(ch)),
{
    alphabetic || match ch {
        '+' | '-' | '*' | '/' | '<' | '=' | '>' | '!' | '?' | ':' | '$' | '%' | '_' | '&' | '~'
        | '^' | '#' => true,
        _ => false,
    }
}

/// Calls `String::push`, which appends one char.
#[verifier::external_body]
fn string_push(s: &mut String, c: char)
    ensures
        final(s)@ == old(s)@.push(c),
{
    s.push(c)
}

pub open spec fn is_digit(c: char) -> bool {
    '0' <= c <= '9'
}

/// The punctuation that may start or continue an identifier.
pub open spec fn is_identifier_punct(c: char) -> bool {
    c == '+' || c == '-' || c == '*' || c == '/' || c == '<' || c == '=' || c == '>' || c == '!'
        || c == '?' || c == ':' || c == '$' || c == '%' || c == '_' || c == '&' || c == '~'
        || c == '^' || c == '#'
}

/// Whether `c` is alphabetic: among ASCII chars exactly the letters `a` to `z`
/// and `A` to `Z`; beyond ASCII, the Unicode `Alphabetic` property.
pub open spec fn is_letter(c: char) -> bool {
    let ascii = c < '\u{80}';
    if ascii {
        ('a' <= c <= 'z') || ('A' <= c <= 'Z')
    } else {
        is_alphabetic_char(c)
    }
}

pub open spec fn is_identifier_start_char(c: char) -> bool {
    is_letter(c) || is_identifier_punct(c)
}

pub open spec fn is_identifier_char_spec(c: char) -> bool {
    is_identifier_start_char(c) || is_digit(c)
}

/// Position, line and column after skipping a comment whose rest starts at `pos`:
/// everything up to and including the next newline.
pub open spec fn comment_end(cs: Seq<char>, pos: int, line: int, col: int) -> (int, int, int)
    decreases cs.len() - pos,
{
    if pos >= cs.len() || pos < 0 {
        (pos, line, col)
    } else if cs[pos] == '\n' {
        (pos + 1, line + 1, 1)
    } else {
        comment_end(cs, pos + 1, line, col + 1)
    }
}

/// The char a backslash escape stands for, when it is one of the known escapes.
pub open spec fn escaped_char(c: char) -> Option<char> {
    if c == 'n' {
        Some('\n')
    } else if c == 't' {
        Some('\t')
    } else if c == 'r' {
        Some('\r')
    } else if c == '"' {
        Some('"')
    } else if c == '\\' {
        Some('\\')
    } else {
        None
    }
}

/// Reading the body of a string literal from `pos` (just after the opening quote),
/// with `acc` read so far: the string, then position, line and column after the
/// closing quote.
pub open spec fn string_body(cs: Seq<char>, pos: int, line: int, col: int, acc: Seq<char>) -> Result<
    (Seq<char>, int, int, int),
    LexError,
>
    decreases cs.len() - pos,
{
    if pos >= cs.len() || pos < 0 {
        Err(LexError::UnterminatedString)
    } else {
        let ch = cs[pos];
        if ch == '"' {
            Ok((acc, pos + 1, line, col + 1))
        } else if ch == '\\' {
            if pos + 1 >= cs.len() {
                Err(LexError::UnterminatedEscape)
            } else {
                let next = cs[pos + 1];
                let acc2 = match escaped_char(next) {
                    Some(e) => acc.push(e),
                    None => acc.push('\\').push(next),
                };
                string_body(cs, pos + 2, line, col + 2, acc2)
            }
        } else if ch == '\n' {
            string_body(cs, pos + 1, line + 1, 1, acc.push('\n'))
        } else {
            string_body(cs, pos + 1, line, col + 1, acc.push(ch))
        }
    }
}

/// End of a numeral that continues at `pos`; `has_dot`: a dot was read,
/// `empty`: nothing was read yet.
pub open spec fn number_end(cs: Seq<char>, pos: int, has_dot: bool, empty: bool) -> int
    decreases cs.len() - pos,
{
    if pos >= cs.len() || pos < 0 {
        pos
    } else {
        let ch = cs[pos];
        if is_digit(ch) {
            number_end(cs, pos + 1, has_dot, false)
        } else if ch == '.' && !has_dot {
            number_end(cs, pos + 1, true, false)
        } else if ch == '-' && empty {
            number_end(cs, pos + 1, has_dot, false)
        } else {
            pos
        }
    }
}

/// End of the longest run of identifier chars from `pos`.
pub open spec fn identifier_end(cs: Seq<char>, pos: int) -> int
    decreases cs.len() - pos,
{
    if pos >= cs.len() || pos < 0 {
        pos
    } else if is_identifier_char_spec(cs[pos]) {
        identifier_end(cs, pos + 1)
    } else {
        pos
    }
}

/// The token an identifier spelled `word` stands for.
pub open spec fn word_token(word: Seq<char>) -> SpecToken<Seq<char>> {
    if word == seq!['#', 't'] {
        SpecToken::Boolean(true)
    } else if word == seq!['#', 'f'] {
        SpecToken::Boolean(false)
    } else if word == seq!['n', 'i', 'l'] {
        SpecToken::Nil
    } else {
        SpecToken::Symbol(word)
    }
}

pub proof fn lemma_comment_end_advances(cs: Seq<char>, pos: int, line: int, col: int)
    requires
        0 <= pos <= cs.len(),
    ensures
        pos <= comment_end(cs, pos, line, col).0 <= cs.len(),
    decreases cs.len() - pos,
{
    if pos < cs.len() && cs[pos] != '\n' {
        lemma_comment_end_advances(cs, pos + 1, line, col + 1);
    }
}

pub proof fn lemma_string_body_advances(
    cs: Seq<char>,
    pos: int,
    line: int,
    col: int,
    acc: Seq<char>,
)
    requires
        0 <= pos <= cs.len(),
    ensures
        string_body(cs, pos, line, col, acc) matches Ok((_, p, _, _)) ==> pos < p <= cs.len(),
    decreases cs.len() - pos,
{
    if pos < cs.len() {
        let ch = cs[pos];
        if ch == '\\' {
            if pos + 1 < cs.len() {
                let next = cs[pos + 1];
                let acc2 = match escaped_char(next) {
                    Some(e) => acc.push(e),
                    None => acc.push('\\').push(next),
                };
                lemma_string_body_advances(cs, pos + 2, line, col + 2, acc2);
            }
        } else if ch == '\n' {
            lemma_string_body_advances(cs, pos + 1, line + 1, 1, acc.push('\n'));
        } else if ch != '"' {
            lemma_string_body_advances(cs, pos + 1, line, col + 1, acc.push(ch));
        }
    }
}

pub proof fn lemma_number_end_bounds(cs: Seq<char>, pos: int, has_dot: bool, empty: bool)
    requires
        0 <= pos <= cs.len(),
    ensures
        pos <= number_end(cs, pos, has_dot, empty) <= cs.len(),
    decreases cs.len() - pos,
{
    if pos < cs.len() {
        let ch = cs[pos];
        if is_digit(ch) {
            lemma_number_end_bounds(cs, pos + 1, has_dot, false);
        } else if ch == '.' && !has_dot {
            lemma_number_end_bounds(cs, pos + 1, true, false);
        } else if ch == '-' && empty {
            lemma_number_end_bounds(cs, pos + 1, has_dot, false);
        }
    }
}

pub proof fn lemma_identifier_end_bounds(cs: Seq<char>, pos: int)
    requires
        0 <= pos <= cs.len(),
    ensures
        pos <= identifier_end(cs, pos) <= cs.len(),
    decreases cs.len() - pos,
{
    if pos < cs.len() && is_identifier_char_spec(cs[pos]) {
        lemma_identifier_end_bounds(cs, pos + 1);
    }
}

/// The tokens of `cs` from `pos` on, given the line and column there.
pub open spec fn lex_from(cs: Seq<char>, pos: int, line: int, col: int) -> Result<
    Seq<SpecToken<Seq<char>>>,
    LexError,
>
    decreases cs.len() - pos,
{
    if pos >= cs.len() || pos < 0 {
        Ok(Seq::empty())
    } else {
        let ch = cs[pos];
        if ch == ' ' || ch == '\t' || ch == '\r' {
            lex_from(cs, pos + 1, line, col + 1)
        } else if ch == '\n' {
            lex_from(cs, pos + 1, line + 1, 1)
        } else if ch == ';' {
            let (p, l, c) = comment_end(cs, pos + 1, line, col + 1);
            proof {
                lemma_comment_end_advances(cs, pos + 1, line, col + 1);
            }
            lex_from(cs, p, l, c)
        } else if ch == '(' {
            prepend_ok(seq![SpecToken::LParen], lex_from(cs, pos + 1, line, col + 1))
        } else if ch == ')' {
            prepend_ok(seq![SpecToken::RParen], lex_from(cs, pos + 1, line, col + 1))
        } else if ch == '\'' {
            prepend_ok(seq![SpecToken::Quote], lex_from(cs, pos + 1, line, col + 1))
        } else if ch == '.' {
            prepend_ok(seq![SpecToken::Dot], lex_from(cs, pos + 1, line, col + 1))
        } else if ch == '"' {
            match string_body(cs, pos + 1, line, col + 1, Seq::empty()) {
                Ok((s, p, l, c)) => {
                    proof {
                        lemma_string_body_advances(cs, pos + 1, line, col + 1, Seq::empty());
                    }
                    prepend_ok(seq![SpecToken::String(s)], lex_from(cs, p, l, c))
                },
                Err(e) => Err(e),
            }
        } else if is_digit(ch) || (ch == '-' && pos + 1 < cs.len() && is_digit(cs[pos + 1])) {
            let end = number_end(cs, pos, false, true);
            proof {
                lemma_number_end_bounds(cs, pos, false, true);
            }
            if end <= pos {
                Ok(Seq::empty())
            } else {
                prepend_ok(
                    seq![SpecToken::Number(cs.subrange(pos, end))],
                    lex_from(cs, end, line, col + (end - pos)),
                )
            }
        } else if is_identifier_start_char(ch) {
            let end = identifier_end(cs, pos);
            proof {
                lemma_identifier_end_bounds(cs, pos);
            }
            if end <= pos {
                Ok(Seq::empty())
            } else {
                prepend_ok(
                    seq![word_token(cs.subrange(pos, end))],
                    lex_from(cs, end, line, col + (end - pos)),
                )
            }
        } else {
            Err(
                LexError::UnexpectedCharacter {
                    ch: ch,
                    line: line as usize,
                    column: col as usize,
                },
            )
        }
    }
}

/// `front` followed by the tokens of a successful result; errors pass through.
pub open spec fn prepend_ok<T, E>(front: Seq<T>, r: Result<Seq<T>, E>) -> Result<Seq<T>, E> {
    match r {
        Ok(rest) => Ok(front + rest),
        Err(e) => Err(e),
    }
}

pub proof fn lemma_prepend_ok_assoc<T, E>(a: Seq<T>, b: Seq<T>, r: Result<Seq<T>, E>)
    ensures
        prepend_ok(a, prepend_ok(b, r)) == prepend_ok(a + b, r),
{
    if let Ok(rest) = r {
        assert(a + (b + rest) =~= (a + b) + rest);
    }
}

pub struct Tokenizer {
    chars: Vec<char>,
    pos: usize,
    current_line: usize,
    current_column: usize,
}

impl Tokenizer {
    pub closed spec fn input(&self) -> Seq<char> {
        self.chars@
    }

    pub closed spec fn position(&self) -> int {
        self.pos as int
    }

    pub closed spec fn line(&self) -> int {
        self.current_line as int
    }

    pub closed spec fn column(&self) -> int {
        self.current_column as int
    }

    /// Line and column never exceed the position by more than one, and the
    /// input is short enough that they never overflow.
    pub closed spec fn wf(&self) -> bool {
        &&& self.pos <= self.chars@.len()
        &&& self.chars@.len() < usize::MAX
        &&& 1 <= self.current_line <= self.pos + 1
        &&& 1 <= self.current_column <= self.pos + 1
    }

    pub fn new(input: &str) -> (t: Self)
        requires
            input@.len() < usize::MAX,
        ensures
            t.wf(),
            t.input() == input@,
            t.position() == 0,
            t.line() == 1,
            t.column() == 1,
    {
        let mut chars: Vec<char> = Vec::new();
        let mut it = input.chars();
        loop
            invariant
                chars@ + it.remaining() == input@,
                it.obeys_prophetic_iter_laws(),
                it.decrease() is Some,
            ensures
                chars@ == input@,
            decreases it.decrease()->0,
        {
            let ghost before = it.remaining();
            match it.next() {
                Some(c) => {
                    chars.push(c);
                    assert(chars@ + it.remaining() =~= input@) by {
                        assert(before == seq![c] + it.remaining());
                        assert(chars@ + it.remaining() =~= chars@.drop_last() + before);
                    }
                },
                None => {
                    assert(chars@ =~= input@);
                    break ;
                },
            }
        }
        Tokenizer { chars, pos: 0, current_line: 1, current_column: 1 }
    }

    /// Tokens of the rest of the input, from the current position on.
    pub fn tokenize(&mut self) -> (res: Result<Vec<Token<String>>, LexError>)
        requires
            old(self).wf(),
        ensures
            final(self).wf(),
            final(self).input() == old(self).input(),
            match lex_from(old(self).input(), old(self).position(), old(self).line(), old(self).column()) {
                Ok(ts) => res matches Ok(v) && lexeme_models(v@) == ts,
                Err(e) => res == Err::<Vec<Token<String>>, LexError>(e),
            },
    {
        let mut tokens: Vec<Token<String>> = Vec::new();
        let ghost cs = self.chars@;
        let ghost start = lex_from(cs, self.pos as int, self.current_line as int, self.current_column as int);
        assert(lexeme_models(tokens@) =~= Seq::<SpecToken<Seq<char>>>::empty());
        while self.pos < self.chars.len()
            invariant
                self.wf(),
                self.chars@ == cs,
                cs == old(self).chars@,
                start == lex_from(old(self).chars@, old(self).pos as int, old(self).current_line as int, old(self).current_column as int),
                start == prepend_ok(
                    lexeme_models(tokens@),
                    lex_from(cs, self.pos as int, self.current_line as int, self.current_column as int),
                ),
            decreases cs.len() - self.pos,
        {
            let ghost t0 = tokens@;
            let ch = self.chars[self.pos];
            if ch == ' ' || ch == '\t' || ch == '\r' {
                self.pos += 1;
                self.current_column += 1;
            } else if ch == '\n' {
                self.pos += 1;
                self.current_line += 1;
                self.current_column = 1;
            } else if ch == ';' {
                proof {
                    lemma_comment_end_advances(
                        cs,
                        self.pos as int + 1,
                        self.current_line as int,
                        self.current_column as int + 1,
                    );
                }
                self.skip_comment();
            } else if ch == '(' || ch == ')' || ch == '\'' || ch == '.' {
                let t = if ch == '(' {
                    Token::LParen
                } else if ch == ')' {
                    Token::RParen
                } else if ch == '\'' {
                    Token::Quote
                } else {
                    Token::Dot
                };
                tokens.push(t);
                self.pos += 1;
                self.current_column += 1;
                assert(lexeme_models(tokens@) =~= lexeme_models(t0) + seq![lexeme_model(t)]);
                proof {
                    lemma_prepend_ok_assoc(
                        lexeme_models(t0),
                        seq![lexeme_model(t)],
                        lex_from(cs, self.pos as int, self.current_line as int, self.current_column as int),
                    );
                }
            } else if ch == '"' {
                proof {
                    lemma_string_body_advances(
                        cs,
                        self.pos as int + 1,
                        self.current_line as int,
                        self.current_column as int + 1,
                        Seq::empty(),
                    );
                }
                let string = self.read_string()?;
                let t = Token::String(string);
                tokens.push(t);
                assert(lexeme_models(tokens@) =~= lexeme_models(t0) + seq![lexeme_model(t)]);
                proof {
                    lemma_prepend_ok_assoc(
                        lexeme_models(t0),
                        seq![lexeme_model(t)],
                        lex_from(cs, self.pos as int, self.current_line as int, self.current_column as int),
                    );
                }
            } else if ch >= '0' && ch <= '9' || (ch == '-' && self.peek_next_is_digit()) {
                let ghost p = self.pos as int;
                proof {
                    lemma_number_end_bounds(cs, p, false, true);
                    lemma_number_end_bounds(cs, p + 1, false, false);
                }
                let number = self.read_number();
                let t = Token::Number(number);
                tokens.push(t);
                assert(lexeme_models(tokens@) =~= lexeme_models(t0) + seq![lexeme_model(t)]);
                proof {
                    lemma_prepend_ok_assoc(
                        lexeme_models(t0),
                        seq![lexeme_model(t)],
                        lex_from(cs, self.pos as int, self.current_line as int, self.current_column as int),
                    );
                }
            } else if self.is_identifier_start(ch) {
                proof {
                    lemma_identifier_end_bounds(cs, self.pos as int + 1);
                }
                let ident = self.read_identifier();
                let t = if ident == "#t".to_owned() {
                    Token::Boolean(true)
                } else if ident == "#f".to_owned() {
                    Token::Boolean(false)
                } else if ident == "nil".to_owned() {
                    Token::Nil
                } else {
                    Token::Symbol(ident)
                };
                proof {
                    reveal_strlit("#t");
                    reveal_strlit("#f");
                    reveal_strlit("nil");
                    assert("#t"@ =~= seq!['#', 't']);
                    assert("#f"@ =~= seq!['#', 'f']);
                    assert("nil"@ =~= seq!['n', 'i', 'l']);
                    assert(lexeme_model(t) == word_token(ident@));
                }
                tokens.push(t);
                assert(lexeme_models(tokens@) =~= lexeme_models(t0) + seq![lexeme_model(t)]);
                proof {
                    lemma_prepend_ok_assoc(
                        lexeme_models(t0),
                        seq![lexeme_model(t)],
                        lex_from(cs, self.pos as int, self.current_line as int, self.current_column as int),
                    );
                }
            } else {
                return Err(
                    LexError::UnexpectedCharacter {
                        ch: ch,
                        line: self.current_line,
                        column: self.current_column,
                    },
                );
            }
        }
        assert(lex_from(cs, self.pos as int, self.current_line as int, self.current_column as int)
            == Ok::<Seq<SpecToken<Seq<char>>>, LexError>(Seq::empty()));
        assert(lexeme_models(tokens@) + Seq::<SpecToken<Seq<char>>>::empty() =~= lexeme_models(tokens@));
        Ok(tokens)
    }

    /// Skips a comment: every char up to and including the next newline.
    fn skip_comment(&mut self)
        requires
            old(self).wf(),
        ensures
            final(self).wf(),
            final(self).input() == old(self).input(),
            (final(self).position(), final(self).line(), final(self).column()) == comment_end(
                old(self).input(),
                old(self).position(),
                old(self).line(),
                old(self).column(),
            ),
    {
        let ghost cs = self.chars@;
        let ghost target = comment_end(cs, self.pos as int, self.current_line as int, self.current_column as int);
        while self.pos < self.chars.len()
            invariant
                self.wf(),
                self.chars@ == cs,
                cs == old(self).chars@,
                target == comment_end(old(self).chars@, old(self).pos as int, old(self).current_line as int, old(self).current_column as int),
                target == comment_end(cs, self.pos as int, self.current_line as int, self.current_column as int),
            decreases cs.len() - self.pos,
        {
            let ch = self.chars[self.pos];
            self.pos += 1;
            self.current_column += 1;
            if ch == '\n' {
                self.current_line += 1;
                self.current_column = 1;
                return ;
            }
        }
    }

    /// Reads a string literal that starts at the current position with a double quote.
    fn read_string(&mut self) -> (res: Result<String, LexError>)
        requires
            old(self).wf(),
            old(self).position() < old(self).input().len(),
            old(self).input()[old(self).position()] == '"',
        ensures
            final(self).wf(),
            final(self).input() == old(self).input(),
            match string_body(
                old(self).input(),
                old(self).position() + 1,
                old(self).line(),
                old(self).column() + 1,
                Seq::empty(),
            ) {
                Ok((s, p, l, c)) => res matches Ok(r) && r@ == s && final(self).position() == p
                    && final(self).line() == l && final(self).column() == c,
                Err(e) => res == Err::<String, LexError>(e),
            },
    {
        let ghost cs = self.chars@;
        let ghost target = string_body(
            cs,
            self.pos as int + 1,
            self.current_line as int,
            self.current_column as int + 1,
            Seq::empty(),
        );
        let mut result = String::new();
        self.pos += 1;
        self.current_column += 1;
        while self.pos < self.chars.len()
            invariant
                self.wf(),
                self.chars@ == cs,
                cs == old(self).chars@,
                target == string_body(old(self).chars@, old(self).pos as int + 1, old(self).current_line as int, old(self).current_column as int + 1, Seq::empty()),
                target == string_body(
                    cs,
                    self.pos as int,
                    self.current_line as int,
                    self.current_column as int,
                    result@,
                ),
            decreases cs.len() - self.pos,
        {
            let ch = self.chars[self.pos];
            self.pos += 1;
            self.current_column += 1;
            if ch == '"' {
                return Ok(result);
            } else if ch == '\\' {
                if self.pos < self.chars.len() {
                    let next_ch = self.chars[self.pos];
                    self.pos += 1;
                    self.current_column += 1;
                    if next_ch == 'n' {
                        string_push(&mut result, '\n');
                    } else if next_ch == 't' {
                        string_push(&mut result, '\t');
                    } else if next_ch == 'r' {
                        string_push(&mut result, '\r');
                    } else if next_ch == '"' {
                        string_push(&mut result, '"');
                    } else if next_ch == '\\' {
                        string_push(&mut result, '\\');
                    } else {
                        string_push(&mut result, '\\');
                        string_push(&mut result, next_ch);
                    }
                } else {
                    return Err(LexError::UnterminatedEscape);
                }
            } else if ch == '\n' {
                self.current_line += 1;
                self.current_column = 1;
                string_push(&mut result, ch);
            } else {
                string_push(&mut result, ch);
            }
        }
        Err(LexError::UnterminatedString)
    }

    /// Reads a numeral from the current position and returns its text.
    fn read_number(&mut self) -> (res: String)
        requires
            old(self).wf(),
        ensures
            final(self).wf(),
            final(self).input() == old(self).input(),
            final(self).position() == number_end(old(self).input(), old(self).position(), false, true),
            res@ == old(self).input().subrange(old(self).position(), final(self).position()),
            final(self).line() == old(self).line(),
            final(self).column() == old(self).column() + (final(self).position() - old(self).position()),
    {
        let ghost cs = self.chars@;
        let ghost p0 = self.pos as int;
        let ghost c0 = self.current_column as int;
        let start = self.pos;
        let mut buffer = String::new();
        let mut has_dot = false;
        proof {
            lemma_number_end_bounds(cs, p0, false, true);
        }
        while self.pos < self.chars.len()
            invariant
                self.wf(),
                self.chars@ == cs,
                p0 <= self.pos,
                start == p0,
                self.current_line == old(self).current_line,
                self.current_column == c0 + (self.pos - p0),
                buffer@ == cs.subrange(p0, self.pos as int),
                number_end(cs, p0, false, true) == number_end(cs, self.pos as int, has_dot, self.pos == p0),
            ensures
                self.wf(),
                self.chars@ == cs,
                p0 <= self.pos,
                self.current_line == old(self).current_line,
                self.current_column == c0 + (self.pos - p0),
                buffer@ == cs.subrange(p0, self.pos as int),
                number_end(cs, p0, false, true) == self.pos,
            decreases cs.len() - self.pos,
        {
            let ch = self.chars[self.pos];
            if ch >= '0' && ch <= '9' || (ch == '.' && !has_dot) || (ch == '-' && self.pos == start) {
                if ch == '.' {
                    has_dot = true;
                }
                string_push(&mut buffer, ch);
                self.pos += 1;
                self.current_column += 1;
                assert(buffer@ =~= cs.subrange(p0, self.pos as int));
            } else {
                break;
            }
        }
        buffer
    }

    /// Reads the longest run of identifier chars from the current position.
    fn read_identifier(&mut self) -> (res: String)
        requires
            old(self).wf(),
        ensures
            final(self).wf(),
            final(self).input() == old(self).input(),
            final(self).position() == identifier_end(old(self).input(), old(self).position()),
            res@ == old(self).input().subrange(old(self).position(), final(self).position()),
            final(self).line() == old(self).line(),
            final(self).column() == old(self).column() + (final(self).position() - old(self).position()),
    {
        let ghost cs = self.chars@;
        let ghost p0 = self.pos as int;
        let ghost c0 = self.current_column as int;
        let mut buffer = String::new();
        while self.pos < self.chars.len()
            invariant
                self.wf(),
                self.chars@ == cs,
                p0 == old(self).pos,
                p0 <= self.pos,
                self.current_line == old(self).current_line,
                self.current_column == c0 + (self.pos - p0),
                buffer@ == cs.subrange(p0, self.pos as int),
                identifier_end(cs, p0) == identifier_end(cs, self.pos as int),
            ensures
                self.wf(),
                self.chars@ == cs,
                p0 <= self.pos,
                self.current_line == old(self).current_line,
                self.current_column == c0 + (self.pos - p0),
                buffer@ == cs.subrange(p0, self.pos as int),
                identifier_end(cs, p0) == self.pos,
            decreases cs.len() - self.pos,
        {
            let ch = self.chars[self.pos];
            if self.is_identifier_char(ch) {
                let ghost b0 = buffer@;
                let ghost q = self.pos as int;
                string_push(&mut buffer, ch);
                self.pos += 1;
                self.current_column += 1;
                assert(cs.subrange(p0, q + 1) =~= cs.subrange(p0, q).push(cs[q]));
                assert(buffer@ =~= cs.subrange(p0, self.pos as int));
            } else {
                break;
            }
        }
        buffer
    }

    /// Whether the char after the current one is a decimal digit.
    fn peek_next_is_digit(&self) -> (r: bool)
        requires
            self.wf(),
        ensures
            r == (self.position() + 1 < self.input().len() && is_digit(self.input()[self.position() + 1])),
    {
        if self.pos + 1 < self.chars.len() {
            let ch = self.chars[self.pos + 1];
            ch >= '0' && ch <= '9'
        } else {
            false
        }
    }

    fn is_identifier_start(&self, ch: char) -> (r: bool)
        ensures
            r == is_identifier_start_char(ch),
    {
        starts_identifier(char_is_alphabetic(ch), ch)
    }

    fn is_identifier_char(&self, ch: char) -> (r: bool)
        ensures
            r == is_identifier_char_spec(ch),
    {
        self.is_identifier_start(ch) || (ch >= '0' && ch <= '9')
    }
}

/// The punctuation Lisp names such as `null?`, `<=` or `set-car!` are made of.
pub open spec fn name_punctuation() -> Seq<char> {
    seq!['+', '-', '*', '/', '<', '=', '>', '!', '?', ':', '$', '%', '_', '&', '~', '^', '#']
}

/// An ASCII letter, a digit, or a char of `name_punctuation()`.
pub open spec fn plain_name_char(c: char) -> bool {
    ('a' <= c <= 'z') || ('A' <= c <= 'Z') || ('0' <= c <= '9') || name_punctuation().contains(c)
}

proof fn lemma_plain_name_char(c: char)
    requires
        plain_name_char(c),
    ensures
        is_identifier_char_spec(c),
        !('0' <= c <= '9') ==> is_identifier_start_char(c),
        c != ' ' && c != '\t' && c != '\r' && c != '\n' && c != ';' && c != '(' && c != ')' && c != '\''
            && c != '.' && c != '"',
{
    if name_punctuation().contains(c) {
        let i = choose|i: int| 0 <= i < name_punctuation().len() && name_punctuation()[i] == c;
        assert(is_identifier_punct(c)) by {
            assert(0 <= i < 17);
            if i == 0 {} else if i == 1 {} else if i == 2 {} else if i == 3 {} else if i == 4 {}
            else if i == 5 {} else if i == 6 {} else if i == 7 {} else if i == 8 {} else if i == 9 {}
            else if i == 10 {} else if i == 11 {} else if i == 12 {} else if i == 13 {} else if i == 14 {}
            else if i == 15 {} else {}
        }
    }
}

proof fn lemma_identifier_end_all(cs: Seq<char>, pos: int)
    requires
        0 <= pos <= cs.len(),
        forall|i: int| 0 <= i < cs.len() ==> is_identifier_char_spec(#[trigger] cs[i]),
    ensures
        identifier_end(cs, pos) == cs.len(),
    decreases cs.len() - pos,
{
    if pos < cs.len() {
        lemma_identifier_end_all(cs, pos + 1);
    }
}

/// Every char of `name_punctuation()` may start a name and continue one.
pub proof fn law_name_punctuation(c: char)
    requires
        name_punctuation().contains(c),
    ensures
        is_identifier_start_char(c),
        is_identifier_char_spec(c),
{
    lemma_plain_name_char(c);
}

/// A word of ASCII letters, digits and name punctuation that does not start
/// like a number reads as exactly one token: `#t`, `#f` and `nil` as the
/// constants they name, any other word as the symbol of that name.
pub proof fn law_word_reads_as_one_token(cs: Seq<char>, line: int, col: int)
    requires
        cs.len() > 0,
        forall|i: int| 0 <= i < cs.len() ==> plain_name_char(#[trigger] cs[i]),
        !('0' <= cs[0] <= '9'),
        !(cs[0] == '-' && cs.len() > 1 && '0' <= cs[1] <= '9'),
    ensures
        lex_from(cs, 0, line, col) == Ok::<Seq<SpecToken<Seq<char>>>, LexError>(seq![word_token(cs)]),
{
    assert forall|i: int| 0 <= i < cs.len() implies is_identifier_char_spec(#[trigger] cs[i]) by {
        lemma_plain_name_char(cs[i]);
    }
    lemma_plain_name_char(cs[0]);
    lemma_identifier_end_all(cs, 0);
    assert(cs.subrange(0, cs.len() as int) =~= cs);
    assert(lex_from(cs, cs.len() as int, line, col + cs.len()) == Ok::<Seq<SpecToken<Seq<char>>>, LexError>(
        Seq::empty(),
    ));
    assert(seq![word_token(cs)] + Seq::<SpecToken<Seq<char>>>::empty() =~= seq![word_token(cs)]);
}

proof fn lemma_number_end_all(cs: Seq<char>, pos: int, has_dot: bool)
    requires
        1 <= pos <= cs.len(),
        forall|i: int| pos <= i < cs.len() ==> ('0' <= #[trigger] cs[i] <= '9') || cs[i] == '.',
        forall|i: int, j: int| pos <= i < j < cs.len() ==> !(#[trigger] cs[i] == '.' && #[trigger] cs[j] == '.'),
        has_dot ==> forall|i: int| pos <= i < cs.len() ==> #[trigger] cs[i] != '.',
    ensures
        number_end(cs, pos, has_dot, false) == cs.len(),
    decreases cs.len() - pos,
{
    if pos < cs.len() {
        if cs[pos] == '.' {
            assert forall|i: int| pos + 1 <= i < cs.len() implies #[trigger] cs[i] != '.' by {
                if cs[i] == '.' {
                    assert(!(cs[pos] == '.' && cs[i] == '.'));
                }
            }
            lemma_number_end_all(cs, pos + 1, true);
        } else {
            lemma_number_end_all(cs, pos + 1, has_dot);
        }
    }
}

/// A numeral reads as exactly one number token holding its text: digits with
/// at most one dot, after an optional leading minus, starting with a digit.
pub proof fn law_numeral_reads_as_one_token(cs: Seq<char>, line: int, col: int)
    requires
        cs.len() > 0,
        ('0' <= cs[0] <= '9') || (cs[0] == '-' && cs.len() > 1 && '0' <= cs[1] <= '9'),
        forall|i: int| 1 <= i < cs.len() ==> ('0' <= #[trigger] cs[i] <= '9') || cs[i] == '.',
        forall|i: int, j: int| 1 <= i < j < cs.len() ==> !(#[trigger] cs[i] == '.' && #[trigger] cs[j] == '.'),
    ensures
        lex_from(cs, 0, line, col) == Ok::<Seq<SpecToken<Seq<char>>>, LexError>(seq![SpecToken::Number(cs)]),
{
    lemma_number_end_all(cs, 1, false);
    assert(number_end(cs, 0, false, true) == number_end(cs, 1, false, false));
    assert(cs.subrange(0, cs.len() as int) =~= cs);
    assert(lex_from(cs, cs.len() as int, line, col + cs.len()) == Ok::<Seq<SpecToken<Seq<char>>>, LexError>(
        Seq::empty(),
    ));
    assert(seq![SpecToken::Number(cs)] + Seq::<SpecToken<Seq<char>>>::empty() =~= seq![SpecToken::<Seq<char>>::Number(cs)]);
}

proof fn lemma_plain_string_body(cs: Seq<char>, pos: int, line: int, col: int, acc: Seq<char>)
    requires
        1 <= pos <= cs.len() - 1,
        cs[cs.len() - 1] == '"',
        forall|i: int| 1 <= i < cs.len() - 1 ==> #[trigger] cs[i] != '"' && cs[i] != '\\',
    ensures
        string_body(cs, pos, line, col, acc) matches Ok((body, end, _, _)) && body == acc + cs.subrange(
            pos,
            cs.len() - 1,
        ) && end == cs.len(),
    decreases cs.len() - pos,
{
    if pos == cs.len() - 1 {
        assert(cs.subrange(pos, cs.len() - 1) =~= Seq::<char>::empty());
        assert(acc + Seq::<char>::empty() =~= acc);
    } else {
        let ch = cs[pos];
        assert(ch != '"' && ch != '\\');
        if ch == '\n' {
            lemma_plain_string_body(cs, pos + 1, line + 1, 1, acc.push('\n'));
        } else {
            lemma_plain_string_body(cs, pos + 1, line, col + 1, acc.push(ch));
        }
        assert(acc.push(ch) + cs.subrange(pos + 1, cs.len() - 1) =~= acc + cs.subrange(pos, cs.len() - 1));
    }
}

/// A string literal without quotes or backslashes inside reads as exactly one
/// string token holding the text between the quotes, newlines included.
pub proof fn law_plain_string_reads_as_one_token(cs: Seq<char>, line: int, col: int)
    requires
        cs.len() >= 2,
        cs[0] == '"',
        cs[cs.len() - 1] == '"',
        forall|i: int| 1 <= i < cs.len() - 1 ==> #[trigger] cs[i] != '"' && cs[i] != '\\',
    ensures
        lex_from(cs, 0, line, col) == Ok::<Seq<SpecToken<Seq<char>>>, LexError>(
            seq![SpecToken::String(cs.subrange(1, cs.len() - 1))],
        ),
{
    lemma_plain_string_body(cs, 1, line, col + 1, Seq::empty());
    assert(Seq::<char>::empty() + cs.subrange(1, cs.len() - 1) =~= cs.subrange(1, cs.len() - 1));
    let r = string_body(cs, 1, line, col + 1, Seq::empty());
    if let Ok((body, end, l, c)) = r {
        assert(lex_from(cs, end, l, c) == Ok::<Seq<SpecToken<Seq<char>>>, LexError>(Seq::empty()));
        assert(seq![SpecToken::String(body)] + Seq::<SpecToken<Seq<char>>>::empty() =~= seq![
            SpecToken::<Seq<char>>::String(body),
        ]);
    }
}

/// A backslash and the char `x` inside a string literal: `\n`, `\t`, `\r`,
/// `\"` and `\\` read as a newline, a tab, a carriage return, a quote and a
/// backslash; after any other char the backslash stays, followed by `x`.
pub proof fn law_string_escape(x: char, line: int, col: int)
    ensures
        ({
            let cs = seq!['"', '\\', x, '"'];
            let text = if x == 'n' {
                seq!['\n']
            } else if x == 't' {
                seq!['\t']
            } else if x == 'r' {
                seq!['\r']
            } else if x == '"' {
                seq!['"']
            } else if x == '\\' {
                seq!['\\']
            } else {
                seq!['\\', x]
            };
            lex_from(cs, 0, line, col) == Ok::<Seq<SpecToken<Seq<char>>>, LexError>(seq![SpecToken::String(text)])
        }),
{
    let cs = seq!['"', '\\', x, '"'];
    let acc = match escaped_char(x) {
        Some(e) => Seq::<char>::empty().push(e),
        None => Seq::<char>::empty().push('\\').push(x),
    };
    assert(string_body(cs, 3, line, col + 3, acc) == Ok::<(Seq<char>, int, int, int), LexError>((acc, 4, line, col + 4)));
    assert(string_body(cs, 1, line, col + 1, Seq::empty()) == string_body(cs, 3, line, col + 3, acc));
    assert(lex_from(cs, 4, line, col + 4) == Ok::<Seq<SpecToken<Seq<char>>>, LexError>(Seq::empty()));
    assert(seq![SpecToken::String(acc)] + Seq::<SpecToken<Seq<char>>>::empty() =~= seq![SpecToken::<Seq<char>>::String(acc)]);
    assert(Seq::<char>::empty().push('\\').push(x) =~= seq!['\\', x]);
    if let Some(e) = escaped_char(x) {
        assert(Seq::<char>::empty().push(e) =~= seq![e]);
    }
}

} // verus!
