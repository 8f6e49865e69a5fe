use vstd::prelude::*;
use std::rc::Rc;
use crate::lexer::{SpecToken, Token};
use crate::value::{Term, Value};

verus! {

/// A token that `expect_token` may require.
#[derive(Debug, Clone, Copy, PartialEq, Eq)]
pub enum Delimiter {
    LParen,
    RParen,
    Quote,
}

/// Why parsing failed; token positions index the parser's token list.
#[derive(Debug, Clone, Copy, PartialEq, Eq)]
pub enum ParseError {
    UnexpectedToken { position: usize },
    UnexpectedEndOfInput,
    UnclosedParenthesis,
    ExpectedToken { expected: Delimiter, found: Option<usize> },
}

pub open spec fn quote_name() -> Seq<char> {
    seq!['q', 'u', 'o', 't', 'e']
}

pub open spec fn is_delimiter<N>(t: SpecToken<N>, d: Delimiter) -> bool {
    match d {
        Delimiter::LParen => t is LParen,
        Delimiter::RParen => t is RParen,
        Delimiter::Quote => t is Quote,
    }
}

/// Reads one expression at `pos`: the expression and the position after it.
pub open spec fn read_expr_spec<N, F>(ts: Seq<SpecToken<N>>, pos: int) -> Result<
    (Term<N, F>, int),
    ParseError,
>
    decreases ts.len() - pos, 1int,
{
    if pos < 0 || pos >= ts.len() {
        Err(ParseError::UnexpectedEndOfInput)
    } else {
        match ts[pos] {
            SpecToken::LParen => {
                if pos + 1 < ts.len() && ts[pos + 1] is RParen {
                    Ok((Term::Nil, pos + 2))
                } else {
                    match read_expr_spec::<N, F>(ts, pos + 1) {
                        Ok((first, e)) => if e > pos + 1 && e <= ts.len() {
                            read_list_tail_spec(ts, e, first)
                        } else {
                            Err(ParseError::UnexpectedEndOfInput)
                        },
                        Err(err) => Err(err),
                    }
                }
            },
            SpecToken::Quote => match read_expr_spec::<N, F>(ts, pos + 1) {
                Ok((q, e)) => Ok(
                    (
                        Term::Pair(
                            Box::new(Term::Symbol(quote_name())),
                            Box::new(Term::Pair(Box::new(q), Box::new(Term::Nil))),
                        ),
                        e,
                    ),
                ),
                Err(err) => Err(err),
            },
            SpecToken::Number(n) => Ok((Term::Number(n), pos + 1)),
            SpecToken::String(s) => Ok((Term::Str(s), pos + 1)),
            SpecToken::Symbol(s) => Ok((Term::Symbol(s), pos + 1)),
            SpecToken::Boolean(b) => Ok((Term::Bool(b), pos + 1)),
            SpecToken::Nil => Ok((Term::Nil, pos + 1)),
            _ => Err(ParseError::UnexpectedToken { position: pos as usize }),
        }
    }
}

/// Reads the rest of a list whose element `first` was just read; `pos` is
/// the position after it.
pub open spec fn read_list_tail_spec<N, F>(ts: Seq<SpecToken<N>>, pos: int, first: Term<N, F>) -> Result<
    (Term<N, F>, int),
    ParseError,
>
    decreases ts.len() - pos, 2int,
{
    if pos < 0 || pos >= ts.len() {
        Err(ParseError::UnclosedParenthesis)
    } else {
        match ts[pos] {
            SpecToken::RParen => Ok((Term::Pair(Box::new(first), Box::new(Term::Nil)), pos + 1)),
            SpecToken::Dot => match read_expr_spec::<N, F>(ts, pos + 1) {
                Ok((cdr, e)) => if e < ts.len() && e >= 0 && ts[e] is RParen {
                    Ok((Term::Pair(Box::new(first), Box::new(cdr)), e + 1))
                } else {
                    Err(
                        ParseError::ExpectedToken {
                            expected: Delimiter::RParen,
                            found: if e < ts.len() && e >= 0 {
                                Some(e as usize)
                            } else {
                                None
                            },
                        },
                    )
                },
                Err(err) => Err(err),
            },
            _ => match read_expr_spec::<N, F>(ts, pos) {
                Ok((next, e)) => if e > pos && e <= ts.len() {
                    match read_list_tail_spec(ts, e, next) {
                        Ok((rest, e2)) => Ok((Term::Pair(Box::new(first), Box::new(rest)), e2)),
                        Err(err) => Err(err),
                    }
                } else {
                    Err(ParseError::UnclosedParenthesis)
                },
                Err(err) => Err(err),
            },
        }
    }
}

/// Reads expressions from `pos` until the tokens run out.
pub open spec fn parse_from<N, F>(ts: Seq<SpecToken<N>>, pos: int) -> Result<Seq<Term<N, F>>, ParseError>
    decreases ts.len() - pos,
{
    if pos < 0 || pos >= ts.len() {
        Ok(Seq::empty())
    } else {
        match read_expr_spec::<N, F>(ts, pos) {
            Ok((t, e)) => if e > pos && e <= ts.len() {
                match parse_from::<N, F>(ts, e) {
                    Ok(rest) => Ok(seq![t] + rest),
                    Err(err) => Err(err),
                }
            } else {
                Err(ParseError::UnexpectedEndOfInput)
            },
            Err(err) => Err(err),
        }
    }
}

pub open spec fn token_models<N>(ts: Seq<Token<N>>) -> Seq<SpecToken<N>> {
    ts.map_values(|t: Token<N>| t.model())
}

impl<N: Copy> Token<N> {
    /// A copy of this token.
    pub fn duplicate(&self) -> (r: Token<N>)
        ensures
            r.model() == self.model(),
    {
        match self {
            Token::LParen => Token::LParen,
            Token::RParen => Token::RParen,
            Token::Quote => Token::Quote,
            Token::Dot => Token::Dot,
            Token::Nil => Token::Nil,
            Token::String(s) => Token::String(s.clone()),
            Token::Symbol(s) => Token::Symbol(s.clone()),
            Token::Number(n) => Token::Number(*n),
            Token::Boolean(b) => Token::Boolean(*b),
        }
    }
}

/// Reads expressions from a token list.
pub struct Parser<N> {
    tokens: Vec<Token<N>>,
    position: usize,
}

impl<N: Copy> Parser<N> {
    pub closed spec fn tokens(&self) -> Seq<SpecToken<N>> {
        token_models(self.tokens@)
    }

    pub closed spec fn pos(&self) -> int {
        self.position as int
    }

    pub fn new(tokens: Vec<Token<N>>) -> (p: Self)
        ensures
            p.tokens() == token_models(tokens@),
            p.pos() == 0,
    {
        Parser { tokens, position: 0 }
    }

    /// All expressions of the remaining tokens.
    pub fn parse<F, M>(&mut self) -> (res: Result<Vec<Rc<Value<N, F, M>>>, ParseError>)
        requires
            old(self).pos() <= old(self).tokens().len(),
        ensures
            final(self).tokens() == old(self).tokens(),
            match parse_from::<N, F>(old(self).tokens(), old(self).pos()) {
                Ok(ts) => res matches Ok(v) && crate::value::model_seq(v@) == ts,
                Err(e) => res == Err::<Vec<Rc<Value<N, F, M>>>, ParseError>(e),
            },
    {
        let ghost ts = self.tokens();
        let ghost start = parse_from::<N, F>(ts, self.position as int);
        let mut expressions: Vec<Rc<Value<N, F, M>>> = Vec::new();
        assert(crate::value::model_seq(expressions@) =~= Seq::<Term<N, F>>::empty());
        while self.position < self.tokens.len()
            invariant
                self.tokens() == ts,
                ts == old(self).tokens(),
                start == parse_from::<N, F>(old(self).tokens(), old(self).pos()),
                self.position <= self.tokens@.len(),
                start == match parse_from::<N, F>(ts, self.position as int) {
                    Ok(rest) => Ok(crate::value::model_seq(expressions@) + rest),
                    Err(e) => Err(e),
                },
            decreases self.tokens@.len() - self.position,
        {
            let ghost p = self.position as int;
            let ghost before = expressions@;
            let e = self.read_expr()?;
            expressions.push(e);
            proof {
                crate::value::lemma_model_seq_push(before, expressions@.last());
                assert(before.push(expressions@.last()) =~= expressions@);
                match parse_from::<N, F>(ts, self.position as int) {
                    Ok(rest) => {
                        assert(crate::value::model_seq(before) + (seq![model_last(expressions@)] + rest)
                            =~= crate::value::model_seq(expressions@) + rest);
                    },
                    Err(_) => {},
                }
            }
        }
        assert(crate::value::model_seq(expressions@) + Seq::<Term<N, F>>::empty()
            =~= crate::value::model_seq(expressions@));
        Ok(expressions)
    }

    fn read_expr<F, M>(&mut self) -> (res: Result<Rc<Value<N, F, M>>, ParseError>)
        requires
            old(self).pos() <= old(self).tokens().len(),
        ensures
            final(self).tokens() == old(self).tokens(),
            final(self).pos() <= final(self).tokens().len(),
            match read_expr_spec::<N, F>(old(self).tokens(), old(self).pos()) {
                Ok((t, e)) => res matches Ok(v) && v@ == t && final(self).pos() == e && e
                    > old(self).pos(),
                Err(err) => res == Err::<Rc<Value<N, F, M>>, ParseError>(err),
            },
        decreases old(self).tokens().len() - old(self).pos(), 1int,
    {
        if self.position >= self.tokens.len() {
            return Err(ParseError::UnexpectedEndOfInput);
        }
        let ghost ts = self.tokens();
        assert(ts[self.position as int] == self.tokens@[self.position as int].model());
        match &self.tokens[self.position] {
            Token::LParen => self.read_list(),
            Token::Quote => self.read_quote(),
            Token::Number(n) => {
                let n = *n;
                self.position += 1;
                Ok(Value::number(n))
            },
            Token::String(s) => {
                let v = Value::string(s.as_str());
                self.position += 1;
                Ok(v)
            },
            Token::Symbol(s) => {
                let v = Value::symbol(s.as_str());
                self.position += 1;
                Ok(v)
            },
            Token::Boolean(b) => {
                let b = *b;
                self.position += 1;
                Ok(Value::bool(b))
            },
            Token::Nil => {
                self.position += 1;
                Ok(Rc::new(Value::Nil))
            },
            _ => Err(ParseError::UnexpectedToken { position: self.position }),
        }
    }

    fn read_list<F, M>(&mut self) -> (res: Result<Rc<Value<N, F, M>>, ParseError>)
        requires
            old(self).pos() < old(self).tokens().len(),
            old(self).tokens()[old(self).pos()] is LParen,
        ensures
            final(self).tokens() == old(self).tokens(),
            final(self).pos() <= final(self).tokens().len(),
            match read_expr_spec::<N, F>(old(self).tokens(), old(self).pos()) {
                Ok((t, e)) => res matches Ok(v) && v@ == t && final(self).pos() == e && e
                    > old(self).pos(),
                Err(err) => res == Err::<Rc<Value<N, F, M>>, ParseError>(err),
            },
        decreases old(self).tokens().len() - old(self).pos(), 0int,
    {
        let ghost ts = self.tokens();
        self.expect_token(Delimiter::LParen)?;
        if self.position < self.tokens.len() {
            assert(ts[self.position as int] == self.tokens@[self.position as int].model());
            if let Token::RParen = &self.tokens[self.position] {
                self.position += 1;
                return Ok(Value::nil());
            }
        }
        let first = self.read_expr()?;
        self.read_list_tail(first)
    }

    fn read_list_tail<F, M>(&mut self, first: Rc<Value<N, F, M>>) -> (res: Result<
        Rc<Value<N, F, M>>,
        ParseError,
    >)
        requires
            old(self).pos() <= old(self).tokens().len(),
        ensures
            final(self).tokens() == old(self).tokens(),
            final(self).pos() <= final(self).tokens().len(),
            match read_list_tail_spec::<N, F>(old(self).tokens(), old(self).pos(), first@) {
                Ok((t, e)) => res matches Ok(v) && v@ == t && final(self).pos() == e && e
                    > old(self).pos(),
                Err(err) => res == Err::<Rc<Value<N, F, M>>, ParseError>(err),
            },
        decreases old(self).tokens().len() - old(self).pos(), 2int,
    {
        if self.position >= self.tokens.len() {
            return Err(ParseError::UnclosedParenthesis);
        }
        let ghost ts = self.tokens();
        assert(ts[self.position as int] == self.tokens@[self.position as int].model());
        match &self.tokens[self.position] {
            Token::RParen => {
                self.position += 1;
                Ok(Value::cons(first, Value::nil()))
            },
            Token::Dot => {
                self.position += 1;
                let cdr = self.read_expr()?;
                self.expect_token(Delimiter::RParen)?;
                Ok(Value::cons(first, cdr))
            },
            _ => {
                let next = self.read_expr()?;
                let rest = self.read_list_tail(next)?;
                Ok(Value::cons(first, rest))
            },
        }
    }

    fn read_quote<F, M>(&mut self) -> (res: Result<Rc<Value<N, F, M>>, ParseError>)
        requires
            old(self).pos() < old(self).tokens().len(),
            old(self).tokens()[old(self).pos()] is Quote,
        ensures
            final(self).tokens() == old(self).tokens(),
            final(self).pos() <= final(self).tokens().len(),
            match read_expr_spec::<N, F>(old(self).tokens(), old(self).pos()) {
                Ok((t, e)) => res matches Ok(v) && v@ == t && final(self).pos() == e && e
                    > old(self).pos(),
                Err(err) => res == Err::<Rc<Value<N, F, M>>, ParseError>(err),
            },
        decreases old(self).tokens().len() - old(self).pos(), 0int,
    {
        self.expect_token(Delimiter::Quote)?;
        let quoted_expr = self.read_expr()?;
        proof {
            reveal_strlit("quote");
            assert("quote"@ =~= quote_name());
        }
        Ok(Value::cons(Value::symbol("quote"), Value::cons(quoted_expr, Value::nil())))
    }

    /// The token at the current position, if any.
    fn peek_token(&self) -> (r: Option<Token<N>>)
        ensures
            self.pos() < self.tokens().len() ==> (r matches Some(t) && t.model()
                == self.tokens()[self.pos()]),
            self.pos() >= self.tokens().len() ==> r is None,
    {
        if self.position < self.tokens.len() {
            Some(self.tokens[self.position].duplicate())
        } else {
            None
        }
    }

    /// Consumes and returns the token at the current position, if any.
    fn next_token(&mut self) -> (r: Option<Token<N>>)
        ensures
            final(self).tokens() == old(self).tokens(),
            old(self).pos() < old(self).tokens().len() ==> (r matches Some(t) && t.model()
                == old(self).tokens()[old(self).pos()] && final(self).pos() == old(self).pos() + 1),
            old(self).pos() >= old(self).tokens().len() ==> (r is None && final(self).pos()
                == old(self).pos()),
    {
        if self.position < self.tokens.len() {
            let token = self.tokens[self.position].duplicate();
            self.position += 1;
            Some(token)
        } else {
            None
        }
    }

    /// Consumes the next token, which must be `expected`.
    fn expect_token(&mut self, expected: Delimiter) -> (res: Result<(), ParseError>)
        requires
            old(self).pos() <= old(self).tokens().len(),
        ensures
            final(self).tokens() == old(self).tokens(),
            final(self).pos() <= final(self).tokens().len(),
            old(self).pos() < old(self).tokens().len() && is_delimiter(
                old(self).tokens()[old(self).pos()],
                expected,
            ) ==> res is Ok && final(self).pos() == old(self).pos() + 1,
            old(self).pos() < old(self).tokens().len() && !is_delimiter(
                old(self).tokens()[old(self).pos()],
                expected,
            ) ==> res == Err::<(), ParseError>(
                ParseError::ExpectedToken { expected, found: Some(old(self).position) },
            ),
            old(self).pos() >= old(self).tokens().len() ==> res == Err::<(), ParseError>(
                ParseError::ExpectedToken { expected, found: None },
            ),
    {
        let at = self.position;
        if let Some(token) = self.next_token() {
            let matched = match (&token, expected) {
                (Token::LParen, Delimiter::LParen) => true,
                (Token::RParen, Delimiter::RParen) => true,
                (Token::Quote, Delimiter::Quote) => true,
                _ => false,
            };
            if matched {
                Ok(())
            } else {
                Err(ParseError::ExpectedToken { expected, found: Some(at) })
            }
        } else {
            Err(ParseError::ExpectedToken { expected, found: None })
        }
    }
}

pub open spec fn model_last<N, F, M>(s: Seq<Rc<Value<N, F, M>>>) -> Term<N, F> {
    crate::value::model(*s.last())
}

} // verus!
