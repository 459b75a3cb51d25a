//! A recursive-descent parser from the token stream to the query AST.
use vstd::prelude::*;
use vstd::string::StringExecFns;

use crate::common::PBaseError;
use crate::lexer::Token;
use crate::query::{Query, SelectQuery};

verus! {

/// Whether two tokens read the same.
pub open spec fn spec_token_eq(a: Token, b: Token) -> bool {
    match (a, b) {
        (Token::Select, Token::Select) => true,
        (Token::From, Token::From) => true,
        (Token::Join, Token::Join) => true,
        (Token::Comma, Token::Comma) => true,
        (Token::And, Token::And) => true,
        (Token::Dot, Token::Dot) => true,
        (Token::Identifier(x), Token::Identifier(y)) => x@ == y@,
        (Token::Op(x), Token::Op(y)) => x == y,
        (Token::Int(x), Token::Int(y)) => x == y,
        _ => false,
    }
}

fn token_eq(a: &Token, b: &Token) -> (r: bool)
    ensures
        r == spec_token_eq(*a, *b),
{
    match (a, b) {
        (Token::Select, Token::Select) => true,
        (Token::From, Token::From) => true,
        (Token::Join, Token::Join) => true,
        (Token::Comma, Token::Comma) => true,
        (Token::And, Token::And) => true,
        (Token::Dot, Token::Dot) => true,
        (Token::Identifier(x), Token::Identifier(y)) => crate::common::str_eq(
            x.as_str(),
            y.as_str(),
        ),
        (Token::Op(x), Token::Op(y)) => crate::query_tools::ord_eq(*x, *y),
        (Token::Int(x), Token::Int(y)) => x == y,
        _ => false,
    }
}

/// Walks a token stream once, left to right.
pub struct Parser<'a> {
    __tokens: &'a [Token],
    i: usize,
}

impl<'a> Parser<'a> {
    /// The cursor never runs past the stream.
    pub closed spec fn wf(self) -> bool {
        self.i <= self.__tokens@.len()
    }

    pub fn new(__tokens: &'a [Token]) -> (p: Parser<'a>)
        ensures
            p.wf(),
    {
        Parser { __tokens, i: 0 }
    }

    /// The tokens not yet consumed.
    fn tokens(&self) -> (r: &[Token])
        requires
            self.wf(),
    {
        vstd::slice::slice_subrange(self.__tokens, self.i, self.__tokens.len())
    }

    fn advance(&mut self)
        requires
            old(self).wf(),
            !old(self).at_end(),
        ensures
            final(self).wf(),
    {
        let _n: usize = self.__tokens.len();
        self.i = self.i + 1;
    }

    /// Whether every token has been consumed.
    pub closed spec fn at_end(self) -> bool {
        self.i >= self.__tokens@.len()
    }

    fn head(&self) -> (r: Option<&Token>)
        requires
            self.wf(),
        ensures
            r is Some <==> !self.at_end(),
    {
        if self.i < self.__tokens.len() {
            Some(vstd::slice::slice_index_get(self.__tokens, self.i))
        } else {
            None
        }
    }

    /// Parses one statement; only SELECT statements exist.
    pub fn parse(&mut self) -> (r: Result<Query, PBaseError>)
        requires
            old(self).wf(),
        ensures
            final(self).wf(),
            r matches Ok(q) ==> q is Select,
    {
        let is_select = match self.head() {
            Some(t) => token_eq(t, &Token::Select),
            None => false,
        };
        if is_select {
            match self.parse_select_query() {
                Ok(q) => Ok(Query::Select(q)),
                Err(e) => Err(e),
            }
        } else {
            Err(self.bail("expected a SELECT statement"))
        }
    }

    /// Consumes the expected token or reports what stood in its place.
    fn must_swallow(&mut self, expected_token: &Token) -> (r: Result<(), PBaseError>)
        requires
            old(self).wf(),
        ensures
            final(self).wf(),
    {
        let matches_head = match self.head() {
            Some(t) => token_eq(t, expected_token),
            None => false,
        };
        if matches_head {
            self.advance();
            Ok(())
        } else {
            Err(self.bail("another token was expected here"))
        }
    }

    fn bail(&self, message: &str) -> (r: PBaseError)
        ensures
            r matches PBaseError::UnexpextedToken(m) && m@ == message@,
    {
        PBaseError::UnexpextedToken(message.to_owned())
    }

    /// Parses `SELECT FROM <table>`; joins and filters have no textual
    /// form yet and come back empty.
    fn parse_select_query(&mut self) -> (r: Result<SelectQuery, PBaseError>)
        requires
            old(self).wf(),
        ensures
            final(self).wf(),
            r matches Ok(q) ==> q.joins@.len() == 0 && q.filters@.len() == 0,
    {
        match self.must_swallow(&Token::Select) {
            Ok(_) => {},
            Err(e) => {
                return Err(e);
            },
        }
        match self.must_swallow(&Token::From) {
            Ok(_) => {},
            Err(e) => {
                return Err(e);
            },
        }
        let table_name: String = match self.head() {
            Some(Token::Identifier(name)) => name.clone(),
            _ => {
                return Err(self.bail("expected table name"));
            },
        };
        self.advance();
        Ok(SelectQuery { from: table_name, joins: Vec::new(), filters: Vec::new() })
    }
}

} // verus!
