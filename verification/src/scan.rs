//! What PostgreSQL's scanner says of a query: which tokens stand where.
use vstd::prelude::*;

use crate::lookup;

verus! {

/// A token type, by the number that PostgreSQL's scanner gives it.
#[derive(Clone, Copy, Debug, PartialEq, Eq, Structural)]
pub struct Token {
    pub number: i32,
}

/// One token of a query: its type, and the bytes of the query that it covers.
#[derive(Clone, Copy, Debug, PartialEq, Eq, Structural)]
pub struct ScanToken {
    pub token: Token,
    pub start: usize,
    pub end: usize,
}

/// The tokens of a query, in the order in which they stand there.
#[derive(Debug)]
pub struct ScanResult {
    pub tokens: Vec<ScanToken>,
}

/// Why a query could not be split into tokens.
#[derive(Debug, PartialEq, Eq)]
pub struct ScanError {
    pub message: String,
}

/// The token types that the scanner knows, each with its name.
#[derive(Debug)]
pub struct TokenCatalog {
    pub entries: Vec<(String, Token)>,
}

impl TokenCatalog {
    /// The token type called `name`, if there is one.
    pub open spec fn named(self, name: Seq<char>) -> Option<Token> {
        lookup::first_named(self.entries@, name)
    }

    /// The token type called `name`, if there is one.
    pub fn token(&self, name: &str) -> (res: Option<Token>)
        ensures
            res == self.named(name@),
    {
        match lookup::find_named(&self.entries, name) {
            Some(token) => Some(*token),
            None => None,
        }
    }
}

} // verus!
