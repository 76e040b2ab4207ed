//! Pronounceable passwords from a bigram model of a training corpus.
//!
//! A corpus is split into tokens ([`tokenize`]), the tokens are counted into a
//! model of which token follows which ([`train`], [`bigram`]), and a password
//! is a random walk over that model ([`pwgen`]) that goes on until the walk
//! has taken in enough entropy ([`entropy`]). Probabilities are held as
//! intervals of a sample space of 256 points ([`table`]).

pub mod bigram;
pub mod entropy;
pub mod pwgen;
pub mod table;
pub mod tally;
pub mod tokenize;
pub mod train;
