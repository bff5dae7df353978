//! Canonical simplification of polynomial expressions.
//!
//! A polynomial is written as a sum of signed monomials over single-character
//! variables, such as `3z-2z+y+2-1`. [`simplify`] combines like terms, drops the
//! terms that cancel, puts the variables of every term and the terms themselves
//! in a fixed order, and writes the result back as text: `y+z+1`.
//! [`split_monomial`] reads one monomial.
//!
//! Reading is permissive. A monomial is an optional sign, digits, and then
//! letters, where every character that is neither a digit nor a sign at the
//! front counts as a letter. The only text that is refused is one in which the
//! digits of a coefficient denote more than
//! [`MAX_MAGNITUDE`](monomial::MAX_MAGNITUDE). The coefficients of like terms
//! are added up exactly, whatever their number.
//!
//! The modules follow the way of a text through the library:
//!
//! - [`text`] turns strings into characters and back;
//! - [`segments`] cuts the text of a polynomial into its monomials;
//! - [`monomial`] reads one monomial, with [`digits`] for its coefficient and
//!   [`key`] for its variables;
//! - [`terms`] adds up the coefficients of like terms, in the order of
//!   [`key`];
//! - [`render`] writes the terms;
//! - [`polynomial`] puts these together;
//! - [`laws`] states what holds of every simplification.
//!
//! All executable code is verified against the mathematical model that these
//! modules define.

pub mod digits;
pub mod key;
pub mod laws;
pub mod monomial;
pub mod polynomial;
pub mod render;
pub mod segments;
pub mod terms;
pub mod text;

pub use monomial::{split_monomial, ParseError};
pub use polynomial::simplify;
