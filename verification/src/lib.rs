//! Exact probability distributions for tabletop dice-roll expressions.
//!
//! A roll such as `2d6 + 1d4 + 3` is read from its text ([`notation`]) into a list of dice
//! and a modifier ([`dice`]), and the distribution of its total is built die by die through
//! convolution ([`distributions`]). The q-analogs of the factorial and of the binomial
//! coefficient stand beside them ([`combinatorics`]).

pub mod bignat;
pub mod combinatorics;
pub mod convolution;
pub mod dice;
pub mod distributions;
pub mod limbs;
pub mod notation;
pub mod outcomes;
pub mod text;
