//! Distributed comparison function: a dealer splits the comparison function
//! `f(x) = beta` for `x < alpha` (or `x > alpha`), `0` elsewhere, into two key
//! shares; each party evaluates its share, and the XOR of the two outputs is
//! `f(x)`.
pub mod bytes;
pub mod codec;
pub mod construction;
pub mod correctness;
pub mod prg;

pub use construction::{BoundState, CmpFn, Cw, Dcf, DcfImpl, Share};
pub use prg::{Aes256MmoPrg, Prg};
