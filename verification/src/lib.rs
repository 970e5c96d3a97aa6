//! Fixed-precision fractions, and `atan(1/x)` summed over them by its series:
//! on one thread, or shared out to workers by a dispatcher.

pub mod atan;
pub mod batch;
pub mod channel;
pub mod dispatch;
pub mod laws;
pub mod limbs;
pub mod number;
pub mod reference;
pub mod schedule;
pub mod series;
pub mod term;

pub use atan::{ataninv, ataninv_scalar};
pub use schedule::{ataninv_scheduled, Move};
pub use number::Number;
pub use term::Term;
