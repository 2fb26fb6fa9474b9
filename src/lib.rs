//! Cost estimates, in bits, for two attacks on a repeated challenge-response
//! protocol, computed over a generic high-precision number abstraction.
pub mod rational;
pub mod bignat;
pub mod float;
pub mod exact;
pub mod combin;
pub mod prob;
pub mod search;

pub use combin::binom;
pub use prob::{prob_b, prob_b_new, prob_beta};
pub use search::{estimate_attack, estimate_attack_new};
