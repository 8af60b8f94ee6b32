//! The inference rules and the loop that applies them to a fixed point.

pub mod alpha_rules;
pub mod delta_rules;
pub mod rule_set;

pub use self::alpha_rules::{CAX_EQC1, CAX_EQC2, CAX_SCO};
pub use self::delta_rules::{PRP_EQP_1_2, PRP_INV_1_2};
pub use self::rule_set::{Rule, RuleSet};
