//! Block-delimited string hoovering: the scanning, matching and
//! configuration logic of a lexer plugin that vacuums up a run of source
//! text, spaces and newlines included, between a start and an end
//! delimiter, with optional escape handling and rule-context gating.
//!
//! A block names its start delimiters, the rule context its start is
//! gated on, its end delimiters (`""` is the end of the input), its
//! escapes and whether its value is trimmed. Blocks are tried in order;
//! the first whose start matches is committed: never reaching an end
//! delimiter is `invalid_text`, a rejected escape is `invalid_escape`.

pub mod block;
pub mod error;
pub mod groups;
pub mod install;
pub mod json;
pub mod laws;
pub mod scan;
pub mod text;

pub use block::{Block, Consume, EndSpec, HooverRuleFilter, HooverRuleSpec, StartSpec};
pub use error::{and_into, HooverError};
pub use groups::{groups_enabled, listed};
pub use install::{
    alt_json, block_token_name, check_alternates, check_val_rule, grammar_document, host_groups,
    json_string, plan_alternates, AltPlan, AltView,
};
pub use json::{block_from_json, options_from_json, JsonOptions, JsonValue};
pub use scan::{
    hoover_scan, match_start, parse_to_end, MatchOutcome, MatcherConfig, Rejected, RuleContext,
    RuleState, ScanValue, Scanned,
};
pub use text::{is_trim_space, js_trim};

use vstd::prelude::*;

verus! {

/// This crate's version.
pub const VERSION: &'static str = "0.3.7";

/// The default token name a block emits.
pub const DEFAULT_TOKEN: &'static str = "#HV";

/// The error code a committed block that never reaches an end delimiter
/// is rejected with.
pub const INVALID_TEXT: &'static str = "invalid_text";

/// The error code a rejected escape is rejected with.
pub const INVALID_ESCAPE: &'static str = "invalid_escape";

} // verus!
