use vstd::prelude::*;

verus! {

/// A registration failure, carried as its message.
#[derive(Debug, Clone, PartialEq, Eq)]
pub struct HooverError(pub String);

/// `match_rule = value && (match_rule is unset ? true : match_rule)`: each
/// evaluated condition ANDs itself into the tri-state result.
pub fn and_into(match_rule: &mut Option<bool>, value: bool)
    ensures
        *final(match_rule) == Some(value && old(match_rule).unwrap_or(true)),
{
    let prior = match *match_rule {
        Some(b) => b,
        None => true,
    };
    *match_rule = Some(value && prior);
}

} // verus!
