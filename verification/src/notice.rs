//! The advisory text that a finished scan attaches to its root.

use vstd::prelude::*;
use vstd::string::*;

use crate::node::text_of;
use crate::options::ScanStats;

verus! {

/// The character of one decimal digit.
pub open spec fn digit(d: nat) -> char {
    if d == 0 {
        '0'
    } else if d == 1 {
        '1'
    } else if d == 2 {
        '2'
    } else if d == 3 {
        '3'
    } else if d == 4 {
        '4'
    } else if d == 5 {
        '5'
    } else if d == 6 {
        '6'
    } else if d == 7 {
        '7'
    } else if d == 8 {
        '8'
    } else {
        '9'
    }
}

/// A number in decimal, without sign or leading zeros.
pub open spec fn decimal(n: nat) -> Seq<char>
    decreases n,
{
    if n < 10 {
        seq![digit(n)]
    } else {
        decimal(n / 10).push(digit(n % 10))
    }
}

/// What the root says when the node budget `max_total_nodes` was spent.
pub open spec fn truncation_notice(max_total_nodes: nat) -> Seq<char> {
    "Result truncated to <= "@ + decimal(max_total_nodes)
        + " nodes for stability. Increase the minimum size filter to reduce output."@
}

/// What the root says when `skipped` entries were passed over.
pub open spec fn skip_notice(skipped: nat) -> Seq<char> {
    "Skipped "@ + decimal(skipped) + " entries due to permission/errors."@
}

/// The root's diagnostic: truncation comes before skipped entries, and a
/// scan that met neither says nothing.
pub open spec fn advisory(hit_node_limit: bool, skipped: nat, max_total_nodes: nat) -> Option<
    Seq<char>,
> {
    if hit_node_limit {
        Some(truncation_notice(max_total_nodes))
    } else if skipped > 0 {
        Some(skip_notice(skipped))
    } else {
        None
    }
}

/// Formats with the standard library's `to_string` for `u64`. Not proved:
/// that it writes the number in decimal, without sign or leading zeros.
#[verifier::external_body]
fn decimal_string(n: u64) -> (text: String)
    ensures
        text@ == decimal(n as nat),
{
    n.to_string()
}

/// The text for a result cut to `max_total_nodes` nodes.
pub fn truncated_message(max_total_nodes: usize) -> (text: String)
    ensures
        text@ == truncation_notice(max_total_nodes as nat),
{
    let mut text = "Result truncated to <= ".to_owned();
    text.append(decimal_string(max_total_nodes as u64).as_str());
    text.append(" nodes for stability. Increase the minimum size filter to reduce output.");
    text
}

/// The text for `skipped` entries passed over.
pub fn skipped_message(skipped: u64) -> (text: String)
    ensures
        text@ == skip_notice(skipped as nat),
{
    let mut text = "Skipped ".to_owned();
    text.append(decimal_string(skipped).as_str());
    text.append(" entries due to permission/errors.");
    text
}

/// The diagnostic for the root of a scan that ended with `stats`.
pub fn root_advisory(stats: &ScanStats, max_total_nodes: usize) -> (text: Option<String>)
    ensures
        text_of(text) == advisory(
            stats.hit_node_limit,
            stats.skipped_entries as nat,
            max_total_nodes as nat,
        ),
{
    if stats.hit_node_limit {
        Some(truncated_message(max_total_nodes))
    } else if stats.skipped_entries > 0 {
        Some(skipped_message(stats.skipped_entries))
    } else {
        None
    }
}

} // verus!
