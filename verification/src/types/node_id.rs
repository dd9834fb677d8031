//! Identifiers of the nodes that every builder creates first.

use vstd::prelude::*;
use crate::types::RegexNodeId;

verus! {

/// Bottom: the empty language.
pub const BOT: RegexNodeId = 0;
/// Epsilon: the empty word only.
pub const EPS: RegexNodeId = 1;
/// Top: any single character.
pub const TOP: RegexNodeId = 2;
/// `_*`: every word.
pub const TOP_STAR: RegexNodeId = 3;
/// `_+`: every non-empty word.
pub const TOP_PLUS: RegexNodeId = 4;
/// End anchor (`\z`, `$`).
pub const END_ANCHOR: RegexNodeId = 5;
/// Begin anchor (`\A`, `^`).
pub const BEGIN_ANCHOR: RegexNodeId = 6;

} // verus!
