//! The symbols with a fixed meaning, and the names of the symbol types.
use vstd::prelude::*;

verus! {

/// The empty word. As the label of a transition it marks a move that reads
/// nothing; as the right-hand side of a production it stands for no symbol.
pub const EPSILON: char = '\u{3b5}';

/// The end of the input.
pub const STRING_END: char = '$';

/// The dot of an item: it parts what was read of a production from what is
/// still expected. No terminal of a grammar may be this character.
pub const ITEM_SEP: char = '.';

/// A nonterminal is named by its index.
pub type NonTerminal = usize;

/// A terminal is a character.
pub type Terminal = char;

} // verus!
