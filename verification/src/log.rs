//! Log levels.
use crate::text::{same, to_ascii_uppercase, upper};
use vstd::prelude::*;

verus! {

/// The level that a fresh process logs at.
pub const INFO: u8 = 2;

/// The number of a level's name, in any case; an unknown name stands for INFO.
pub open spec fn level_of(name: Seq<char>) -> u8 {
    if upper(name) == "DEBUG"@ {
        1
    } else if upper(name) == "INFO"@ {
        2
    } else if upper(name) == "WARN"@ {
        3
    } else if upper(name) == "ERROR"@ {
        4
    } else {
        2
    }
}

/// Sets the level to log at by its name.
pub fn set_level(level: &mut u8, name: &str)
    ensures
        *final(level) == level_of(name@),
{
    let name = to_ascii_uppercase(name);
    *level = if same(name.as_str(), "DEBUG") {
        1
    } else if same(name.as_str(), "INFO") {
        2
    } else if same(name.as_str(), "WARN") {
        3
    } else if same(name.as_str(), "ERROR") {
        4
    } else {
        INFO
    };
}

/// Whether messages of level `l` are written while logging at `level`.
pub fn enabled(level: u8, l: u8) -> (r: bool)
    ensures
        r == (l >= level),
{
    l >= level
}

// ---------------------------------------------------------------------------
// Laws
// ---------------------------------------------------------------------------
/// The levels rise from DEBUG over INFO and WARN to ERROR, a name means the same in any
/// case, and one that is none of these means INFO.
pub proof fn law_levels_are_named(name: Seq<char>)
    ensures
        upper(name) == "DEBUG"@ ==> level_of(name) == 1,
        upper(name) == "INFO"@ ==> level_of(name) == 2,
        upper(name) == "WARN"@ ==> level_of(name) == 3,
        upper(name) == "ERROR"@ ==> level_of(name) == 4,
        upper(name) != "DEBUG"@ && upper(name) != "WARN"@ && upper(name) != "ERROR"@ ==> level_of(
            name,
        ) == 2,
        level_of(upper(name)) == level_of(name),
        level_of(crate::text::lower(name)) == level_of(name),
{
    reveal_strlit("DEBUG");
    reveal_strlit("INFO");
    reveal_strlit("WARN");
    reveal_strlit("ERROR");
    assert("DEBUG"@[0] != "ERROR"@[0] && "INFO"@[0] != "WARN"@[0]);
    assert("DEBUG"@.len() == 5 && "ERROR"@.len() == 5 && "INFO"@.len() == 4 && "WARN"@.len() == 4);
    assert(upper(upper(name)) =~= upper(name));
    assert(upper(crate::text::lower(name)) =~= upper(name));
}

} // verus!
