//! The index on disk: what to do with it at the start, and how its backup is
//! named.

use crate::digits::{digits, write_number};
use vstd::prelude::*;
use vstd::string::StringExecFns;

verus! {

/// What is done about the index file at the start.
#[derive(Debug, Clone, Copy, PartialEq, Eq, Structural)]
pub enum Recovery {
    /// The aggregate that the file holds is used.
    Loaded,
    /// There is no file to use: a fresh aggregate is made.
    Fresh,
    /// The file is there and does not hold an aggregate: it is renamed to a
    /// backup, and a fresh aggregate is made.
    BackedUp,
}

/// What is done about the index file at the start, given whether it could
/// be read, and whether what was read holds an aggregate.
pub fn recovery(read: bool, parsed: bool) -> (recovery: Recovery)
    ensures
        recovery == if !read {
            Recovery::Fresh
        } else if parsed {
            Recovery::Loaded
        } else {
            Recovery::BackedUp
        },
{
    if !read {
        Recovery::Fresh
    } else if parsed {
        Recovery::Loaded
    } else {
        Recovery::BackedUp
    }
}

/// The name of the index file.
pub open spec fn index_name_of() -> Seq<char> {
    seq!['i', 'n', 'd', 'e', 'x', '.', 'j', 's', 'o', 'n']
}

/// The name of the backup of an index file that was set aside at the given
/// time, in milliseconds since the Unix epoch: the name of the index, a dot,
/// the time in base ten, and `.bak`.
pub open spec fn backup_name_of(millis: u128) -> Seq<char> {
    index_name_of() + seq!['.'] + digits(millis as nat, 10) + seq!['.', 'b', 'a', 'k']
}

/// The name of the index file.
pub fn index_name() -> (name: &'static str)
    ensures
        name@ == index_name_of(),
{
    proof {
        reveal_strlit("index.json");
    }
    let name = "index.json";
    assert(name@ =~= index_name_of());
    name
}

/// The name of the backup of an index file that was set aside at the given
/// time.
pub fn backup_name(millis: u128) -> (name: String)
    ensures
        name@ == backup_name_of(millis),
{
    proof {
        reveal_strlit(".");
        reveal_strlit(".bak");
        assert("."@ =~= seq!['.']);
        assert(".bak"@ =~= seq!['.', 'b', 'a', 'k']);
    }
    let mut name = String::from_str(index_name());
    name.append(".");
    write_number(&mut name, millis, 10);
    name.append(".bak");
    name
}

} // verus!
