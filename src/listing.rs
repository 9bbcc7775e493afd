//! The listing of an archive's entries.

use vstd::prelude::*;
use vstd::string::*;
use crate::format::{Entry, Pack};
use crate::text::{append_decimal, decimal};

verus! {

/// One line of a listing: the archive's name, the entry's ordinal counted
/// from one, the number of entries, and the entry's path.
pub open spec fn list_line(name: Seq<char>, ordinal: nat, total: nat, path: Seq<char>) -> Seq<
    char,
> {
    name + ": "@ + decimal(ordinal) + "/"@ + decimal(total) + " ==> "@ + path
}

/// One line for each entry of `pack`, in order, headed by the archive's `name`.
pub fn listing(pack: &Pack, name: &str) -> (r: Vec<String>)
    ensures
        r@.len() == pack@.entries.len(),
        forall|k: int|
            #![trigger r@[k]]
            0 <= k < r@.len() ==> r@[k]@ == list_line(
                name@,
                (k + 1) as nat,
                pack@.entries.len(),
                pack@.entries[k].path,
            ),
{
    let entries = pack.entries();
    let total = entries.len();
    let mut r: Vec<String> = Vec::new();
    let mut i: usize = 0;
    while i < total
        invariant
            total == entries@.len(),
            entries@.map_values(|e: Entry| e@) == pack@.entries,
            i <= total,
            r@.len() == i,
            forall|k: int|
                #![trigger r@[k]]
                0 <= k < i ==> r@[k]@ == list_line(
                    name@,
                    (k + 1) as nat,
                    total as nat,
                    pack@.entries[k].path,
                ),
        decreases total - i,
    {
        let mut line = String::from_str(name);
        line.append(": ");
        append_decimal(&mut line, (i + 1) as u64);
        line.append("/");
        append_decimal(&mut line, total as u64);
        line.append(" ==> ");
        line.append(entries[i].path.as_str());
        assert(entries@[i as int]@ == pack@.entries[i as int]);
        assert(line@ =~= list_line(name@, (i + 1) as nat, total as nat, pack@.entries[i as int].path));
        r.push(line);
        i = i + 1;
    }
    r
}

} // verus!
