//! The command line: which dataflow a run is asked for.

use vstd::prelude::*;
use vstd::string::*;

verus! {

/// The text that introduces the name of a dataflow in an argument.
pub open spec fn marker() -> Seq<char> {
    seq!['n', 'a', 'm', 'e', '=']
}

/// The marker stands in `text` at the position `at`.
pub open spec fn marked_at(text: Seq<char>, at: int) -> bool {
    0 <= at && at + 5 <= text.len() && text.subrange(at, at + 5) == marker()
}

/// The first position at or after `from` at which the marker stands in
/// `text`.
pub open spec fn first_mark(text: Seq<char>, from: int) -> Option<int>
    decreases text.len() - from,
{
    if from < 0 || from + 5 > text.len() {
        None
    } else if marked_at(text, from) {
        Some(from)
    } else {
        first_mark(text, from + 1)
    }
}

/// The name that an argument gives: what follows the first marker in it.
pub open spec fn named(text: Seq<char>) -> Option<Seq<char>> {
    match first_mark(text, 0) {
        Some(at) => Some(text.subrange(at + 5, text.len() as int)),
        None => None,
    }
}

/// Whether the marker stands in `text` at the position `at`.
fn is_marked_at(text: &str, len: usize, at: usize) -> (r: bool)
    requires
        len == text@.len(),
        at + 5 <= len,
    ensures
        r == marked_at(text@, at as int),
{
    let r = text.get_char(at) == 'n' && text.get_char(at + 1) == 'a' && text.get_char(at + 2) == 'm'
        && text.get_char(at + 3) == 'e' && text.get_char(at + 4) == '=';
    proof {
        let part = text@.subrange(at as int, at + 5);
        if r {
            assert(part =~= marker());
        } else {
            assert(part[0] == text@[at as int]);
            assert(part[1] == text@[at + 1]);
            assert(part[2] == text@[at + 2]);
            assert(part[3] == text@[at + 3]);
            assert(part[4] == text@[at + 4]);
        }
    }
    r
}

/// The name of the dataflow that the arguments ask for: what follows the
/// first `name=` in the first argument that holds one.
pub fn extract(args: Vec<String>) -> (name: Option<String>)
    ensures
        match name {
            Some(n) => exists|i: int|
                0 <= i < args.len() && named(#[trigger] args[i]@) == Some(n@) && forall|j: int|
                    0 <= j < i ==> named(#[trigger] args[j]@) is None,
            None => forall|i: int| 0 <= i < args.len() ==> named(#[trigger] args[i]@) is None,
        },
{
    let mut i: usize = 0;
    while i < args.len()
        invariant
            i <= args.len(),
            forall|j: int| 0 <= j < i ==> named(#[trigger] args[j]@) is None,
        decreases args.len() - i,
    {
        let text = args[i].as_str();
        let len = text.unicode_len();
        let mut at: usize = 0;
        while len >= 5 && at <= len - 5
            invariant
                i < args.len(),
                forall|j: int| 0 <= j < i ==> named(#[trigger] args[j]@) is None,
                len == text@.len(),
                text@ == args[i as int]@,
                first_mark(text@, 0) == first_mark(text@, at as int),
            decreases len - at,
        {
            if is_marked_at(text, len, at) {
                let name = String::from_str(text.substring_char(at + 5, len));
                assert(named(args[i as int]@) == Some(name@));
                return Some(name);
            }
            at += 1;
        }
        assert(named(args[i as int]@) is None);
        i += 1;
    }
    None
}

} // verus!
