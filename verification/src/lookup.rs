//! Lists of named entries, searched by name.
use vstd::prelude::*;

use crate::text;

verus! {

/// The value of the first entry called `name`.
pub open spec fn first_named<T>(entries: Seq<(String, T)>, name: Seq<char>) -> Option<T>
    decreases entries.len(),
{
    if entries.len() == 0 {
        None
    } else if entries.first().0@ == name {
        Some(entries.first().1)
    } else {
        first_named(entries.drop_first(), name)
    }
}

/// Entry number `i` is what a search finds when no earlier entry has its name.
pub proof fn lemma_first_named<T>(entries: Seq<(String, T)>, name: Seq<char>, i: int)
    requires
        0 <= i <= entries.len(),
        forall|j: int| 0 <= j < i ==> (#[trigger] entries[j]).0@ != name,
        i < entries.len() ==> entries[i].0@ == name,
    ensures
        first_named(entries, name) == if i < entries.len() {
            Some(entries[i].1)
        } else {
            None
        },
    decreases i,
{
    if i > 0 {
        assert(entries[0].0@ != name);
        let rest = entries.drop_first();
        assert forall|j: int| 0 <= j < i - 1 implies (#[trigger] rest[j]).0@ != name by {
            assert(rest[j] == entries[j + 1]);
        }
        lemma_first_named(rest, name, i - 1);
    }
}

/// The value of the first entry called `name`.
pub fn find_named<'a, T>(entries: &'a Vec<(String, T)>, name: &str) -> (res: Option<&'a T>)
    ensures
        match res {
            Some(value) => first_named(entries@, name@) == Some(*value),
            None => first_named(entries@, name@) is None,
        },
{
    for i in 0..entries.len()
        invariant
            forall|j: int| 0 <= j < i ==> (#[trigger] entries@[j]).0@ != name@,
    {
        if text::same(entries[i].0.as_str(), name) {
            proof {
                lemma_first_named(entries@, name@, i as int);
            }
            return Some(&entries[i].1);
        }
    }
    proof {
        lemma_first_named(entries@, name@, entries@.len() as int);
    }
    None
}

/// Whether entry number `i` is the first called `name`; where none is, `i` is their count.
pub open spec fn is_first_named<T>(entries: Seq<(String, T)>, name: Seq<char>, i: int) -> bool {
    &&& 0 <= i <= entries.len()
    &&& forall|j: int| 0 <= j < i ==> (#[trigger] entries[j]).0@ != name
    &&& i < entries.len() ==> entries[i].0@ == name
}

/// A search finds the first entry of a name, and none where no entry has the name.
pub proof fn law_first_entry_of_a_name_is_found<T>(
    entries: Seq<(String, T)>,
    name: Seq<char>,
    i: int,
)
    requires
        is_first_named(entries, name, i),
    ensures
        first_named(entries, name) == if i < entries.len() {
            Some(entries[i].1)
        } else {
            None
        },
{
    lemma_first_named(entries, name, i);
}

} // verus!
