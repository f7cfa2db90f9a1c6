//! Turning a selected entry into the command that launches it.
use vstd::prelude::*;
use crate::index::AppInfo;
use crate::text::{launch_command, strip_field_codes};

verus! {

/// `i` is the first place of `index` whose entry is named `name`.
pub open spec fn first_named(index: Seq<AppInfo>, name: Seq<char>, i: int) -> bool {
    0 <= i < index.len() && index[i].name@ == name && forall|j: int|
        0 <= j < i ==> #[trigger] index[j].name@ != name
}

/// The place of the first entry named `name`, if there is one.
pub fn find_by_name(index: &Vec<AppInfo>, name: &str) -> (r: Option<usize>)
    ensures
        match r {
            Some(i) => first_named(index@, name@, i as int),
            None => forall|j: int| 0 <= j < index@.len() ==> #[trigger] index@[j].name@ != name@,
        },
{
    let target = String::from_str(name);
    let mut i: usize = 0;
    while i < index.len()
        invariant
            i <= index@.len(),
            target@ == name@,
            forall|j: int| 0 <= j < i ==> #[trigger] index@[j].name@ != name@,
        decreases index@.len() - i,
    {
        if index[i].name == target {
            return Some(i);
        }
        i = i + 1;
    }
    None
}

/// The shell command that launching the entry named `name` runs: the first
/// such entry's template without field codes. `None` where no entry has
/// that name.
pub fn command_for_selection(index: &Vec<AppInfo>, name: &str) -> (r: Option<String>)
    ensures
        match r {
            Some(c) => exists|i: int|
                #[trigger] first_named(index@, name@, i) && c@ == launch_command(
                    index@[i].exec_template@,
                ),
            None => forall|j: int| 0 <= j < index@.len() ==> #[trigger] index@[j].name@ != name@,
        },
{
    match find_by_name(index, name) {
        Some(i) => {
            let c = strip_field_codes(index[i].exec_template.as_str());
            assert(first_named(index@, name@, i as int));
            Some(c)
        },
        None => None,
    }
}

} // verus!
