//! The device list shown to the user.

use vstd::prelude::*;

verus! {

/// The name shown for a device whose id cannot be read.
pub open spec fn shown_name(id: Option<String>) -> Seq<char> {
    match id {
        Some(name) => name@,
        None => "Unknown Device"@,
    }
}

/// Numbers the input devices in the order the host lists them: entry `i`
/// is `i` and the device's id, or "Unknown Device" where the id could not
/// be read.
pub fn device_entries(ids: &Vec<Option<String>>) -> (entries: Vec<(usize, String)>)
    ensures
        entries@.len() == ids@.len(),
        forall|i: int|
            0 <= i < entries@.len() ==> (#[trigger] entries@[i]).0 == i && entries@[i].1@
                == shown_name(ids@[i]),
{
    let mut entries: Vec<(usize, String)> = Vec::with_capacity(ids.len());
    let mut i: usize = 0;
    while i < ids.len()
        invariant
            i <= ids@.len(),
            entries@.len() == i,
            forall|j: int|
                0 <= j < i ==> (#[trigger] entries@[j]).0 == j && entries@[j].1@ == shown_name(
                    ids@[j],
                ),
        decreases ids@.len() - i,
    {
        let name = match &ids[i] {
            Some(id) => id.clone(),
            None => "Unknown Device".to_owned(),
        };
        entries.push((i, name));
        i = i + 1;
    }
    entries
}

} // verus!
