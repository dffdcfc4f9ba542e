use vstd::prelude::*;

verus! {

/// The label of an executor client status code.
pub open spec fn status_label(code: u8) -> Seq<char> {
    if code == 0 {
        "Failed"@
    } else if code == 1 {
        "Attaching"@
    } else if code == 2 {
        "Waiting for Roblox"@
    } else if code == 3 {
        "Attached"@
    } else {
        "Unknown"@
    }
}

/// Human-readable label for an executor client status code.
pub fn status_text(code: u8) -> (r: &'static str)
    ensures
        r@ == status_label(code),
{
    match code {
        0 => "Failed",
        1 => "Attaching",
        2 => "Waiting for Roblox",
        3 => "Attached",
        _ => "Unknown",
    }
}

} // verus!
