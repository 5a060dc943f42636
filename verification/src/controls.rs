use vstd::prelude::*;

verus! {

/// Whether the control panel asks for a new chain: the chain is built anew
/// when its length or the length of its links was changed, or when reset
/// was clicked.
pub fn regenerate_requested(length_changed: bool, link_length_changed: bool, reset_clicked: bool) -> (regenerate: bool)
    ensures
        regenerate == (length_changed || link_length_changed || reset_clicked),
{
    length_changed || link_length_changed || reset_clicked
}

} // verus!
