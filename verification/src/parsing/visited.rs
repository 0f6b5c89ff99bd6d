//! Walks over links end: the addresses that have not been visited are counted, and coming
//! back to one is an error.
use vstd::prelude::*;
use vstd::set_lib::set_int_range;
use vstd::string::*;

use crate::error::{ErrorView, MdfError};
use crate::text::{digits_text, hexadecimal};

verus! {

/// All addresses that a link can hold.
pub open spec fn all_addresses() -> Set<u64> {
    set_int_range(0, 0x1_0000_0000_0000_0000).map(|address: int| address as u64)
}

/// How many addresses have not been visited.
pub open spec fn addresses_left(visited: Set<u64>) -> nat {
    all_addresses().difference(visited).len()
}

/// Visiting an address for the first time leaves fewer.
pub proof fn lemma_visit_leaves_fewer(visited: Set<u64>, address: u64)
    requires
        !visited.contains(address),
    ensures
        addresses_left(visited.insert(address)) < addresses_left(visited),
{
    let range = set_int_range(0, 0x1_0000_0000_0000_0000);
    vstd::set_lib::lemma_int_range(0, 0x1_0000_0000_0000_0000);
    range.lemma_map_finite(|a: int| a as u64);
    assert(range.contains(address as int));
    assert(all_addresses().contains((address as int) as u64));
    assert(all_addresses().difference(visited.insert(address)) =~= all_addresses().difference(
        visited,
    ).remove(address));
}

/// The error for a chain, of the named kind, that comes back to an address.
pub open spec fn cycle_error(kind: Seq<char>, address: u64) -> ErrorView {
    ErrorView::BlockLinkError(
        "cycle detected in "@ + kind + " chain at address "@ + hexadecimal(address as nat),
    )
}

/// The error for a chain, of the named kind, that comes back to an address.
pub fn cycle(kind: &str, address: u64) -> (error: MdfError)
    ensures
        error.deep_view() == cycle_error(kind@, address),
{
    let text = "cycle detected in ".to_string().concat(kind).concat(" chain at address ").concat(
        "0x",
    ).concat(digits_text(address, 16).as_str());
    assert(text@ =~= "cycle detected in "@ + kind@ + " chain at address "@ + hexadecimal(
        address as nat,
    ));
    MdfError::BlockLinkError(text)
}

} // verus!
