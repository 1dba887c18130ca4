use vstd::prelude::*;
use vstd::layout::size_of;

verus! {

/// The cache weight of an entry (a key and its encoded value, or its absence):
/// the size of a reference to the key plus that of a reference to the value, two
/// machine words whatever the contents.
pub fn weight(key: &String, value: &Option<Vec<u8>>) -> (r: u32)
    ensures
        r as nat == 2 * size_of::<usize>(),
{
    broadcast use
        vstd::layout::layout_of_references_and_pointers,
        vstd::layout::layout_of_references_and_pointers_for_sized_types,
        vstd::layout::layout_of_primitives;

    let a = std::mem::size_of::<&String>();
    let b = std::mem::size_of::<&Option<Vec<u8>>>();
    assert(usize::BITS == 32 || usize::BITS == 64);
    (a + b) as u32
}

} // verus!
