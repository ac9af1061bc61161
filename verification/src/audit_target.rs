//! Where the images of the damage audit live.

use vstd::prelude::*;

verus! {

/// Whether memory with these property flags is local to the device.
///
/// `ash::vk::MemoryPropertyFlags::from_raw` takes the bits as they are, and
/// `contains` says whether every bit of its argument is set;
/// `MemoryPropertyFlags::DEVICE_LOCAL` is the lowest bit alone.
#[verifier::external_body]
fn is_device_local(flags: u32) -> (r: bool)
    ensures
        r == (flags & 1 == 1),
{
    ash::vk::MemoryPropertyFlags::from_raw(flags).contains(
        ash::vk::MemoryPropertyFlags::DEVICE_LOCAL,
    )
}

/// Whether an image may live in a type of memory: its requirements allow the
/// type, and the type is local to the device.
pub open spec fn suits(memory_type_bits: u32, flags: Seq<u32>, index: int) -> bool {
    memory_type_bits & (1u32 << (index as u32)) != 0 && flags[index] & 1 == 1
}

/// Picks the first type of memory that an image may live in. `flags` holds the
/// property flags of every type.
pub fn device_local_memory_type(memory_type_bits: u32, flags: &[u32]) -> (r: Option<u32>)
    requires
        flags@.len() <= 32,
    ensures
        match r {
            Some(i) => i < flags@.len() && suits(memory_type_bits, flags@, i as int) && forall|
                j: int,
            |
                0 <= j < i ==> !suits(memory_type_bits, flags@, j),
            None => forall|j: int| 0 <= j < flags@.len() ==> !suits(memory_type_bits, flags@, j),
        },
{
    let mut i: usize = 0;
    while i < flags.len()
        invariant
            flags@.len() <= 32,
            i <= flags@.len(),
            forall|j: int| 0 <= j < i ==> !suits(memory_type_bits, flags@, j),
        decreases flags@.len() - i,
    {
        let index: u32 = i as u32;
        if memory_type_bits & (1u32 << index) != 0 && is_device_local(flags[i]) {
            return Some(index);
        }
        i = i + 1;
    }
    None
}

} // verus!
