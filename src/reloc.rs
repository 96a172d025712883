//! The relocatable-data contract: a type may live in shared memory when
//! every instance stays valid after its bytes are copied to another address.
use vstd::prelude::*;

verus! {

/// Marker for payload types that hold no pointers, neither to themselves
/// nor to memory outside the value. The user asserts it for each payload
/// type; it carries through arrays and tuples of relocatable types.
pub trait Reloc {}

impl Reloc for () {}

impl Reloc for u8 {}

impl Reloc for u16 {}

impl Reloc for u32 {}

impl Reloc for u64 {}

impl Reloc for u128 {}

impl Reloc for usize {}

impl Reloc for i8 {}

impl Reloc for i16 {}

impl Reloc for i32 {}

impl Reloc for i64 {}

impl Reloc for i128 {}

impl Reloc for isize {}

impl Reloc for bool {}

impl Reloc for char {}

impl<T: Reloc, const N: usize> Reloc for [T; N] {}

impl<T1: Reloc> Reloc for (T1,) {}

impl<T1: Reloc, T2: Reloc> Reloc for (T1, T2) {}

impl<T1: Reloc, T2: Reloc, T3: Reloc> Reloc for (T1, T2, T3) {}

impl<T1: Reloc, T2: Reloc, T3: Reloc, T4: Reloc> Reloc for (T1, T2, T3, T4) {}

impl<T1: Reloc, T2: Reloc, T3: Reloc, T4: Reloc, T5: Reloc> Reloc for (T1, T2, T3, T4, T5) {}

} // verus!
