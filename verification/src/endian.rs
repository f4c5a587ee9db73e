//! Byte-order conversion of integer fields, and the marker of fixed-size
//! types, for the binary wire format.

use vstd::prelude::*;
use vstd::bytes::{spec_u16_to_le_bytes, spec_u32_to_le_bytes, spec_u64_to_le_bytes};

verus! {

/// Converts a value's integer fields to little-endian in place. The size of
/// the value does not change.
pub trait PillarNativeEndian {
    /// Converts to little-endian in place.
    fn to_le(&mut self);
}

/// Marks a type whose byte size is fixed and stable.
pub trait PillarFixedSize {}

impl PillarFixedSize for u8 {}

impl PillarFixedSize for u16 {}

impl PillarFixedSize for u32 {}

impl PillarFixedSize for u64 {}

impl PillarFixedSize for i8 {}

impl PillarFixedSize for i16 {}

impl PillarFixedSize for i32 {}

impl PillarFixedSize for i64 {}

impl<const C: usize> PillarFixedSize for [u8; C] {}

/// Calls `u16::to_le`, which is the identity on little-endian machines and
/// swaps the bytes on big-endian ones; the contract claims one of the two.
#[verifier::external_body]
fn u16_to_le(x: u16) -> (r: u16)
    ensures
        spec_u16_to_le_bytes(r) == spec_u16_to_le_bytes(x) || spec_u16_to_le_bytes(r) == spec_u16_to_le_bytes(
            x,
        ).reverse(),
{
    x.to_le()
}

/// Calls `u32::to_le`; see `u16_to_le`.
#[verifier::external_body]
fn u32_to_le(x: u32) -> (r: u32)
    ensures
        spec_u32_to_le_bytes(r) == spec_u32_to_le_bytes(x) || spec_u32_to_le_bytes(r) == spec_u32_to_le_bytes(
            x,
        ).reverse(),
{
    x.to_le()
}

/// Calls `u64::to_le`; see `u16_to_le`.
#[verifier::external_body]
fn u64_to_le(x: u64) -> (r: u64)
    ensures
        spec_u64_to_le_bytes(r) == spec_u64_to_le_bytes(x) || spec_u64_to_le_bytes(r) == spec_u64_to_le_bytes(
            x,
        ).reverse(),
{
    x.to_le()
}

impl PillarNativeEndian for u8 {
    /// A byte has no order: nothing changes.
    fn to_le(&mut self)
        ensures
            *final(self) == *old(self),
    {
    }
}

impl PillarNativeEndian for [u8; 32] {
    /// A byte array has no order: nothing changes.
    fn to_le(&mut self)
        ensures
            *final(self) == *old(self),
    {
    }
}

impl PillarNativeEndian for u16 {
    /// The same value, or the value with its bytes swapped on big-endian
    /// machines.
    fn to_le(&mut self)
        ensures
            spec_u16_to_le_bytes(*final(self)) == spec_u16_to_le_bytes(*old(self)) || spec_u16_to_le_bytes(
                *final(self),
            ) == spec_u16_to_le_bytes(*old(self)).reverse(),
    {
        *self = u16_to_le(*self);
    }
}

impl PillarNativeEndian for u32 {
    /// The same value, or the value with its bytes reversed on big-endian
    /// machines.
    fn to_le(&mut self)
        ensures
            spec_u32_to_le_bytes(*final(self)) == spec_u32_to_le_bytes(*old(self)) || spec_u32_to_le_bytes(
                *final(self),
            ) == spec_u32_to_le_bytes(*old(self)).reverse(),
    {
        *self = u32_to_le(*self);
    }
}

impl PillarNativeEndian for u64 {
    /// The same value, or the value with its bytes reversed on big-endian
    /// machines.
    fn to_le(&mut self)
        ensures
            spec_u64_to_le_bytes(*final(self)) == spec_u64_to_le_bytes(*old(self)) || spec_u64_to_le_bytes(
                *final(self),
            ) == spec_u64_to_le_bytes(*old(self)).reverse(),
    {
        *self = u64_to_le(*self);
    }
}

} // verus!
