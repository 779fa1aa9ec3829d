//! Table mapping with 512 linear parts and one edge comparison.

use crate::float64::{biased, significand};
use crate::lookup::{index_at, table_map_to_index, ScaleTables, TABLE_SCALE};
use vstd::prelude::*;

verus! {

/// Builds the index table of this variant.
pub fn tables() -> (r: ScaleTables)
    ensures
        r.wf(1),
{
    ScaleTables::new(1)
}

/// Maps a normal value to a bucket index at a positive scale.
pub fn map_to_index(bits: u64, scale: i32, tables: &ScaleTables) -> (r: i32)
    requires
        0 < scale <= TABLE_SCALE,
        tables.wf(1),
    ensures
        r == index_at(significand(bits), biased(bits) - 1023, scale as int),
{
    table_map_to_index(bits, scale, tables, 1)
}

/// Returns the native scale of the lookup table.
pub fn table_scale() -> (r: i32)
    ensures
        r == TABLE_SCALE,
{
    TABLE_SCALE
}

} // verus!
