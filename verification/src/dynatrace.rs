//! Table mapping with 256 linear parts and two edge comparisons.

use crate::float64::{biased, significand};
use crate::lookup::{index_at, table_map_to_index, ScaleTables, TABLE_SCALE};
use vstd::prelude::*;

verus! {

/// Builds the index table of this variant.
pub fn tables() -> (r: ScaleTables)
    ensures
        r.wf(0),
{
    ScaleTables::new(0)
}

/// Maps a normal value to a bucket index at a positive scale.
pub fn map_to_index(bits: u64, scale: i32, tables: &ScaleTables) -> (r: i32)
    requires
        0 < scale <= TABLE_SCALE,
        tables.wf(0),
    ensures
        r == index_at(significand(bits), biased(bits) - 1023, scale as int),
{
    table_map_to_index(bits, scale, tables, 2)
}

/// Returns the native scale of the lookup table.
pub fn table_scale() -> (r: i32)
    ensures
        r == TABLE_SCALE,
{
    TABLE_SCALE
}

} // verus!
