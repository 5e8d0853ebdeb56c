//! An alternative, minimal table configuration kept for callers that only
//! set a width budget and per-column headers and alignments.

use vstd::prelude::*;

use std::collections::BTreeMap;

verus! {

/// A width budget together with sparse per-column settings.
#[derive(Clone, Debug, Eq, PartialEq)]
pub struct TableConfig {
    pub width: usize,
    pub columns: BTreeMap<usize, ColumnConfig>,
}

impl TableConfig {
    pub fn new(width: usize, columns: BTreeMap<usize, ColumnConfig>) -> (r: Self)
        ensures
            r.width == width,
            r.columns == columns,
    {
        TableConfig { width, columns }
    }
}

impl Default for TableConfig {
    fn default() -> (r: Self)
        ensures
            r.width == 80,
            r.columns@ == Map::<usize, ColumnConfig>::empty(),
    {
        TableConfig { width: 80, columns: BTreeMap::new() }
    }
}

/// A header text and an alignment for one column.
#[derive(Clone, Debug, Eq, PartialEq)]
pub struct ColumnConfig {
    pub header: String,
    pub align: Align,
}

impl ColumnConfig {
    pub fn new(header: &str, align: Align) -> (r: Self)
        ensures
            r.header@ == header@,
            r.align == align,
    {
        ColumnConfig { header: header.to_owned(), align }
    }
}

impl Default for ColumnConfig {
    fn default() -> (r: Self)
        ensures
            r.header@ == Seq::<char>::empty(),
            r.align == Align::Left,
    {
        ColumnConfig { header: String::new(), align: Align::Left }
    }
}

/// How a data cell is placed inside its column.
#[derive(Clone, Copy, Debug, Eq, PartialEq, Hash, Ord, PartialOrd)]
pub enum Align {
    Right,
    Center,
    Left,
}

impl Default for Align {
    fn default() -> (r: Self)
        ensures
            r == Align::Left,
    {
        Align::Left
    }
}

} // verus!
