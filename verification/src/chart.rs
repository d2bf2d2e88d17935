//! Chart-level records that the parser fills: resource tables and options.
use std::collections::HashMap;
use vstd::prelude::*;

verus! {

/// Points to a resource declared in the BMS `#WAVxx` / `#BMPxx` tables.
#[derive(Debug, Clone)]
pub struct ResourceRef {
    /// Index in the resource table (Base36 or Base62 decoded).
    pub index: usize,
    /// File path relative to the BMS file's directory.
    pub path: String,
}

/// The value a `ResourceRef` stands for.
pub struct ResourceRefView {
    pub index: usize,
    pub path: Seq<char>,
}

impl View for ResourceRef {
    type V = ResourceRefView;

    open spec fn view(&self) -> ResourceRefView {
        ResourceRefView { index: self.index, path: self.path@ }
    }
}

/// A resource table as a map from index to the referenced resource.
pub open spec fn table_view(m: Map<usize, ResourceRef>) -> Map<usize, ResourceRefView> {
    m.map_values(|r: ResourceRef| r@)
}

/// Resource table — all `#WAV` and `#BMP` declarations.
#[derive(Debug, Clone)]
pub struct ResourceTable {
    /// Key sound resources (`#WAVxx`), by index.
    pub wav: HashMap<usize, ResourceRef>,
    /// Bitmap/BGA resources (`#BMPxx`), by index.
    pub bmp: HashMap<usize, ResourceRef>,
}

impl Default for ResourceTable {
    fn default() -> (t: Self)
        ensures
            t.wav@ == Map::<usize, ResourceRef>::empty(),
            t.bmp@ == Map::<usize, ResourceRef>::empty(),
    {
        ResourceTable { wav: HashMap::new(), bmp: HashMap::new() }
    }
}

/// Options controlling BMS parsing behavior.
#[derive(Debug, Clone)]
pub struct BmsParseOptions {
    /// If true, attempt CP932 decoding for non-UTF-8 files.
    pub try_cp932: bool,
    /// If true, load and parse BGA declarations.
    pub parse_bga: bool,
    /// Scratch side preference (0 = left, 1 = right, 2 = auto-detect).
    pub scratch_side: u8,
}

impl Default for BmsParseOptions {
    fn default() -> (o: Self)
        ensures
            o.try_cp932,
            !o.parse_bga,
            o.scratch_side == 2,
    {
        BmsParseOptions { try_cp932: true, parse_bga: false, scratch_side: 2 }
    }
}

} // verus!
