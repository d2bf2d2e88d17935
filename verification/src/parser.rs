//! Line readers of the BMS format taking `&str`, for callers outside the
//! whole-file reader.
use crate::chart::{table_view, ResourceRef};
use crate::channels::{channel_parts, split_channel_line, Parts, PartsResult};
use crate::codes::decode_outcome;
use crate::error::OpenLr2Error;
use crate::lines::{
    apply_resource_line, first_non_alnum, indexed_value, read_indexed_value, resource_line, Flow,
    Indexed, IndexedResult, Step,
};
use crate::text::chars_of;
use std::collections::HashMap;
use vstd::prelude::*;

verus! {

/// Reads a resource declaration (the text after `#WAV` / `#BMP`) into
/// `table`. The caller keeps the index within `usize`.
pub fn parse_resource_line(rest: &str, table: &mut HashMap<usize, ResourceRef>, base: u32) -> (r:
    Result<(), OpenLr2Error>)
    requires
        !(resource_line(rest@, table_view(old(table)@), base as nat) is Abort),
    ensures
        match resource_line(rest@, table_view(old(table)@), base as nat) {
            Flow::Go(t) => r is Ok && table_view(final(table)@) == t,
            Flow::Fail(m) => r matches Err(OpenLr2Error::BmsParse(s)) && s@ == m && final(table)@
                == old(table)@,
            Flow::Abort => false,
        },
{
    let cs = chars_of(rest);
    match apply_resource_line(cs.as_slice(), table, base) {
        Step::Go => Ok(()),
        Step::Fail(m) => Err(OpenLr2Error::BmsParse(m)),
        Step::Abort => Ok(()),
    }
}

/// Reads an indexed definition (the text after `#BPM` / `#STOP`): the index
/// and the decimal literal of the value. The caller keeps the index within
/// `usize`.
pub fn parse_indexed_value(rest: &str, base: u32) -> (r: Result<(usize, String), OpenLr2Error>)
    requires
        !(indexed_value(rest@, base as nat) is Abort),
    ensures
        match indexed_value(rest@, base as nat) {
            Indexed::Found(i, v) => r matches Ok((i2, s)) && i2 == i && s@ == v,
            Indexed::Invalid(m) => r matches Err(OpenLr2Error::BmsParse(s)) && s@ == m,
            Indexed::Abort => false,
        },
{
    let cs = chars_of(rest);
    match read_indexed_value(cs.as_slice(), base) {
        IndexedResult::Found(i, v) => Ok((i, v)),
        IndexedResult::Invalid(m) => Err(OpenLr2Error::BmsParse(m)),
        IndexedResult::Abort => Err(OpenLr2Error::Internal(String::new())),
    }
}

/// Splits a channel line `#mmmcc:objects` into measure, channel and object
/// text. The first character is one byte.
pub fn parse_channel_parts(line: &str) -> (r: Result<Option<(u32, usize, &str)>, OpenLr2Error>)
    requires
        line@.len() >= 1,
        (line@[0] as u32) < 0x80,
    ensures
        match channel_parts(line@) {
            Parts::Found(m, ch, v) => r matches Ok(Some((m2, ch2, s))) && m2 == m && ch2 == ch
                && s@ == v,
            Parts::Skip => r matches Ok(None),
            Parts::Fail(msg) => r matches Err(OpenLr2Error::BmsParse(s)) && s@ == msg,
        },
{
    let cs = chars_of(line);
    match split_channel_line(cs.as_slice()) {
        PartsResult::Found(m, ch, st) => {
            let v = line.substring_char(st, cs.len());
            Ok(Some((m, ch, v)))
        },
        PartsResult::Skip => Ok(None),
        PartsResult::Fail(s) => Err(OpenLr2Error::BmsParse(s)),
    }
}

} // verus!
