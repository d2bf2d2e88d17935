//! The structure of a BMS file as the parser reads it: headers, resource and
//! value tables, and the objects of the channel lines, placed on the measure
//! grid. Decimal values (tempos, stop lengths, measure lengths) are kept as
//! the literal text the file gives.
use crate::chart::{table_view, ResourceRef, ResourceRefView, ResourceTable};
use std::collections::HashMap;
use vstd::prelude::*;

verus! {

/// A place on the measure grid: slot `index` of `resolution` equal slots of
/// measure `measure`.
#[derive(Debug, Clone, Copy, PartialEq, Eq, Structural)]
pub struct Position {
    pub measure: u32,
    pub index: usize,
    pub resolution: usize,
}

/// A value of a tempo or stop object.
#[derive(Debug, Clone)]
pub enum Number {
    /// A whole number written in the channel itself (hexadecimal).
    Whole(u32),
    /// A decimal literal from a `#BPMxx` / `#STOPxx` definition.
    Text(String),
}

pub enum NumberView {
    Whole(u32),
    Text(Seq<char>),
}

impl View for Number {
    type V = NumberView;

    open spec fn view(&self) -> NumberView {
        match self {
            Number::Whole(n) => NumberView::Whole(*n),
            Number::Text(s) => NumberView::Text(s@),
        }
    }
}

/// What a tempo object does.
#[derive(Debug, Clone)]
pub enum TempoKind {
    /// The tempo becomes this many beats per minute.
    Bpm(Number),
    /// Playback pauses; the value is in 192nds of a measure.
    Stop(Number),
}

pub enum TempoKindView {
    Bpm(NumberView),
    Stop(NumberView),
}

impl View for TempoKind {
    type V = TempoKindView;

    open spec fn view(&self) -> TempoKindView {
        match self {
            TempoKind::Bpm(n) => TempoKindView::Bpm(n@),
            TempoKind::Stop(n) => TempoKindView::Stop(n@),
        }
    }
}

/// A tempo change or stop on channel 03, 08 or 09.
#[derive(Debug, Clone)]
pub struct TempoEvent {
    pub position: Position,
    pub kind: TempoKind,
}

pub struct TempoEventView {
    pub position: Position,
    pub kind: TempoKindView,
}

impl View for TempoEvent {
    type V = TempoEventView;

    open spec fn view(&self) -> TempoEventView {
        TempoEventView { position: self.position, kind: self.kind@ }
    }
}

/// A note object in a lane.
#[derive(Debug, Clone, Copy, PartialEq, Eq, Structural)]
pub struct LaneObject {
    pub lane: usize,
    pub position: Position,
    /// Key sound index (Base62 object value), if not zero.
    pub keysound_id: Option<usize>,
}

/// A `#BPM` header: `#BPMxx value` defines table entry `xx`; `#BPM value`
/// sets the initial tempo.
#[derive(Debug, Clone)]
pub struct HeaderBpm {
    pub index: Option<usize>,
    pub value: String,
}

pub struct HeaderBpmView {
    pub index: Option<usize>,
    pub value: Seq<char>,
}

impl View for HeaderBpm {
    type V = HeaderBpmView;

    open spec fn view(&self) -> HeaderBpmView {
        HeaderBpmView { index: self.index, value: self.value@ }
    }
}

/// A channel-02 object: measure `measure` lasts `ratio` times a whole measure.
#[derive(Debug, Clone)]
pub struct MeasureLength {
    pub measure: u32,
    pub ratio: String,
}

pub struct MeasureLengthView {
    pub measure: u32,
    pub ratio: Seq<char>,
}

impl View for MeasureLength {
    type V = MeasureLengthView;

    open spec fn view(&self) -> MeasureLengthView {
        MeasureLengthView { measure: self.measure, ratio: self.ratio@ }
    }
}

/// Everything the parser reads from a BMS file.
#[derive(Debug, Clone)]
pub struct BmsDocument {
    pub title: String,
    pub subtitle: String,
    pub artist: String,
    pub subartist: String,
    pub genre: String,
    /// Key-mode number selected by `#PLAYER`, if the file has one.
    pub keymode: Option<u32>,
    /// `#LNTYPE`; 1 when absent.
    pub lntype: u8,
    /// `#WAVxx` / `#BMPxx`.
    pub resources: ResourceTable,
    /// `#BPMxx` definitions, by index.
    pub bpm_table: HashMap<usize, String>,
    /// `#STOPxx` definitions, by index.
    pub stop_table: HashMap<usize, String>,
    /// Every `#BPM` header in file order.
    pub header_bpms: Vec<HeaderBpm>,
    /// `#STP` header values (milliseconds) in file order.
    pub header_stops: Vec<String>,
    /// Channel-02 measure lengths in file order.
    pub measure_lengths: Vec<MeasureLength>,
    /// Channel 03/08/09 objects in file order.
    pub tempo_events: Vec<TempoEvent>,
    /// Note objects in file order.
    pub notes: Vec<LaneObject>,
}

pub open spec fn text_map_view(m: Map<usize, String>) -> Map<usize, Seq<char>> {
    m.map_values(|s: String| s@)
}

pub open spec fn texts_view(v: Seq<String>) -> Seq<Seq<char>> {
    v.map_values(|s: String| s@)
}

#[verifier::ext_equal]
pub struct DocView {
    pub title: Seq<char>,
    pub subtitle: Seq<char>,
    pub artist: Seq<char>,
    pub subartist: Seq<char>,
    pub genre: Seq<char>,
    pub keymode: Option<u32>,
    pub lntype: u8,
    pub wav: Map<usize, ResourceRefView>,
    pub bmp: Map<usize, ResourceRefView>,
    pub bpm_table: Map<usize, Seq<char>>,
    pub stop_table: Map<usize, Seq<char>>,
    pub header_bpms: Seq<HeaderBpmView>,
    pub header_stops: Seq<Seq<char>>,
    pub measure_lengths: Seq<MeasureLengthView>,
    pub tempo_events: Seq<TempoEventView>,
    pub notes: Seq<LaneObject>,
}

impl View for BmsDocument {
    type V = DocView;

    open spec fn view(&self) -> DocView {
        DocView {
            title: self.title@,
            subtitle: self.subtitle@,
            artist: self.artist@,
            subartist: self.subartist@,
            genre: self.genre@,
            keymode: self.keymode,
            lntype: self.lntype,
            wav: table_view(self.resources.wav@),
            bmp: table_view(self.resources.bmp@),
            bpm_table: text_map_view(self.bpm_table@),
            stop_table: text_map_view(self.stop_table@),
            header_bpms: self.header_bpms@.map_values(|h: HeaderBpm| h@),
            header_stops: texts_view(self.header_stops@),
            measure_lengths: self.measure_lengths@.map_values(|m: MeasureLength| m@),
            tempo_events: self.tempo_events@.map_values(|e: TempoEvent| e@),
            notes: self.notes@,
        }
    }
}

/// The document before any line is read.
pub open spec fn empty_doc() -> DocView {
    DocView {
        title: Seq::empty(),
        subtitle: Seq::empty(),
        artist: Seq::empty(),
        subartist: Seq::empty(),
        genre: Seq::empty(),
        keymode: None,
        lntype: 1,
        wav: Map::empty(),
        bmp: Map::empty(),
        bpm_table: Map::empty(),
        stop_table: Map::empty(),
        header_bpms: Seq::empty(),
        header_stops: Seq::empty(),
        measure_lengths: Seq::empty(),
        tempo_events: Seq::empty(),
        notes: Seq::empty(),
    }
}

impl BmsDocument {
    pub fn new() -> (d: BmsDocument)
        ensures
            d@ =~= empty_doc(),
    {
        let d = BmsDocument {
            title: String::new(),
            subtitle: String::new(),
            artist: String::new(),
            subartist: String::new(),
            genre: String::new(),
            keymode: None,
            lntype: 1,
            resources: ResourceTable { wav: HashMap::new(), bmp: HashMap::new() },
            bpm_table: HashMap::new(),
            stop_table: HashMap::new(),
            header_bpms: Vec::new(),
            header_stops: Vec::new(),
            measure_lengths: Vec::new(),
            tempo_events: Vec::new(),
            notes: Vec::new(),
        };
        assert(table_view(d.resources.wav@) =~= Map::empty());
        assert(table_view(d.resources.bmp@) =~= Map::empty());
        assert(text_map_view(d.bpm_table@) =~= Map::empty());
        assert(text_map_view(d.stop_table@) =~= Map::empty());
        assert(d.header_bpms@.map_values(|h: HeaderBpm| h@) =~= Seq::empty());
        assert(texts_view(d.header_stops@) =~= Seq::empty());
        assert(d.measure_lengths@.map_values(|m: MeasureLength| m@) =~= Seq::empty());
        assert(d.tempo_events@.map_values(|e: TempoEvent| e@) =~= Seq::empty());
        d
    }
}

} // verus!
