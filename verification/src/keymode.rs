//! Key modes: how many playable lanes a chart has.
use crate::error::OpenLr2Error;
use crate::text::{decimal, push_decimal, push_str, string_from_chars};
use vstd::prelude::*;

verus! {

/// BMS key mode — the number of playable lanes.
#[derive(Debug, Clone, Copy, PartialEq, Eq, Hash, Structural)]
pub enum KeyMode {
    /// 5 keys
    Keys5,
    /// 7 keys (standard)
    Keys7,
    /// 9 keys
    Keys9,
    /// 10 keys (5K double play)
    Keys10,
    /// 14 keys (7K double play)
    Keys14,
}

/// The number that names a key mode (`Keys7` is 7, ...).
pub open spec fn keymode_number(k: KeyMode) -> u32 {
    match k {
        KeyMode::Keys5 => 5,
        KeyMode::Keys7 => 7,
        KeyMode::Keys9 => 9,
        KeyMode::Keys10 => 10,
        KeyMode::Keys14 => 14,
    }
}

/// The key mode a number names, if any.
pub open spec fn keymode_of_number(value: u32) -> Option<KeyMode> {
    if value == 5 {
        Some(KeyMode::Keys5)
    } else if value == 7 {
        Some(KeyMode::Keys7)
    } else if value == 9 {
        Some(KeyMode::Keys9)
    } else if value == 10 {
        Some(KeyMode::Keys10)
    } else if value == 14 {
        Some(KeyMode::Keys14)
    } else {
        None
    }
}

pub open spec fn spec_lanes_per_player(k: KeyMode) -> usize {
    match k {
        KeyMode::Keys5 => 5,
        KeyMode::Keys7 => 7,
        KeyMode::Keys9 => 9,
        KeyMode::Keys10 => 5,
        KeyMode::Keys14 => 7,
    }
}

pub open spec fn spec_is_double_play(k: KeyMode) -> bool {
    k == KeyMode::Keys10 || k == KeyMode::Keys14
}

pub open spec fn spec_total_lanes(k: KeyMode) -> usize {
    match k {
        KeyMode::Keys5 => 5,
        KeyMode::Keys7 => 7,
        KeyMode::Keys9 => 9,
        KeyMode::Keys10 => 10,
        KeyMode::Keys14 => 14,
    }
}

/// The message of the error for a number that names no key mode.
pub open spec fn unsupported_keymode_message(value: u32) -> Seq<char> {
    "unsupported keymode: "@ + decimal(value as nat)
}

impl KeyMode {
    /// Number of lanes for a single player side.
    pub fn lanes_per_player(self) -> (n: usize)
        ensures
            n == spec_lanes_per_player(self),
    {
        match self {
            KeyMode::Keys5 => 5,
            KeyMode::Keys7 => 7,
            KeyMode::Keys9 => 9,
            KeyMode::Keys10 => 5,
            KeyMode::Keys14 => 7,
        }
    }

    /// The number that names this key mode, its value as `u32` (`Keys7` is 7).
    pub fn number(self) -> (n: u32)
        ensures
            n == keymode_number(self),
    {
        match self {
            KeyMode::Keys5 => 5,
            KeyMode::Keys7 => 7,
            KeyMode::Keys9 => 9,
            KeyMode::Keys10 => 10,
            KeyMode::Keys14 => 14,
        }
    }

    /// Whether this key mode is double-play (two player sides on one chart).
    pub fn is_double_play(self) -> (b: bool)
        ensures
            b == spec_is_double_play(self),
    {
        match self {
            KeyMode::Keys10 | KeyMode::Keys14 => true,
            _ => false,
        }
    }

    /// Total lane count.
    pub fn total_lanes(self) -> (n: usize)
        ensures
            n == spec_total_lanes(self),
    {
        match self {
            KeyMode::Keys5 => 5,
            KeyMode::Keys7 => 7,
            KeyMode::Keys9 => 9,
            KeyMode::Keys10 => 10,
            KeyMode::Keys14 => 14,
        }
    }

    /// The key mode that `value` names; any other number is an error.
    pub fn try_from(value: u32) -> (r: Result<KeyMode, OpenLr2Error>)
        ensures
            match keymode_of_number(value) {
                Some(k) => r == Ok::<KeyMode, OpenLr2Error>(k),
                None => r matches Err(OpenLr2Error::BmsParse(m)) && m@
                    == unsupported_keymode_message(value),
            },
    {
        match value {
            5 => Ok(KeyMode::Keys5),
            7 => Ok(KeyMode::Keys7),
            9 => Ok(KeyMode::Keys9),
            10 => Ok(KeyMode::Keys10),
            14 => Ok(KeyMode::Keys14),
            _ => {
                let mut msg: Vec<char> = Vec::new();
                push_str(&mut msg, "unsupported keymode: ");
                push_decimal(&mut msg, value as u64);
                Err(OpenLr2Error::BmsParse(string_from_chars(msg.as_slice())))
            },
        }
    }
}

/// The total lane count is the lanes of one side, doubled for double play.
pub proof fn law_total_lanes_from_sides(k: KeyMode)
    ensures
        spec_total_lanes(k) == spec_lanes_per_player(k) * (if spec_is_double_play(k) {
            2usize
        } else {
            1usize
        }),
{
}

/// A key mode's number converts back to that key mode, and the numbers that
/// convert are exactly the numbers of key modes.
pub proof fn law_keymode_number_roundtrip(k: KeyMode, value: u32)
    ensures
        keymode_of_number(keymode_number(k)) == Some(k),
        keymode_of_number(value) matches Some(j) ==> keymode_number(j) == value,
{
}

} // verus!
