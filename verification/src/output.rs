use vstd::prelude::*;

use crate::playlist::Stream;

verus! {

/// A display record for one variant: its label, picture size, and the
/// reported bandwidth.
#[derive(Debug, Clone, PartialEq)]
pub struct Item {
    pub quality: String,
    pub resolution: String,
    pub bitrate: String,
}

impl core::convert::From<Stream> for Item {
    fn from(s: Stream) -> (r: Item) {
        Item { quality: s.ty, resolution: s.resolution, bitrate: s.bandwidth }
    }
}

impl vstd::std_specs::convert::FromSpecImpl<Stream> for Item {
    open spec fn obeys_from_spec() -> bool {
        true
    }

    open spec fn from_spec(s: Stream) -> Item {
        Item { quality: s.ty, resolution: s.resolution, bitrate: s.bandwidth }
    }
}

/// How the program presents its result, decided by the `json` and `list`
/// flags and whether one quality was asked for.
#[derive(Debug, Clone, Copy, PartialEq, Eq, Structural)]
pub enum Output {
    PrintAll,
    PrintAllJson,
    PrintOne,
    PrintOneJson,
    PrintStreamsJson,
    OpenPlayer,
}

pub open spec fn spec_output(json: bool, list: bool, is_singular: bool) -> Output {
    match (json, list, is_singular) {
        (false, true, false) => Output::PrintAll,
        (false, true, true) => Output::PrintOne,
        (true, true, true) => Output::PrintOneJson,
        (true, true, false) => Output::PrintAllJson,
        (true, false, _) => Output::PrintStreamsJson,
        _ => Output::OpenPlayer,
    }
}

impl Output {
    pub fn from_args(json: bool, list: bool, is_singular: bool) -> (r: Self)
        ensures
            r == spec_output(json, list, is_singular),
    {
        match (json, list, is_singular) {
            (false, true, false) => Output::PrintAll,
            (false, true, true) => Output::PrintOne,
            (true, true, true) => Output::PrintOneJson,
            (true, true, false) => Output::PrintAllJson,
            (true, false, _) => Output::PrintStreamsJson,
            _ => Output::OpenPlayer,
        }
    }
}

} // verus!
