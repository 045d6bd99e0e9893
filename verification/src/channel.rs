//! The data that goes in: channels, laps and the run, each with its model.

use vstd::prelude::*;
use crate::error::ExportError;
use crate::instant::{all_decodable, decode_instants, decode_stamps, decoded, first_invalid, stamped};

verus! {

/// A named, unit-tagged series of samples.
///
/// Sample `k` was taken at `times[k]`, in microseconds, which a table shows as
/// `stamps[k]`, and reads `values[k]`: the value as it is to appear in a cell. Where
/// the three lists differ in length, the series ends with the shortest.
#[derive(Debug)]
pub struct Channel {
    pub name: String,
    pub unit: String,
    pub times: Vec<i64>,
    pub stamps: Vec<String>,
    pub values: Vec<String>,
}

/// The channels recorded for one lap. `lap` counts from zero.
#[derive(Debug)]
pub struct LapData {
    pub lap: usize,
    pub channels: Vec<Channel>,
}

/// The laps of a run, in the order in which they are exported.
#[derive(Debug)]
pub struct ExportData {
    pub laps: Vec<LapData>,
}

/// The model of a channel.
#[verifier::ext_equal]
pub struct ChannelView {
    pub name: Seq<char>,
    pub unit: Seq<char>,
    pub times: Seq<i64>,
    pub stamps: Seq<Seq<char>>,
    pub values: Seq<Seq<char>>,
}

/// The model of a lap.
#[verifier::ext_equal]
pub struct LapView {
    pub lap: int,
    pub channels: Seq<ChannelView>,
}

impl ChannelView {
    /// The number of samples: every index below it has an instant, a stamp and a
    /// value.
    pub open spec fn count(self) -> int {
        let timed = if self.times.len() <= self.stamps.len() {
            self.times.len() as int
        } else {
            self.stamps.len() as int
        };
        if timed <= self.values.len() {
            timed
        } else {
            self.values.len() as int
        }
    }
}

impl View for Channel {
    type V = ChannelView;

    open spec fn view(&self) -> ChannelView {
        ChannelView {
            name: self.name@,
            unit: self.unit@,
            times: self.times@,
            stamps: self.stamps.deep_view(),
            values: self.values.deep_view(),
        }
    }
}

impl DeepView for Channel {
    type V = ChannelView;

    open spec fn deep_view(&self) -> ChannelView {
        self@
    }
}

impl View for LapData {
    type V = LapView;

    open spec fn view(&self) -> LapView {
        LapView { lap: self.lap as int, channels: self.channels.deep_view() }
    }
}

impl DeepView for LapData {
    type V = LapView;

    open spec fn deep_view(&self) -> LapView {
        self@
    }
}

impl View for ExportData {
    type V = Seq<LapView>;

    open spec fn view(&self) -> Seq<LapView> {
        self.laps.deep_view()
    }
}

impl Channel {
    /// A channel whose instants are given in seconds, each as the bits of a double.
    ///
    /// Fails where an entry of `seconds` stands for no instant, and then names the
    /// channel and the first such entry.
    pub fn from_seconds(name: String, unit: String, seconds: &Vec<u64>, values: Vec<String>) -> (result:
        Result<Channel, ExportError>)
        ensures
            result is Ok <==> all_decodable(seconds@),
            result matches Ok(channel) ==> {
                &&& channel@.name == name@
                &&& channel@.unit == unit@
                &&& channel@.values == values.deep_view()
                &&& decoded(seconds@, channel@.times)
                &&& stamped(seconds@, channel@.stamps)
            },
            result matches Err(e) ==> {
                &&& e matches ExportError::InvalidTimestamp { channel, sample }
                &&& channel@ == name@
                &&& first_invalid(seconds@, sample as int)
            },
    {
        match decode_instants(seconds) {
            Ok(times) => match decode_stamps(seconds) {
                Ok(stamps) => Ok(Channel { name, unit, times, stamps, values }),
                Err(sample) => Err(ExportError::InvalidTimestamp { channel: name, sample }),
            },
            Err(sample) => Err(ExportError::InvalidTimestamp { channel: name, sample }),
        }
    }

    /// The channel of one lap from what the catalog gave for it: the seconds of the
    /// samples, each as the bits of a double, and their values.
    ///
    /// Fails with a load failure, naming lap and channel, where the catalog gave
    /// nothing; and as [`Channel::from_seconds`] does where it gave an entry that
    /// stands for no instant.
    pub fn loaded(lap: usize, name: String, unit: String, loaded: Option<(Vec<u64>, Vec<String>)>) -> (result:
        Result<Channel, ExportError>)
        ensures
            match loaded {
                Some((seconds, values)) => {
                    &&& result is Ok <==> all_decodable(seconds@)
                    &&& result matches Ok(channel) ==> {
                        &&& channel@.name == name@
                        &&& channel@.unit == unit@
                        &&& channel@.values == values.deep_view()
                        &&& decoded(seconds@, channel@.times)
                        &&& stamped(seconds@, channel@.stamps)
                    }
                    &&& result matches Err(e) ==> {
                        &&& e matches ExportError::InvalidTimestamp { channel, sample }
                        &&& channel@ == name@
                        &&& first_invalid(seconds@, sample as int)
                    }
                },
                None => {
                    &&& result matches Err(e)
                    &&& e matches ExportError::LoadFailure { lap: l, channel }
                    &&& l == lap
                    &&& channel@ == name@
                },
            },
    {
        match loaded {
            Some((seconds, values)) => Channel::from_seconds(name, unit, &seconds, values),
            None => Err(ExportError::LoadFailure { lap, channel: name }),
        }
    }

    /// The number of samples.
    pub fn sample_count(&self) -> (n: usize)
        ensures
            n == self@.count(),
            n <= self.times.len(),
            n <= self.stamps.len(),
            n <= self.values.len(),
    {
        let timed: usize = if self.times.len() <= self.stamps.len() {
            self.times.len()
        } else {
            self.stamps.len()
        };
        if timed <= self.values.len() {
            timed
        } else {
            self.values.len()
        }
    }
}

} // verus!
