//! Signals: the values of a channel along the time axis of its group.
//!
//! Numbers are handed out as they are stored, together with the scaling that makes them
//! physical: to apply it is floating-point arithmetic, which callers do.
use vstd::prelude::*;

use crate::blocks::channel_block::{ChannelBlock, ChannelBlockView};
use crate::blocks::conversion::ConversionType;
use crate::parsing::decoder::{is_number, DecodedValue, DecodedView};

verus! {

/// How the stored values of a channel become physical ones.
#[derive(Debug, Clone, Copy, PartialEq, Eq, Structural)]
pub enum Scaling {
    /// The stored number is the physical one.
    Identity,
    /// `offset + factor * stored`, both given as bit patterns of 64-bit floating-point
    /// numbers.
    Linear { offset: u64, factor: u64 },
    /// The conversion rule at this address is to be applied.
    Conversion { address: u64 },
}

/// The scaling that the conversion rule of a channel asks for.
pub open spec fn scaling_of(channel: ChannelBlockView) -> Scaling {
    match channel.conversion {
        None => Scaling::Identity,
        Some(rule) => if rule.cc_type == ConversionType::Linear && rule.cc_val.len() >= 2 {
            Scaling::Linear { offset: rule.cc_val[0], factor: rule.cc_val[1] }
        } else if rule.cc_type == ConversionType::Identity {
            Scaling::Identity
        } else {
            Scaling::Conversion { address: channel.conversion_addr }
        },
    }
}

impl Scaling {
    /// The scaling that the conversion rule of a channel asks for.
    pub fn of(channel: &ChannelBlock) -> (scaling: Self)
        ensures
            scaling == scaling_of(channel.deep_view()),
    {
        match &channel.conversion {
            None => Scaling::Identity,
            Some(rule) => {
                if rule.cc_type == ConversionType::Linear && rule.cc_val.len() >= 2 {
                    Scaling::Linear { offset: rule.cc_val[0], factor: rule.cc_val[1] }
                } else if rule.cc_type == ConversionType::Identity {
                    Scaling::Identity
                } else {
                    Scaling::Conversion { address: channel.conversion_addr }
                }
            },
        }
    }
}

/// One numeric sample before scaling.
#[derive(Debug)]
pub enum Sample {
    /// The value is invalid, missing or no number.
    NotANumber,
    /// The stored value. It is a number, unless a conversion rule is to be applied to it.
    Stored(DecodedValue),
}

/// The content of a [`Sample`].
pub enum SampleView {
    NotANumber,
    Stored(DecodedView),
}

impl DeepView for Sample {
    type V = SampleView;

    open spec fn deep_view(&self) -> SampleView {
        match *self {
            Sample::NotANumber => SampleView::NotANumber,
            Sample::Stored(value) => SampleView::Stored(value.deep_view()),
        }
    }
}

impl Clone for Sample {
    fn clone(&self) -> (copy: Self)
        ensures
            copy.deep_view() == self.deep_view(),
    {
        match self {
            Sample::NotANumber => Sample::NotANumber,
            Sample::Stored(value) => Sample::Stored(value.clone()),
        }
    }
}

/// The numeric sample that a value of a channel gives.
pub open spec fn sample_of(scaling: Scaling, value: Option<DecodedView>) -> SampleView {
    match value {
        None => SampleView::NotANumber,
        Some(stored) => if scaling is Conversion || is_number(stored) {
            SampleView::Stored(stored)
        } else {
            SampleView::NotANumber
        },
    }
}

impl Sample {
    /// The numeric sample that a value of a channel gives.
    pub fn of(scaling: Scaling, value: Option<DecodedValue>) -> (sample: Self)
        ensures
            sample.deep_view() == sample_of(scaling, value.deep_view()),
    {
        match value {
            None => Sample::NotANumber,
            Some(stored) => {
                let convertible = match scaling {
                    Scaling::Conversion { address: _ } => true,
                    _ => false,
                };
                if convertible || stored.is_number() {
                    Sample::Stored(stored)
                } else {
                    Sample::NotANumber
                }
            },
        }
    }
}

/// Numeric samples that share one scaling.
#[derive(Debug)]
pub struct Series {
    pub scaling: Scaling,
    pub samples: Vec<Sample>,
}

/// The content of a [`Series`].
pub struct SeriesView {
    pub scaling: Scaling,
    pub samples: Seq<SampleView>,
}

impl DeepView for Series {
    type V = SeriesView;

    open spec fn deep_view(&self) -> SeriesView {
        SeriesView { scaling: self.scaling, samples: self.samples.deep_view() }
    }
}

impl Clone for Series {
    fn clone(&self) -> (copy: Self)
        ensures
            copy.deep_view() == self.deep_view(),
    {
        let samples = self.samples.clone();
        assert(samples.deep_view() =~= self.samples.deep_view());
        Series { scaling: self.scaling, samples }
    }
}

/// The numeric samples that the values of a channel give.
pub open spec fn samples_of(scaling: Scaling, values: Seq<Option<DecodedView>>) -> Seq<SampleView> {
    Seq::new(values.len(), |i: int| sample_of(scaling, values[i]))
}

/// The series that the values of a channel give.
pub open spec fn series_of(scaling: Scaling, values: Seq<Option<DecodedView>>) -> SeriesView {
    SeriesView { scaling, samples: samples_of(scaling, values) }
}

/// A series without samples.
pub open spec fn no_series() -> SeriesView {
    SeriesView { scaling: Scaling::Identity, samples: Seq::empty() }
}

impl Series {
    /// A series without samples.
    pub fn empty() -> (series: Self)
        ensures
            series.deep_view() == no_series(),
    {
        let samples: Vec<Sample> = Vec::new();
        assert(samples.deep_view() =~= Seq::empty());
        Series { scaling: Scaling::Identity, samples }
    }

    /// The series that the values of a channel give.
    pub fn of(scaling: Scaling, values: &Vec<Option<DecodedValue>>) -> (series: Self)
        ensures
            series.deep_view() == series_of(scaling, values.deep_view()),
    {
        let mut samples: Vec<Sample> = Vec::new();
        let mut i: usize = 0;
        while i < values.len()
            invariant
                i <= values.len(),
                samples@.len() == i,
                forall|k: int|
                    0 <= k < i ==> (#[trigger] samples@[k]).deep_view() == sample_of(
                        scaling,
                        values.deep_view()[k],
                    ),
            decreases values.len() - i,
        {
            let value = match &values[i] {
                None => None,
                Some(stored) => Some(stored.clone()),
            };
            assert(value.deep_view() == values.deep_view()[i as int]);
            samples.push(Sample::of(scaling, value));
            i = i + 1;
        }
        assert(samples.deep_view() =~= samples_of(scaling, values.deep_view()));
        Series { scaling, samples }
    }
}

/// The values of a channel, paired with the time axis of its group.
#[derive(Debug)]
pub struct Signal {
    pub name: String,
    pub unit: Option<String>,
    /// The master axis. Empty where the group has none, or the channel is the master.
    pub timestamps: Series,
    /// How the values become physical.
    pub scaling: Scaling,
    /// The values as they are stored; none where a value is invalid.
    pub values: Vec<Option<DecodedValue>>,
}

/// The content of a [`Signal`].
pub struct SignalView {
    pub name: Seq<char>,
    pub unit: Option<Seq<char>>,
    pub timestamps: SeriesView,
    pub scaling: Scaling,
    pub values: Seq<Option<DecodedView>>,
}

impl DeepView for Signal {
    type V = SignalView;

    open spec fn deep_view(&self) -> SignalView {
        SignalView {
            name: self.name@,
            unit: self.unit.deep_view(),
            timestamps: self.timestamps.deep_view(),
            scaling: self.scaling,
            values: self.values.deep_view(),
        }
    }
}

impl Signal {
    /// The values as numeric samples.
    pub fn values_f64(&self) -> (series: Series)
        ensures
            series.deep_view() == series_of(self.scaling, self.deep_view().values),
    {
        Series::of(self.scaling, &self.values)
    }

    /// Whether there is a time axis.
    pub fn has_timestamps(&self) -> (has: bool)
        ensures
            has == (self.deep_view().timestamps.samples.len() > 0),
    {
        self.timestamps.samples.len() > 0
    }
}

/// The numeric samples of a channel, paired with the time axis of its group.
#[derive(Debug)]
pub struct SignalF64 {
    pub name: String,
    pub unit: Option<String>,
    /// The master axis. Empty where the group has none, or the channel is the master.
    pub timestamps: Series,
    pub values: Series,
}

/// The content of a [`SignalF64`].
pub struct SignalF64View {
    pub name: Seq<char>,
    pub unit: Option<Seq<char>>,
    pub timestamps: SeriesView,
    pub values: SeriesView,
}

impl DeepView for SignalF64 {
    type V = SignalF64View;

    open spec fn deep_view(&self) -> SignalF64View {
        SignalF64View {
            name: self.name@,
            unit: self.unit.deep_view(),
            timestamps: self.timestamps.deep_view(),
            values: self.values.deep_view(),
        }
    }
}

impl Clone for SignalF64 {
    fn clone(&self) -> (copy: Self)
        ensures
            copy.deep_view() == self.deep_view(),
    {
        let unit = match &self.unit {
            None => None,
            Some(text) => Some(text.clone()),
        };
        SignalF64 {
            name: self.name.clone(),
            unit,
            timestamps: self.timestamps.clone(),
            values: self.values.clone(),
        }
    }
}

/// A signal with its values as numeric samples.
pub open spec fn numeric(signal: SignalView) -> SignalF64View {
    SignalF64View {
        name: signal.name,
        unit: signal.unit,
        timestamps: signal.timestamps,
        values: series_of(signal.scaling, signal.values),
    }
}

} // verus!
