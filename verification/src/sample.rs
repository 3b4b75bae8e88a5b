//! Samples: what one poll finds for one series.
use vstd::prelude::*;

use crate::unit::Unit;

verus! {

/// One sample of one series.
pub struct Sample<T> {
    /// The label of the series.
    pub label: String,
    /// What it is measured in.
    pub unit: Unit,
    /// Its value.
    pub value: T,
}

/// A value as its source gives it, before it is worked out as a number.
pub enum Quantity {
    /// The IEEE 754 double with this bit pattern.
    Double(u64),
    /// The number that a text denotes. A text that denotes none gives no sample.
    Decimal(String),
    /// The share of `total` ticks, in percent, that were not idle; zero where no
    /// ticks have passed.
    Busy {
        /// Ticks spent idle.
        idle: u64,
        /// All ticks.
        total: u64,
    },
    /// The share of `size`, in percent, that is not available, where each text
    /// that denotes no number counts as zero. A size that is not positive gives
    /// no sample.
    Used {
        /// What there is.
        size: String,
        /// What of it is available.
        available: Option<String>,
    },
    /// Bytes per second; zero where no time has passed.
    Rate {
        /// Bytes moved.
        bytes: u64,
        /// Milliseconds in which they moved.
        millis: u64,
    },
}

/// What a `Quantity` says.
pub enum Amount {
    /// The IEEE 754 double with this bit pattern.
    Double(u64),
    /// The number that a text denotes.
    Decimal(Seq<char>),
    /// The share of ticks that were not idle.
    Busy {
        /// Ticks spent idle.
        idle: u64,
        /// All ticks.
        total: u64,
    },
    /// The share that is not available.
    Used {
        /// What there is.
        size: Seq<char>,
        /// What of it is available.
        available: Option<Seq<char>>,
    },
    /// Bytes per second; zero where no time has passed.
    Rate {
        /// Bytes moved.
        bytes: u64,
        /// Milliseconds in which they moved.
        millis: u64,
    },
}

impl View for Quantity {
    type V = Amount;

    open spec fn view(&self) -> Amount {
        match *self {
            Quantity::Double(b) => Amount::Double(b),
            Quantity::Decimal(t) => Amount::Decimal(t@),
            Quantity::Busy { idle, total } => Amount::Busy { idle, total },
            Quantity::Used { size, available } => Amount::Used {
                size: size@,
                available: match available {
                    Some(a) => Some(a@),
                    None => None,
                },
            },
            Quantity::Rate { bytes, millis } => Amount::Rate { bytes, millis },
        }
    }
}

/// What one sample of one series says.
pub struct Reading {
    /// The label of the series.
    pub label: Seq<char>,
    /// What it is measured in.
    pub unit: Unit,
    /// Its value.
    pub amount: Amount,
}

impl Sample<Quantity> {
    /// What the sample says.
    pub open spec fn reading(self) -> Reading {
        Reading { label: self.label@, unit: self.unit, amount: self.value@ }
    }
}

/// What samples say, in order.
pub open spec fn readings(samples: Seq<Sample<Quantity>>) -> Seq<Reading> {
    samples.map_values(|s: Sample<Quantity>| s.reading())
}

/// Adds one sample to those there are.
pub(crate) fn add_sample(out: &mut Vec<Sample<Quantity>>, label: String, unit: Unit, value: Quantity)
    ensures
        readings(final(out)@) == readings(old(out)@).push(
            Reading { label: label@, unit, amount: value@ },
        ),
{
    let ghost r = Reading { label: label@, unit, amount: value@ };
    out.push(Sample { label, unit, value });
    assert(readings(out@) =~= readings(old(out)@).push(r));
}

/// There is one reading for each sample, in order: its label, its unit, its value.
pub proof fn lemma_one_reading_per_sample(samples: Seq<Sample<Quantity>>, i: int)
    requires
        0 <= i < samples.len(),
    ensures
        readings(samples).len() == samples.len(),
        readings(samples)[i].label == samples[i].label@,
        readings(samples)[i].unit == samples[i].unit,
        readings(samples)[i].amount == samples[i].value@,
{
}

/// A value is told as it is.
pub proof fn lemma_values_are_told(text: String, other: Option<String>, a: u64, b: u64)
    ensures
        Quantity::Double(a)@ == Amount::Double(a),
        Quantity::Decimal(text)@ == Amount::Decimal(text@),
        (Quantity::Busy { idle: a, total: b })@ == (Amount::Busy { idle: a, total: b }),
        (Quantity::Rate { bytes: a, millis: b })@ == (Amount::Rate { bytes: a, millis: b }),
        (Quantity::Used { size: text, available: other })@ matches Amount::Used {
            size,
            available,
        } && size == text@ && (other matches Some(o) ==> available == Some(o@)) && (other is None
            ==> available is None),
{
}

} // verus!
