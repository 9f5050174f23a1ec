use vstd::prelude::*;
use vstd::string::StringExecFns;

verus! {

/// The distance measures the indexes can rank by.
#[derive(Debug, Clone, Copy, PartialEq, Eq, Structural)]
pub enum MetricsName {
    L2,
    Cosine,
}

/// Lower-case form of a text, as `str::to_lowercase` gives it
/// (Unicode default case mapping, independent of any locale).
pub uninterp spec fn lowercase(s: Seq<char>) -> Seq<char>;

/// `str::to_lowercase`.
#[verifier::external_body]
pub(crate) fn lowercase_text(s: &str) -> (r: String)
    ensures
        r@ == lowercase(s@),
{
    s.to_lowercase()
}

/// The metric named by an already lower-cased name: "l2" names L2, any
/// other text names the cosine distance.
pub open spec fn spec_metric_from_lowercase(lower: Seq<char>) -> MetricsName {
    if lower == "l2"@ {
        MetricsName::L2
    } else {
        MetricsName::Cosine
    }
}

/// Picks the metric for a name that is already in lower case.
pub fn metric_from_lowercase(lower: &str) -> (m: MetricsName)
    ensures
        m == spec_metric_from_lowercase(lower@),
{
    let l2 = String::from_str("l2");
    let given = lower.to_owned();
    if given == l2 {
        MetricsName::L2
    } else {
        MetricsName::Cosine
    }
}

/// Parses a metric name, ignoring case: "l2" gives L2, everything else the
/// cosine distance.
pub fn parse_metric_from_str(name: &str) -> (m: MetricsName)
    ensures
        m == spec_metric_from_lowercase(lowercase(name@)),
{
    let lower = lowercase_text(name);
    metric_from_lowercase(lower.as_str())
}

/// A distance measure.
pub struct Metric {
    name: MetricsName,
}

impl Metric {
    pub closed spec fn spec_name(&self) -> MetricsName {
        self.name
    }

    pub fn new(name: MetricsName) -> (m: Self)
        ensures
            m.spec_name() == name,
    {
        Self { name }
    }

    /// Which measure this is.
    pub fn name(&self) -> (n: MetricsName)
        ensures
            n == self.spec_name(),
    {
        self.name
    }
}

// Scores are single-precision floats carried by their IEEE-754 bit pattern.

/// The sign bit of a bit pattern.
pub open spec fn sign_set(b: u32) -> bool {
    b >= 0x8000_0000
}

/// The bit pattern without its sign bit.
pub open spec fn magnitude(b: u32) -> int {
    if sign_set(b) { b - 0x8000_0000 } else { b as int }
}

/// Whether the bit pattern is a NaN.
pub open spec fn is_nan(b: u32) -> bool {
    magnitude(b) > 0x7f80_0000
}

/// The position of a bit pattern in the IEEE-754 total order (`total_cmp`):
/// negative values by decreasing magnitude, then positive values by
/// increasing magnitude; -0 comes just before +0.
pub open spec fn total_key(b: u32) -> int {
    if sign_set(b) { 0xFFFF_FFFF - b } else { b + 0x8000_0000 }
}

/// IEEE-754 `a < b`: false when either is NaN, and -0 equals +0.
pub open spec fn float_lt(a: u32, b: u32) -> bool {
    &&& !is_nan(a)
    &&& !is_nan(b)
    &&& !(magnitude(a) == 0 && magnitude(b) == 0)
    &&& total_key(a) < total_key(b)
}

/// The bit pattern of positive infinity.
pub open spec fn spec_infinity() -> u32 {
    0x7f80_0000
}

pub fn infinity() -> (r: u32)
    ensures
        r == spec_infinity(),
{
    0x7f80_0000
}

/// The total-order position of a score.
pub fn score_key(b: u32) -> (k: u32)
    ensures
        k == total_key(b),
{
    if b >= 0x8000_0000 {
        0xFFFF_FFFF - b
    } else {
        b + 0x8000_0000
    }
}

/// `a` comes before `b` in the total order of floats.
pub fn total_less(a: u32, b: u32) -> (r: bool)
    ensures
        r == (total_key(a) < total_key(b)),
{
    score_key(a) < score_key(b)
}

fn magnitude_of(b: u32) -> (m: u32)
    ensures
        m == magnitude(b),
{
    if b >= 0x8000_0000 {
        b - 0x8000_0000
    } else {
        b
    }
}

/// IEEE-754 `a < b` on bit patterns.
pub fn float_less(a: u32, b: u32) -> (r: bool)
    ensures
        r == float_lt(a, b),
{
    let ma = magnitude_of(a);
    let mb = magnitude_of(b);
    if ma > 0x7f80_0000 || mb > 0x7f80_0000 {
        false
    } else if ma == 0 && mb == 0 {
        false
    } else {
        total_less(a, b)
    }
}

} // verus!
