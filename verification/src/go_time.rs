//! Instants as Go's clock reports them: a wall reading and, where both sides
//! have one, a monotonic reading that takes precedence.
use vstd::prelude::*;

verus! {

/// One captured Go instant.
#[derive(Clone, Copy, Debug, PartialEq, Eq, Structural)]
pub struct GoTime {
    /// Wall seconds since the first year.
    pub seconds: i64,
    /// Wall nanoseconds inside the second.
    pub nanos: u32,
    /// Location identity, which no comparison reads.
    pub location: u32,
    /// Monotonic nanoseconds, where the clock had them.
    pub monotonic: Option<i64>,
}

/// The nearest signed 64-bit integer.
pub open spec fn saturated(value: int) -> int {
    if value > i64::MAX {
        i64::MAX as int
    } else if value < i64::MIN {
        i64::MIN as int
    } else {
        value
    }
}

fn saturate(value: i128) -> (r: i64)
    ensures
        r == saturated(value as int),
{
    if value > i64::MAX as i128 {
        i64::MAX
    } else if value < i64::MIN as i128 {
        i64::MIN
    } else {
        value as i64
    }
}

impl GoTime {
    /// The wall reading in nanoseconds.
    pub open spec fn wall(self) -> int {
        self.seconds * 1_000_000_000 + self.nanos
    }

    /// The difference to another instant before it is fitted to a duration.
    pub open spec fn difference(self, other: GoTime) -> int {
        match (self.monotonic, other.monotonic) {
            (Some(a), Some(b)) => a - b,
            _ => self.wall() - other.wall(),
        }
    }

    /// An instant with a nanosecond part below one second.
    pub fn new(seconds: i64, nanos: u32, location: u32, monotonic: Option<i64>) -> (r: Option<
        GoTime,
    >)
        ensures
            r is Some <==> nanos < 1_000_000_000,
            r matches Some(t) ==> t == (GoTime { seconds, nanos, location, monotonic }),
    {
        if nanos < 1_000_000_000 {
            Some(GoTime { seconds, nanos, location, monotonic })
        } else {
            None
        }
    }

    fn wall_nanos(self) -> (r: i128)
        ensures
            r == self.wall(),
    {
        self.seconds as i128 * 1_000_000_000 + self.nanos as i128
    }

    fn raw_difference(self, other: GoTime) -> (r: i128)
        ensures
            r == self.difference(other),
    {
        match (self.monotonic, other.monotonic) {
            (Some(a), Some(b)) => a as i128 - b as i128,
            _ => self.wall_nanos() - other.wall_nanos(),
        }
    }

    /// The nanoseconds from another instant to this one, saturating.
    pub fn sub_nanoseconds(self, other: GoTime) -> (r: i64)
        ensures
            r == saturated(self.difference(other)),
    {
        saturate(self.raw_difference(other))
    }

    /// Whether this instant plus a duration lies after another instant.
    pub fn plus_is_after(self, nanoseconds: i64, other: GoTime) -> (r: bool)
        ensures
            r == (self.difference(other) + nanoseconds > 0),
    {
        self.raw_difference(other) + nanoseconds as i128 > 0
    }
}

/// Where both instants have a monotonic reading it alone decides their difference, and
/// otherwise the wall readings do; the location never does. Swapping the instants
/// negates the difference, and differences add up along readings of one kind.
pub proof fn law_differences(a: GoTime, b: GoTime, c: GoTime)
    ensures
        a.monotonic is Some && b.monotonic is Some ==> a.difference(b) == a.monotonic->0
            - b.monotonic->0,
        a.monotonic is None || b.monotonic is None ==> a.difference(b) == 1_000_000_000 * (a.seconds
            - b.seconds) + (a.nanos - b.nanos),
        a.difference(b) == -b.difference(a),
        a.monotonic is Some == b.monotonic is Some && b.monotonic is Some == c.monotonic is Some
            ==> a.difference(b) + b.difference(c) == a.difference(c),
{
}

/// Fitting a difference to a duration keeps it where it fits, keeps its sign, and never
/// reorders two of them.
pub proof fn law_saturation(x: int, y: int)
    ensures
        i64::MIN <= x <= i64::MAX ==> saturated(x) == x,
        i64::MIN <= saturated(x) <= i64::MAX,
        x > i64::MAX ==> saturated(x) == i64::MAX,
        x < i64::MIN ==> saturated(x) == i64::MIN,
        x <= y ==> saturated(x) <= saturated(y),
{
}

} // verus!
