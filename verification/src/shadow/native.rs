//! Native factor observations. These are bounded, owned diagnostic values;
//! they carry no production account, source, candidate or command capability.
//! The window history itself is kept by the caller: it computes a
//! [`Computation`] on a copy of its own and keeps that copy only when the
//! evaluation is accepted here.
use vstd::prelude::*;

use super::Epoch;
use crate::go_time::GoTime;
use crate::{charge, slices, texts};

verus! {

/// Validated process monotonic baseline.
#[derive(Clone, Copy, Debug, PartialEq, Eq, Structural)]
pub struct Origin {
    /// The baseline is synthetic.
    pub synthetic: bool,
    /// Monotonic nanoseconds at the baseline.
    pub baseline: i64,
}

/// Capturing compiler architecture.
#[derive(Clone, Copy, Debug, PartialEq, Eq, Structural)]
pub enum GoArch {
    /// 64-bit ARM.
    Arm64,
    /// 64-bit x86.
    Amd64,
}

/// Factory metadata before this native owner's first lifecycle event.
#[derive(Clone, Copy, Debug, PartialEq, Eq, Structural)]
pub struct Coverage {
    /// Complete owner identity; the origin is shared only within this process/nonce.
    pub epoch: Epoch,
    /// Validated process monotonic baseline.
    pub origin: Origin,
    /// Actual owner-local UTC identity of Go's initial zero time.
    pub zero_time: GoTime,
    /// Capturing compiler architecture, independent of the replay host.
    pub go_arch: GoArch,
}

/// The actual native method, including early exits and lifetime boundaries.
#[derive(Clone, Copy, Debug, PartialEq, Eq, Structural)]
pub enum Entry {
    /// Actual `Init` or `SetConfig` completion.
    Config,
    /// `BackendToRoute`.
    Route,
    /// `RouteableBackends`.
    Routeable,
    /// `BackendsToBalance`.
    Balance,
    /// Actual native policy Close.
    Close,
}

/// A balance factor.
#[derive(Clone, Copy, Debug, PartialEq, Eq, Structural)]
pub enum Factor {
    /// Business label.
    Label,
    /// Status.
    Status,
    /// Health.
    Health,
    /// Memory.
    Memory,
    /// Processor.
    Cpu,
    /// Locality.
    Location,
    /// Connection count.
    Connection,
}

/// A named native clock callsite.
#[derive(Clone, Copy, Debug, PartialEq, Eq, Structural)]
pub enum ClockSite {
    /// Metric emission cadence.
    MetricCadence,
    /// Status snapshot.
    StatusSnapshot,
    /// Expiry of a processor sample.
    CpuExpiry,
    /// Random selection.
    RandomTicket,
    /// Prefer-idle selection.
    PreferIdleTicket,
    /// Another callsite of a resource factor, by number.
    Resource(u8),
}

/// The actual Go result shape, including nonempty unsupported metric kinds.
#[derive(Clone, Copy, Debug, PartialEq, Eq, Structural)]
pub enum Shape {
    /// Nil interface.
    Nil,
    /// model.ValNone.
    NoValue,
    /// Matrix, including zero-length or typed-nil matrix.
    Matrix,
    /// Vector, including zero-length or typed-nil vector.
    Vector,
    /// Scalar; factors do not look up samples from it.
    Scalar,
    /// String; factors do not look up samples from it.
    Text,
}

/// Provenance from the same coherent source selection and getter return.
#[derive(Clone, Copy, Debug, PartialEq, Eq, Structural)]
pub struct Provenance {
    /// Cluster reader incarnation.
    pub cluster: u64,
    /// Source-mode generation; initial no-source may be zero.
    pub generation: u64,
    /// None, Prometheus, or backend producer (0, 1, 2).
    pub source: u8,
    /// Actual selected producer; absent only for no-source.
    pub producer: u64,
    /// Registration that originally produced a retained result.
    pub registration: u64,
    /// Original result publication.
    pub publication: u64,
    /// Registration present at this getter, possibly zero after unregister.
    pub read_registration: u64,
}

/// One sample pair, with the IEEE bits of its value.
#[derive(Clone, Copy, Debug, PartialEq, Eq, Structural)]
pub struct Sample {
    /// Sample time.
    pub milliseconds: i64,
    /// IEEE bits of the sample value.
    pub bits: u64,
}

/// The fixed two-label projection avoids an unbounded or overallocated label map.
#[derive(Clone, Debug)]
pub struct Series {
    /// Absent and present-empty instance labels remain distinct.
    pub instance: Option<String>,
    /// Absent cluster labels match any cluster, as in Go.
    pub cluster: Option<String>,
    /// Complete original sample order, including IEEE NaN values.
    pub samples: Vec<Sample>,
}

/// One copied result, with first-match order and all allowlisted sample pairs.
#[derive(Clone, Debug)]
pub struct QueryRead {
    /// One of the six native query keys, by number.
    pub query: u8,
    /// Raw Go update-time identity, independent of publication identity.
    pub time: GoTime,
    /// Exact getter provenance.
    pub provenance: Provenance,
    /// Actual result kind.
    pub shape: Shape,
    /// Distinguishes a typed nil from an allocated empty value.
    pub typed_nil: bool,
    /// Go's output; the comparer must recompute it from shape and series.
    pub empty: bool,
    /// Original order; only instance/cluster labels are permitted.
    pub series: Vec<Series>,
}

/// Only clock and query items belong to this ordered tape.
#[derive(Clone, Debug)]
pub enum Read {
    /// One actual named clock read.
    Clock {
        /// Native callsite.
        site: ClockSite,
        /// Zero-based occurrence of this same site.
        ordinal: u16,
        /// Value used by Go at that callsite.
        time: GoTime,
    },
    /// Actual query return, never an end-of-evaluation snapshot.
    Query(QueryRead),
}

/// Values applied by the native factor objects at this configuration boundary.
#[derive(Clone, Debug, PartialEq, Eq)]
pub struct Configuration {
    /// Resource, Location or Connection.
    pub balance: String,
    /// Prefer-idle, random or idlest.
    pub routing: String,
    /// Actual business-label key.
    pub label: String,
    /// Actual retained self-label value of the label factor.
    pub self_label: String,
    /// IEEE bits for status, health, memory, CPU, location and connection rates.
    pub rates: [u64; 6],
    /// IEEE bits of the connection ratio used by the factor.
    pub count_ratio: u64,
}

/// What [`Configuration`] holds.
#[verifier::ext_equal]
pub struct ConfigurationModel {
    /// Resource, Location or Connection.
    pub balance: Seq<char>,
    /// Prefer-idle, random or idlest.
    pub routing: Seq<char>,
    /// Actual business-label key.
    pub label: Seq<char>,
    /// Actual retained self-label value of the label factor.
    pub self_label: Seq<char>,
    /// IEEE bits of the six factor rates.
    pub rates: Seq<u64>,
    /// IEEE bits of the connection ratio.
    pub count_ratio: u64,
}

impl View for Configuration {
    type V = ConfigurationModel;

    open spec fn view(&self) -> ConfigurationModel {
        ConfigurationModel {
            balance: self.balance@,
            routing: self.routing@,
            label: self.label@,
            self_label: self.self_label@,
            rates: self.rates@,
            count_ratio: self.count_ratio,
        }
    }
}

impl ConfigurationModel {
    /// The balance and routing policies are ones that the factors know.
    pub open spec fn known(self) -> bool {
        &&& self.balance == "resource"@ || self.balance == "location"@ || self.balance
            == "connection"@
        &&& self.routing == "prefer-idle"@ || self.routing == "idlest"@ || self.routing
            == "random"@
    }

    /// The bytes of the names that a retained copy owns.
    pub open spec fn name_bytes(self) -> nat {
        texts::bytes(self.balance).len() + texts::bytes(self.routing).len() + texts::bytes(
            self.label,
        ).len() + texts::bytes(self.self_label).len()
    }
}

impl Configuration {
    /// Whether the policy names are known to the factors.
    pub fn known(&self) -> (r: bool)
        ensures
            r == self@.known(),
    {
        (self.balance == "resource".to_owned() || self.balance == "location".to_owned()
            || self.balance == "connection".to_owned()) && (self.routing == "prefer-idle".to_owned()
            || self.routing == "idlest".to_owned() || self.routing == "random".to_owned())
    }

    /// An equal configuration.
    pub fn duplicate(&self) -> (r: Self)
        ensures
            r@ == self@,
    {
        let r = Configuration {
            balance: self.balance.clone(),
            routing: self.routing.clone(),
            label: self.label.clone(),
            self_label: self.self_label.clone(),
            rates: self.rates,
            count_ratio: self.count_ratio,
        };
        assert(r@ =~= self@);
        r
    }

    /// Whether two configurations are equal.
    pub fn same(&self, other: &Configuration) -> (r: bool)
        ensures
            r == (self@ == other@),
    {
        let equal = self.balance == other.balance && self.routing == other.routing && self.label
            == other.label && self.self_label == other.self_label && self.count_ratio
            == other.count_ratio && slices::same(&self.rates, &other.rates);
        proof {
            if equal {
                assert(self@ =~= other@);
            }
        }
        equal
    }

    /// The bytes of the names that a retained copy owns.
    pub fn name_length(&self) -> (r: usize)
        ensures
            r == charge::clamp(self@.name_bytes()),
    {
        texts::length(&self.balance).saturating_add(texts::length(&self.routing)).saturating_add(
            texts::length(&self.label),
        ).saturating_add(texts::length(&self.self_label))
    }
}

/// One bounded backend projection, separate from the independently derived ledger.
#[derive(Clone, Debug)]
pub struct Account {
    /// Diagnostic account incarnation that must already exist in the ledger.
    pub account: u64,
    /// Actual getter presence mask: ID, addr, physical, score, healthy, local,
    /// keyspace and backend info, in that order.
    pub seen: u16,
    /// Actual Go cache key.
    pub id: String,
    /// Actual address used in metric-instance lookup.
    pub addr: String,
    /// Actual authoritative keyspace getter value, if read.
    pub keyspace: String,
    /// Actual status-host IP in backend info.
    pub ip: String,
    /// Actual, unnormalized cluster name.
    pub cluster: String,
    /// Only the configured backend label.
    pub label: String,
    /// Distinguishes absent and empty configured labels.
    pub label_present: bool,
    /// Actual backend status port.
    pub status_port: u64,
    /// Actual physical count, checked against the mirror when read.
    pub physical: i64,
    /// Actual signed score count, checked against the mirror when read.
    pub score_count: i64,
    /// Actual healthy/failover verdict, if read.
    pub healthy: bool,
    /// Actual locality, if read.
    pub local: bool,
    /// Go output segments, kept separate from score inputs.
    pub parts: Vec<u64>,
    /// Go output packed score.
    pub packed: u64,
    /// Actual routeability output.
    pub routeable: bool,
    /// Whether routeability was actually called for this account.
    pub routeability_seen: bool,
}

/// Actual advice call, using input-array account indices.
#[derive(Clone, Copy, Debug, PartialEq, Eq, Structural)]
pub struct Advice {
    /// Factor called by the actual priority walk.
    pub factor: Factor,
    /// Source input index.
    pub from: u8,
    /// Target input index.
    pub to: u8,
    /// Go enum: neutral=0, negative=1, positive=2.
    pub advice: u8,
    /// IEEE bits of the returned rate.
    pub count: u64,
}

/// A factor and the bits that its score takes.
#[derive(Clone, Copy, Debug, PartialEq, Eq, Structural)]
pub struct FactorWidth {
    /// The factor.
    pub factor: Factor,
    /// Its width.
    pub bits: u8,
}

/// A complete native method return, with no partial comparison credit.
#[derive(Clone, Debug)]
pub struct Evaluation {
    /// Complete owner identity.
    pub epoch: Epoch,
    /// One contiguous owner sequence, assigned after native return.
    pub sequence: u64,
    /// Existing group incarnation.
    pub group: u64,
    /// Native policy incarnation, fixed before Init.
    pub policy: u64,
    /// Actual config application identity.
    pub config: u64,
    /// Private resource-factor lifetime; zero while Connection is applied.
    pub resource: u64,
    /// Checked local evaluation counter.
    pub evaluation: u64,
    /// Actual entrypoint.
    pub entry: Entry,
    /// Actual configured factor values.
    pub configuration: Configuration,
    /// Actual factor order and bit widths.
    pub factors: Vec<FactorWidth>,
    /// Original input order, with at most 64 accounts.
    pub accounts: Vec<Account>,
    /// At most 128 ordered query/clock items and 64 clocks.
    pub reads: Vec<Read>,
    /// Proposed tie-order witness; validate only after independent scoring.
    pub sorted: Vec<u8>,
    /// Actual advice call order, kept separate from input state.
    pub advice: Vec<Advice>,
    /// Actual returned input indices.
    pub returned: Vec<u8>,
    /// Returned migration source, or -1.
    pub from: i16,
    /// Returned migration target, or -1.
    pub to: i16,
    /// IEEE bits of the actual balance rate.
    pub balance_count: u64,
    /// Actual reason, absent when no factor selected a pair.
    pub reason: Option<Factor>,
}

/// Reason a native evaluation cannot qualify.
#[derive(Clone, Copy, Debug, PartialEq, Eq, Structural)]
pub enum Failure {
    /// Missing, reordered or excess reads.
    Reads,
    /// Invalid input values.
    Values,
    /// Discontinuous policy/config/resource history.
    Lifetime,
    /// Independently computed output differs.
    Output,
}

/// An independently computed balance rate: its IEEE bits, and the interval of
/// its reciprocal in nanoseconds as the capturing architecture casts it.
#[derive(Clone, Copy, Debug, PartialEq, Eq, Structural)]
pub struct BalanceRate {
    /// IEEE bits of the rate.
    pub bits: u64,
    /// The cast interval.
    pub interval: i64,
}

/// Whether IEEE bits are those of a zero of either sign.
pub open spec fn zero_bits(bits: u64) -> bool {
    bits == 0 || bits == 0x8000_0000_0000_0000
}

/// Decide [`zero_bits`].
pub fn is_zero_bits(bits: u64) -> (r: bool)
    ensures
        r == zero_bits(bits),
{
    bits == 0 || bits == 0x8000_0000_0000_0000
}

} // verus!
