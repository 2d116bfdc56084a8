//! Exact native adapters for the shared pure factor history. No authority or
//! production callback is constructed while consuming these captured values.
use vstd::prelude::*;

use super::native::{
    is_zero_bits, Account, Advice, BalanceRate, ClockSite, Configuration, ConfigurationModel, Coverage,
    Entry, Evaluation, Factor, FactorWidth, Failure, QueryRead, Read, Shape,
};
use super::native_values::{
    USES_ADDRESS, USES_HEALTH, USES_ID, USES_INFO, USES_LOCAL, USES_PHYSICAL, USES_SCORE,
};
use super::{native, Epoch};
use crate::go_time::GoTime;
use crate::{charge, go_time, slices, texts};

verus! {

impl QueryRead {
    /// Whether the result holds no value that a factor could look up.
    pub open spec fn holds_nothing(self) -> bool {
        ||| self.typed_nil
        ||| self.shape is Nil
        ||| self.shape is NoValue
        ||| (self.shape is Matrix || self.shape is Vector) && self.series@.len() == 0
    }

    /// Recompute Go's emptiness verdict from shape and series.
    pub fn is_empty(&self) -> (r: bool)
        ensures
            r == self.holds_nothing(),
    {
        self.typed_nil || match self.shape {
            Shape::Nil | Shape::NoValue => true,
            Shape::Matrix | Shape::Vector => self.series.len() == 0,
            _ => false,
        }
    }
}

/// Scores are published when this many nanoseconds have passed.
pub const CADENCE_NANOS: i64 = 10_000_000_000;

/// One read that a computation asks of the tape.
#[derive(Clone, Copy, Debug, PartialEq, Eq, Structural)]
pub enum Demand {
    /// A named clock.
    Clock(ClockSite),
    /// A query, by number.
    Query(u8),
}

/// How often a clock was asked for among the first demands.
pub open spec fn asked(demands: Seq<Demand>, count: int, site: ClockSite) -> nat
    decreases count,
{
    if count <= 0 {
        0
    } else {
        asked(demands, count - 1, site) + if demands[count - 1] == Demand::Clock(site) {
            1nat
        } else {
            0nat
        }
    }
}

/// Whether a read is the given occurrence of a named clock.
pub open spec fn is_clock(read: Read, site: ClockSite, ordinal: nat) -> bool {
    read matches Read::Clock { site: actual, ordinal: at, .. } && actual == site && at == ordinal
}

/// Whether the read at an index answers the demand at that index.
pub open spec fn answers(reads: Seq<Read>, demands: Seq<Demand>, index: int) -> bool {
    match demands[index] {
        Demand::Clock(site) => is_clock(reads[index], site, asked(demands, index, site)),
        Demand::Query(id) => reads[index] matches Read::Query(query) && query.query == id
            && query.empty == query.holds_nothing(),
    }
}

/// Whether the tape starts with an answer to each demand, in order.
pub open spec fn supplied(reads: Seq<Read>, demands: Seq<Demand>) -> bool {
    &&& demands.len() <= reads.len()
    &&& forall|i: int| 0 <= i < demands.len() ==> #[trigger] answers(reads, demands, i)
}

fn count_asked(demands: &Vec<Demand>, count: usize, site: ClockSite) -> (r: usize)
    requires
        count <= demands@.len(),
    ensures
        r == asked(demands@, count as int, site),
        r <= count,
{
    let mut index: usize = 0;
    let mut total: usize = 0;
    while index < count
        invariant
            index <= count <= demands@.len(),
            total == asked(demands@, index as int, site),
            total <= index,
        decreases count - index,
    {
        if demands[index] == Demand::Clock(site) {
            total = total + 1;
        }
        index = index + 1;
    }
    total
}

fn clock_matches(read: &Read, site: ClockSite, ordinal: usize) -> (r: bool)
    ensures
        r == is_clock(*read, site, ordinal as nat),
{
    match read {
        Read::Clock { site: actual, ordinal: at, .. } => *actual == site && *at as usize == ordinal,
        Read::Query(_) => false,
    }
}

/// Decide [`supplied`].
pub fn is_supplied(reads: &Vec<Read>, demands: &Vec<Demand>) -> (r: bool)
    ensures
        r == supplied(reads@, demands@),
{
    if demands.len() > reads.len() {
        return false;
    }
    let mut index: usize = 0;
    while index < demands.len()
        invariant
            index <= demands@.len() <= reads@.len(),
            forall|i: int| 0 <= i < index ==> #[trigger] answers(reads@, demands@, i),
        decreases demands@.len() - index,
    {
        let answered = match demands[index] {
            Demand::Clock(site) => clock_matches(
                &reads[index],
                site,
                count_asked(demands, index, site),
            ),
            Demand::Query(id) => match &reads[index] {
                Read::Query(query) => query.query == id && query.empty == query.is_empty(),
                Read::Clock { .. } => false,
            },
        };
        assert(answered == answers(reads@, demands@, index as int));
        if !answered {
            return false;
        }
        index = index + 1;
    }
    true
}

/// The independently computed scores of one account.
#[derive(Clone, Debug)]
pub struct Row {
    /// Packed score.
    pub score: u64,
    /// Score segments in factor order.
    pub parts: Vec<u64>,
    /// Whether the account may be routed to.
    pub routeable: bool,
}

/// One independently computed advice.
#[derive(Clone, Copy, Debug, PartialEq, Eq, Structural)]
pub struct ComputedAdvice {
    /// Position of the source in score order; the target is the first.
    pub position: usize,
    /// Factor called.
    pub factor: Factor,
    /// Neutral=0, negative=1, positive=2.
    pub advice: u8,
    /// The captured rate agrees with the computed one.
    pub rate_matches: bool,
}

/// The independently computed migration pair.
#[derive(Clone, Copy, Debug, PartialEq, Eq, Structural)]
pub struct ComputedPair {
    /// Position of the source in score order; the target is the first.
    pub position: usize,
    /// Deciding factor.
    pub factor: Factor,
    /// The computed rate.
    pub rate: BalanceRate,
    /// The captured rate agrees with the computed one.
    pub rate_matches: bool,
}

/// What the factor arithmetic gives for one evaluation, computed from its
/// inputs alone. Where no advice, pair or choice is asked for, the parts on it
/// are not read.
#[derive(Clone, Debug)]
pub struct Computation {
    /// Factor order and widths of the configuration.
    pub order: Vec<FactorWidth>,
    /// Reads that the window history of each factor asks for, by the factor's
    /// place in the order.
    pub windows: Vec<Vec<Demand>>,
    /// Getters that the window histories used of each account.
    pub used: Vec<u16>,
    /// One row for each account, in input order.
    pub rows: Vec<Row>,
    /// Advice calls in their order.
    pub advice: Vec<ComputedAdvice>,
    /// Positions whose connections the search for a pair looked at.
    pub asked: Vec<usize>,
    /// The migration pair.
    pub pair: Option<ComputedPair>,
    /// Positions among which prefer-idle selection draws.
    pub preferred: Vec<usize>,
    /// The drawn choice.
    pub ticket: usize,
    /// Bytes of the window history after this evaluation.
    pub history_bytes: usize,
}

impl Computation {
    /// The computation is about as many accounts as the evaluation, and names
    /// only their positions.
    pub open spec fn fits(self, accounts: nat) -> bool {
        &&& self.windows@.len() == self.order@.len()
        &&& self.rows@.len() == accounts
        &&& self.used@.len() == accounts
        &&& forall|i: int| 0 <= i < self.advice@.len() ==> (#[trigger] self.advice@[i]).position < accounts
        &&& forall|i: int| 0 <= i < self.asked@.len() ==> #[trigger] self.asked@[i] < accounts
        &&& self.pair matches Some(pair) ==> pair.position < accounts
        &&& forall|i: int| 0 <= i < self.preferred@.len() ==> #[trigger] self.preferred@[i] < accounts
    }

    /// Decide [`Computation::fits`].
    pub fn is_for(&self, accounts: usize) -> (r: bool)
        ensures
            r == self.fits(accounts as nat),
    {
        if self.windows.len() != self.order.len() || self.rows.len() != accounts || self.used.len()
            != accounts {
            return false;
        }
        if let Some(pair) = self.pair {
            if pair.position >= accounts {
                return false;
            }
        }
        let mut index: usize = 0;
        while index < self.advice.len()
            invariant
                index <= self.advice@.len(),
                forall|i: int| 0 <= i < index ==> (#[trigger] self.advice@[i]).position < accounts,
            decreases self.advice@.len() - index,
        {
            if self.advice[index].position >= accounts {
                assert(self.advice@[index as int].position >= accounts);
                return false;
            }
            index = index + 1;
        }
        let mut look: usize = 0;
        while look < self.asked.len()
            invariant
                look <= self.asked@.len(),
                forall|i: int| 0 <= i < look ==> #[trigger] self.asked@[i] < accounts,
            decreases self.asked@.len() - look,
        {
            if self.asked[look] >= accounts {
                assert(self.asked@[look as int] >= accounts);
                return false;
            }
            look = look + 1;
        }
        let mut choice: usize = 0;
        while choice < self.preferred.len()
            invariant
                choice <= self.preferred@.len(),
                forall|i: int| 0 <= i < choice ==> #[trigger] self.preferred@[i] < accounts,
            decreases self.preferred@.len() - choice,
        {
            if self.preferred[choice] >= accounts {
                assert(self.preferred@[choice as int] >= accounts);
                return false;
            }
            choice = choice + 1;
        }
        true
    }
}

/// The reads that scoring one factor asks for: the status factor takes a
/// snapshot of the time, and windows are extended only where there are several
/// accounts.
pub open spec fn factor_demands(factor: Factor, window: Seq<Demand>, several: bool) -> Seq<Demand> {
    match factor {
        Factor::Status => seq![Demand::Clock(ClockSite::StatusSnapshot)],
        Factor::Health | Factor::Memory | Factor::Cpu => if several {
            window
        } else {
            seq![]
        },
        _ => seq![],
    }
}

/// The reads that scoring asks for up to the first factors: the cadence clock,
/// then those of each factor in order.
pub open spec fn demanded(c: Computation, several: bool, count: int) -> Seq<Demand>
    decreases count,
{
    if count <= 0 {
        seq![Demand::Clock(ClockSite::MetricCadence)]
    } else {
        demanded(c, several, count - 1) + factor_demands(
            c.order@[count - 1].factor,
            c.windows@[count - 1]@,
            several,
        )
    }
}

/// All reads that scoring asks for.
pub open spec fn demands_of(e: Evaluation, c: Computation) -> Seq<Demand> {
    demanded(c, e.accounts@.len() > 1, c.order@.len() as int)
}

fn gather(e: &Evaluation, c: &Computation) -> (r: Vec<Demand>)
    requires
        c.windows@.len() == c.order@.len(),
    ensures
        r@ == demands_of(*e, *c),
        r@.len() > 0,
        r@[0] == Demand::Clock(ClockSite::MetricCadence),
{
    let several = e.accounts.len() > 1;
    let mut demands: Vec<Demand> = Vec::new();
    demands.push(Demand::Clock(ClockSite::MetricCadence));
    let mut index: usize = 0;
    assert(demands@ =~= demanded(*c, several, 0));
    while index < c.order.len()
        invariant
            c.windows@.len() == c.order@.len(),
            index <= c.order@.len(),
            demands@ == demanded(*c, several, index as int),
            demands@.len() > 0,
            demands@[0] == Demand::Clock(ClockSite::MetricCadence),
        decreases c.order@.len() - index,
    {
        let ghost before = demands@;
        match c.order[index].factor {
            Factor::Status => {
                demands.push(Demand::Clock(ClockSite::StatusSnapshot));
            },
            Factor::Health | Factor::Memory | Factor::Cpu => {
                if several {
                    let window = &c.windows[index];
                    let mut at: usize = 0;
                    assert(demands@ =~= before + window@.take(0));
                    while at < window.len()
                        invariant
                            at <= window@.len(),
                            demands@ == before + window@.take(at as int),
                        decreases window@.len() - at,
                    {
                        demands.push(window[at]);
                        assert(demands@ =~= before + window@.take(at + 1));
                        at = at + 1;
                    }
                    assert(window@.take(window@.len() as int) =~= window@);
                }
            },
            _ => {},
        }
        assert(demands@ =~= demanded(*c, several, index + 1));
        index = index + 1;
    }
    demands
}

/// Whether a proposed tie order is a permutation that never lowers the score.
pub open spec fn ranked(sorted: Seq<u8>, rows: Seq<Row>) -> bool {
    &&& sorted.len() == rows.len()
    &&& forall|i: int| 0 <= i < sorted.len() ==> (#[trigger] sorted[i]) < rows.len()
    &&& forall|i: int, j: int|
        0 <= i < j < sorted.len() ==> #[trigger] sorted[i] != #[trigger] sorted[j]
            && rows[sorted[i] as int].score <= rows[sorted[j] as int].score
}

/// Decide [`ranked`].
pub fn is_ranked(sorted: &Vec<u8>, rows: &Vec<Row>) -> (r: bool)
    ensures
        r == ranked(sorted@, rows@),
{
    if sorted.len() != rows.len() {
        return false;
    }
    let mut index: usize = 0;
    while index < sorted.len()
        invariant
            sorted@.len() == rows@.len(),
            index <= sorted@.len(),
            forall|i: int| 0 <= i < index ==> (#[trigger] sorted@[i]) < rows@.len(),
            forall|i: int, j: int|
                0 <= i < j < index ==> #[trigger] sorted@[i] != #[trigger] sorted@[j]
                    && rows@[sorted@[i] as int].score <= rows@[sorted@[j] as int].score,
        decreases sorted@.len() - index,
    {
        let at = sorted[index] as usize;
        if at >= rows.len() {
            assert(sorted@[index as int] >= rows@.len());
            return false;
        }
        let mut earlier: usize = 0;
        while earlier < index
            invariant
                earlier <= index < sorted@.len(),
                sorted@.len() == rows@.len(),
                at == sorted@[index as int],
                at < rows@.len(),
                forall|i: int| 0 <= i < index ==> (#[trigger] sorted@[i]) < rows@.len(),
                forall|i: int|
                    0 <= i < earlier ==> #[trigger] sorted@[i] != sorted@[index as int]
                        && rows@[sorted@[i] as int].score <= rows@[at as int].score,
            decreases index - earlier,
        {
            let before = sorted[earlier] as usize;
            if before == at || rows[before].score > rows[at].score {
                assert(sorted@[earlier as int] == sorted@[index as int] || rows@[sorted@[earlier as int] as int].score
                    > rows@[sorted@[index as int] as int].score);
                return false;
            }
            earlier = earlier + 1;
        }
        index = index + 1;
    }
    true
}

/// Whether the account at a position of the score order is routeable.
pub open spec fn routeable_at(sorted: Seq<u8>, rows: Seq<Row>, position: int) -> bool {
    rows[sorted[position] as int].routeable
}

/// The routeable positions among the first ones.
pub open spec fn choices(sorted: Seq<u8>, rows: Seq<Row>, count: int) -> Seq<usize>
    decreases count,
{
    if count <= 0 {
        seq![]
    } else if routeable_at(sorted, rows, count - 1) {
        choices(sorted, rows, count - 1).push((count - 1) as usize)
    } else {
        choices(sorted, rows, count - 1)
    }
}

/// The account indices at some positions.
pub open spec fn accounts_at(sorted: Seq<u8>, positions: Seq<usize>) -> Seq<u8> {
    positions.map_values(|position: usize| sorted[position as int])
}

proof fn lemma_choices(sorted: Seq<u8>, rows: Seq<Row>, count: int)
    requires
        0 <= count <= usize::MAX,
    ensures
        choices(sorted, rows, count).len() <= count,
        forall|i: int|
            0 <= i < choices(sorted, rows, count).len() ==> (#[trigger] choices(sorted, rows, count)[i])
                < count,
    decreases count,
{
    if count > 0 {
        lemma_choices(sorted, rows, count - 1);
    }
}

fn routeable_positions(sorted: &Vec<u8>, rows: &Vec<Row>) -> (r: Vec<usize>)
    requires
        ranked(sorted@, rows@),
    ensures
        r@ == choices(sorted@, rows@, sorted@.len() as int),
{
    let mut list: Vec<usize> = Vec::new();
    let mut index: usize = 0;
    while index < sorted.len()
        invariant
            ranked(sorted@, rows@),
            index <= sorted@.len(),
            list@ == choices(sorted@, rows@, index as int),
        decreases sorted@.len() - index,
    {
        assert(sorted@[index as int] < rows@.len());
        if rows[sorted[index] as usize].routeable {
            list.push(index);
        }
        index = index + 1;
    }
    list
}

/// Microseconds since the Unix epoch as Go's wrapping arithmetic gives them.
pub open spec fn micros(time: GoTime) -> i64 {
    time.seconds.wrapping_sub(62_135_596_800).wrapping_mul(1_000_000).wrapping_add(
        (time.nanos / 1000) as i64,
    )
}

/// The microseconds that a selection draw starts from.
pub fn ticket_micros(time: GoTime) -> (r: Result<u64, Failure>)
    ensures
        r == (if micros(time) >= 0 {
            Ok::<u64, Failure>(micros(time) as u64)
        } else {
            Err(Failure::Values)
        }),
{
    let value = time.seconds.wrapping_sub(62_135_596_800).wrapping_mul(1_000_000).wrapping_add(
        (time.nanos / 1000) as i64,
    );
    if value >= 0 {
        Ok(value as u64)
    } else {
        Err(Failure::Values)
    }
}

/// The draw among several choices: which one is taken, or why none can be.
pub open spec fn drawn(
    reads: Seq<Read>,
    demands: Seq<Demand>,
    site: ClockSite,
    ticket: usize,
    count: nat,
) -> Result<usize, Failure> {
    let at = demands.len() as int;
    if at < reads.len() && is_clock(reads[at], site, asked(demands, at, site)) {
        if micros(reads[at]->time) < 0 || ticket >= count {
            Err(Failure::Values)
        } else {
            Ok(ticket)
        }
    } else {
        Err(Failure::Reads)
    }
}

fn draw(reads: &Vec<Read>, demands: &Vec<Demand>, site: ClockSite, ticket: usize, count: usize) -> (r:
    Result<usize, Failure>)
    ensures
        r == drawn(reads@, demands@, site, ticket, count as nat),
{
    let at = demands.len();
    if at >= reads.len() || !clock_matches(&reads[at], site, count_asked(demands, at, site)) {
        return Err(Failure::Reads);
    }
    match &reads[at] {
        Read::Clock { time, .. } => match ticket_micros(*time) {
            Ok(_) => if ticket >= count {
                Err(Failure::Values)
            } else {
                Ok(ticket)
            },
            Err(failure) => Err(failure),
        },
        Read::Query(_) => Err(Failure::Reads),
    }
}

/// What a walk over the ranked accounts returned and touched.
#[verifier::ext_equal]
pub struct WalkModel {
    /// Returned account indices.
    pub returned: Seq<u8>,
    /// Positions of the score order at which routeability was asked.
    pub visited: nat,
    /// Advice was asked for.
    pub advised: bool,
    /// A migration pair was looked for.
    pub paired: bool,
    /// A draw read one more clock.
    pub drew: bool,
}

/// A walk that returned one account at most.
pub open spec fn picked(sorted: Seq<u8>, position: Option<int>, visited: nat, advised: bool) -> WalkModel {
    WalkModel {
        returned: match position {
            Some(at) => seq![sorted[at]],
            None => seq![],
        },
        visited,
        advised,
        paired: false,
        drew: false,
    }
}

/// The walk that draws among some positions; a single one is not drawn for and
/// takes the first position of the score order.
pub open spec fn walk_choices(
    e: Evaluation,
    c: Computation,
    list: Seq<usize>,
    site: ClockSite,
    visited: nat,
    advised: bool,
) -> Result<WalkModel, Failure> {
    if list.len() == 1 {
        Ok(picked(e.sorted@, Some(0), visited, advised))
    } else {
        match drawn(e.reads@, demands_of(e, c), site, c.ticket, list.len()) {
            Ok(at) => Ok(
                WalkModel { drew: true, ..picked(e.sorted@, Some(list[at as int] as int), visited, advised) },
            ),
            Err(failure) => Err(failure),
        }
    }
}

/// The walk of one evaluation over its ranked accounts.
pub open spec fn walk(e: Evaluation, c: Computation) -> Result<WalkModel, Failure> {
    let sorted = e.sorted@;
    let rows = c.rows@;
    let all = sorted.len();
    let open = choices(sorted, rows, all as int);
    match e.entry {
        Entry::Routeable => Ok(
            WalkModel {
                returned: accounts_at(sorted, open),
                visited: all,
                advised: false,
                paired: false,
                drew: false,
            },
        ),
        Entry::Balance => Ok(
            WalkModel {
                returned: seq![],
                visited: 1,
                advised: routeable_at(sorted, rows, 0),
                paired: routeable_at(sorted, rows, 0),
                drew: false,
            },
        ),
        Entry::Route => if e.configuration@.routing == "idlest"@ {
            if open.len() == 0 {
                Ok(picked(sorted, None, all, false))
            } else {
                Ok(picked(sorted, Some(open[0] as int), (open[0] + 1) as nat, false))
            }
        } else if e.configuration@.routing == "random"@ {
            if open.len() == 0 {
                Ok(picked(sorted, None, all, false))
            } else {
                walk_choices(e, c, open, ClockSite::RandomTicket, all, false)
            }
        } else if routeable_at(sorted, rows, 0) {
            walk_choices(e, c, c.preferred@, ClockSite::PreferIdleTicket, 1, true)
        } else {
            Ok(picked(sorted, None, 1, false))
        },
        _ => Err(Failure::Values),
    }
}

/// What [`WalkModel`] stands for.
pub struct Walk {
    /// Returned account indices.
    pub returned: Vec<u8>,
    /// Positions of the score order at which routeability was asked.
    pub visited: usize,
    /// Advice was asked for.
    pub advised: bool,
    /// A migration pair was looked for.
    pub paired: bool,
    /// A draw read one more clock.
    pub drew: bool,
}

impl View for Walk {
    type V = WalkModel;

    open spec fn view(&self) -> WalkModel {
        WalkModel {
            returned: self.returned@,
            visited: self.visited as nat,
            advised: self.advised,
            paired: self.paired,
            drew: self.drew,
        }
    }
}

fn pick(sorted: &Vec<u8>, position: Option<usize>, visited: usize, advised: bool, drew: bool) -> (r: Walk)
    requires
        position matches Some(at) ==> at < sorted@.len(),
    ensures
        r@ == (WalkModel {
            drew,
            ..picked(
                sorted@,
                match position {
                    Some(at) => Some(at as int),
                    None => None,
                },
                visited as nat,
                advised,
            )
        }),
{
    let mut returned: Vec<u8> = Vec::new();
    if let Some(at) = position {
        returned.push(sorted[at]);
    }
    let r = Walk { returned, visited, advised, paired: false, drew };
    assert(r@.returned =~= (match position {
        Some(at) => seq![sorted@[at as int]],
        None => seq![],
    }));
    r
}

fn pick_choice(
    e: &Evaluation,
    c: &Computation,
    list: &Vec<usize>,
    site: ClockSite,
    visited: usize,
    advised: bool,
) -> (r: Result<Walk, Failure>)
    requires
        c.windows@.len() == c.order@.len(),
        e.sorted@.len() > 0,
        forall|i: int| 0 <= i < list@.len() ==> (#[trigger] list@[i]) < e.sorted@.len(),
    ensures
        match walk_choices(*e, *c, list@, site, visited as nat, advised) {
            Ok(model) => r matches Ok(w) && w@ == model,
            Err(failure) => r matches Err(f) && f == failure,
        },
{
    if list.len() == 1 {
        return Ok(pick(&e.sorted, Some(0), visited, advised, false));
    }
    match draw(&e.reads, &gather(e, c), site, c.ticket, list.len()) {
        Ok(at) => {
            assert(list@[at as int] < e.sorted@.len());
            Ok(pick(&e.sorted, Some(list[at]), visited, advised, true))
        },
        Err(failure) => Err(failure),
    }
}

/// Walk the ranked accounts as the evaluated entry does.
pub fn walk_ranked(e: &Evaluation, c: &Computation) -> (r: Result<Walk, Failure>)
    requires
        ranked(e.sorted@, c.rows@),
        c.fits(e.sorted@.len()),
        e.sorted@.len() > 0,
    ensures
        match walk(*e, *c) {
            Ok(model) => r matches Ok(w) && w@ == model,
            Err(failure) => r matches Err(f) && f == failure,
        },
{
    let all = e.sorted.len();
    let open = routeable_positions(&e.sorted, &c.rows);
    proof {
        lemma_choices(e.sorted@, c.rows@, all as int);
    }
    assert(e.sorted@[0] < c.rows@.len());
    let first = c.rows[e.sorted[0] as usize].routeable;
    match e.entry {
        Entry::Routeable => {
            let mut returned: Vec<u8> = Vec::new();
            let mut index: usize = 0;
            while index < open.len()
                invariant
                    index <= open@.len(),
                    forall|i: int| 0 <= i < open@.len() ==> (#[trigger] open@[i]) < e.sorted@.len(),
                    returned@ == accounts_at(e.sorted@, open@).take(index as int),
                decreases open@.len() - index,
            {
                assert(open@[index as int] < e.sorted@.len());
                returned.push(e.sorted[open[index]]);
                assert(returned@ =~= accounts_at(e.sorted@, open@).take(index + 1));
                index = index + 1;
            }
            assert(returned@ =~= accounts_at(e.sorted@, open@));
            Ok(Walk { returned, visited: all, advised: false, paired: false, drew: false })
        },
        Entry::Balance => {
            let r = Walk { returned: Vec::new(), visited: 1, advised: first, paired: first, drew: false };
            assert(r@.returned =~= seq![]);
            Ok(r)
        },
        Entry::Route => if e.configuration.routing == "idlest".to_owned() {
            if open.len() == 0 {
                Ok(pick(&e.sorted, None, all, false, false))
            } else {
                assert(open@[0] < all);
                Ok(pick(&e.sorted, Some(open[0]), open[0] + 1, false, false))
            }
        } else if e.configuration.routing == "random".to_owned() {
            if open.len() == 0 {
                Ok(pick(&e.sorted, None, all, false, false))
            } else {
                pick_choice(e, c, &open, ClockSite::RandomTicket, all, false)
            }
        } else if first {
            pick_choice(e, c, &c.preferred, ClockSite::PreferIdleTicket, 1, true)
        } else {
            Ok(pick(&e.sorted, None, 1, false, false))
        },
        _ => Err(Failure::Values),
    }
}

/// Whether the captured scores are the computed ones.
pub open spec fn scored(e: Evaluation, c: Computation) -> bool {
    forall|i: int|
        0 <= i < e.accounts@.len() ==> (#[trigger] e.accounts@[i]).packed == c.rows@[i].score
            && e.accounts@[i].parts@ == c.rows@[i].parts@
}

fn is_scored(e: &Evaluation, c: &Computation) -> (r: bool)
    requires
        c.rows@.len() == e.accounts@.len(),
    ensures
        r == scored(*e, *c),
{
    let mut index: usize = 0;
    while index < e.accounts.len()
        invariant
            c.rows@.len() == e.accounts@.len(),
            index <= e.accounts@.len(),
            forall|i: int|
                0 <= i < index ==> (#[trigger] e.accounts@[i]).packed == c.rows@[i].score
                    && e.accounts@[i].parts@ == c.rows@[i].parts@,
        decreases e.accounts@.len() - index,
    {
        let account = &e.accounts[index];
        let row = &c.rows[index];
        if account.packed != row.score || !slices::same(account.parts.as_slice(), row.parts.as_slice()) {
            assert(e.accounts@[index as int].packed != c.rows@[index as int].score
                || e.accounts@[index as int].parts@ != c.rows@[index as int].parts@);
            return false;
        }
        index = index + 1;
    }
    true
}

/// The getters that an entry reads of every account besides the computed ones.
pub open spec fn entry_getters(entry: Entry) -> u16 {
    if entry is Route {
        USES_ADDRESS
    } else {
        0
    }
}

/// The getters that scoring one factor uses, besides the identity.
pub open spec fn factor_getters(factor: Factor, configuration: ConfigurationModel, several: bool) -> u16 {
    match factor {
        Factor::Label => if configuration.self_label.len() > 0 {
            USES_INFO
        } else {
            0
        },
        Factor::Status => USES_HEALTH,
        Factor::Location => if several {
            USES_LOCAL
        } else {
            0
        },
        Factor::Connection => USES_SCORE,
        _ => 0,
    }
}

/// The getters that scoring the first factors uses of every account. `emits`
/// says that the scores are published too, which takes the address.
pub open spec fn scoring_getters(
    order: Seq<FactorWidth>,
    configuration: ConfigurationModel,
    several: bool,
    emits: bool,
    count: int,
) -> u16
    decreases count,
{
    if count <= 0 {
        USES_ID
    } else {
        scoring_getters(order, configuration, several, emits, count - 1) | factor_getters(
            order[count - 1].factor,
            configuration,
            several,
        ) | if emits {
            USES_ADDRESS
        } else {
            0
        }
    }
}

/// The getters that an evaluation uses of every account.
pub open spec fn getters_of(e: Evaluation, c: Computation, emits: bool) -> u16 {
    entry_getters(e.entry) | scoring_getters(
        c.order@,
        e.configuration@,
        e.accounts@.len() > 1,
        emits,
        c.order@.len() as int,
    )
}

fn collect_getters(e: &Evaluation, c: &Computation, emits: bool) -> (r: u16)
    ensures
        r == getters_of(*e, *c, emits),
{
    let several = e.accounts.len() > 1;
    let labelled = e.configuration.self_label.as_str().unicode_len() > 0;
    let address: u16 = if emits {
        USES_ADDRESS
    } else {
        0
    };
    let mut getters: u16 = USES_ID;
    let mut index: usize = 0;
    while index < c.order.len()
        invariant
            several == (e.accounts@.len() > 1),
            labelled == (e.configuration@.self_label.len() > 0),
            address == (if emits {
                USES_ADDRESS
            } else {
                0
            }),
            index <= c.order@.len(),
            getters == scoring_getters(
                c.order@,
                e.configuration@,
                several,
                emits,
                index as int,
            ),
        decreases c.order@.len() - index,
    {
        let own: u16 = match c.order[index].factor {
            Factor::Label => if labelled {
                USES_INFO
            } else {
                0
            },
            Factor::Status => USES_HEALTH,
            Factor::Location => if several {
                USES_LOCAL
            } else {
                0
            },
            Factor::Connection => USES_SCORE,
            _ => 0,
        };
        getters = getters | own | address;
        index = index + 1;
    }
    let entry: u16 = match e.entry {
        Entry::Route => USES_ADDRESS,
        _ => 0,
    };
    entry | getters
}

/// The getters that one advice call uses of an account: the key of both sides,
/// their score counts where the factor weighs connections, and the label of the
/// source.
pub open spec fn call_getters(sorted: Seq<u8>, call: ComputedAdvice, account: int) -> u16 {
    let source = sorted[call.position as int] == account;
    let side = if source || sorted[0] == account {
        USES_ID | if call.factor is Connection || call.factor is Cpu {
            USES_SCORE
        } else {
            0
        }
    } else {
        0
    };
    side | if source && call.factor is Label {
        USES_INFO
    } else {
        0
    }
}

/// The getters that the first advice calls use of an account.
pub open spec fn advice_getters(
    sorted: Seq<u8>,
    advice: Seq<ComputedAdvice>,
    account: int,
    count: int,
) -> u16
    decreases count,
{
    if count <= 0 {
        0
    } else {
        advice_getters(sorted, advice, account, count - 1) | call_getters(
            sorted,
            advice[count - 1],
            account,
        )
    }
}

/// The getters that looking at an account's connections uses: the score count is
/// only read where there is a physical one.
pub open spec fn connection_getters(account: Account) -> u16 {
    USES_PHYSICAL | if account.physical > 0 {
        USES_SCORE
    } else {
        0
    }
}

/// Whether one of the first positions that were looked at is an account's.
pub open spec fn looked_at(sorted: Seq<u8>, asked: Seq<usize>, account: int, count: int) -> bool {
    exists|i: int| 0 <= i < count && sorted[#[trigger] asked[i] as int] == account
}

/// The getters that advice and the search for a pair use of an account.
pub open spec fn outcome_getters(e: Evaluation, c: Computation, w: WalkModel, account: int) -> u16 {
    (if w.advised {
        advice_getters(e.sorted@, c.advice@, account, c.advice@.len() as int)
    } else {
        0
    }) | if w.paired && looked_at(e.sorted@, c.asked@, account, c.asked@.len() as int) {
        connection_getters(e.accounts@[account])
    } else {
        0
    }
}

fn collect_advice(e: &Evaluation, c: &Computation, account: usize) -> (r: u16)
    requires
        c.fits(e.sorted@.len()),
        e.sorted@.len() > 0,
    ensures
        r == advice_getters(e.sorted@, c.advice@, account as int, c.advice@.len() as int),
{
    let mut getters: u16 = 0;
    let mut index: usize = 0;
    while index < c.advice.len()
        invariant
            c.fits(e.sorted@.len()),
            e.sorted@.len() > 0,
            index <= c.advice@.len(),
            getters == advice_getters(e.sorted@, c.advice@, account as int, index as int),
        decreases c.advice@.len() - index,
    {
        let call = c.advice[index];
        assert(c.advice@[index as int].position < e.sorted@.len());
        let source = e.sorted[call.position] as usize == account;
        let side: u16 = if source || e.sorted[0] as usize == account {
            let count: u16 = match call.factor {
                Factor::Connection | Factor::Cpu => USES_SCORE,
                _ => 0,
            };
            USES_ID | count
        } else {
            0
        };
        let label: u16 = match call.factor {
            Factor::Label if source => USES_INFO,
            _ => 0,
        };
        getters = getters | (side | label);
        index = index + 1;
    }
    getters
}

fn is_looked_at(e: &Evaluation, c: &Computation, account: usize) -> (r: bool)
    requires
        c.fits(e.sorted@.len()),
    ensures
        r == looked_at(e.sorted@, c.asked@, account as int, c.asked@.len() as int),
{
    let mut index: usize = 0;
    while index < c.asked.len()
        invariant
            c.fits(e.sorted@.len()),
            index <= c.asked@.len(),
            !looked_at(e.sorted@, c.asked@, account as int, index as int),
        decreases c.asked@.len() - index,
    {
        assert(c.asked@[index as int] < e.sorted@.len());
        if e.sorted[c.asked[index]] as usize == account {
            assert(e.sorted@[c.asked@[index as int] as int] == account as int);
            return true;
        }
        index = index + 1;
    }
    false
}

/// Whether every getter that was used was also captured.
pub open spec fn fields_complete(e: Evaluation, c: Computation, emits: bool, w: WalkModel) -> bool {
    forall|i: int|
        0 <= i < e.accounts@.len() ==> (c.used@[i] | getters_of(e, c, emits) | outcome_getters(
            e,
            c,
            w,
            i,
        )) & !(#[trigger] e.accounts@[i]).seen == 0
}

fn is_fields_complete(e: &Evaluation, c: &Computation, emits: bool, w: &Walk) -> (r: bool)
    requires
        c.fits(e.accounts@.len()),
        e.sorted@.len() == e.accounts@.len(),
    ensures
        r == fields_complete(*e, *c, emits, w@),
{
    let getters: u16 = collect_getters(e, c, emits);
    let mut index: usize = 0;
    while index < e.accounts.len()
        invariant
            c.fits(e.accounts@.len()),
            e.sorted@.len() == e.accounts@.len(),
            getters == getters_of(*e, *c, emits),
            index <= e.accounts@.len(),
            forall|i: int|
                0 <= i < index ==> (c.used@[i] | getters | outcome_getters(*e, *c, w@, i)) & !(
                #[trigger] e.accounts@[i]).seen == 0,
        decreases e.accounts@.len() - index,
    {
        let advice: u16 = if w.advised {
            collect_advice(e, c, index)
        } else {
            0
        };
        let pair: u16 = if w.paired && is_looked_at(e, c, index) {
            let count: u16 = if e.accounts[index].physical > 0 {
                USES_SCORE
            } else {
                0
            };
            USES_PHYSICAL | count
        } else {
            0
        };
        let used: u16 = c.used[index] | getters | (advice | pair);
        assert(used == (c.used@[index as int] | getters | outcome_getters(
            *e,
            *c,
            w@,
            index as int,
        )));
        if used & !e.accounts[index].seen != 0 {
            assert(used & !e.accounts@[index as int].seen != 0);
            return false;
        }
        index = index + 1;
    }
    true
}

/// Whether a captured advice is the computed one.
pub open spec fn advice_agrees(sorted: Seq<u8>, actual: Advice, computed: ComputedAdvice) -> bool {
    &&& actual.from == sorted[computed.position as int]
    &&& actual.to == sorted[0]
    &&& actual.factor == computed.factor
    &&& actual.advice == computed.advice
    &&& computed.rate_matches
}

/// Whether the captured advice calls are the computed ones.
pub open spec fn advised(e: Evaluation, c: Computation, asked: bool) -> bool {
    if asked {
        &&& e.advice@.len() == c.advice@.len()
        &&& forall|i: int|
            0 <= i < e.advice@.len() ==> advice_agrees(e.sorted@, #[trigger] e.advice@[i], c.advice@[i])
    } else {
        e.advice@.len() == 0
    }
}

fn is_advised(e: &Evaluation, c: &Computation, asked: bool) -> (r: bool)
    requires
        c.fits(e.sorted@.len()),
        e.sorted@.len() > 0,
    ensures
        r == advised(*e, *c, asked),
{
    if !asked {
        return e.advice.len() == 0;
    }
    if e.advice.len() != c.advice.len() {
        return false;
    }
    let mut index: usize = 0;
    while index < e.advice.len()
        invariant
            c.fits(e.sorted@.len()),
            e.sorted@.len() > 0,
            e.advice@.len() == c.advice@.len(),
            index <= e.advice@.len(),
            forall|i: int|
                0 <= i < index ==> advice_agrees(e.sorted@, #[trigger] e.advice@[i], c.advice@[i]),
        decreases e.advice@.len() - index,
    {
        let actual = e.advice[index];
        let computed = c.advice[index];
        assert(c.advice@[index as int].position < e.sorted@.len());
        if !(actual.from == e.sorted[computed.position] && actual.to == e.sorted[0] && actual.factor
            == computed.factor && actual.advice == computed.advice && computed.rate_matches) {
            assert(!advice_agrees(e.sorted@, e.advice@[index as int], c.advice@[index as int]));
            return false;
        }
        index = index + 1;
    }
    true
}

/// Whether routeability was captured for exactly the visited accounts.
pub open spec fn visited(e: Evaluation, c: Computation, count: nat) -> bool {
    forall|i: int|
        0 <= i < e.accounts@.len() ==> {
            let seen = e.sorted@.take(count as int).contains(i as u8) && i <= u8::MAX;
            &&& (#[trigger] e.accounts@[i]).routeability_seen == seen
            &&& e.accounts@[i].routeable == (seen && c.rows@[i].routeable)
        }
}

fn holds_index(sorted: &Vec<u8>, count: usize, index: usize) -> (r: bool)
    requires
        count <= sorted@.len(),
    ensures
        r == (sorted@.take(count as int).contains(index as u8) && index <= u8::MAX),
{
    let mut at: usize = 0;
    while at < count
        invariant
            at <= count <= sorted@.len(),
            forall|i: int| 0 <= i < at ==> sorted@[i] != index,
        decreases count - at,
    {
        if sorted[at] as usize == index {
            assert(sorted@.take(count as int)[at as int] == index as u8);
            return true;
        }
        at = at + 1;
    }
    proof {
        if index <= u8::MAX && sorted@.take(count as int).contains(index as u8) {
            let i = choose|i: int| 0 <= i < count && sorted@.take(count as int)[i] == index as u8;
            assert(sorted@[i] != index);
        }
    }
    false
}

fn is_visited(e: &Evaluation, c: &Computation, count: usize) -> (r: bool)
    requires
        count <= e.sorted@.len(),
        c.rows@.len() == e.accounts@.len(),
    ensures
        r == visited(*e, *c, count as nat),
{
    let mut index: usize = 0;
    while index < e.accounts.len()
        invariant
            count <= e.sorted@.len(),
            c.rows@.len() == e.accounts@.len(),
            index <= e.accounts@.len(),
            forall|i: int|
                0 <= i < index ==> {
                    let seen = e.sorted@.take(count as int).contains(i as u8) && i <= u8::MAX;
                    &&& (#[trigger] e.accounts@[i]).routeability_seen == seen
                    &&& e.accounts@[i].routeable == (seen && c.rows@[i].routeable)
                },
        decreases e.accounts@.len() - index,
    {
        let seen = holds_index(&e.sorted, count, index);
        let account = &e.accounts[index];
        if account.routeability_seen != seen || account.routeable != (seen && c.rows[index].routeable) {
            assert(e.accounts@[index as int].routeability_seen != seen
                || e.accounts@[index as int].routeable != (seen && c.rows@[index as int].routeable));
            return false;
        }
        index = index + 1;
    }
    true
}

/// Whether the captured pair, reason and rate are the computed ones.
pub open spec fn pair_agrees(e: Evaluation, c: Computation, asked: bool) -> bool {
    if asked && c.pair is Some {
        let pair = c.pair->0;
        &&& e.from == e.sorted@[pair.position as int]
        &&& e.to == e.sorted@[0]
        &&& e.reason == Some(pair.factor)
        &&& pair.rate_matches
    } else {
        &&& e.from == -1
        &&& e.to == -1
        &&& e.reason is None
        &&& native::zero_bits(e.balance_count)
    }
}

fn is_pair_agreed(e: &Evaluation, c: &Computation, asked: bool) -> (r: bool)
    requires
        c.fits(e.sorted@.len()),
        e.sorted@.len() > 0,
    ensures
        r == pair_agrees(*e, *c, asked),
{
    match c.pair {
        Some(pair) if asked => e.from == e.sorted[pair.position] as i16 && e.to == e.sorted[0] as i16
            && e.reason == Some(pair.factor) && pair.rate_matches,
        _ => e.from == -1 && e.to == -1 && e.reason.is_none() && is_zero_bits(e.balance_count),
    }
}

/// Why the outputs of an evaluation over accounts differ from the computed
/// ones, if they do. Reads and values are held against the computation before
/// any output is.
pub open spec fn judged(e: Evaluation, c: Computation, emits: bool) -> Option<Failure> {
    if !c.fits(e.accounts@.len()) {
        Some(Failure::Values)
    } else if !supplied(e.reads@, demands_of(e, c)) {
        Some(Failure::Reads)
    } else if !scored(e, c) || !ranked(e.sorted@, c.rows@) {
        Some(Failure::Output)
    } else {
        match walk(e, c) {
            Err(failure) => Some(failure),
            Ok(w) => if e.reads@.len() != demands_of(e, c).len() + (if w.drew {
                1int
            } else {
                0int
            }) || !fields_complete(e, c, emits, w) {
                Some(Failure::Reads)
            } else if e.returned@ != w.returned || !advised(e, c, w.advised) || !visited(
                e,
                c,
                w.visited,
            ) || !pair_agrees(e, c, w.paired) {
                Some(Failure::Output)
            } else {
                None
            },
        }
    }
}

fn same_indices(a: &Vec<u8>, b: &Vec<u8>) -> (r: bool)
    ensures
        r == (a@ == b@),
{
    texts::same_bytes(a.as_slice(), b.as_slice())
}

/// Decide [`judged`].
pub fn judge(e: &Evaluation, c: &Computation, emits: bool) -> (r: Option<Failure>)
    requires
        e.accounts@.len() > 0,
    ensures
        r == judged(*e, *c, emits),
{
    if !c.is_for(e.accounts.len()) {
        return Some(Failure::Values);
    }
    let demands = gather(e, c);
    if !is_supplied(&e.reads, &demands) {
        return Some(Failure::Reads);
    }
    if !is_scored(e, c) || !is_ranked(&e.sorted, &c.rows) {
        return Some(Failure::Output);
    }
    match walk_ranked(e, c) {
        Err(failure) => Some(failure),
        Ok(w) => {
            proof {
                lemma_choices(e.sorted@, c.rows@, e.sorted@.len() as int);
                assert(w.visited <= e.sorted@.len());
            }
            let rest = e.reads.len() - demands.len();
            let drawn: usize = if w.drew {
                1
            } else {
                0
            };
            if rest != drawn || !is_fields_complete(e, c, emits, &w) {
                return Some(Failure::Reads);
            }
            if !same_indices(&e.returned, &w.returned) || !is_advised(e, c, w.advised) || !is_visited(
                e,
                c,
                w.visited,
            ) || !is_pair_agreed(e, c, w.paired) {
                return Some(Failure::Output);
            }
            None
        },
    }
}

/// Whether an evaluation that ends before any account is scored captured
/// nothing.
pub open spec fn silent(e: Evaluation) -> bool {
    &&& e.reads@.len() == 0
    &&& e.sorted@.len() == 0
    &&& e.advice@.len() == 0
    &&& e.returned@.len() == 0
    &&& e.from == -1
    &&& e.to == -1
    &&& e.balance_count == 0
    &&& e.reason is None
    &&& forall|i: int| 0 <= i < e.accounts@.len() ==> untouched(#[trigger] e.accounts@[i])
}

/// Whether nothing was read or computed of an account.
pub open spec fn untouched(account: Account) -> bool {
    &&& account.seen == 0
    &&& account.packed == 0
    &&& forall|i: int| 0 <= i < account.parts@.len() ==> #[trigger] account.parts@[i] == 0
    &&& !account.routeability_seen
    &&& !account.routeable
}

fn is_untouched(account: &Account) -> (r: bool)
    ensures
        r == untouched(*account),
{
    if account.seen != 0 || account.packed != 0 || account.routeability_seen || account.routeable {
        return false;
    }
    let mut index: usize = 0;
    while index < account.parts.len()
        invariant
            index <= account.parts@.len(),
            forall|i: int| 0 <= i < index ==> #[trigger] account.parts@[i] == 0,
        decreases account.parts@.len() - index,
    {
        if account.parts[index] != 0 {
            assert(account.parts@[index as int] != 0);
            return false;
        }
        index = index + 1;
    }
    true
}

/// Decide [`silent`].
pub fn early(e: &Evaluation) -> (r: bool)
    ensures
        r == silent(*e),
{
    if e.reads.len() != 0 || e.sorted.len() != 0 || e.advice.len() != 0 || e.returned.len() != 0
        || e.from != -1 || e.to != -1 || e.balance_count != 0 || e.reason.is_some() {
        return false;
    }
    let mut index: usize = 0;
    while index < e.accounts.len()
        invariant
            index <= e.accounts@.len(),
            forall|i: int| 0 <= i < index ==> untouched(#[trigger] e.accounts@[i]),
        decreases e.accounts@.len() - index,
    {
        if !is_untouched(&e.accounts[index]) {
            assert(!untouched(e.accounts@[index as int]));
            return false;
        }
        index = index + 1;
    }
    true
}

/// Whether an evaluation ends before any account is scored.
pub open spec fn ends_early(e: Evaluation) -> bool {
    ||| e.entry is Config
    ||| e.entry is Close
    ||| e.accounts@.len() == 0
    ||| e.entry is Balance && e.accounts@.len() <= 1
}

/// An independently computed return, with no capability to act on it.
#[derive(Clone, Debug)]
pub struct Decision {
    entry: Entry,
    returned: Vec<u8>,
    from: i16,
    to: i16,
    reason: Option<Factor>,
    rate: BalanceRate,
}

/// What [`Decision`] holds.
#[verifier::ext_equal]
pub struct DecisionModel {
    /// The evaluated entry.
    pub entry: Entry,
    /// Returned account indices.
    pub returned: Seq<u8>,
    /// Migration source, or -1.
    pub from: i16,
    /// Migration target, or -1.
    pub to: i16,
    /// Deciding factor.
    pub reason: Option<Factor>,
    /// Computed rate; zero where no pair was found.
    pub rate: BalanceRate,
}

impl View for Decision {
    type V = DecisionModel;

    closed spec fn view(&self) -> DecisionModel {
        DecisionModel {
            entry: self.entry,
            returned: self.returned@,
            from: self.from,
            to: self.to,
            reason: self.reason,
            rate: self.rate,
        }
    }
}

impl Decision {
    /// The method that decided.
    pub fn entry(&self) -> (r: Entry)
        ensures
            r == self@.entry,
    {
        self.entry
    }

    /// Returned account indices.
    pub fn returned(&self) -> (r: &Vec<u8>)
        ensures
            r@ == self@.returned,
    {
        &self.returned
    }

    /// Migration source, target and deciding factor.
    pub fn pair(&self) -> (r: (i16, i16, Option<Factor>))
        ensures
            r == (self@.from, self@.to, self@.reason),
    {
        (self.from, self.to, self.reason)
    }

    /// The computed balance rate. No other entry has one.
    pub fn balance_rate(&self) -> (r: Option<BalanceRate>)
        ensures
            r == (if self@.entry is Balance {
                Some(self@.rate)
            } else {
                None
            }),
    {
        match self.entry {
            Entry::Balance => Some(self.rate),
            _ => None,
        }
    }
}

/// The rate of an evaluation that found no pair.
pub open spec fn no_rate() -> BalanceRate {
    BalanceRate { bits: 0, interval: 0 }
}

/// The decision of an accepted evaluation: its outputs are the computed ones,
/// and its rate is the computed rate, never the captured one.
pub open spec fn decided(e: Evaluation, c: Computation) -> DecisionModel {
    DecisionModel {
        entry: e.entry,
        returned: e.returned@,
        from: e.from,
        to: e.to,
        reason: e.reason,
        rate: if !ends_early(e) && e.entry is Balance && routeable_at(e.sorted@, c.rows@, 0)
            && c.pair is Some {
            c.pair->0.rate
        } else {
            no_rate()
        },
    }
}

/// Private diagnostic factor history. It contains no production identities.
pub struct FactorState {
    epoch: Epoch,
    group: u64,
    policy: u64,
    config: u64,
    resource: u64,
    last_resource: u64,
    evaluation: u64,
    configuration: Option<Configuration>,
    closed: bool,
    cadence: GoTime,
    history_bytes: usize,
}

/// What [`FactorState`] holds.
#[verifier::ext_equal]
pub struct FactorModel {
    /// Owner identity.
    pub epoch: Epoch,
    /// Group incarnation, or zero before the first configuration.
    pub group: u64,
    /// Policy incarnation, or zero before the first configuration.
    pub policy: u64,
    /// Last applied configuration.
    pub config: u64,
    /// Resource-factor lifetime, or zero.
    pub resource: u64,
    /// Last resource-factor lifetime.
    pub last_resource: u64,
    /// Last evaluation.
    pub evaluation: u64,
    /// Applied configuration.
    pub configuration: Option<ConfigurationModel>,
    /// The policy was closed.
    pub closed: bool,
    /// When scores were last published.
    pub cadence: GoTime,
    /// Bytes of the window history.
    pub history_bytes: usize,
}

impl View for FactorState {
    type V = FactorModel;

    closed spec fn view(&self) -> FactorModel {
        FactorModel {
            epoch: self.epoch,
            group: self.group,
            policy: self.policy,
            config: self.config,
            resource: self.resource,
            last_resource: self.last_resource,
            evaluation: self.evaluation,
            configuration: match self.configuration {
                Some(configuration) => Some(configuration@),
                None => None,
            },
            closed: self.closed,
            cadence: self.cadence,
            history_bytes: self.history_bytes,
        }
    }
}

impl FactorModel {
    /// An empty history of an owner.
    pub open spec fn fresh(coverage: Coverage) -> FactorModel {
        FactorModel {
            epoch: coverage.epoch,
            group: 0,
            policy: 0,
            config: 0,
            resource: 0,
            last_resource: 0,
            evaluation: 0,
            configuration: None,
            closed: false,
            cadence: coverage.zero_time,
            history_bytes: 0,
        }
    }

    /// Whether scoring publishes its scores: the cadence clock is more than ten
    /// seconds after the last publication.
    pub open spec fn emits(self, e: Evaluation) -> bool {
        e.reads@.len() > 0 && (e.reads@[0] matches Read::Clock { time, .. } && go_time::saturated(
            time.difference(self.cadence),
        ) > CADENCE_NANOS)
    }

    /// When scores were last published after a scored evaluation.
    pub open spec fn cadence_after(self, e: Evaluation) -> GoTime {
        if !ends_early(e) && self.emits(e) {
            e.reads@[0]->time
        } else {
            self.cadence
        }
    }

    /// Whether an evaluation belongs to this policy and follows its last one.
    pub open spec fn continues(self, e: Evaluation) -> bool {
        &&& !self.closed
        &&& self.epoch == e.epoch
        &&& self.evaluation + 1 == e.evaluation
        &&& if self.policy == 0 {
            e.entry is Config && e.policy != 0 && e.group != 0
        } else {
            e.policy == self.policy && e.group == self.group
        }
    }

    /// Whether a configuration event extends the configuration and
    /// resource-factor lifetimes: a live resource factor is kept, a new one has
    /// a later identity, and a connection policy has none.
    pub open spec fn configures(self, e: Evaluation) -> bool {
        &&& e.config > self.config
        &&& if e.configuration@.balance != "connection"@ {
            if self.resource != 0 {
                e.resource == self.resource
            } else {
                e.resource > self.last_resource
            }
        } else {
            e.resource == 0
        }
    }

    /// The history lifetimes after an evaluation, if it does not break them.
    pub open spec fn prepared(self, e: Evaluation) -> Option<FactorModel> {
        if !self.continues(e) {
            None
        } else if e.entry is Config {
            if self.configures(e) {
                Some(
                    FactorModel {
                        group: e.group,
                        policy: e.policy,
                        config: e.config,
                        resource: e.resource,
                        last_resource: if e.configuration@.balance != "connection"@ {
                            e.resource
                        } else {
                            self.last_resource
                        },
                        evaluation: e.evaluation,
                        configuration: Some(e.configuration@),
                        ..self
                    },
                )
            } else {
                None
            }
        } else if e.config == self.config && e.resource == self.resource && self.configuration
            == Some(e.configuration@) {
            Some(FactorModel { evaluation: e.evaluation, ..self })
        } else {
            None
        }
    }

    /// The history after an evaluation, or why it does not qualify.
    pub open spec fn apply(self, e: Evaluation, c: Computation) -> Result<FactorModel, Failure> {
        match self.prepared(e) {
            None => Err(Failure::Lifetime),
            Some(next) => if !e.configuration@.known() || e.factors@ != c.order@ {
                Err(Failure::Values)
            } else {
                let failure = if ends_early(e) {
                    if silent(e) {
                        None
                    } else {
                        Some(Failure::Output)
                    }
                } else {
                    judged(e, c, self.emits(e))
                };
                match failure {
                    Some(failure) => Err(failure),
                    None => Ok(
                        FactorModel {
                            closed: e.entry is Close,
                            cadence: self.cadence_after(e),
                            history_bytes: c.history_bytes,
                            ..next
                        },
                    ),
                }
            },
        }
    }

    /// The retained bytes of the history.
    pub open spec fn retained(self) -> nat {
        charge::clamp(
            vstd::layout::size_of::<FactorState>() + self.history_bytes as nat + match self.configuration {
                Some(configuration) => configuration.name_bytes(),
                None => 0,
            },
        )
    }
}

fn same_factors(a: &Vec<FactorWidth>, b: &Vec<FactorWidth>) -> (r: bool)
    ensures
        r == (a@ == b@),
{
    if a.len() != b.len() {
        return false;
    }
    let mut index: usize = 0;
    while index < a.len()
        invariant
            a@.len() == b@.len(),
            index <= a@.len(),
            forall|i: int| 0 <= i < index ==> a@[i] == b@[i],
        decreases a@.len() - index,
    {
        if a[index] != b[index] {
            return false;
        }
        index = index + 1;
    }
    assert(a@ =~= b@);
    true
}

impl FactorState {
    /// Start an empty history from the accepted owner prelude.
    pub fn new(coverage: Coverage) -> (r: Self)
        ensures
            r@ == FactorModel::fresh(coverage),
    {
        FactorState {
            epoch: coverage.epoch,
            group: 0,
            policy: 0,
            config: 0,
            resource: 0,
            last_resource: 0,
            evaluation: 0,
            configuration: None,
            closed: false,
            cadence: coverage.zero_time,
            history_bytes: 0,
        }
    }

    /// An equal history.
    pub fn duplicate(&self) -> (r: Self)
        ensures
            r@ == self@,
    {
        FactorState {
            epoch: self.epoch,
            group: self.group,
            policy: self.policy,
            config: self.config,
            resource: self.resource,
            last_resource: self.last_resource,
            evaluation: self.evaluation,
            configuration: match &self.configuration {
                Some(configuration) => Some(configuration.duplicate()),
                None => None,
            },
            closed: self.closed,
            cadence: self.cadence,
            history_bytes: self.history_bytes,
        }
    }

    /// The cadence clock of an evaluation that publishes its scores.
    fn emission(&self, e: &Evaluation) -> (r: Option<GoTime>)
        ensures
            r is Some <==> self@.emits(*e),
            r matches Some(time) ==> e.reads@[0]->time == time,
    {
        if e.reads.len() == 0 {
            return None;
        }
        match &e.reads[0] {
            Read::Clock { time, .. } => if time.sub_nanoseconds(self.cadence) > CADENCE_NANOS {
                Some(*time)
            } else {
                None
            },
            Read::Query(_) => None,
        }
    }

    fn prepare(&self, e: &Evaluation) -> (r: Option<FactorState>)
        ensures
            match self@.prepared(*e) {
                Some(next) => r matches Some(state) && state@ == next,
                None => r is None,
            },
    {
        if self.closed || self.epoch != e.epoch || self.evaluation == u64::MAX || self.evaluation + 1
            != e.evaluation {
            return None;
        }
        let config = matches!(e.entry, Entry::Config);
        if self.policy == 0 {
            if !config || e.policy == 0 || e.group == 0 {
                return None;
            }
        } else if e.policy != self.policy || e.group != self.group {
            return None;
        }
        let mut next = self.duplicate();
        next.evaluation = e.evaluation;
        if config {
            if e.config <= self.config {
                return None;
            }
            if e.configuration.balance != "connection".to_owned() {
                if self.resource != 0 {
                    if e.resource != self.resource {
                        return None;
                    }
                } else if e.resource <= self.last_resource {
                    return None;
                }
                next.last_resource = e.resource;
            } else if e.resource != 0 {
                return None;
            }
            next.group = e.group;
            next.policy = e.policy;
            next.config = e.config;
            next.resource = e.resource;
            next.configuration = Some(e.configuration.duplicate());
            return Some(next);
        }
        let unchanged = match &self.configuration {
            Some(configuration) => configuration.same(&e.configuration),
            None => false,
        };
        if e.config != self.config || e.resource != self.resource || !unchanged {
            return None;
        }
        Some(next)
    }

    /// Apply an evaluation whose factor arithmetic gave a computation. A
    /// refused evaluation leaves the history as it was.
    ///
    /// # Errors
    /// Rejects omitted/reordered reads, missing values, lifetime discontinuity,
    /// or any differing independently computed output.
    pub fn apply(&mut self, e: &Evaluation, c: &Computation) -> (r: Result<Decision, Failure>)
        ensures
            match old(self)@.apply(*e, *c) {
                Ok(next) => final(self)@ == next && r is Ok && r->Ok_0@ == decided(*e, *c),
                Err(failure) => final(self)@ == old(self)@ && r is Err && r->Err_0 == failure,
            },
    {
        let mut next = match self.prepare(e) {
            Some(next) => next,
            None => return Err(Failure::Lifetime),
        };
        if !e.configuration.known() || !same_factors(&e.factors, &c.order) {
            return Err(Failure::Values);
        }
        let count = e.accounts.len();
        let ends = match e.entry {
            Entry::Config | Entry::Close => true,
            Entry::Balance => count <= 1,
            _ => count == 0,
        };
        assert(ends == ends_early(*e));
        let mut rate = BalanceRate { bits: 0, interval: 0 };
        if ends {
            if !early(e) {
                return Err(Failure::Output);
            }
        } else {
            let emission = self.emission(e);
            match judge(e, c, emission.is_some()) {
                Some(failure) => return Err(failure),
                None => {
                    if let Some(time) = emission {
                        next.cadence = time;
                    }
                    assert(e.sorted@[0] < c.rows@.len());
                    if matches!(e.entry, Entry::Balance) && c.rows[e.sorted[0] as usize].routeable {
                        if let Some(pair) = c.pair {
                            rate = pair.rate;
                        }
                    }
                },
            }
        }
        next.closed = matches!(e.entry, Entry::Close);
        next.history_bytes = c.history_bytes;
        let mut returned: Vec<u8> = Vec::new();
        let mut index: usize = 0;
        while index < e.returned.len()
            invariant
                index <= e.returned@.len(),
                returned@ == e.returned@.take(index as int),
            decreases e.returned@.len() - index,
        {
            returned.push(e.returned[index]);
            assert(returned@ =~= e.returned@.take(index + 1));
            index = index + 1;
        }
        assert(returned@ =~= e.returned@);
        *self = next;
        Ok(Decision { entry: e.entry, returned, from: e.from, to: e.to, reason: e.reason, rate })
    }

    /// Conservative retained allocation charge. Empty history is retained too.
    pub fn retained_bytes(&self) -> (r: usize)
        ensures
            r == self@.retained(),
    {
        let names = match &self.configuration {
            Some(configuration) => configuration.name_length(),
            None => 0,
        };
        core::mem::size_of::<FactorState>().saturating_add(self.history_bytes).saturating_add(names)
    }
}

/// The routeable accounts in score order.
pub open spec fn routeable_accounts(sorted: Seq<u8>, rows: Seq<Row>) -> Seq<u8> {
    sorted.filter(|account: u8| rows[account as int].routeable)
}

proof fn lemma_choices_are_routeable(sorted: Seq<u8>, rows: Seq<Row>, count: int)
    requires
        0 <= count <= sorted.len() <= usize::MAX,
    ensures
        accounts_at(sorted, choices(sorted, rows, count)) == routeable_accounts(
            sorted.take(count),
            rows,
        ),
        choices(sorted, rows, count).len() > 0 ==> {
            let first = choices(sorted, rows, count)[0];
            &&& first < count
            &&& rows[sorted[first as int] as int].routeable
            &&& forall|i: int| 0 <= i < first ==> !rows[#[trigger] sorted[i] as int].routeable
        },
        choices(sorted, rows, count).len() == 0 ==> forall|i: int|
            0 <= i < count ==> !rows[#[trigger] sorted[i] as int].routeable,
    decreases count,
{
    reveal(Seq::filter);
    if count > 0 {
        lemma_choices_are_routeable(sorted, rows, count - 1);
        assert(sorted.take(count).drop_last() =~= sorted.take(count - 1));
        assert(sorted.take(count).last() == sorted[count - 1]);
    }
    assert(accounts_at(sorted, choices(sorted, rows, count)) =~= routeable_accounts(
        sorted.take(count),
        rows,
    ));
}

/// Asking for the routeable accounts returns all of them and no other, from the best
/// score on, and asks every account. A balance returns none, and looks for advice and
/// a pair exactly where the best account is routeable.
pub proof fn law_walk_without_a_choice(e: Evaluation, c: Computation)
    requires
        ranked(e.sorted@, c.rows@),
        c.fits(e.sorted@.len()),
        0 < e.sorted@.len(),
    ensures
        e.entry is Routeable ==> (walk(e, c) matches Ok(w) && {
            &&& w.returned == routeable_accounts(e.sorted@, c.rows@)
            &&& w.visited == e.sorted@.len()
            &&& !w.advised && !w.paired && !w.drew
        }),
        e.entry is Balance ==> (walk(e, c) matches Ok(w) && {
            &&& w.returned.len() == 0
            &&& w.visited == 1
            &&& w.advised == c.rows@[e.sorted@[0] as int].routeable
            &&& w.paired == w.advised
            &&& !w.drew
        }),
        !(e.entry is Routeable) && !(e.entry is Balance) && !(e.entry is Route) ==> walk(e, c) is Err,
{
    assert(e.sorted@.len() == e.sorted.len());
    lemma_choices_are_routeable(e.sorted@, c.rows@, e.sorted@.len() as int);
    assert(e.sorted@.take(e.sorted@.len() as int) =~= e.sorted@);
}

/// The idlest route returns the routeable account of the least score, the first of
/// equal ones in the captured order, and nothing exactly where none is routeable. It
/// asks no account after the one that it returns.
pub proof fn law_idlest_route_is_the_least_routeable(e: Evaluation, c: Computation)
    requires
        ranked(e.sorted@, c.rows@),
        c.fits(e.sorted@.len()),
        0 < e.sorted@.len(),
        e.entry is Route,
        e.configuration@.routing == "idlest"@,
    ensures
        walk(e, c) matches Ok(w) && {
            &&& !w.advised && !w.paired && !w.drew
            &&& w.returned.len() <= 1
            &&& w.returned.len() == 0 ==> w.visited == e.sorted@.len() && forall|i: int|
                0 <= i < e.sorted@.len() ==> !c.rows@[#[trigger] e.sorted@[i] as int].routeable
            &&& w.returned.len() == 1 ==> {
                let best = w.returned[0] as int;
                &&& c.rows@[best].routeable
                &&& 0 < w.visited <= e.sorted@.len()
                &&& e.sorted@[w.visited - 1] == best
                &&& forall|i: int|
                    0 <= i < w.visited - 1 ==> !c.rows@[#[trigger] e.sorted@[i] as int].routeable
                &&& forall|i: int|
                    0 <= i < e.sorted@.len() && c.rows@[#[trigger] e.sorted@[i] as int].routeable
                        ==> c.rows@[best].score <= c.rows@[e.sorted@[i] as int].score
            }
        },
{
    assert(e.sorted@.len() == e.sorted.len());
    lemma_choices_are_routeable(e.sorted@, c.rows@, e.sorted@.len() as int);
}

/// A random route returns nothing where no account is routeable and the best account
/// where a single one is. Otherwise it reads one more clock and returns the routeable
/// account that was drawn, counted in score order.
pub proof fn law_random_route_is_drawn(e: Evaluation, c: Computation)
    requires
        ranked(e.sorted@, c.rows@),
        c.fits(e.sorted@.len()),
        0 < e.sorted@.len(),
        e.entry is Route,
        e.configuration@.routing == "random"@,
    ensures
        ({
            let open = routeable_accounts(e.sorted@, c.rows@);
            match walk(e, c) {
                Ok(w) => {
                    &&& w.visited == e.sorted@.len()
                    &&& !w.advised && !w.paired
                    &&& open.len() == 0 ==> w.returned.len() == 0 && !w.drew
                    &&& open.len() == 1 ==> w.returned == seq![e.sorted@[0]] && !w.drew
                    &&& open.len() > 1 ==> {
                        &&& w.drew
                        &&& c.ticket < open.len()
                        &&& w.returned == seq![open[c.ticket as int]]
                        &&& e.reads@.len() > demands_of(e, c).len()
                        &&& e.reads@[demands_of(e, c).len() as int] matches Read::Clock {
                            site,
                            time,
                            ..
                        } && site is RandomTicket && micros(time) >= 0
                    }
                },
                Err(_) => open.len() > 1,
            }
        }),
{
    assert(e.sorted@.len() == e.sorted.len());
    lemma_choices_are_routeable(e.sorted@, c.rows@, e.sorted@.len() as int);
    assert(e.sorted@.take(e.sorted@.len() as int) =~= e.sorted@);
    reveal_strlit("random");
    reveal_strlit("idlest");
    assert("random"@[0] != "idlest"@[0]);
    let list = choices(e.sorted@, c.rows@, e.sorted@.len() as int);
    let open = routeable_accounts(e.sorted@, c.rows@);
    assert(open.len() == list.len());
    if list.len() > 1 && c.ticket < list.len() {
        assert(open[c.ticket as int] == e.sorted@[list[c.ticket as int] as int]);
    }
}

/// Any other route asks the best account alone. It returns nothing where that is not
/// routeable, the best account where a single one is preferred, and otherwise the
/// preferred account that was drawn.
pub proof fn law_preferred_route_is_drawn(e: Evaluation, c: Computation)
    requires
        ranked(e.sorted@, c.rows@),
        c.fits(e.sorted@.len()),
        0 < e.sorted@.len(),
        e.entry is Route,
        e.configuration@.routing != "random"@,
        e.configuration@.routing != "idlest"@,
    ensures
        match walk(e, c) {
            Ok(w) => {
                let best = c.rows@[e.sorted@[0] as int].routeable;
                &&& w.visited == 1
                &&& w.advised == best
                &&& !w.paired
                &&& !best ==> w.returned.len() == 0 && !w.drew
                &&& best && c.preferred@.len() == 1 ==> w.returned == seq![e.sorted@[0]] && !w.drew
                &&& best && c.preferred@.len() != 1 ==> {
                    &&& w.drew
                    &&& c.ticket < c.preferred@.len()
                    &&& w.returned == seq![e.sorted@[c.preferred@[c.ticket as int] as int]]
                    &&& e.reads@.len() > demands_of(e, c).len()
                    &&& e.reads@[demands_of(e, c).len() as int] matches Read::Clock { site, time, .. }
                        && site is PreferIdleTicket && micros(time) >= 0
                }
            },
            Err(_) => c.rows@[e.sorted@[0] as int].routeable && c.preferred@.len() != 1,
        },
{
}

/// An evaluation is accepted only where everything that was captured is what was
/// computed: the scores of every account, a score order of all accounts, the return,
/// every advice, the accounts whose routeability was asked, the pair, and exactly the
/// reads that scoring and a draw take.
pub proof fn law_accepted_captures_are_the_computed(e: Evaluation, c: Computation, emits: bool)
    requires
        judged(e, c, emits) is None,
    ensures
        walk(e, c) matches Ok(w) && {
            &&& c.rows@.len() == e.accounts@.len() == e.sorted@.len()
            &&& forall|i: int|
                0 <= i < e.accounts@.len() ==> (#[trigger] e.accounts@[i]).packed
                    == c.rows@[i].score && e.accounts@[i].parts@ == c.rows@[i].parts@
            &&& forall|i: int, j: int|
                0 <= i < j < e.sorted@.len() ==> #[trigger] e.sorted@[i] != #[trigger] e.sorted@[j]
                    && e.accounts@[e.sorted@[i] as int].packed
                    <= e.accounts@[e.sorted@[j] as int].packed
            &&& e.returned@ == w.returned
            &&& e.reads@.len() == demands_of(e, c).len() + (if w.drew {
                1int
            } else {
                0int
            })
            &&& e.advice@.len() == (if w.advised {
                c.advice@.len()
            } else {
                0
            })
            &&& forall|i: int|
                0 <= i < e.advice@.len() ==> {
                    &&& (#[trigger] e.advice@[i]).from == e.sorted@[c.advice@[i].position as int]
                    &&& e.advice@[i].to == e.sorted@[0]
                    &&& e.advice@[i].factor == c.advice@[i].factor
                    &&& e.advice@[i].advice == c.advice@[i].advice
                    &&& c.advice@[i].rate_matches
                }
            &&& forall|i: int|
                0 <= i < w.visited && i < e.sorted@.len() ==> e.accounts@[#[trigger] e.sorted@[i] as int].routeability_seen
                    && e.accounts@[e.sorted@[i] as int].routeable
                    == c.rows@[e.sorted@[i] as int].routeable
            &&& forall|i: int|
                w.visited <= i < e.sorted@.len() ==> !e.accounts@[#[trigger] e.sorted@[i] as int].routeability_seen
                    && !e.accounts@[e.sorted@[i] as int].routeable
            &&& match (w.paired, c.pair) {
                (true, Some(pair)) => {
                    &&& e.from == e.sorted@[pair.position as int]
                    &&& e.to == e.sorted@[0]
                    &&& e.reason == Some(pair.factor)
                    &&& pair.rate_matches
                },
                _ => e.from == -1 && e.to == -1 && e.reason is None,
            }
        },
{
    let w = walk(e, c)->Ok_0;
    let count = e.sorted@.len() as int;
    assert(e.sorted@.len() == e.sorted.len());
    lemma_choices(e.sorted@, c.rows@, count);
    assert(ranked(e.sorted@, c.rows@));
    assert forall|i: int, j: int| 0 <= i < j < e.sorted@.len() implies #[trigger] e.sorted@[i]
        != #[trigger] e.sorted@[j] && e.accounts@[e.sorted@[i] as int].packed
        <= e.accounts@[e.sorted@[j] as int].packed by {
        assert(e.sorted@[i] < c.rows@.len() && e.sorted@[j] < c.rows@.len());
        assert(e.accounts@[e.sorted@[i] as int].packed == c.rows@[e.sorted@[i] as int].score);
        assert(e.accounts@[e.sorted@[j] as int].packed == c.rows@[e.sorted@[j] as int].score);
    }
    assert forall|i: int| 0 <= i < w.visited && i < e.sorted@.len() implies e.accounts@[#[trigger] e.sorted@[i] as int].routeability_seen
        && e.accounts@[e.sorted@[i] as int].routeable == c.rows@[e.sorted@[i] as int].routeable by {
        let account = e.sorted@[i] as int;
        assert(account < c.rows@.len());
        assert(e.sorted@.take(w.visited as int)[i] == account as u8);
        assert(e.accounts@[account].routeability_seen);
    }
    assert forall|i: int| w.visited <= i < e.sorted@.len() implies !e.accounts@[#[trigger] e.sorted@[i] as int].routeability_seen
        && !e.accounts@[e.sorted@[i] as int].routeable by {
        let account = e.sorted@[i] as int;
        assert(account < c.rows@.len());
        if e.sorted@.take(w.visited as int).contains(account as u8) {
            let j = choose|j: int|
                0 <= j < w.visited && e.sorted@.take(w.visited as int)[j] == account as u8;
            assert(e.sorted@[j] == e.sorted@[i]);
        }
        assert(!e.accounts@[account].routeability_seen);
    }
}

/// A history takes the evaluations of one policy of its owner, each once and in
/// order, until the policy is closed. It begins with a configuration; each further
/// configuration is later than the last, and between two of them every evaluation
/// repeats the applied one.
pub proof fn law_histories_are_contiguous(m: FactorModel, e: Evaluation, c: Computation)
    requires
        m.apply(e, c) is Ok,
    ensures
        ({
            let n = m.apply(e, c)->Ok_0;
            &&& !m.closed
            &&& n.closed <==> e.entry is Close
            &&& e.epoch == m.epoch && n.epoch == m.epoch
            &&& e.evaluation == m.evaluation + 1
            &&& n.evaluation == e.evaluation
            &&& m.policy == 0 ==> e.entry is Config && e.policy != 0 && e.group != 0
            &&& m.policy != 0 ==> e.policy == m.policy && e.group == m.group
            &&& e.entry is Config ==> {
                &&& e.config > m.config
                &&& n.config == e.config
                &&& n.policy == e.policy
                &&& n.group == e.group
                &&& n.resource == e.resource
                &&& n.configuration == Some(e.configuration@)
            }
            &&& !(e.entry is Config) ==> {
                &&& e.config == m.config
                &&& e.resource == m.resource
                &&& m.configuration == Some(e.configuration@)
                &&& n.config == m.config && n.resource == m.resource && n.configuration
                    == m.configuration && n.policy == m.policy && n.group == m.group
                    && n.last_resource == m.last_resource
            }
            &&& n.history_bytes == c.history_bytes
            &&& e.factors@ == c.order@
        }),
{
}

/// A resource factor lives from the configuration that brings it to the one that
/// takes it away: a connection policy has none, any other keeps the one that there
/// is, and one that comes anew is later than every one before.
pub proof fn law_resource_factors_are_never_reused(m: FactorModel, e: Evaluation, c: Computation)
    requires
        m.apply(e, c) is Ok,
        m.resource == 0 || m.resource == m.last_resource,
    ensures
        ({
            let n = m.apply(e, c)->Ok_0;
            &&& n.resource == 0 || n.resource == n.last_resource
            &&& n.last_resource >= m.last_resource
            &&& e.entry is Config && e.configuration@.balance == "connection"@ ==> n.resource == 0
            &&& e.entry is Config && e.configuration@.balance != "connection"@ ==> {
                &&& n.resource != 0
                &&& m.resource != 0 ==> n.resource == m.resource
                &&& m.resource == 0 ==> n.resource > m.last_resource
            }
        }),
{
}

/// A configuration, a close, an evaluation without accounts and a balance of at most
/// one end before anything is scored: they read, return and compute nothing. Every
/// other evaluation is held against the computation.
pub proof fn law_early_ends_capture_nothing(m: FactorModel, e: Evaluation, c: Computation)
    requires
        m.apply(e, c) is Ok,
    ensures
        ({
            let ended = e.entry is Config || e.entry is Close || e.accounts@.len() == 0 || (
            e.entry is Balance && e.accounts@.len() == 1);
            &&& ended ==> {
                &&& e.reads@.len() == 0
                &&& e.sorted@.len() == 0
                &&& e.advice@.len() == 0
                &&& e.returned@.len() == 0
                &&& e.from == -1 && e.to == -1 && e.reason is None && e.balance_count == 0
                &&& forall|i: int|
                    0 <= i < e.accounts@.len() ==> {
                        let account = #[trigger] e.accounts@[i];
                        &&& account.seen == 0 && account.packed == 0
                        &&& !account.routeability_seen && !account.routeable
                    }
                &&& m.apply(e, c)->Ok_0.cadence == m.cadence
                &&& decided(e, c).rate.bits == 0 && decided(e, c).rate.interval == 0
            }
            &&& !ended ==> judged(e, c, m.emits(e)) is None
        }),
{
}

/// Scores are published where the first clock of a scored evaluation is more than
/// ten seconds after the last publication, and the time of the last publication is
/// kept until then.
pub proof fn law_scores_are_published_at_their_cadence(m: FactorModel, e: Evaluation, c: Computation)
    requires
        m.apply(e, c) is Ok,
        !ends_early(e),
    ensures
        e.reads@.len() > 0,
        e.reads@[0] matches Read::Clock { site, ordinal, time } && {
            let since = time.difference(m.cadence);
            &&& site is MetricCadence
            &&& ordinal == 0
            &&& m.emits(e) <==> since > 10_000_000_000
            &&& since > 10_000_000_000 ==> m.apply(e, c)->Ok_0.cadence == time
            &&& since <= 10_000_000_000 ==> m.apply(e, c)->Ok_0.cadence == m.cadence
        },
{
    lemma_cadence_first(c, e.accounts@.len() > 1, c.order@.len() as int);
    let demands = demands_of(e, c);
    assert(answers(e.reads@, demands, 0));
    assert(asked(demands, 0, ClockSite::MetricCadence) == 0);
}

proof fn lemma_cadence_first(c: Computation, several: bool, count: int)
    ensures
        demanded(c, several, count).len() > 0,
        demanded(c, several, count)[0] == Demand::Clock(ClockSite::MetricCadence),
    decreases count,
{
    if count > 0 {
        lemma_cadence_first(c, several, count - 1);
    }
}

proof fn lemma_demands_grow(c: Computation, several: bool, from: int, to: int)
    requires
        from <= to,
    ensures
        demanded(c, several, from).is_prefix_of(demanded(c, several, to)),
    decreases to - from,
{
    if from < to {
        lemma_demands_grow(c, several, from, to - 1);
        let before = demanded(c, several, from);
        let middle = demanded(c, several, to - 1);
        let all = demanded(c, several, to);
        assert(before =~= middle.subrange(0, before.len() as int));
        assert(before =~= all.subrange(0, before.len() as int));
    } else {
        let all = demanded(c, several, to);
        assert(all =~= all.subrange(0, all.len() as int));
    }
}

/// Scoring reads the cadence clock first and then goes through the factors in order:
/// a status snapshot for each status factor, and, where there are several accounts,
/// whole the reads that the window of a health, memory or processor factor asks for.
/// No other factor reads anything.
pub proof fn law_factors_read_in_order(e: Evaluation, c: Computation, at: int)
    requires
        0 <= at < c.order@.len(),
    ensures
        ({
            let several = e.accounts@.len() > 1;
            let demands = demands_of(e, c);
            let from = demanded(c, several, at).len() as int;
            let to = demanded(c, several, at + 1).len() as int;
            let block = demands.subrange(from, to);
            &&& demands[0] == Demand::Clock(ClockSite::MetricCadence)
            &&& 0 < from <= to <= demands.len()
            &&& match c.order@[at].factor {
                Factor::Status => block == seq![Demand::Clock(ClockSite::StatusSnapshot)],
                Factor::Health => block == if several {
                    c.windows@[at]@
                } else {
                    seq![]
                },
                Factor::Memory => block == if several {
                    c.windows@[at]@
                } else {
                    seq![]
                },
                Factor::Cpu => block == if several {
                    c.windows@[at]@
                } else {
                    seq![]
                },
                _ => block.len() == 0,
            }
            &&& at + 1 == c.order@.len() ==> to == demands.len()
            &&& at == 0 ==> from == 1
        }),
{
    let several = e.accounts@.len() > 1;
    let demands = demands_of(e, c);
    lemma_cadence_first(c, several, at);
    lemma_cadence_first(c, several, c.order@.len() as int);
    lemma_demands_grow(c, several, at + 1, c.order@.len() as int);
    let before = demanded(c, several, at);
    let after = demanded(c, several, at + 1);
    let block = factor_demands(c.order@[at].factor, c.windows@[at]@, several);
    assert(after == before + block);
    assert(demands.subrange(before.len() as int, after.len() as int) =~= block) by {
        assert(after =~= demands.subrange(0, after.len() as int));
        assert forall|i: int| 0 <= i < block.len() implies demands[before.len() + i] == block[i] by {
            assert(after[before.len() + i] == block[i]);
            assert(after[before.len() + i] == demands[before.len() + i]);
        }
    }
    assert(demanded(c, several, 0).len() == 1);
}

/// Every clock that is answered is numbered by how often the same clock was asked
/// for before it, and every query that is answered is the one that was asked for and
/// is called empty exactly where it holds no value.
pub proof fn law_reads_answer_their_demands(reads: Seq<Read>, demands: Seq<Demand>, at: int)
    requires
        supplied(reads, demands),
        0 <= at < demands.len(),
    ensures
        match demands[at] {
            Demand::Clock(site) => reads[at] matches Read::Clock { site: actual, ordinal, .. }
                && actual == site && ordinal == demands.take(at).filter(
                |demand: Demand| demand == Demand::Clock(site),
            ).len(),
            Demand::Query(id) => reads[at] matches Read::Query(query) && query.query == id && (
            query.empty <==> query.typed_nil || query.shape is Nil || query.shape is NoValue || ((
            query.shape is Matrix || query.shape is Vector) && query.series@.len() == 0)),
        },
{
    assert(answers(reads, demands, at));
    if let Demand::Clock(site) = demands[at] {
        lemma_asked(demands, at, site);
    }
}

proof fn lemma_asked(demands: Seq<Demand>, count: int, site: ClockSite)
    requires
        0 <= count <= demands.len(),
    ensures
        asked(demands, count, site) == demands.take(count).filter(
            |demand: Demand| demand == Demand::Clock(site),
        ).len(),
    decreases count,
{
    reveal(Seq::filter);
    if count > 0 {
        lemma_asked(demands, count - 1, site);
        assert(demands.take(count).drop_last() =~= demands.take(count - 1));
        assert(demands.take(count).last() == demands[count - 1]);
    } else {
        assert(demands.take(0).len() == 0);
    }
}

proof fn lemma_both_seen(a: u16, b: u16, seen: u16)
    ensures
        (a | b) & !seen == 0 <==> a & !seen == 0 && b & !seen == 0,
{
    assert((a | b) & !seen == 0 <==> a & !seen == 0 && b & !seen == 0) by (bit_vector);
}

proof fn lemma_scoring_seen(
    order: Seq<FactorWidth>,
    configuration: ConfigurationModel,
    several: bool,
    emits: bool,
    count: int,
    at: int,
    seen: u16,
)
    requires
        0 <= count <= order.len(),
        scoring_getters(order, configuration, several, emits, count) & !seen == 0,
    ensures
        USES_ID & !seen == 0,
        0 <= at < count ==> factor_getters(order[at].factor, configuration, several) & !seen == 0,
        count > 0 && emits ==> USES_ADDRESS & !seen == 0,
    decreases count,
{
    if count > 0 {
        let rest = scoring_getters(order, configuration, several, emits, count - 1);
        let own = factor_getters(order[count - 1].factor, configuration, several);
        let extra = if emits {
            USES_ADDRESS
        } else {
            0
        };
        lemma_both_seen(rest | own, extra, seen);
        lemma_both_seen(rest, own, seen);
        lemma_scoring_seen(order, configuration, several, emits, count - 1, at, seen);
    }
}

/// Whatever an accepted evaluation used of an account was captured: its identity
/// always, its address for a route and where scores are published, what each factor
/// scores by, and what the windows read.
pub proof fn law_used_getters_were_captured(
    e: Evaluation,
    c: Computation,
    emits: bool,
    account: int,
    at: int,
)
    requires
        judged(e, c, emits) is None,
        0 <= account < e.accounts@.len(),
        0 <= at < c.order@.len(),
    ensures
        ({
            let missing = !e.accounts@[account].seen;
            let factor = c.order@[at].factor;
            &&& USES_ID & missing == 0
            &&& c.used@[account] & missing == 0
            &&& e.entry is Route ==> USES_ADDRESS & missing == 0
            &&& emits ==> USES_ADDRESS & missing == 0
            &&& factor is Status ==> USES_HEALTH & missing == 0
            &&& factor is Connection ==> USES_SCORE & missing == 0
            &&& factor is Location && e.accounts@.len() > 1 ==> USES_LOCAL & missing == 0
            &&& factor is Label && e.configuration@.self_label.len() > 0 ==> USES_INFO & missing
                == 0
        }),
{
    let w = walk(e, c)->Ok_0;
    let seen = e.accounts@[account].seen;
    assert(fields_complete(e, c, emits, w));
    let used = c.used@[account];
    let own = getters_of(e, c, emits);
    let outcome = outcome_getters(e, c, w, account);
    assert((used | own | outcome) & !e.accounts@[account].seen == 0);
    lemma_both_seen(used | own, outcome, seen);
    lemma_both_seen(used, own, seen);
    let entry = entry_getters(e.entry);
    let scoring = scoring_getters(
        c.order@,
        e.configuration@,
        e.accounts@.len() > 1,
        emits,
        c.order@.len() as int,
    );
    lemma_both_seen(entry, scoring, seen);
    lemma_scoring_seen(
        c.order@,
        e.configuration@,
        e.accounts@.len() > 1,
        emits,
        c.order@.len() as int,
        at,
        seen,
    );
}

/// The rate of a decision is the computed one wherever a pair was found, and never
/// the captured one: it is zero wherever there is no pair.
pub proof fn law_rates_are_computed(e: Evaluation, c: Computation)
    requires
        judged(e, c, true) is None || judged(e, c, false) is None,
        e.entry is Balance,
        e.accounts@.len() > 1,
    ensures
        ({
            let decision = decided(e, c);
            let paired = c.pair is Some && c.rows@[e.sorted@[0] as int].routeable;
            &&& paired ==> decision.rate == c.pair->0.rate && decision.from
                == e.sorted@[c.pair->0.position as int] && decision.to == e.sorted@[0]
                && decision.reason == Some(c.pair->0.factor)
            &&& !paired ==> decision.rate.bits == 0 && decision.rate.interval == 0 && decision.from
                == -1 && decision.to == -1 && decision.reason is None
        }),
{
    assert(ranked(e.sorted@, c.rows@));
}

/// From the Unix epoch on, and for as long as they fit, the microseconds of an
/// instant are those that have passed since that epoch.
pub proof fn law_micros_count_from_the_epoch(time: GoTime)
    requires
        62_135_596_800 <= time.seconds <= 9_223_434_171_000,
        time.nanos < 1_000_000_000,
    ensures
        micros(time) == (time.seconds - 62_135_596_800) * 1_000_000 + time.nanos / 1000,
        micros(time) >= 0,
{
}

proof fn lemma_advice_seen(
    sorted: Seq<u8>,
    advice: Seq<ComputedAdvice>,
    account: int,
    count: int,
    at: int,
    seen: u16,
)
    requires
        0 <= at < count <= advice.len(),
        advice_getters(sorted, advice, account, count) & !seen == 0,
    ensures
        call_getters(sorted, advice[at], account) & !seen == 0,
    decreases count,
{
    let rest = advice_getters(sorted, advice, account, count - 1);
    lemma_both_seen(rest, call_getters(sorted, advice[count - 1], account), seen);
    if at < count - 1 {
        lemma_advice_seen(sorted, advice, account, count - 1, at, seen);
    }
}

/// An advice that was asked for used the identity of its source and of the best
/// account, the scores of both where the factor weighs connections, and the label of
/// the source where it weighs labels; all of it was captured.
pub proof fn law_advice_was_captured_of_both_sides(
    e: Evaluation,
    c: Computation,
    emits: bool,
    call: int,
    account: int,
)
    requires
        judged(e, c, emits) is None,
        walk(e, c)->Ok_0.advised,
        0 <= call < c.advice@.len(),
        0 <= account < e.accounts@.len(),
        account == e.sorted@[c.advice@[call].position as int] || account == e.sorted@[0],
    ensures
        ({
            let missing = !e.accounts@[account].seen;
            let factor = c.advice@[call].factor;
            &&& USES_ID & missing == 0
            &&& factor is Connection || factor is Cpu ==> USES_SCORE & missing == 0
            &&& factor is Label && account == e.sorted@[c.advice@[call].position as int]
                ==> USES_INFO & missing == 0
        }),
{
    let w = walk(e, c)->Ok_0;
    let seen = e.accounts@[account].seen;
    assert(fields_complete(e, c, emits, w));
    let outcome = outcome_getters(e, c, w, account);
    assert((c.used@[account] | getters_of(e, c, emits) | outcome) & !e.accounts@[account].seen == 0);
    lemma_both_seen(c.used@[account] | getters_of(e, c, emits), outcome, seen);
    let advice = advice_getters(e.sorted@, c.advice@, account, c.advice@.len() as int);
    let rest = if w.paired && looked_at(e.sorted@, c.asked@, account, c.asked@.len() as int) {
        connection_getters(e.accounts@[account])
    } else {
        0
    };
    assert(outcome == advice | rest);
    lemma_both_seen(advice, rest, seen);
    lemma_advice_seen(e.sorted@, c.advice@, account, c.advice@.len() as int, call, seen);
    let score = if c.advice@[call].factor is Connection || c.advice@[call].factor is Cpu {
        USES_SCORE
    } else {
        0
    };
    let info = if account == e.sorted@[c.advice@[call].position as int]
        && c.advice@[call].factor is Label {
        USES_INFO
    } else {
        0
    };
    assert(call_getters(e.sorted@, c.advice@[call], account) == (USES_ID | score) | info);
    lemma_both_seen(USES_ID | score, info, seen);
    lemma_both_seen(USES_ID, score, seen);
}

/// A search for a pair that looked at an account's connections read how many it has,
/// and its score where it has any; both were captured.
pub proof fn law_searched_connections_were_captured(
    e: Evaluation,
    c: Computation,
    emits: bool,
    look: int,
)
    requires
        judged(e, c, emits) is None,
        walk(e, c)->Ok_0.paired,
        0 <= look < c.asked@.len(),
    ensures
        ({
            let account = e.accounts@[e.sorted@[c.asked@[look] as int] as int];
            &&& USES_PHYSICAL & !account.seen == 0
            &&& account.physical > 0 ==> USES_SCORE & !account.seen == 0
        }),
{
    let w = walk(e, c)->Ok_0;
    assert(ranked(e.sorted@, c.rows@));
    assert(c.asked@[look] < e.accounts@.len());
    let account = e.sorted@[c.asked@[look] as int] as int;
    let seen = e.accounts@[account].seen;
    assert(fields_complete(e, c, emits, w));
    let outcome = outcome_getters(e, c, w, account);
    assert((c.used@[account] | getters_of(e, c, emits) | outcome) & !e.accounts@[account].seen == 0);
    lemma_both_seen(c.used@[account] | getters_of(e, c, emits), outcome, seen);
    assert(looked_at(e.sorted@, c.asked@, account, c.asked@.len() as int)) by {
        assert(e.sorted@[c.asked@[look] as int] == account);
    }
    let advice: u16 = if w.advised {
        advice_getters(e.sorted@, c.advice@, account, c.advice@.len() as int)
    } else {
        0
    };
    let own = connection_getters(e.accounts@[account]);
    assert(outcome == advice | own);
    lemma_both_seen(advice, own, seen);
    let score: u16 = if e.accounts@[account].physical > 0 {
        USES_SCORE
    } else {
        0
    };
    lemma_both_seen(USES_PHYSICAL, score, seen);
}

/// A history that is called with an evaluation either takes it whole and decides what
/// was computed, or refuses it and stays as it was.
pub proof fn law_histories_take_evaluations_whole(
    state: &mut FactorState,
    e: &Evaluation,
    c: &Computation,
    r: Result<Decision, Failure>,
)
    requires
        call_ensures(FactorState::apply, (state, e, c), r),
    ensures
        r is Ok ==> old(state)@.apply(*e, *c) == Ok::<FactorModel, Failure>(final(state)@)
            && r->Ok_0@ == decided(*e, *c),
        r is Err ==> final(state)@ == old(state)@ && old(state)@.apply(*e, *c) == Err::<
            FactorModel,
            Failure,
        >(r->Err_0),
{
}

} // verus!
