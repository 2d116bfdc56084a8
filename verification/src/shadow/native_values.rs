//! Values read of one account, with the getters that were used for them, and
//! the metric lookups that those values key.
use vstd::prelude::*;
use vstd::string::{StrSliceExecFns, StringExecFns};

use super::native::{Account, QueryRead, Sample, Series, Shape};

verus! {

/// Getter of the backend identity.
pub const USES_ID: u16 = 1;

/// Getter of the address.
pub const USES_ADDRESS: u16 = 2;

/// Getter of the physical count.
pub const USES_PHYSICAL: u16 = 4;

/// Getter of the score count.
pub const USES_SCORE: u16 = 8;

/// Getter of the health.
pub const USES_HEALTH: u16 = 16;

/// Getter of the locality.
pub const USES_LOCAL: u16 = 32;

/// Getter of the backend info.
pub const USES_INFO: u16 = 128;

/// The characters with the Unicode property White_Space.
pub open spec fn whitespace(value: char) -> bool {
    ||| '\u{9}' <= value <= '\u{d}'
    ||| value == '\u{20}'
    ||| value == '\u{85}'
    ||| value == '\u{a0}'
    ||| value == '\u{1680}'
    ||| '\u{2000}' <= value <= '\u{200a}'
    ||| value == '\u{2028}'
    ||| value == '\u{2029}'
    ||| value == '\u{202f}'
    ||| value == '\u{205f}'
    ||| value == '\u{3000}'
}

/// `char::is_whitespace`: whether a character has the Unicode property
/// White_Space, which the contract lists.
#[verifier::external_body]
fn is_whitespace(value: char) -> (r: bool)
    ensures
        r == whitespace(value),
{
    value.is_whitespace()
}

/// The text without white space at its ends.
pub open spec fn is_trimmed(text: Seq<char>, from: int, to: int) -> bool {
    &&& 0 <= from <= to <= text.len()
    &&& forall|i: int| 0 <= i < from ==> whitespace(#[trigger] text[i])
    &&& forall|i: int| to <= i < text.len() ==> whitespace(#[trigger] text[i])
    &&& from < to ==> !whitespace(text[from]) && !whitespace(text[to - 1])
}

/// The decimal digit of a number below ten.
pub open spec fn digit(value: nat) -> char {
    (48 + value) as char
}

/// The decimal digits of a number.
pub open spec fn decimal(value: nat) -> Seq<char>
    decreases value,
{
    if value < 10 {
        seq![digit(value)]
    } else {
        decimal(value / 10).push(digit(value % 10))
    }
}

/// A port as Go's conversion to a signed integer prints it.
pub open spec fn port_text(port: u64) -> Seq<char> {
    if port <= i64::MAX {
        decimal(port as nat)
    } else {
        seq!['-'] + decimal((0x1_0000_0000_0000_0000 - port) as nat)
    }
}

fn digit_text(value: u64) -> (r: &'static str)
    requires
        value < 10,
    ensures
        r@ == seq![digit(value as nat)],
{
    proof {
        reveal_strlit("0");
        reveal_strlit("1");
        reveal_strlit("2");
        reveal_strlit("3");
        reveal_strlit("4");
        reveal_strlit("5");
        reveal_strlit("6");
        reveal_strlit("7");
        reveal_strlit("8");
        reveal_strlit("9");
    }
    let r = match value {
        0 => "0",
        1 => "1",
        2 => "2",
        3 => "3",
        4 => "4",
        5 => "5",
        6 => "6",
        7 => "7",
        8 => "8",
        _ => "9",
    };
    assert(r@ =~= seq![digit(value as nat)]);
    r
}

fn decimal_text(value: u64) -> (r: String)
    ensures
        r@ == decimal(value as nat),
    decreases value,
{
    if value < 10 {
        return digit_text(value).to_owned();
    }
    let mut text = decimal_text(value / 10);
    text.append(digit_text(value % 10));
    assert(text@ =~= decimal(value as nat));
    text
}

/// Whether a part occurs in a text at a position.
pub open spec fn occurs_at(text: Seq<char>, part: Seq<char>, at: int) -> bool {
    0 <= at && at + part.len() <= text.len() && text.subrange(at, at + part.len()) == part
}

/// Where a part first occurs in a text at or after a position.
pub open spec fn first_occurrence(text: Seq<char>, part: Seq<char>, from: int) -> Option<int>
    decreases text.len() - from,
{
    if from > text.len() {
        None
    } else if occurs_at(text, part, from) {
        Some(from)
    } else if from < text.len() {
        first_occurrence(text, part, from + 1)
    } else {
        None
    }
}

/// Where the text goes on after some parts, each found after the one before.
pub open spec fn after_parts(text: Seq<char>, parts: Seq<Seq<char>>, from: int) -> Option<int>
    decreases parts.len(),
{
    if parts.len() == 0 {
        Some(from)
    } else {
        match first_occurrence(text, parts[0], from) {
            Some(at) => after_parts(text, parts.skip(1), at + parts[0].len()),
            None => None,
        }
    }
}

/// The marks of an address that an operator gave to a peer service.
pub open spec fn operator_parts() -> Seq<Seq<char>> {
    seq!["-tidb-"@, "."@, "peer"@, ".svc"@]
}

/// Whether an address is one that an operator gave to a peer service.
pub open spec fn is_operator_address(address: Seq<char>) -> bool {
    after_parts(address, operator_parts(), 0) is Some
}

/// Where a character first occurs in a text at or after a position, or the
/// text's length.
pub open spec fn first_char(text: Seq<char>, value: char, from: int) -> int
    decreases text.len() - from,
{
    if from >= text.len() {
        text.len() as int
    } else if text[from] == value {
        from
    } else {
        first_char(text, value, from + 1)
    }
}

fn part_at(text: &str, length: usize, part: &str, at: usize) -> (r: bool)
    requires
        length == text@.len(),
        at <= length,
    ensures
        r == occurs_at(text@, part@, at as int),
{
    let size = part.unicode_len();
    if size > length - at {
        return false;
    }
    let mut index: usize = 0;
    while index < size
        invariant
            size == part@.len(),
            length == text@.len(),
            at + size <= length,
            index <= size,
            forall|i: int| 0 <= i < index ==> text@[at + i] == part@[i],
        decreases size - index,
    {
        if text.get_char(at + index) != part.get_char(index) {
            proof {
                if text@.subrange(at as int, at + size) == part@ {
                    assert(text@.subrange(at as int, at + size)[index as int] == part@[index as int]);
                }
            }
            return false;
        }
        index = index + 1;
    }
    assert(text@.subrange(at as int, at + size) =~= part@);
    true
}

fn find_part(text: &str, length: usize, part: &str, from: usize) -> (r: Option<usize>)
    requires
        length == text@.len(),
        from <= length,
    ensures
        match first_occurrence(text@, part@, from as int) {
            Some(at) => r == Some(at as usize) && 0 <= at && at + part@.len() <= length,
            None => r is None,
        },
{
    let mut at: usize = from;
    while at < length
        invariant
            length == text@.len(),
            from <= at <= length,
            first_occurrence(text@, part@, from as int) == first_occurrence(
                text@,
                part@,
                at as int,
            ),
        decreases length - at,
    {
        if part_at(text, length, part, at) {
            return Some(at);
        }
        at = at + 1;
    }
    if part_at(text, length, part, at) {
        Some(at)
    } else {
        None
    }
}

fn is_operator(address: &str) -> (r: bool)
    ensures
        r == is_operator_address(address@),
{
    let length = address.unicode_len();
    proof {
        reveal_with_fuel(after_parts, 5);
        let parts = operator_parts();
        assert(parts.skip(1) =~= seq!["."@, "peer"@, ".svc"@]);
        assert(parts.skip(1).skip(1) =~= seq!["peer"@, ".svc"@]);
        assert(parts.skip(1).skip(1).skip(1) =~= seq![".svc"@]);
        assert(parts.skip(1).skip(1).skip(1).skip(1) =~= seq![]);
    }
    let first = match find_part(address, length, "-tidb-", 0) {
        Some(at) => at + "-tidb-".unicode_len(),
        None => return false,
    };
    let second = match find_part(address, length, ".", first) {
        Some(at) => at + ".".unicode_len(),
        None => return false,
    };
    let third = match find_part(address, length, "peer", second) {
        Some(at) => at + "peer".unicode_len(),
        None => return false,
    };
    find_part(address, length, ".svc", third).is_some()
}

fn find_char(text: &str, length: usize, value: char) -> (r: usize)
    requires
        length == text@.len(),
    ensures
        r == first_char(text@, value, 0),
        r <= length,
{
    let mut at: usize = 0;
    while at < length
        invariant
            length == text@.len(),
            at <= length,
            first_char(text@, value, 0) == first_char(text@, value, at as int),
        decreases length - at,
    {
        if text.get_char(at) == value {
            return at;
        }
        at = at + 1;
    }
    at
}

/// The metric instance of a backend: the first label of an operator's peer
/// address, else its status host and port.
pub open spec fn instance_of(account: Account) -> Seq<char> {
    let address = account.addr@;
    let host = account.ip@;
    if is_operator_address(address) {
        address.subrange(0, first_char(address, '.', 0))
    } else if host.contains(':') {
        seq!['['] + host + seq![']', ':'] + port_text(account.status_port)
    } else {
        host + seq![':'] + port_text(account.status_port)
    }
}

/// Whether a text is the metric cluster of a backend: its trimmed cluster name,
/// or the default name where that is empty.
pub open spec fn is_cluster_of(account: Account, cluster: Seq<char>) -> bool {
    exists|from: int, to: int| #[trigger]
        is_trimmed(account.cluster@, from, to) && cluster == if from == to {
            "default"@
        } else {
            account.cluster@.subrange(from, to)
        }
}

/// The values of one account, with the getters that were used so far.
pub struct Values<'a> {
    /// The account.
    pub account: &'a Account,
    /// Used getters.
    pub used: u16,
}

impl<'a> Values<'a> {
    /// Before any getter was used.
    pub fn new(account: &'a Account) -> (r: Self)
        ensures
            *r.account == *account,
            r.used == 0,
    {
        Values { account, used: 0 }
    }

    fn use_field(&mut self, bit: u16)
        ensures
            final(self).account == old(self).account,
            final(self).used == old(self).used | bit,
    {
        self.used = self.used | bit;
    }

    /// Whether every used getter was captured.
    pub fn complete(&self) -> (r: bool)
        ensures
            r == (self.used & !self.account.seen == 0),
    {
        self.used & !self.account.seen == 0
    }

    /// Whether the configured label has a value; an empty value matches any
    /// backend without reading it.
    pub fn label_matches(&mut self, value: &String) -> (r: bool)
        ensures
            final(self).account == old(self).account,
            value@.len() == 0 ==> r && final(self).used == old(self).used,
            value@.len() > 0 ==> r == (old(self).account.label_present && old(self).account.label@
                == value@) && final(self).used == old(self).used | USES_INFO,
    {
        if value.as_str().unicode_len() == 0 {
            return true;
        }
        self.use_field(USES_INFO);
        self.account.label_present && self.account.label == *value
    }

    /// Locality.
    pub fn local(&mut self) -> (r: bool)
        ensures
            r == old(self).account.local,
            final(self).account == old(self).account,
            final(self).used == old(self).used | USES_LOCAL,
    {
        self.use_field(USES_LOCAL);
        self.account.local
    }

    /// Health.
    pub fn healthy(&mut self) -> (r: bool)
        ensures
            r == old(self).account.healthy,
            final(self).account == old(self).account,
            final(self).used == old(self).used | USES_HEALTH,
    {
        self.use_field(USES_HEALTH);
        self.account.healthy
    }

    /// Backend identity.
    pub fn key(&mut self) -> (r: &'a String)
        ensures
            r@ == old(self).account.id@,
            final(self).account == old(self).account,
            final(self).used == old(self).used | USES_ID,
    {
        self.use_field(USES_ID);
        &self.account.id
    }

    /// Use the address without reading it.
    pub fn touch_address(&mut self)
        ensures
            final(self).account == old(self).account,
            final(self).used == old(self).used | USES_ADDRESS,
    {
        self.use_field(USES_ADDRESS);
    }

    /// Physical count.
    pub fn physical(&mut self) -> (r: i64)
        ensures
            r == old(self).account.physical,
            final(self).account == old(self).account,
            final(self).used == old(self).used | USES_PHYSICAL,
    {
        self.use_field(USES_PHYSICAL);
        self.account.physical
    }

    /// Score count.
    pub fn score_count(&mut self) -> (r: i64)
        ensures
            r == old(self).account.score_count,
            final(self).account == old(self).account,
            final(self).used == old(self).used | USES_SCORE,
    {
        self.use_field(USES_SCORE);
        self.account.score_count
    }

    /// The metric instance of the backend.
    pub fn instance(&mut self) -> (r: String)
        ensures
            r@ == instance_of(*old(self).account),
            final(self).account == old(self).account,
            final(self).used == if is_operator_address(old(self).account.addr@) {
                old(self).used | USES_ADDRESS
            } else {
                old(self).used | USES_ADDRESS | USES_INFO
            },
    {
        self.touch_address();
        let address = self.account.addr.as_str();
        if is_operator(address) {
            let length = address.unicode_len();
            let end = find_char(address, length, '.');
            return address.substring_char(0, end).to_owned();
        }
        self.use_field(USES_INFO);
        let host = self.account.ip.as_str();
        let length = host.unicode_len();
        let port = self.account.status_port;
        let bracketed = find_char(host, length, ':') < length;
        proof {
            lemma_first_char(host@, ':', 0);
            reveal_strlit("[");
            reveal_strlit("]:");
            reveal_strlit(":");
            reveal_strlit("-");
        }
        let mut text = String::new();
        if bracketed {
            text.append("[");
            text.append(host);
            text.append("]:");
        } else {
            text.append(host);
            text.append(":");
        }
        let ghost head = text@;
        if port <= i64::MAX as u64 {
            let number = decimal_text(port);
            text.append(number.as_str());
        } else {
            // Go converts unsigned status ports to signed ints before formatting.
            text.append("-");
            let number = decimal_text(u64::MAX - port + 1);
            text.append(number.as_str());
        }
        proof {
            assert(text@ =~= head + port_text(port));
            if bracketed {
                assert(head =~= seq!['['] + host@ + seq![']', ':']);
                assert(text@ =~= seq!['['] + host@ + seq![']', ':'] + port_text(port));
            } else {
                assert(head =~= host@ + seq![':']);
                assert(text@ =~= host@ + seq![':'] + port_text(port));
            }
        }
        text
    }

    /// The metric cluster of the backend.
    pub fn cluster(&mut self) -> (r: String)
        ensures
            is_cluster_of(*old(self).account, r@),
            final(self).account == old(self).account,
            final(self).used == old(self).used | USES_INFO,
    {
        self.use_field(USES_INFO);
        let cluster = self.account.cluster.as_str();
        let length = cluster.unicode_len();
        let mut from: usize = 0;
        while from < length && is_whitespace(cluster.get_char(from))
            invariant
                length == cluster@.len(),
                from <= length,
                forall|i: int| 0 <= i < from ==> whitespace(#[trigger] cluster@[i]),
            ensures
                from <= length,
                from < length ==> !whitespace(cluster@[from as int]),
            decreases length - from,
        {
            from = from + 1;
        }
        let mut to: usize = length;
        while to > from && is_whitespace(cluster.get_char(to - 1))
            invariant
                length == cluster@.len(),
                from <= to <= length,
                forall|i: int| to <= i < length ==> whitespace(#[trigger] cluster@[i]),
            ensures
                from <= to <= length,
                to > from ==> !whitespace(cluster@[to - 1]),
            decreases to - from,
        {
            to = to - 1;
        }
        assert(is_trimmed(self.account.cluster@, from as int, to as int));
        if from == to {
            "default".to_owned()
        } else {
            cluster.substring_char(from, to).to_owned()
        }
    }
}

proof fn lemma_first_char(text: Seq<char>, value: char, from: int)
    requires
        0 <= from <= text.len(),
    ensures
        from <= first_char(text, value, from) <= text.len(),
        first_char(text, value, from) < text.len() ==> text[first_char(text, value, from)] == value,
        forall|i: int| from <= i < first_char(text, value, from) ==> text[i] != value,
    decreases text.len() - from,
{
    if from < text.len() && text[from] != value {
        lemma_first_char(text, value, from + 1);
    }
}

impl Series {
    /// Whether a series is that of an instance in a cluster; a series without a
    /// cluster label belongs to any.
    pub open spec fn labelled(self, instance: Seq<char>, cluster: Seq<char>) -> bool {
        &&& self.instance matches Some(name) && name@ == instance
        &&& self.cluster matches Some(name) ==> name@ == cluster
    }
}

/// The first series of an instance in a cluster.
pub open spec fn first_series(
    series: Seq<Series>,
    instance: Seq<char>,
    cluster: Seq<char>,
    count: int,
) -> Option<int>
    decreases count,
{
    if count <= 0 {
        None
    } else {
        match first_series(series, instance, cluster, count - 1) {
            Some(at) => Some(at),
            None => if series[count - 1].labelled(instance, cluster) {
                Some(count - 1)
            } else {
                None
            },
        }
    }
}

impl QueryRead {
    /// The samples that a factor looks up for an instance in a cluster.
    pub open spec fn looked_up(self, instance: Seq<char>, cluster: Seq<char>, matrix: bool) -> Seq<Sample> {
        let wanted = if matrix {
            Shape::Matrix
        } else {
            Shape::Vector
        };
        if self.typed_nil || self.shape != wanted {
            seq![]
        } else {
            match first_series(self.series@, instance, cluster, self.series@.len() as int) {
                Some(at) => self.series@[at].samples@,
                None => seq![],
            }
        }
    }

    /// Look up the samples of a backend. A result of another kind is not looked
    /// into and uses no getter.
    pub fn samples<'a>(&'a self, values: &mut Values<'_>, matrix: bool) -> (r: &'a [Sample])
        ensures
            final(values).account == old(values).account,
            final(values).used == if self.typed_nil || self.shape != (if matrix {
                Shape::Matrix
            } else {
                Shape::Vector
            }) {
                old(values).used
            } else if is_operator_address(old(values).account.addr@) {
                old(values).used | USES_ADDRESS | USES_INFO
            } else {
                old(values).used | USES_ADDRESS | USES_INFO | USES_INFO
            },
            exists|cluster: Seq<char>| #[trigger]
                is_cluster_of(*old(values).account, cluster) && r@ == self.looked_up(
                    instance_of(*old(values).account),
                    cluster,
                    matrix,
                ),
    {
        let shape = if matrix {
            Shape::Matrix
        } else {
            Shape::Vector
        };
        let ghost account = *values.account;
        if self.typed_nil || self.shape != shape {
            proof {
                lemma_some_cluster(account);
                let cluster = choose|cluster: Seq<char>| #[trigger] is_cluster_of(account, cluster);
                assert(is_cluster_of(account, cluster));
            }
            return &[];
        }
        let instance = values.instance();
        let cluster = values.cluster();
        assert(is_cluster_of(account, cluster@));
        let mut index: usize = 0;
        while index < self.series.len()
            invariant
                index <= self.series@.len(),
                !self.typed_nil,
                self.shape == shape,
                shape == (if matrix {
                    Shape::Matrix
                } else {
                    Shape::Vector
                }),
                account == *old(values).account,
                values.account == old(values).account,
                values.used == if is_operator_address(account.addr@) {
                    old(values).used | USES_ADDRESS | USES_INFO
                } else {
                    old(values).used | USES_ADDRESS | USES_INFO | USES_INFO
                },
                instance@ == instance_of(account),
                is_cluster_of(account, cluster@),
                first_series(self.series@, instance@, cluster@, index as int) is None,
            decreases self.series@.len() - index,
        {
            let series = &self.series[index];
            let named = match &series.instance {
                Some(name) => *name == instance,
                None => false,
            };
            let placed = match &series.cluster {
                Some(name) => *name == cluster,
                None => true,
            };
            if named && placed {
                proof {
                    assert(first_series(self.series@, instance@, cluster@, index + 1) == Some(
                        index as int,
                    ));
                    lemma_first_series(
                        self.series@,
                        instance@,
                        cluster@,
                        index + 1,
                        self.series@.len() as int,
                    );
                }
                return series.samples.as_slice();
            }
            index = index + 1;
        }
        &[]
    }
}

proof fn lemma_first_series(
    series: Seq<Series>,
    instance: Seq<char>,
    cluster: Seq<char>,
    from: int,
    to: int,
)
    requires
        from <= to,
        first_series(series, instance, cluster, from) is Some,
    ensures
        first_series(series, instance, cluster, to) == first_series(
            series,
            instance,
            cluster,
            from,
        ),
    decreases to - from,
{
    if from < to {
        lemma_first_series(series, instance, cluster, from, to - 1);
    }
}

/// A trimmed text starts at the first character that is not white space.
proof fn lemma_trim(text: Seq<char>, from: int) -> (bounds: (int, int))
    requires
        0 <= from <= text.len(),
        forall|i: int| 0 <= i < from ==> whitespace(#[trigger] text[i]),
    ensures
        is_trimmed(text, bounds.0, bounds.1),
    decreases text.len() - from,
{
    if from < text.len() && whitespace(text[from]) {
        lemma_trim(text, from + 1)
    } else {
        lemma_trim_end(text, from, text.len() as int)
    }
}

proof fn lemma_trim_end(text: Seq<char>, from: int, to: int) -> (bounds: (int, int))
    requires
        0 <= from <= to <= text.len(),
        forall|i: int| 0 <= i < from ==> whitespace(#[trigger] text[i]),
        forall|i: int| to <= i < text.len() ==> whitespace(#[trigger] text[i]),
        from < text.len() ==> !whitespace(text[from]),
    ensures
        is_trimmed(text, bounds.0, bounds.1),
    decreases to - from,
{
    if from < to && whitespace(text[to - 1]) {
        lemma_trim_end(text, from, to - 1)
    } else {
        (from, to)
    }
}

/// A backend has one metric cluster.
pub proof fn law_cluster_is_determined(account: Account, a: Seq<char>, b: Seq<char>)
    requires
        is_cluster_of(account, a),
        is_cluster_of(account, b),
    ensures
        a == b,
{
    let text = account.cluster@;
    let (from, to) = choose|from: int, to: int| #[trigger]
        is_trimmed(text, from, to) && a == if from == to {
            "default"@
        } else {
            text.subrange(from, to)
        };
    let (start, end) = choose|start: int, end: int| #[trigger]
        is_trimmed(text, start, end) && b == if start == end {
            "default"@
        } else {
            text.subrange(start, end)
        };
    if from < to {
        assert(!whitespace(text[from]) && !whitespace(text[to - 1]));
        assert(start <= from && to <= end);
    }
    if start < end {
        assert(!whitespace(text[start]) && !whitespace(text[end - 1]));
        assert(from <= start && end <= to);
    }
}

/// Every backend has a metric cluster.
proof fn lemma_some_cluster(account: Account)
    ensures
        exists|cluster: Seq<char>| #[trigger] is_cluster_of(account, cluster),
{
    let text = account.cluster@;
    let (from, to) = lemma_trim(text, 0);
    let cluster = if from == to {
        "default"@
    } else {
        text.subrange(from, to)
    };
    assert(is_trimmed(text, from, to));
    assert(is_cluster_of(account, cluster));
}

/// The first series is the first, in order, that is labelled with the instance and
/// with the cluster or with none; there is none exactly where no series is.
pub proof fn law_first_series_is_the_first(
    series: Seq<Series>,
    instance: Seq<char>,
    cluster: Seq<char>,
    count: int,
)
    requires
        0 <= count <= series.len(),
    ensures
        match first_series(series, instance, cluster, count) {
            Some(at) => {
                &&& 0 <= at < count
                &&& series[at].instance matches Some(name) && name@ == instance
                &&& series[at].cluster matches Some(name) ==> name@ == cluster
                &&& forall|i: int|
                    0 <= i < at ==> !((#[trigger] series[i]).instance matches Some(name) && name@
                        == instance && (series[i].cluster matches Some(other) ==> other@
                        == cluster))
            },
            None => forall|i: int|
                0 <= i < count ==> !((#[trigger] series[i]).instance matches Some(name) && name@
                    == instance && (series[i].cluster matches Some(other) ==> other@ == cluster)),
        },
    decreases count,
{
    if count > 0 {
        law_first_series_is_the_first(series, instance, cluster, count - 1);
    }
}

/// Only a result of the wanted kind that is there is looked into; its samples are
/// those of the first series of the instance in the cluster, and there are none
/// where it has no such series.
pub proof fn law_samples_are_looked_up(
    read: QueryRead,
    instance: Seq<char>,
    cluster: Seq<char>,
    matrix: bool,
)
    ensures
        read.typed_nil ==> read.looked_up(instance, cluster, matrix).len() == 0,
        matrix && read.shape != Shape::Matrix ==> read.looked_up(instance, cluster, matrix).len()
            == 0,
        !matrix && read.shape != Shape::Vector ==> read.looked_up(instance, cluster, matrix).len()
            == 0,
        read.looked_up(instance, cluster, matrix).len() != 0 ==> exists|at: int|
            {
                &&& 0 <= at < read.series@.len()
                &&& (#[trigger] read.series@[at]).labelled(instance, cluster)
                &&& read.looked_up(instance, cluster, matrix) == read.series@[at].samples@
                &&& forall|i: int|
                    0 <= i < at ==> !(#[trigger] read.series@[i]).labelled(instance, cluster)
            },
        !read.typed_nil && read.shape == (if matrix {
            Shape::Matrix
        } else {
            Shape::Vector
        }) ==> forall|at: int|
            0 <= at < read.series@.len() && (#[trigger] read.series@[at]).labelled(
                instance,
                cluster,
            ) && (forall|i: int|
                0 <= i < at ==> !(#[trigger] read.series@[i]).labelled(instance, cluster))
                ==> read.looked_up(instance, cluster, matrix) == read.series@[at].samples@,
{
    law_first_series_is_the_first(read.series@, instance, cluster, read.series@.len() as int);
    let found = first_series(read.series@, instance, cluster, read.series@.len() as int);
    if let Some(first) = found {
        assert(read.series@[first].labelled(instance, cluster));
    }
}

/// A part is found where it first occurs: it stands there, and nowhere from the
/// start of the search up to there; it is not found only where it is nowhere.
pub proof fn law_first_occurrence_is_the_first(text: Seq<char>, part: Seq<char>, from: int)
    requires
        0 <= from <= text.len(),
    ensures
        match first_occurrence(text, part, from) {
            Some(at) => from <= at && at + part.len() <= text.len() && text.subrange(
                at,
                at + part.len(),
            ) == part && forall|i: int| from <= i < at ==> !#[trigger] occurs_at(text, part, i),
            None => forall|i: int|
                from <= i <= text.len() ==> !#[trigger] occurs_at(text, part, i),
        },
    decreases text.len() - from,
{
    if !occurs_at(text, part, from) && from < text.len() {
        law_first_occurrence_is_the_first(text, part, from + 1);
    }
}

/// An operator's peer address holds its four marks one after the other, and every
/// address that does is one: in particular one that is a name, the marks in order
/// and anything between them.
pub proof fn law_operator_addresses_hold_their_marks(
    a: Seq<char>,
    b: Seq<char>,
    c: Seq<char>,
    d: Seq<char>,
    e: Seq<char>,
)
    ensures
        is_operator_address(a + "-tidb-"@ + b + "."@ + c + "peer"@ + d + ".svc"@ + e),
{
    let text = a + "-tidb-"@ + b + "."@ + c + "peer"@ + d + ".svc"@ + e;
    let parts = operator_parts();
    let one = a.len() as int;
    let two = one + "-tidb-"@.len() + b.len();
    let three = two + "."@.len() + c.len();
    let four = three + "peer"@.len() + d.len();
    assert(text.subrange(one, one + "-tidb-"@.len()) =~= "-tidb-"@);
    assert(text.subrange(two, two + "."@.len()) =~= "."@);
    assert(text.subrange(three, three + "peer"@.len()) =~= "peer"@);
    assert(text.subrange(four, four + ".svc"@.len()) =~= ".svc"@);
    assert(occurs_at(text, "-tidb-"@, one));
    assert(occurs_at(text, "."@, two));
    assert(occurs_at(text, "peer"@, three));
    assert(occurs_at(text, ".svc"@, four));
    assert(parts.skip(1) =~= seq!["."@, "peer"@, ".svc"@]);
    assert(parts.skip(1).skip(1) =~= seq!["peer"@, ".svc"@]);
    assert(parts.skip(1).skip(1).skip(1) =~= seq![".svc"@]);
    assert(parts.skip(1).skip(1).skip(1).skip(1) =~= seq![]);
    lemma_found_by(text, "-tidb-"@, 0, one);
    let x = first_occurrence(text, "-tidb-"@, 0)->0 + "-tidb-"@.len();
    lemma_found_by(text, "."@, x, two);
    let y = first_occurrence(text, "."@, x)->0 + "."@.len();
    lemma_found_by(text, "peer"@, y, three);
    let z = first_occurrence(text, "peer"@, y)->0 + "peer"@.len();
    lemma_found_by(text, ".svc"@, z, four);
    reveal_with_fuel(after_parts, 5);
}

proof fn lemma_found_by(text: Seq<char>, part: Seq<char>, from: int, at: int)
    requires
        0 <= from <= at <= text.len(),
        occurs_at(text, part, at),
    ensures
        first_occurrence(text, part, from) is Some,
        from <= first_occurrence(text, part, from)->0 <= at,
    decreases at - from,
{
    if !occurs_at(text, part, from) {
        lemma_found_by(text, part, from + 1, at);
    }
}

/// The instance of an operator's peer address is what stands before its first dot;
/// any other is the host, in brackets where it holds a colon, a colon and the
/// status port.
pub proof fn law_instances_are_labels_or_hosts(account: Account, label: Seq<char>, rest: Seq<char>)
    ensures
        is_operator_address(account.addr@) && account.addr@ == label + seq!['.'] + rest
            && !label.contains('.') ==> instance_of(account) == label,
        !is_operator_address(account.addr@) && !account.ip@.contains(':') ==> instance_of(account)
            == account.ip@ + seq![':'] + port_text(account.status_port),
        !is_operator_address(account.addr@) && account.ip@.contains(':') ==> instance_of(account)
            == seq!['['] + account.ip@ + seq![']', ':'] + port_text(account.status_port),
{
    let address = account.addr@;
    if address == label + seq!['.'] + rest && !label.contains('.') {
        lemma_first_char(address, '.', 0);
        let at = first_char(address, '.', 0);
        assert(address[label.len() as int] == '.');
        if at < label.len() {
            assert(label[at] == address[at]);
            assert(label.contains('.'));
        }
        assert(at == label.len());
        assert(address.subrange(0, at) =~= label);
    }
}

} // verus!
