//! Cluster membership and timing configuration for a Raft node.

use vstd::prelude::*;
use vstd::string::*;

use super::clock::{Duration, Instant, NANOS_PER_MILLI};
use super::types::NodeId;

verus! {

/// A peer node: its id and the `host:port` its server listens on.
#[derive(Clone, Debug)]
pub struct Peer {
    pub id: NodeId,
    pub addr: String,
}

/// Static cluster view from one node's perspective: its own id plus every
/// *other* node.
#[derive(Clone, Debug)]
pub struct ClusterConfig {
    pub id: NodeId,
    pub peers: Vec<Peer>,
}

impl ClusterConfig {
    /// Total nodes in the cluster (peers + self).
    pub fn cluster_size(&self) -> (r: usize)
        requires
            self.peers.len() < usize::MAX,
        ensures
            r == self.peers@.len() + 1,
    {
        self.peers.len() + 1
    }

    /// The ids of the other nodes, in configuration order.
    pub fn peer_ids(&self) -> (r: Vec<NodeId>)
        ensures
            r@ == self.peers@.map_values(|p: Peer| p.id),
    {
        let mut r: Vec<NodeId> = Vec::new();
        let mut i: usize = 0;
        while i < self.peers.len()
            invariant
                i <= self.peers.len(),
                r@ == self.peers@.take(i as int).map_values(|p: Peer| p.id),
            decreases self.peers.len() - i,
        {
            r.push(self.peers[i].id);
            i += 1;
            assert(r@ =~= self.peers@.take(i as int).map_values(|p: Peer| p.id));
        }
        assert(self.peers@.take(i as int) =~= self.peers@);
        r
    }
}

/// Raft's timing knobs. The election timeout is randomized per node within
/// `[election_min, election_max]` so nodes rarely start elections
/// simultaneously. The heartbeat interval must be comfortably shorter than the
/// election minimum so a healthy leader keeps followers from ever timing out.
#[derive(Clone, Copy, Debug, PartialEq, Eq, Structural)]
pub struct Timing {
    pub election_min: Duration,
    pub election_max: Duration,
    pub heartbeat: Duration,
}

impl Default for Timing {
    fn default() -> (r: Self)
        ensures
            r.election_min.millis() == 150,
            r.election_max.millis() == 300,
            r.heartbeat.millis() == 50,
            r.election_min.nanos == 150 * NANOS_PER_MILLI,
            r.election_max.nanos == 300 * NANOS_PER_MILLI,
            r.heartbeat.nanos == 50 * NANOS_PER_MILLI,
            r.wf(),
    {
        Self {
            election_min: Duration::from_millis(150),
            election_max: Duration::from_millis(300),
            heartbeat: Duration::from_millis(50),
        }
    }
}

/// A uniformly drawn number in `lo..=hi`, from `fastrand::u64`: nothing is
/// claimed of the draw but that it lies in the range. The range must not be
/// empty: `fastrand::u64` panics on an empty one.
#[verifier::external_body]
pub(crate) fn random_in(lo: u64, hi: u64) -> (r: u64)
    requires
        lo <= hi,
    ensures
        lo <= r <= hi,
{
    fastrand::u64(lo..=hi)
}

impl Timing {
    /// The range of election timeouts is not empty.
    pub open spec fn wf(self) -> bool {
        self.election_min.nanos <= self.election_max.nanos
    }

    /// `timeout` is one of the election timeouts that may be drawn: it lies in
    /// `[election_min, election_max]`, and is a whole number of milliseconds or the
    /// shortest timeout itself.
    pub open spec fn may_draw(self, timeout: Duration) -> bool {
        &&& self.election_min.nanos <= timeout.nanos <= self.election_max.nanos
        &&& timeout.nanos as int % NANOS_PER_MILLI as int == 0 || timeout == self.election_min
    }

    /// An election timer armed at `now` expires at a representable time.
    pub open spec fn can_arm(self, now: Instant) -> bool {
        now.nanos + self.election_max.nanos <= u64::MAX
    }

    /// `deadline` is where a timer armed at `now` may expire.
    pub open spec fn may_expire(self, now: Instant, deadline: Instant) -> bool {
        &&& now.nanos <= deadline.nanos
        &&& self.may_draw(Duration { nanos: (deadline.nanos - now.nanos) as u64 })
    }

    /// The election timeout for a draw of `ms` milliseconds.
    pub open spec fn drawn(self, ms: int) -> int {
        if ms * NANOS_PER_MILLI >= self.election_min.nanos {
            ms * NANOS_PER_MILLI
        } else {
            self.election_min.nanos as int
        }
    }

    /// The election timeout for a draw of `ms` milliseconds: so many, or the shortest
    /// timeout where that, which need not be a whole number of milliseconds, is
    /// longer.
    pub fn timeout_of(&self, ms: u64) -> (r: Duration)
        requires
            self.wf(),
            self.election_min.millis() <= ms <= self.election_max.millis(),
        ensures
            r.nanos == self.drawn(ms as int),
            self.may_draw(r),
    {
        assert(ms * NANOS_PER_MILLI <= self.election_max.nanos);
        let drawn = Duration::from_millis(ms);
        if drawn.nanos < self.election_min.nanos {
            self.election_min
        } else {
            drawn
        }
    }

    /// A fresh randomized election timeout in `[election_min, election_max]`, drawn
    /// in whole milliseconds: see [`Self::timeout_of`].
    pub fn random_election_timeout(&self) -> (r: Duration)
        requires
            self.wf(),
        ensures
            self.may_draw(r),
            exists|ms: int|
                self.election_min.millis() <= ms <= self.election_max.millis() && r.nanos
                    == #[trigger] self.drawn(ms),
            self.election_min.nanos <= r.nanos <= self.election_max.nanos,
    {
        let ms: u64 = random_in(self.election_min.as_millis(), self.election_max.as_millis());
        self.timeout_of(ms)
    }
}

// ---- peers on the command line ----
/// Why a `--peer` specification was turned down.
#[derive(Clone, Copy, Debug, PartialEq, Eq, Structural)]
pub enum PeerError {
    /// It is not of the form `id@host:port`.
    NoSeparator,
    /// The id is not a number that fits 64 bits.
    BadId,
}

/// A decimal digit.
pub open spec fn is_digit(c: char) -> bool {
    '0' <= c <= '9'
}

/// The number that a run of digits stands for.
pub open spec fn decimal(digits: Seq<char>) -> nat
    decreases digits.len(),
{
    if digits.len() == 0 {
        0
    } else {
        (decimal(digits.drop_last()) * 10 + (digits.last() as int - '0' as int)) as nat
    }
}

/// The digits of a number: what follows a plus sign, if it has one.
pub open spec fn digits_of(s: Seq<char>) -> Seq<char> {
    if s.len() > 0 && s[0] == '+' {
        s.skip(1)
    } else {
        s
    }
}

/// The 64-bit number that `s` spells out: at least one digit and nothing else,
/// but for a plus sign in front.
pub open spec fn parsed_id(s: Seq<char>) -> Option<NodeId> {
    let digits = digits_of(s);
    if digits.len() > 0 && (forall|i: int| 0 <= i < digits.len() ==> is_digit(#[trigger] digits[i]))
        && decimal(digits) <= u64::MAX {
        Some(decimal(digits) as NodeId)
    } else {
        None
    }
}

/// `at` is the first `@` in `s`.
pub open spec fn is_separator(s: Seq<char>, at: int) -> bool {
    &&& 0 <= at < s.len()
    &&& s[at] == '@'
    &&& forall|i: int| 0 <= i < at ==> #[trigger] s[i] != '@'
}

/// Leading digits stand for no more than the whole number.
proof fn lemma_decimal_prefix(digits: Seq<char>, n: int)
    requires
        0 <= n <= digits.len(),
        forall|i: int| 0 <= i < digits.len() ==> is_digit(#[trigger] digits[i]),
    ensures
        decimal(digits.take(n)) <= decimal(digits),
    decreases digits.len(),
{
    if n == digits.len() {
        assert(digits.take(n) =~= digits);
    } else {
        let front = digits.drop_last();
        assert forall|i: int| 0 <= i < front.len() implies is_digit(#[trigger] front[i]) by {
            assert(front[i] == digits[i]);
        }
        lemma_decimal_prefix(front, n);
        assert(front.take(n) =~= digits.take(n));
        assert(is_digit(digits[digits.len() - 1]));
    }
}

/// The 64-bit number that the characters of `s` before `end` spell out.
fn parse_id(s: &str, end: usize) -> (r: Option<NodeId>)
    requires
        end <= s@.len(),
    ensures
        r == parsed_id(s@.take(end as int)),
{
    let start: usize = if end > 0 && s.get_char(0) == '+' {
        1
    } else {
        0
    };
    let ghost digits = digits_of(s@.take(end as int));
    assert(digits =~= s@.subrange(start as int, end as int));
    if start == end {
        return None;
    }
    let mut id: NodeId = 0;
    let mut i: usize = start;
    while i < end
        invariant
            start <= i <= end <= s@.len(),
            digits == s@.subrange(start as int, end as int),
            digits == digits_of(s@.take(end as int)),
            forall|j: int| 0 <= j < i - start ==> is_digit(#[trigger] digits[j]),
            id == decimal(digits.take(i - start)),
        decreases end - i,
    {
        let c: char = s.get_char(i);
        let ghost k = i - start;
        assert(c == digits[k]);
        if c < '0' || c > '9' {
            assert(!is_digit(digits[k]));
            return None;
        }
        let digit: u64 = c as u64 - '0' as u64;
        assert(digits.take(k + 1).drop_last() =~= digits.take(k));
        assert(decimal(digits.take(k + 1)) == id * 10 + digit);
        if id > u64::MAX / 10 || id * 10 > u64::MAX - digit {
            proof {
                if forall|j: int| 0 <= j < digits.len() ==> is_digit(#[trigger] digits[j]) {
                    lemma_decimal_prefix(digits, k + 1);
                }
            }
            return None;
        }
        id = id * 10 + digit;
        i += 1;
    }
    assert(digits.take(i - start) =~= digits);
    Some(id)
}

/// Parse a `--peer` specification of the form `id@host:port`.
pub fn parse_peer(text: &str) -> (r: Result<Peer, PeerError>)
    ensures
        forall|at: int| #[trigger]
            is_separator(text@, at) ==> match parsed_id(text@.take(at)) {
                Some(id) => r matches Ok(peer) && peer.id == id && peer.addr@ == text@.skip(at + 1),
                None => r == Err::<Peer, PeerError>(PeerError::BadId),
            },
        !text@.contains('@') ==> r == Err::<Peer, PeerError>(PeerError::NoSeparator),
{
    let n: usize = text.unicode_len();
    let mut at: usize = 0;
    while at < n && text.get_char(at) != '@'
        invariant
            at <= n,
            n == text@.len(),
            forall|i: int| 0 <= i < at ==> #[trigger] text@[i] != '@',
        decreases n - at,
    {
        at += 1;
    }
    if at == n {
        return Err(PeerError::NoSeparator);
    }
    assert(is_separator(text@, at as int));
    match parse_id(text, at) {
        Some(id) => {
            let addr: String = text.substring_char(at + 1, n).to_string();
            assert(addr@ =~= text@.skip(at + 1));
            Ok(Peer { id, addr })
        },
        None => Err(PeerError::BadId),
    }
}

// ---- laws ----
/// A draw makes a timeout of as many milliseconds, or the shortest, whichever is longer;
/// a longer draw makes no shorter timeout.
pub proof fn longer_draws_make_longer_timeouts(timing: Timing, ms: int, more: int)
    requires
        0 <= ms <= more,
    ensures
        timing.drawn(ms) >= ms * NANOS_PER_MILLI,
        timing.drawn(ms) >= timing.election_min.nanos,
        timing.drawn(ms) == ms * NANOS_PER_MILLI || timing.drawn(ms)
            == timing.election_min.nanos,
        timing.drawn(ms) <= timing.drawn(more),
{
}

/// What may be drawn lies between the shortest and the longest timeout, and a timer that
/// is armed with it expires within that range from then on, at a time that exists.
pub proof fn timers_expire_within_their_range(
    timing: Timing,
    timeout: Duration,
    now: Instant,
    deadline: Instant,
)
    ensures
        timing.may_draw(timeout) ==> timing.election_min.nanos <= timeout.nanos
            <= timing.election_max.nanos,
        timing.may_expire(now, deadline) ==> now.nanos + timing.election_min.nanos
            <= deadline.nanos <= now.nanos + timing.election_max.nanos,
        timing.can_arm(now) <==> now.nanos + timing.election_max.nanos <= u64::MAX,
        timing.wf() <==> timing.election_min.nanos <= timing.election_max.nanos,
{
}

/// A number as it is written: its decimal digits.
pub open spec fn written_out(v: nat) -> Seq<char>
    decreases v,
{
    let digit = ('0' as int + v as int % 10) as char;
    if v < 10 {
        seq![digit]
    } else {
        written_out(v / 10).push(digit)
    }
}

proof fn lemma_written_out(v: nat)
    ensures
        decimal(written_out(v)) == v,
        written_out(v).len() > 0,
        forall|i: int| 0 <= i < written_out(v).len() ==> is_digit(#[trigger] written_out(v)[i]),
    decreases v,
{
    let digit = ('0' as int + v as int % 10) as char;
    assert(digit as int == '0' as int + v as int % 10);
    if v < 10 {
        let s = seq![digit];
        assert(written_out(v) =~= s);
        assert(s.drop_last() =~= Seq::<char>::empty());
        assert(decimal(s.drop_last()) == 0);
        assert(s.last() == digit);
    } else {
        lemma_written_out(v / 10);
        let s = written_out(v / 10).push(digit);
        assert(s.drop_last() =~= written_out(v / 10));
        assert(s.last() == digit);
        assert forall|i: int| 0 <= i < s.len() implies is_digit(#[trigger] s[i]) by {
            if i < written_out(v / 10).len() {
                assert(s[i] == written_out(v / 10)[i]);
            }
        }
    }
}

/// Every id is read from its decimal digits, with or without a plus sign in front; and a
/// number that is too large for an id is not.
pub proof fn ids_are_read_as_they_are_written(v: nat)
    ensures
        v <= u64::MAX ==> parsed_id(written_out(v)) == Some(v as NodeId),
        v <= u64::MAX ==> parsed_id(seq!['+'] + written_out(v)) == Some(v as NodeId),
        v > u64::MAX ==> parsed_id(written_out(v)) is None,
{
    lemma_written_out(v);
    let s = written_out(v);
    assert(is_digit(s[0]));
    assert(digits_of(s) == s);
    assert((seq!['+'] + s).skip(1) =~= s);
    assert(digits_of(seq!['+'] + s) == s);
}

/// Nothing but digits, behind a plus sign at most, is an id.
pub proof fn only_digits_make_an_id(s: Seq<char>, at: int)
    requires
        0 <= at < s.len(),
        !('0' <= s[at] <= '9'),
        at > 0 || s[at] != '+' || s.len() == 1,
    ensures
        parsed_id(s) is None,
        parsed_id(Seq::<char>::empty()) is None,
{
    let digits = digits_of(s);
    if s[0] == '+' {
        if s.len() > 1 {
            assert(digits[at - 1] == s[at]);
            assert(!is_digit(digits[at - 1]));
        }
    } else {
        assert(!is_digit(digits[at]));
    }
}

/// An id and an address are told apart at the first `@`, and at no other.
pub proof fn the_first_separator_counts(id: Seq<char>, addr: Seq<char>, at: int)
    requires
        !id.contains('@'),
    ensures
        is_separator(id + seq!['@'] + addr, at) <==> at == id.len(),
        (id + seq!['@'] + addr).take(id.len() as int) == id,
        (id + seq!['@'] + addr).skip(id.len() as int + 1) == addr,
{
    let text = id + seq!['@'] + addr;
    assert(text.take(id.len() as int) =~= id);
    assert(text.skip(id.len() as int + 1) =~= addr);
    assert(text[id.len() as int] == '@');
    assert forall|i: int| 0 <= i < id.len() implies #[trigger] text[i] != '@' by {
        assert(text[i] == id[i]);
        assert(id.contains(id[i]));
    }
    if is_separator(text, at) && at > id.len() {
        assert(text[id.len() as int] != '@');
    }
    if is_separator(text, at) && at < id.len() {
        assert(text[at] != '@');
    }
}

/// A peer is read from its id and its address as they are written, with an `@` between
/// them, whatever the address; and an id that is not written in digits is turned down.
pub proof fn peers_are_read_as_they_are_written(
    text: &str,
    v: nat,
    id: Seq<char>,
    addr: Seq<char>,
    r: Result<Peer, PeerError>,
)
    requires
        call_ensures(parse_peer, (text,), r),
        text@ == id + seq!['@'] + addr,
        !id.contains('@'),
    ensures
        id == written_out(v) && v <= u64::MAX ==> r is Ok && r->Ok_0.id == v && r->Ok_0.addr@
            == addr,
        id == written_out(v) && v > u64::MAX ==> r == Err::<Peer, PeerError>(PeerError::BadId),
        parsed_id(id) is None ==> r == Err::<Peer, PeerError>(PeerError::BadId),
        r matches Ok(peer) ==> peer.addr@ == addr,
{
    the_first_separator_counts(id, addr, id.len() as int);
    assert(is_separator(text@, id.len() as int));
    ids_are_read_as_they_are_written(v);
}

/// Without an `@` there is no peer.
pub proof fn peers_need_a_separator(text: &str, r: Result<Peer, PeerError>)
    requires
        call_ensures(parse_peer, (text,), r),
        forall|i: int| 0 <= i < text@.len() ==> #[trigger] text@[i] != '@',
    ensures
        r == Err::<Peer, PeerError>(PeerError::NoSeparator),
{
}

/// Every timeout that is drawn lies between the shortest and the longest; and one that is
/// drawn in whole milliseconds is as long as the draw says, but for the shortest.
pub proof fn timeouts_are_as_long_as_drawn(
    timing: &Timing,
    ms: u64,
    r: Duration,
    random: Duration,
)
    requires
        call_ensures(Timing::timeout_of, (timing, ms), r),
        call_ensures(Timing::random_election_timeout, (timing,), random),
    ensures
        timing.election_min.nanos <= r.nanos <= timing.election_max.nanos,
        timing.election_min.nanos <= random.nanos <= timing.election_max.nanos,
        ms * NANOS_PER_MILLI >= timing.election_min.nanos ==> r.nanos == ms * NANOS_PER_MILLI,
        ms * NANOS_PER_MILLI < timing.election_min.nanos ==> r == timing.election_min,
{
}

/// By default a leader has the time for several heartbeats before any follower can time
/// out, and timeouts differ by as much as the shortest of them.
pub proof fn heartbeats_come_before_timeouts(r: Timing)
    requires
        call_ensures(Timing::default, (), r),
    ensures
        r.heartbeat.nanos > 0,
        3 * r.heartbeat.nanos <= r.election_min.nanos,
        2 * r.election_min.nanos == r.election_max.nanos,
        r.election_min.nanos == 150 * NANOS_PER_MILLI,
{
}

/// A cluster is its peers and the node itself, and the peers are named in order.
pub proof fn clusters_are_peers_and_self(
    config: &ClusterConfig,
    size: usize,
    ids: Vec<NodeId>,
    k: int,
)
    requires
        call_ensures(ClusterConfig::cluster_size, (config,), size),
        call_ensures(ClusterConfig::peer_ids, (config,), ids),
        0 <= k < config.peers@.len(),
    ensures
        size == ids@.len() + 1,
        ids@.len() == config.peers@.len(),
        ids@[k] == config.peers@[k].id,
{
}

} // verus!
