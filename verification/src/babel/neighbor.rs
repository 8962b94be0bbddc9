//! The Babel neighbour table and link costs (RFC 8966 §3.4), under the wired
//! "2-out-of-3" rule (Appendix A.2.1): a link is usable when at least two of the last
//! three expected Hellos arrived, and then costs what the neighbour reports in its IHUs.
//!
//! Time is a count of seconds that the caller passes in.

use vstd::prelude::*;

use crate::babel::METRIC_INFINITY;
use crate::net::IpAddr;
use crate::order::Ranked;
use crate::sorted_map;
use crate::sorted_map::SortedMap;

verus! {

/// The nominal cost of one perfect wired hop (Appendix A.2.1).
pub const NOMINAL_RXCOST: u16 = 256;

/// One neighbour on a shared link.
#[derive(Clone, Copy, Debug)]
pub struct Neighbour {
    /// Hello reception history; the lowest bit is the last expected Hello.
    pub history: u16,
    /// The next Hello sequence number expected.
    pub expected_seqno: u16,
    /// Whether a Hello has been seen.
    pub have_hello: bool,
    /// The receive cost that the neighbour last reported about us.
    pub txcost: u16,
    /// When the last Hello arrived.
    pub last_hello: u64,
    /// When the last IHU arrived.
    pub last_ihu: u64,
}

impl View for Neighbour {
    type V = Neighbour;

    open spec fn view(&self) -> Neighbour {
        *self
    }
}

/// The history after `n` more Hellos were expected and missed.
pub open spec fn missed(history: u16, n: nat) -> u16
    decreases n,
{
    if n == 0 {
        history
    } else {
        (missed(history, (n - 1) as nat) % 32768 * 2) as u16
    }
}

/// Whether at least two of the last three expected Hellos arrived.
pub open spec fn two_of_three(history: u16) -> bool {
    history % 2 + history / 2 % 2 + history / 4 % 2 >= 2
}

impl Neighbour {
    /// A neighbour of which nothing has been heard.
    pub open spec fn unheard() -> Neighbour {
        Neighbour {
            history: 0,
            expected_seqno: 0,
            have_hello: false,
            txcost: 0xFFFF,
            last_hello: 0,
            last_ihu: 0,
        }
    }

    /// The neighbour after a Hello: the Hellos between the expected number and this one
    /// were missed. The first Hello, a number that goes back, and a gap that empties the
    /// history start the history anew.
    pub open spec fn after_hello(self, seqno: u16, now: u64) -> Neighbour {
        let gap = seqno.wrapping_sub(self.expected_seqno);
        Neighbour {
            history: if !self.have_hello || gap >= 15 {
                1
            } else {
                (missed(self.history, (gap + 1) as nat) + 1) as u16
            },
            have_hello: true,
            expected_seqno: seqno.wrapping_add(1),
            last_hello: now,
            ..self
        }
    }

    /// The neighbour after an IHU.
    pub open spec fn after_ihu(self, txcost: u16, now: u64) -> Neighbour {
        Neighbour { txcost, last_ihu: now, ..self }
    }

    /// The receive cost: nominal where the link is usable, else infinite.
    pub open spec fn receive_cost(self) -> u16 {
        if self.have_hello && two_of_three(self.history) {
            256
        } else {
            0xFFFF
        }
    }

    /// The cost of sending to the neighbour: what it reports, where the link is usable.
    pub open spec fn link_cost(self) -> u16 {
        if self.receive_cost() == 0xFFFF {
            0xFFFF
        } else {
            self.txcost
        }
    }

    /// The neighbour at time `now`: an IHU older than the timeout no longer counts.
    pub open spec fn aged(self, now: u64, ihu_timeout: u64) -> Neighbour {
        if now - self.last_ihu > ihu_timeout {
            Neighbour { txcost: 0xFFFF, ..self }
        } else {
            self
        }
    }

    /// Whether the last Hello is older than the timeout.
    pub open spec fn silent(self, now: u64, hello_timeout: u64) -> bool {
        now - self.last_hello > hello_timeout
    }

    fn new() -> (r: Neighbour)
        ensures
            r == Neighbour::unheard(),
    {
        Neighbour {
            history: 0,
            expected_seqno: 0,
            have_hello: false,
            txcost: METRIC_INFINITY,
            last_hello: 0,
            last_ihu: 0,
        }
    }

    fn on_hello(&mut self, seqno: u16, now: u64)
        ensures
            *final(self) == old(self).after_hello(seqno, now),
    {
        if !self.have_hello {
            self.history = 1;
            self.have_hello = true;
        } else {
            let gap: u16 = seqno.wrapping_sub(self.expected_seqno);
            if gap < 15 {
                let n: u16 = gap + 1;
                let mut h: u16 = self.history;
                let mut k: u16 = 0;
                while k < n
                    invariant
                        k <= n,
                        h == missed(self.history, k as nat),
                        k > 0 ==> h % 2 == 0,
                    decreases n - k,
                {
                    h = h % 32768 * 2;
                    k = k + 1;
                }
                self.history = h + 1;
            } else {
                self.history = 1;
            }
        }
        self.expected_seqno = seqno.wrapping_add(1);
        self.last_hello = now;
    }

    fn on_ihu(&mut self, txcost: u16, now: u64)
        ensures
            *final(self) == old(self).after_ihu(txcost, now),
    {
        self.txcost = txcost;
        self.last_ihu = now;
    }

    fn rxcost(&self) -> (r: u16)
        ensures
            r == self.receive_cost(),
    {
        if !self.have_hello {
            return METRIC_INFINITY;
        }
        let h = self.history;
        if h % 2 + h / 2 % 2 + h / 4 % 2 >= 2 {
            NOMINAL_RXCOST
        } else {
            METRIC_INFINITY
        }
    }

    fn cost(&self) -> (r: u16)
        ensures
            r == self.link_cost(),
    {
        if self.rxcost() == METRIC_INFINITY || self.txcost == METRIC_INFINITY {
            METRIC_INFINITY
        } else {
            self.txcost
        }
    }
}

/// Every known neighbour, by its link-local address.
pub struct NeighbourTable {
    neighbours: SortedMap<IpAddr, Neighbour>,
}

impl View for NeighbourTable {
    type V = Seq<(IpAddr, Neighbour)>;

    closed spec fn view(&self) -> Seq<(IpAddr, Neighbour)> {
        self.neighbours@
    }
}

/// The neighbour at an address.
pub open spec fn at(s: Seq<(IpAddr, Neighbour)>, addr: IpAddr) -> Option<Neighbour> {
    sorted_map::lookup::<IpAddr, Neighbour>(s, IpAddr::rank(addr))
}

/// The neighbour at an address, or one of which nothing has been heard.
pub open spec fn at_or_unheard(s: Seq<(IpAddr, Neighbour)>, addr: IpAddr) -> Neighbour {
    match at(s, addr) {
        Some(n) => n,
        None => Neighbour::unheard(),
    }
}

/// The table with `n` at an address.
pub open spec fn with(s: Seq<(IpAddr, Neighbour)>, addr: IpAddr, n: Neighbour) -> Seq<
    (IpAddr, Neighbour),
> {
    sorted_map::put::<IpAddr, Neighbour>(s, addr, n)
}

/// The neighbours that are not silent, aged, in address order.
pub open spec fn survivors(
    s: Seq<(IpAddr, Neighbour)>,
    now: u64,
    hello_timeout: u64,
    ihu_timeout: u64,
) -> Seq<(IpAddr, Neighbour)>
    decreases s.len(),
{
    if s.len() == 0 {
        Seq::empty()
    } else {
        let rest = survivors(s.drop_last(), now, hello_timeout, ihu_timeout);
        if s.last().1.silent(now, hello_timeout) {
            rest
        } else {
            rest.push((s.last().0, s.last().1.aged(now, ihu_timeout)))
        }
    }
}

/// The addresses of the silent neighbours, in order.
pub open spec fn casualties(s: Seq<(IpAddr, Neighbour)>, now: u64, hello_timeout: u64) -> Seq<IpAddr>
    decreases s.len(),
{
    if s.len() == 0 {
        Seq::empty()
    } else {
        let rest = casualties(s.drop_last(), now, hello_timeout);
        if s.last().1.silent(now, hello_timeout) {
            rest.push(s.last().0)
        } else {
            rest
        }
    }
}

impl Default for NeighbourTable {
    fn default() -> (r: NeighbourTable)
        ensures
            r.wf(),
            r@ == Seq::<(IpAddr, Neighbour)>::empty(),
    {
        NeighbourTable { neighbours: SortedMap::new() }
    }
}

impl NeighbourTable {
    /// The addresses are distinct and in order.
    pub closed spec fn wf(&self) -> bool {
        self.neighbours.wf()
    }

    /// An empty table.
    pub fn new() -> (r: NeighbourTable)
        ensures
            r.wf(),
            r@ == Seq::<(IpAddr, Neighbour)>::empty(),
    {
        NeighbourTable::default()
    }

    /// Process a Hello from `addr` at time `now`.
    pub fn on_hello(&mut self, addr: IpAddr, seqno: u16, now: u64)
        requires
            old(self).wf(),
        ensures
            final(self).wf(),
            final(self)@ == with(
                old(self)@,
                addr,
                at_or_unheard(old(self)@, addr).after_hello(seqno, now),
            ),
    {
        let mut n = match self.neighbours.get(&addr) {
            Some(n) => *n,
            None => Neighbour::new(),
        };
        n.on_hello(seqno, now);
        self.neighbours.insert(addr, n);
    }

    /// Process an IHU from `addr` that reports `rxcost`.
    pub fn on_ihu(&mut self, addr: IpAddr, rxcost: u16, now: u64)
        requires
            old(self).wf(),
        ensures
            final(self).wf(),
            final(self)@ == with(
                old(self)@,
                addr,
                at_or_unheard(old(self)@, addr).after_ihu(rxcost, now),
            ),
    {
        let mut n = match self.neighbours.get(&addr) {
            Some(n) => *n,
            None => Neighbour::new(),
        };
        n.on_ihu(rxcost, now);
        self.neighbours.insert(addr, n);
    }

    /// Our receive cost from `addr`: infinite where it is not known.
    pub fn rxcost(&self, addr: &IpAddr) -> (r: u16)
        requires
            self.wf(),
        ensures
            r == at_or_unheard(self@, *addr).receive_cost(),
    {
        match self.neighbours.get(addr) {
            Some(n) => n.rxcost(),
            None => METRIC_INFINITY,
        }
    }

    /// The cost of sending to `addr`: infinite where it is not known.
    pub fn cost(&self, addr: &IpAddr) -> (r: u16)
        requires
            self.wf(),
        ensures
            r == at_or_unheard(self@, *addr).link_cost(),
    {
        match self.neighbours.get(addr) {
            Some(n) => n.cost(),
            None => METRIC_INFINITY,
        }
    }

    /// Whether `addr` is a known neighbour.
    pub fn contains(&self, addr: &IpAddr) -> (r: bool)
        requires
            self.wf(),
        ensures
            r == (at(self@, *addr) is Some),
    {
        self.neighbours.get(addr).is_some()
    }

    /// The address of every known neighbour, in order.
    pub fn addresses(&self) -> (r: Vec<IpAddr>)
        requires
            self.wf(),
        ensures
            r@ == self@.map_values(|e: (IpAddr, Neighbour)| e.0),
    {
        let mut out: Vec<IpAddr> = Vec::new();
        let mut i: usize = 0;
        while i < self.neighbours.len()
            invariant
                i <= self@.len(),
                self@ == self.neighbours@,
                out@ == self@.take(i as int).map_values(|e: (IpAddr, Neighbour)| e.0),
            decreases self@.len() - i,
        {
            out.push(*self.neighbours.key(i));
            assert(self@.take(i + 1) =~= self@.take(i as int).push(self@[i as int]));
            i = i + 1;
        }
        assert(self@.take(i as int) =~= self@);
        out
    }

    /// The number of known neighbours.
    pub fn len(&self) -> (r: usize)
        ensures
            r == self@.len(),
    {
        self.neighbours.len()
    }

    /// Whether no neighbour is known.
    pub fn is_empty(&self) -> (r: bool)
        ensures
            r == (self@.len() == 0),
    {
        self.neighbours.len() == 0
    }

    /// Age the table: forget the txcost of neighbours whose last IHU is older than
    /// `ihu_timeout`, and drop those whose last Hello is older than `hello_timeout`. The
    /// dropped ones are returned, so that their routes can be flushed.
    pub fn expire(&mut self, now: u64, hello_timeout: u64, ihu_timeout: u64) -> (r: Vec<IpAddr>)
        requires
            old(self).wf(),
        ensures
            final(self).wf(),
            final(self)@ == survivors(old(self)@, now, hello_timeout, ihu_timeout),
            r@ == casualties(old(self)@, now, hello_timeout),
    {
        let mut dead: Vec<IpAddr> = Vec::new();
        let ghost s = self@;
        let ghost mut done: int = 0;
        let mut i: usize = 0;
        assert(s.take(0) =~= Seq::empty());
        assert(s.skip(0) =~= s);
        while i < self.neighbours.len()
            invariant
                self.neighbours.wf(),
                0 <= done <= s.len(),
                i == survivors(s.take(done), now, hello_timeout, ihu_timeout).len(),
                self@ == self.neighbours@,
                self@ =~= survivors(s.take(done), now, hello_timeout, ihu_timeout) + s.skip(done),
                dead@ == casualties(s.take(done), now, hello_timeout),
            decreases s.len() - done,
        {
            let n = *self.neighbours.value(i);
            assert(s.skip(done)[0] == self@[i as int]);
            assert(s.take(done + 1).drop_last() =~= s.take(done));
            assert(s.skip(done).drop_first() =~= s.skip(done + 1));
            if now.saturating_sub(n.last_hello) > hello_timeout {
                dead.push(*self.neighbours.key(i));
                self.neighbours.remove_at(i);
            } else {
                if now.saturating_sub(n.last_ihu) > ihu_timeout {
                    self.neighbours.set_value(i, Neighbour { txcost: METRIC_INFINITY, ..n });
                }
                i = i + 1;
            }
            proof {
                done = done + 1;
            }
        }
        assert(s.take(done) =~= s);
        dead
    }
}

/// Shifting a Hello into a history that ends in a received one leaves two at its end.
proof fn lemma_low_bits(h: u16)
    requires
        h % 2 == 1,
    ensures
        two_of_three(((h % 32768 * 2) as u16 + 1) as u16),
{
    let k = h % 32768;
    let new = (k * 2 + 1) as u16;
    assert(k % 2 == 1);
    assert(new / 2 == k);
}

/// A link whose last two Hellos arrived is usable, whatever was missed before.
pub proof fn lemma_two_in_a_row_is_usable(n: Neighbour, now: u64)
    requires
        n.have_hello,
        n.history % 2 == 1,
    ensures
        n.after_hello(n.expected_seqno, now).receive_cost() == 256,
        n.txcost != 0xFFFF ==> n.after_hello(n.expected_seqno, now).link_cost() == n.txcost,
{
    assert(n.expected_seqno.wrapping_sub(n.expected_seqno) == 0);
    assert(missed(n.history, 0) == n.history);
    assert(missed(n.history, 1) == (n.history % 32768 * 2) as u16);
    lemma_low_bits(n.history);
}

/// After one Hello, or after a gap of two missed ones, the link is not usable.
pub proof fn lemma_one_of_three_is_not_usable(n: Neighbour, seqno: u16, now: u64)
    requires
        !n.have_hello || seqno.wrapping_sub(n.expected_seqno) >= 2,
    ensures
        n.after_hello(seqno, now).receive_cost() == 0xFFFF,
        n.after_hello(seqno, now).link_cost() == 0xFFFF,
{
    let gap = seqno.wrapping_sub(n.expected_seqno);
    if n.have_hello && gap < 15 {
        let h1 = missed(n.history, (gap - 1) as nat);
        let h2 = missed(n.history, gap as nat);
        assert(h2 == (h1 % 32768 * 2) as u16);
        assert(missed(n.history, (gap + 1) as nat) == (h2 % 32768 * 2) as u16);
    }
}

/// A neighbour that has sent no IHU, or whose IHU has expired, costs infinity.
pub proof fn lemma_no_ihu_is_infinite(n: Neighbour, seqno: u16, now: u64, ihu_timeout: u64)
    ensures
        Neighbour::unheard().after_hello(seqno, now).link_cost() == 0xFFFF,
        now - n.last_ihu > ihu_timeout ==> n.aged(now, ihu_timeout).link_cost() == 0xFFFF,
{
}

/// The receive cost is 256 exactly where two or three of the three lowest bits of the
/// history are set, that is where it ends in 011, 101, 110 or 111, and infinite otherwise.
pub proof fn lemma_receive_cost_by_pattern(n: Neighbour)
    ensures
        n.receive_cost() == 256 <==> n.have_hello && (n.history % 8 == 3 || n.history % 8 == 5
            || n.history % 8 == 6 || n.history % 8 == 7),
        n.receive_cost() != 256 ==> n.receive_cost() == 65535,
{
    let h = n.history;
    assert(h / 2 % 2 == h % 8 / 2 % 2);
    assert(h / 4 % 2 == h % 8 / 4);
    assert(h % 2 == h % 8 % 2);
}

/// What a Hello leaves at the end of the history: itself where nothing was missed, behind
/// what was there; one gap where one was missed; and itself alone behind more than one.
/// The number after it is expected next, and what the neighbour reports stays.
pub proof fn lemma_hello_enters_history(n: Neighbour, seqno: u16, now: u64)
    ensures
        ({
            let m = n.after_hello(seqno, now);
            let gap = (seqno - n.expected_seqno) % 65536;
            &&& n.have_hello && gap == 0 ==> m.history % 8 == n.history % 4 * 2 + 1
            &&& n.have_hello && gap == 1 ==> m.history % 8 == n.history % 2 * 4 + 1
            &&& !n.have_hello || gap >= 2 ==> m.history % 8 == 1
            &&& m.have_hello
            &&& m.expected_seqno == (seqno + 1) % 65536
            &&& m.last_hello == now
            &&& m.txcost == n.txcost
            &&& m.last_ihu == n.last_ihu
        }),
{
    let gap = seqno.wrapping_sub(n.expected_seqno);
    assert(gap == (seqno - n.expected_seqno) % 65536);
    if n.have_hello && gap < 15 {
        lemma_missed_ends(n.history, (gap + 1) as nat);
    }
}

proof fn lemma_shift(h: u16)
    ensures
        ({
            let m = (h % 32768 * 2) as u16;
            m % 8 == h % 4 * 2 && m % 4 == h % 2 * 2 && m % 2 == 0 && m < 65535 && (m + 1) % 8
                == h % 4 * 2 + 1
        }),
{
}

proof fn lemma_missed_ends(h: u16, n: nat)
    requires
        n >= 1,
    ensures
        missed(h, n) < 65535,
        n == 1 ==> (missed(h, n) + 1) % 8 == h % 4 * 2 + 1,
        n == 2 ==> (missed(h, n) + 1) % 8 == h % 2 * 4 + 1,
        n >= 3 ==> (missed(h, n) + 1) % 8 == 1,
{
    let a = missed(h, (n - 1) as nat);
    lemma_shift(a);
    if n == 1 {
        assert(a == h);
    } else {
        let b = missed(h, (n - 2) as nat);
        lemma_shift(b);
        if n == 2 {
            assert(b == h);
        } else {
            lemma_shift(missed(h, (n - 3) as nat));
        }
    }
}

/// Of the last three expected Hellos two are enough, whichever they are: two one behind
/// the other, the first and the last with one missed between them, and two behind a missed
/// one. Two missed ones between two Hellos, or a number that goes back, are too many.
pub proof fn lemma_two_hellos_suffice(n: Neighbour, seqno: u16, next: u16, t: u64, u: u64)
    ensures
        ({
            let heard = n.after_hello(seqno, t).after_hello(next, u);
            let step = (next - seqno) % 65536;
            &&& step == 1 || step == 2 ==> heard.receive_cost() == 256
            &&& step != 1 && step != 2 ==> heard.receive_cost() == 65535
        }),
{
    let m = n.after_hello(seqno, t);
    lemma_hello_enters_history(n, seqno, t);
    lemma_hello_enters_history(m, next, u);
    lemma_receive_cost_by_pattern(m.after_hello(next, u));
    assert(m.history % 4 == m.history % 8 % 4);
    assert(m.history % 2 == 1);
    let step = (next - seqno) % 65536;
    assert((next - m.expected_seqno) % 65536 == (step - 1) % 65536);
}

/// A usable link whose last Hello arrived stays usable after a Hello that follows one
/// missed Hello, and costs what the neighbour reports.
pub proof fn lemma_one_missed_hello_is_forgiven(n: Neighbour, seqno: u16, now: u64)
    requires
        n.have_hello,
        n.history % 2 == 1,
        (seqno - n.expected_seqno) % 65536 == 1,
    ensures
        n.after_hello(seqno, now).receive_cost() == 256,
        n.after_hello(seqno, now).link_cost() == n.txcost,
{
    lemma_hello_enters_history(n, seqno, now);
    lemma_receive_cost_by_pattern(n.after_hello(seqno, now));
}

/// The link costs what the last IHU reported where the receive cost is finite, and is
/// infinite otherwise; an IHU changes nothing in how well the neighbour is heard.
pub proof fn lemma_ihu_sets_the_cost(n: Neighbour, txcost: u16, now: u64)
    ensures
        ({
            let m = n.after_ihu(txcost, now);
            &&& m.receive_cost() == n.receive_cost()
            &&& n.receive_cost() == 256 ==> m.link_cost() == txcost
            &&& n.receive_cost() == 65535 ==> m.link_cost() == 65535
            &&& m.last_ihu == now
            &&& m.last_hello == n.last_hello
            &&& m.history == n.history
            &&& m.expected_seqno == n.expected_seqno
        }),
        Neighbour::unheard().receive_cost() == 65535,
        Neighbour::unheard().link_cost() == 65535,
{
    lemma_receive_cost_by_pattern(n);
}

proof fn lemma_survivors_at(
    s: Seq<(IpAddr, Neighbour)>,
    now: u64,
    hello_timeout: u64,
    ihu_timeout: u64,
    j: int,
)
    requires
        0 <= j < survivors(s, now, hello_timeout, ihu_timeout).len(),
    ensures
        ({
            let e = survivors(s, now, hello_timeout, ihu_timeout)[j];
            exists|i: int|
                0 <= i < s.len() && (#[trigger] s[i]).0 == e.0 && now <= s[i].1.last_hello
                    + hello_timeout && e.1.last_hello == s[i].1.last_hello && e.1.history
                    == s[i].1.history && e.1.txcost == (if now <= s[i].1.last_ihu + ihu_timeout {
                    s[i].1.txcost
                } else {
                    65535
                })
        }),
    decreases s.len(),
{
    let f = s.drop_last();
    let rest = survivors(f, now, hello_timeout, ihu_timeout);
    if j < rest.len() {
        lemma_survivors_at(f, now, hello_timeout, ihu_timeout, j);
        let e = rest[j];
        let i = choose|i: int|
            0 <= i < f.len() && (#[trigger] f[i]).0 == e.0 && now <= f[i].1.last_hello
                + hello_timeout && e.1.last_hello == f[i].1.last_hello && e.1.history
                == f[i].1.history && e.1.txcost == (if now <= f[i].1.last_ihu + ihu_timeout {
                f[i].1.txcost
            } else {
                65535
            });
        assert(s[i] == f[i]);
    } else {
        assert(s[s.len() - 1] == s.last());
    }
}

/// Every neighbour that was there is, once the table has aged, either still there or
/// reported lost: lost where its last Hello is more than the timeout ago, there otherwise. One that stays keeps its history, and the cost that it
/// reported where its last IHU is no more than the timeout ago.
pub proof fn lemma_ageing_divides(
    s: Seq<(IpAddr, Neighbour)>,
    now: u64,
    hello_timeout: u64,
    ihu_timeout: u64,
    i: int,
)
    requires
        0 <= i < s.len(),
    ensures
        now > s[i].1.last_hello + hello_timeout ==> casualties(s, now, hello_timeout).contains(
            s[i].0,
        ),
        now <= s[i].1.last_hello + hello_timeout ==> survivors(
            s,
            now,
            hello_timeout,
            ihu_timeout,
        ).contains(
            (
                s[i].0,
                Neighbour {
                    txcost: if now > s[i].1.last_ihu + ihu_timeout {
                        65535
                    } else {
                        s[i].1.txcost
                    },
                    ..s[i].1
                },
            ),
        ),
        survivors(s, now, hello_timeout, ihu_timeout).len() + casualties(
            s,
            now,
            hello_timeout,
        ).len() == s.len(),
    decreases s.len(),
{
    let f = s.drop_last();
    let kept = survivors(s, now, hello_timeout, ihu_timeout);
    let lost = casualties(s, now, hello_timeout);
    let kept_f = survivors(f, now, hello_timeout, ihu_timeout);
    let lost_f = casualties(f, now, hello_timeout);
    if i < f.len() {
        lemma_ageing_divides(f, now, hello_timeout, ihu_timeout, i);
        assert(f[i] == s[i]);
        if now > s[i].1.last_hello + hello_timeout {
            let j = choose|j: int| 0 <= j < lost_f.len() && lost_f[j] == s[i].0;
            assert(lost[j] == s[i].0);
        } else {
            let e = (
                s[i].0,
                Neighbour {
                    txcost: if now > s[i].1.last_ihu + ihu_timeout {
                        65535
                    } else {
                        s[i].1.txcost
                    },
                    ..s[i].1
                },
            );
            let j = choose|j: int| 0 <= j < kept_f.len() && kept_f[j] == e;
            assert(kept[j] == e);
        }
    } else {
        if f.len() > 0 {
            lemma_ageing_divides(f, now, hello_timeout, ihu_timeout, 0);
        }
        if now > s[i].1.last_hello + hello_timeout {
            assert(lost[lost.len() - 1] == s[i].0);
        } else {
            assert(kept[kept.len() - 1].0 == s[i].0);
            assert(kept[kept.len() - 1].1 == s[i].1.aged(now, ihu_timeout));
        }
    }
}

/// Nothing comes into the table as it ages: whoever is there afterwards was there before,
/// with a Hello no older than the timeout.
pub proof fn lemma_ageing_adds_nobody(
    s: Seq<(IpAddr, Neighbour)>,
    now: u64,
    hello_timeout: u64,
    ihu_timeout: u64,
    j: int,
)
    requires
        0 <= j < survivors(s, now, hello_timeout, ihu_timeout).len(),
    ensures
        exists|i: int|
            0 <= i < s.len() && (#[trigger] s[i]).0 == survivors(
                s,
                now,
                hello_timeout,
                ihu_timeout,
            )[j].0 && now <= s[i].1.last_hello + hello_timeout,
{
    lemma_survivors_at(s, now, hello_timeout, ihu_timeout, j);
}

/// What is heard of one neighbour is kept under its own address, and changes nothing of
/// any other.
pub proof fn lemma_neighbours_apart(
    s: Seq<(IpAddr, Neighbour)>,
    addr: IpAddr,
    n: Neighbour,
    other: IpAddr,
)
    requires
        sorted_map::sorted::<IpAddr, Neighbour>(s),
    ensures
        at_or_unheard(with(s, addr, n), addr) == n,
        other != addr ==> at_or_unheard(with(s, addr, n), other) == at_or_unheard(s, other),
{
    sorted_map::lemma_put::<IpAddr, Neighbour>(s, addr, n);
    crate::net::lemma_net_ranks(
        crate::net::Prefix { addr, len: 0 },
        crate::net::Prefix { addr, len: 0 },
        addr,
        other,
    );
}

/// Each Hello that is missed moves the history on by one place, and the one that came behind
/// them is entered at its end; a gap as long as the history, or a number that goes back,
/// leaves that one alone.
pub proof fn lemma_each_miss_moves_the_history(n: Neighbour, gap: u16, now: u64)
    requires
        n.have_hello,
    ensures
        ({
            let at_once = n.after_hello(n.expected_seqno, now).history;
            let after = n.after_hello(n.expected_seqno.wrapping_add(gap), now).history;
            let later = n.after_hello(
                n.expected_seqno.wrapping_add(gap).wrapping_add(1),
                now,
            ).history;
            &&& at_once == n.history * 2 % 65536 + 1
            &&& gap < 14 ==> later - 1 == (after - 1) * 2 % 65536
            &&& gap >= 15 ==> after == 1
        }),
{
    let s = n.expected_seqno.wrapping_add(gap);
    assert(n.expected_seqno.wrapping_sub(n.expected_seqno) == 0);
    assert(s.wrapping_sub(n.expected_seqno) == gap);
    assert(missed(n.history, 0) == n.history);
    assert(missed(n.history, 1) == (n.history % 32768 * 2) as u16);
    lemma_doubled(n.history);
    if gap < 14 {
        assert(s.wrapping_add(1).wrapping_sub(n.expected_seqno) == gap + 1);
        let h = missed(n.history, (gap + 1) as nat);
        assert(missed(n.history, (gap + 2) as nat) == (h % 32768 * 2) as u16);
        lemma_doubled(h);
        lemma_doubled(missed(n.history, gap as nat));
    }
}

proof fn lemma_doubled(h: u16)
    ensures
        (h % 32768 * 2) as u16 == h * 2 % 65536,
        (h % 32768 * 2) as u16 <= 65534,
{
}

} // verus!
