//! The all-to-all exchange: in every round each of `n` peers sends one value
//! to every peer (itself included) and then receives one value from each.
//!
//! This is the exchange's state and its decisions; the threads, wake-ups and
//! transport that drive it stand outside.
use vstd::prelude::*;

verus! {

/// The model of an exchange among `n` peers.
pub struct ExchangeState<T> {
    pub n: nat,
    /// `n * n` mailboxes; the one from sender `s` to receiver `r` is at
    /// `s * n + r`.
    pub mailboxes: Seq<Option<T>>,
    /// Per receiver, the number of its full mailboxes.
    pub counters: Seq<nat>,
    /// Per sender, whether its previous round has been drained.
    pub ready: Seq<bool>,
}

impl<T> ExchangeState<T> {
    pub open spec fn mailbox(self, s: int, r: int) -> Option<T> {
        self.mailboxes[s * self.n + r]
    }

    /// The number of full mailboxes among those of senders `0..upto` to
    /// receiver `r`.
    pub open spec fn column_count(self, r: int, upto: int) -> nat
        decreases upto,
    {
        if upto <= 0 {
            0
        } else if self.mailbox(upto - 1, r).is_some() {
            self.column_count(r, upto - 1) + 1
        } else {
            self.column_count(r, upto - 1)
        }
    }

    /// Every mailbox of sender `s` is empty.
    pub open spec fn row_empty(self, s: int) -> bool {
        forall|r: int| 0 <= r < self.n ==> (#[trigger] self.mailbox(s, r)).is_none()
    }

    pub open spec fn well_formed(self) -> bool {
        &&& self.n > 0
        &&& self.mailboxes.len() == self.n * self.n
        &&& self.counters.len() == self.n
        &&& self.ready.len() == self.n
        &&& forall|r: int| 0 <= r < self.n ==> #[trigger] self.counters[r] == self.column_count(r, self.n as int)
        &&& forall|s: int| 0 <= s < self.n ==> (#[trigger] self.ready[s] <==> self.row_empty(s))
    }

    /// The state after sender `s` hands over `data`, one value per receiver.
    pub open spec fn send(self, s: int, data: Seq<T>) -> Self {
        ExchangeState {
            n: self.n,
            mailboxes: Seq::new(
                self.mailboxes.len(),
                |i: int|
                    if i / (self.n as int) == s {
                        Some(data[i % (self.n as int)])
                    } else {
                        self.mailboxes[i]
                    },
            ),
            counters: Seq::new(self.n, |r: int| self.counters[r] + 1),
            ready: self.ready.update(s, false),
        }
    }

    /// The state after receiver `r` empties its mailboxes.
    pub open spec fn receive(self, r: int) -> Self {
        let mb = Seq::new(
            self.mailboxes.len(),
            |i: int|
                if i % (self.n as int) == r {
                    None
                } else {
                    self.mailboxes[i]
                },
        );
        let st = ExchangeState { n: self.n, mailboxes: mb, counters: self.counters, ready: self.ready };
        ExchangeState {
            n: self.n,
            mailboxes: mb,
            counters: self.counters.update(r, 0),
            ready: Seq::new(self.n, |s: int| st.row_empty(s)),
        }
    }

    /// What receiver `r` takes: one value per sender, in sender order.
    pub open spec fn column(self, r: int) -> Seq<T> {
        Seq::new(self.n, |s: int| self.mailbox(s, r).unwrap())
    }
}

proof fn lemma_index(n: int, s: int, r: int)
    requires
        n > 0,
        0 <= s < n,
        0 <= r < n,
    ensures
        0 <= s * n + r < n * n,
        (s * n + r) / n == s,
        (s * n + r) % n == r,
{
    assert(0 <= s * n + r < n * n) by (nonlinear_arith)
        requires
            n > 0,
            0 <= s < n,
            0 <= r < n,
    ;
    vstd::arithmetic::div_mod::lemma_fundamental_div_mod_converse(s * n + r, n, s, r);
}

/// Column counts depend only on the column's mailboxes.
proof fn lemma_column_count_same<T>(a: ExchangeState<T>, b: ExchangeState<T>, r: int, upto: int)
    requires
        a.n == b.n,
        forall|s: int| 0 <= s < upto ==> a.mailbox(s, r).is_some() == b.mailbox(s, r).is_some(),
    ensures
        a.column_count(r, upto) == b.column_count(r, upto),
    decreases upto,
{
    if upto > 0 {
        lemma_column_count_same(a, b, r, upto - 1);
    }
}

/// Filling one empty mailbox of a column adds one to its count.
proof fn lemma_column_count_fill<T>(a: ExchangeState<T>, b: ExchangeState<T>, r: int, s0: int, upto: int)
    requires
        a.n == b.n,
        0 <= s0 < upto,
        a.mailbox(s0, r).is_none(),
        b.mailbox(s0, r).is_some(),
        forall|s: int| 0 <= s < upto && s != s0 ==> a.mailbox(s, r).is_some() == b.mailbox(s, r).is_some(),
    ensures
        b.column_count(r, upto) == a.column_count(r, upto) + 1,
    decreases upto,
{
    if upto - 1 == s0 {
        lemma_column_count_same(a, b, r, upto - 1);
    } else {
        lemma_column_count_fill(a, b, r, s0, upto - 1);
    }
}

/// A column with no full mailbox counts zero.
proof fn lemma_column_count_empty<T>(a: ExchangeState<T>, r: int, upto: int)
    requires
        forall|s: int| 0 <= s < upto ==> a.mailbox(s, r).is_none(),
    ensures
        a.column_count(r, upto) == 0,
    decreases upto,
{
    if upto > 0 {
        lemma_column_count_empty(a, r, upto - 1);
    }
}

/// A column whose count is `upto` is full.
proof fn lemma_column_count_full<T>(a: ExchangeState<T>, r: int, upto: int)
    requires
        a.column_count(r, upto) == upto,
        upto >= 0,
    ensures
        forall|s: int| 0 <= s < upto ==> a.mailbox(s, r).is_some(),
    decreases upto,
{
    lemma_column_count_le(a, r, upto - 1);
    if upto > 0 {
        lemma_column_count_full(a, r, upto - 1);
    }
}

proof fn lemma_column_count_le<T>(a: ExchangeState<T>, r: int, upto: int)
    ensures
        upto >= 0 ==> a.column_count(r, upto) <= upto,
    decreases upto,
{
    if upto > 0 {
        lemma_column_count_le(a, r, upto - 1);
    }
}

pub proof fn lemma_send_well_formed<T>(st: ExchangeState<T>, s: int, data: Seq<T>)
    requires
        st.well_formed(),
        0 <= s < st.n,
        st.ready[s],
        data.len() == st.n,
    ensures
        st.send(s, data).well_formed(),
        forall|r: int| 0 <= r < st.n ==> #[trigger] st.send(s, data).mailbox(s, r) == Some(data[r]),
        forall|s2: int, r: int|
            0 <= s2 < st.n && s2 != s && 0 <= r < st.n ==> #[trigger] st.send(s, data).mailbox(s2, r)
                == st.mailbox(s2, r),
{
    let n = st.n as int;
    let st2 = st.send(s, data);
    assert forall|s2: int, r: int| 0 <= s2 < n && 0 <= r < n implies #[trigger] st2.mailbox(s2, r)
        == if s2 == s {
        Some(data[r])
    } else {
        st.mailbox(s2, r)
    } by {
        lemma_index(n, s2, r);
    }
    assert forall|r: int| 0 <= r < n implies #[trigger] st2.counters[r] == st2.column_count(r, n) by {
        assert(st.row_empty(s));
        assert(st.mailbox(s, r).is_none());
        lemma_column_count_fill(st, st2, r, s, n);
    }
    assert forall|s2: int| 0 <= s2 < n implies (#[trigger] st2.ready[s2] <==> st2.row_empty(s2)) by {
        if s2 == s {
            assert(st2.mailbox(s, 0).is_some());
        } else {
            assert(st.ready[s2] <==> st.row_empty(s2));
            if st.row_empty(s2) {
                assert forall|r: int| 0 <= r < n implies (#[trigger] st2.mailbox(s2, r)).is_none() by {
                    assert(st.mailbox(s2, r).is_none());
                }
            }
            if st2.row_empty(s2) {
                assert forall|r: int| 0 <= r < n implies (#[trigger] st.mailbox(s2, r)).is_none() by {
                    assert(st2.mailbox(s2, r).is_none());
                }
            }
        }
    }
}

pub proof fn lemma_receive_well_formed<T>(st: ExchangeState<T>, r: int)
    requires
        st.well_formed(),
        0 <= r < st.n,
    ensures
        st.receive(r).well_formed(),
        forall|s: int| 0 <= s < st.n ==> (#[trigger] st.receive(r).mailbox(s, r)).is_none(),
        forall|s: int, r2: int|
            0 <= s < st.n && 0 <= r2 < st.n && r2 != r ==> #[trigger] st.receive(r).mailbox(s, r2)
                == st.mailbox(s, r2),
{
    let n = st.n as int;
    let st2 = st.receive(r);
    assert forall|s: int, r2: int| 0 <= s < n && 0 <= r2 < n implies #[trigger] st2.mailbox(s, r2)
        == if r2 == r {
        None
    } else {
        st.mailbox(s, r2)
    } by {
        lemma_index(n, s, r2);
    }
    assert forall|r2: int| 0 <= r2 < n implies #[trigger] st2.counters[r2] == st2.column_count(r2, n) by {
        if r2 == r {
            lemma_column_count_empty(st2, r, n);
        } else {
            lemma_column_count_same(st, st2, r2, n);
        }
    }
    let mid = ExchangeState { n: st.n, mailboxes: st2.mailboxes, counters: st.counters, ready: st.ready };
    assert forall|s: int| 0 <= s < n implies (#[trigger] st2.ready[s] <==> st2.row_empty(s)) by {
        assert(st2.ready[s] == mid.row_empty(s));
        if mid.row_empty(s) {
            assert forall|r2: int| 0 <= r2 < n implies (#[trigger] st2.mailbox(s, r2)).is_none() by {
                assert(mid.mailbox(s, r2).is_none());
            }
        }
        if st2.row_empty(s) {
            assert forall|r2: int| 0 <= r2 < n implies (#[trigger] mid.mailbox(s, r2)).is_none() by {
                assert(st2.mailbox(s, r2).is_none());
            }
        }
    }
}


/// The state after senders `0..k` each send their row of `values`.
pub open spec fn send_rows<T>(st: ExchangeState<T>, values: Seq<Seq<T>>, k: int) -> ExchangeState<T>
    decreases k,
{
    if k <= 0 {
        st
    } else {
        send_rows(st, values, k - 1).send(k - 1, values[k - 1])
    }
}

/// The state after receivers `0..k` each empty their mailboxes.
pub open spec fn receive_columns<T>(st: ExchangeState<T>, k: int) -> ExchangeState<T>
    decreases k,
{
    if k <= 0 {
        st
    } else {
        receive_columns(st, k - 1).receive(k - 1)
    }
}

/// Every mailbox empty and every sender ready: the start of a round.
pub open spec fn round_start<T>(st: ExchangeState<T>) -> bool {
    &&& st.well_formed()
    &&& forall|s: int, r: int| 0 <= s < st.n && 0 <= r < st.n ==> (#[trigger] st.mailbox(s, r)).is_none()
}

proof fn lemma_send_rows<T>(st: ExchangeState<T>, values: Seq<Seq<T>>, k: int)
    requires
        round_start(st),
        values.len() == st.n,
        forall|w: int| 0 <= w < st.n ==> (#[trigger] values[w]).len() == st.n,
        0 <= k <= st.n,
    ensures
        send_rows(st, values, k).well_formed(),
        send_rows(st, values, k).n == st.n,
        forall|s: int, r: int|
            0 <= s < st.n && 0 <= r < st.n ==> #[trigger] send_rows(st, values, k).mailbox(s, r) == if s < k {
                Some(values[s][r])
            } else {
                None
            },
        forall|s: int| 0 <= s < st.n ==> #[trigger] send_rows(st, values, k).ready[s] == (s >= k),
    decreases k,
{
    if k > 0 {
        lemma_send_rows(st, values, k - 1);
        let prev = send_rows(st, values, k - 1);
        assert(prev.ready[k - 1]);
        lemma_send_well_formed(prev, k - 1, values[k - 1]);
        let next = send_rows(st, values, k);
        assert forall|s: int| 0 <= s < st.n implies #[trigger] next.ready[s] == (s >= k) by {
            if s != k - 1 {
                assert(next.ready[s] == prev.ready[s]);
            }
        }
    } else {
        assert forall|s: int| 0 <= s < st.n implies #[trigger] st.ready[s] == (s >= k) by {
            assert(st.ready[s] <==> st.row_empty(s));
        }
    }
}

proof fn lemma_receive_columns<T>(st: ExchangeState<T>, k: int)
    requires
        st.well_formed(),
        forall|s: int, r: int| 0 <= s < st.n && 0 <= r < st.n ==> (#[trigger] st.mailbox(s, r)).is_some(),
        0 <= k <= st.n,
    ensures
        receive_columns(st, k).well_formed(),
        receive_columns(st, k).n == st.n,
        forall|s: int, r: int|
            0 <= s < st.n && 0 <= r < st.n ==> #[trigger] receive_columns(st, k).mailbox(s, r) == if r < k {
                None
            } else {
                st.mailbox(s, r)
            },
        forall|r: int| k <= r < st.n ==> #[trigger] receive_columns(st, k).column(r) == st.column(r),
    decreases k,
{
    if k > 0 {
        lemma_receive_columns(st, k - 1);
        let prev = receive_columns(st, k - 1);
        lemma_receive_well_formed(prev, k - 1);
        let next = receive_columns(st, k);
        assert forall|r: int| k <= r < st.n implies #[trigger] next.column(r) == st.column(r) by {
            assert(next.column(r) =~= st.column(r));
        }
    } else {
        assert forall|r: int| k <= r < st.n implies #[trigger] st.column(r) == st.column(r) by {
        }
    }
}

/// One round: when senders `0..n` each send their row `values[w]` and then
/// receivers `0..n` each receive, receiver `r` is ready and takes
/// `values[0][r], .., values[n-1][r]` in sender order; no sender is ready
/// again before the receivers drain; and the round leaves every mailbox
/// empty and every sender ready for the next.
pub proof fn lemma_round<T>(st: ExchangeState<T>, values: Seq<Seq<T>>)
    requires
        round_start(st),
        values.len() == st.n,
        forall|w: int| 0 <= w < st.n ==> (#[trigger] values[w]).len() == st.n,
    ensures
        ({
            let sent = send_rows(st, values, st.n as int);
            &&& forall|s: int| 0 <= s < st.n ==> !(#[trigger] sent.ready[s])
            &&& forall|r: int|
                0 <= r < st.n ==> #[trigger] sent.counters[r] == st.n && receive_columns(sent, r).column(r)
                    == Seq::new(st.n, |w: int| values[w][r])
            &&& round_start(receive_columns(sent, st.n as int))
            &&& forall|s: int| 0 <= s < st.n ==> #[trigger] receive_columns(sent, st.n as int).ready[s]
        }),
{
    let n = st.n as int;
    lemma_send_rows(st, values, n);
    let sent = send_rows(st, values, n);
    assert forall|r: int| 0 <= r < n implies #[trigger] sent.counters[r] == st.n by {
        lemma_column_count_all(sent, r, n);
    }
    lemma_receive_columns(sent, n);
    assert forall|r: int| 0 <= r < n implies #[trigger] receive_columns(sent, r).column(r) == Seq::new(
        st.n,
        |w: int| values[w][r],
    ) by {
        lemma_receive_columns(sent, r);
        assert(sent.column(r) =~= Seq::new(st.n, |w: int| values[w][r]));
    }
    let fin = receive_columns(sent, n);
    assert forall|s: int| 0 <= s < n implies #[trigger] fin.ready[s] by {
        assert(fin.ready[s] <==> fin.row_empty(s));
        assert forall|r: int| 0 <= r < n implies (#[trigger] fin.mailbox(s, r)).is_none() by {
        }
    }
}

/// Backpressure: a sender with a value that receiver `r` has not drained is
/// not ready, and stays so while other receivers drain; once `r` drains its
/// last such value, the sender is ready again.
pub proof fn lemma_backpressure<T>(st: ExchangeState<T>, s: int, r: int)
    requires
        st.well_formed(),
        0 <= s < st.n,
        0 <= r < st.n,
        st.mailbox(s, r).is_some(),
    ensures
        !st.ready[s],
        forall|r2: int| 0 <= r2 < st.n && r2 != r ==> !(#[trigger] st.receive(r2).ready[s]),
        (forall|r2: int| 0 <= r2 < st.n && r2 != r ==> (#[trigger] st.mailbox(s, r2)).is_none())
            ==> st.receive(r).ready[s],
{
    assert forall|r2: int| 0 <= r2 < st.n && r2 != r implies !(#[trigger] st.receive(r2).ready[s]) by {
        lemma_receive_well_formed(st, r2);
        assert(st.receive(r2).mailbox(s, r).is_some());
    }
    lemma_receive_well_formed(st, r);
    if forall|r2: int| 0 <= r2 < st.n && r2 != r ==> (#[trigger] st.mailbox(s, r2)).is_none() {
        assert forall|r2: int| 0 <= r2 < st.n implies (#[trigger] st.receive(r).mailbox(s, r2)).is_none() by {
        }
    }
}

/// An exchange among `n` peers.
pub struct Exchange<T> {
    npeers: usize,
    mailboxes: Vec<Option<T>>,
    receiver_counters: Vec<usize>,
    ready_to_send: Vec<bool>,
}

impl<T> View for Exchange<T> {
    type V = ExchangeState<T>;

    closed spec fn view(&self) -> ExchangeState<T> {
        ExchangeState {
            n: self.npeers as nat,
            mailboxes: self.mailboxes@,
            counters: self.receiver_counters@.map_values(|c: usize| c as nat),
            ready: self.ready_to_send@,
        }
    }
}

impl<T> Exchange<T> {
    pub open spec fn well_formed(&self) -> bool {
        &&& self@.well_formed()
        &&& self@.n * self@.n <= usize::MAX
    }

    /// An exchange among `npeers` peers, every mailbox empty and every
    /// sender ready.
    pub fn new(npeers: usize) -> (r: Self)
        requires
            npeers > 0,
            npeers * npeers <= usize::MAX,
        ensures
            r.well_formed(),
            r@.n == npeers,
            forall|s: int, q: int| 0 <= s < npeers && 0 <= q < npeers ==> (#[trigger] r@.mailbox(s, q)).is_none(),
            forall|s: int| 0 <= s < npeers ==> #[trigger] r@.ready[s],
            forall|q: int| 0 <= q < npeers ==> #[trigger] r@.counters[q] == 0,
    {
        let total = npeers * npeers;
        let mut mailboxes: Vec<Option<T>> = Vec::new();
        let mut i: usize = 0;
        while i < total
            invariant
                i <= total,
                mailboxes@.len() == i,
                forall|j: int| 0 <= j < i ==> (#[trigger] mailboxes@[j]).is_none(),
            decreases total - i,
        {
            mailboxes.push(None);
            i = i + 1;
        }
        let mut receiver_counters: Vec<usize> = Vec::new();
        let mut ready_to_send: Vec<bool> = Vec::new();
        let mut i: usize = 0;
        while i < npeers
            invariant
                i <= npeers,
                receiver_counters@.len() == i,
                ready_to_send@.len() == i,
                forall|j: int| 0 <= j < i ==> #[trigger] receiver_counters@[j] == 0,
                forall|j: int| 0 <= j < i ==> #[trigger] ready_to_send@[j],
            decreases npeers - i,
        {
            receiver_counters.push(0);
            ready_to_send.push(true);
            i = i + 1;
        }
        let r = Exchange { npeers, mailboxes, receiver_counters, ready_to_send };
        proof {
            let n = npeers as int;
            assert forall|s: int, q: int| 0 <= s < n && 0 <= q < n implies (#[trigger] r@.mailbox(s, q)).is_none() by {
                lemma_index(n, s, q);
            }
            assert forall|q: int| 0 <= q < n implies #[trigger] r@.counters[q] == r@.column_count(q, n) by {
                lemma_column_count_empty(r@, q, n);
            }
        }
        r
    }

    /// The number of peers.
    pub fn npeers(&self) -> (r: usize)
        ensures
            r == self@.n,
    {
        self.npeers
    }

    /// Whether every mailbox of `sender` is free, so that a send succeeds.
    pub fn ready_to_send(&self, sender: usize) -> (r: bool)
        requires
            self.well_formed(),
            sender < self@.n,
        ensures
            r == self@.ready[sender as int],
            r == self@.row_empty(sender as int),
    {
        self.ready_to_send[sender]
    }

    /// Whether every mailbox of `receiver` is full, so that a receive
    /// succeeds.
    pub fn ready_to_receive(&self, receiver: usize) -> (r: bool)
        requires
            self.well_formed(),
            receiver < self@.n,
        ensures
            r == (self@.counters[receiver as int] == self@.n),
            r == forall|s: int| 0 <= s < self@.n ==> (#[trigger] self@.mailbox(s, receiver as int)).is_some(),
    {
        proof {
            let n = self@.n as int;
            lemma_column_count_le(self@, receiver as int, n);
            if self@.counters[receiver as int] == n {
                lemma_column_count_full(self@, receiver as int, n);
            } else {
                if forall|s: int| 0 <= s < n ==> (#[trigger] self@.mailbox(s, receiver as int)).is_some() {
                    lemma_column_count_all(self@, receiver as int, n);
                }
            }
        }
        self.receiver_counters[receiver] == self.npeers
    }

    /// Sends `data[r]` to each receiver `r`, if `sender` is ready.  On
    /// success `data` is left empty; otherwise nothing changes.
    pub fn try_send_all(&mut self, sender: usize, data: &mut Vec<T>) -> (r: bool)
        requires
            old(self).well_formed(),
            sender < old(self)@.n,
            old(data)@.len() == old(self)@.n,
        ensures
            final(self).well_formed(),
            r == old(self)@.ready[sender as int],
            r ==> final(self)@ == old(self)@.send(sender as int, old(data)@) && final(data)@.len() == 0,
            r ==> !final(self)@.ready[sender as int],
            r ==> forall|q: int| 0 <= q < old(self)@.n ==> #[trigger] final(self)@.mailbox(sender as int, q) == Some(old(data)@[q]),
            r ==> forall|s: int, q: int|
                0 <= s < old(self)@.n && s != sender && 0 <= q < old(self)@.n ==> #[trigger] final(self)@.mailbox(s, q) == old(self)@.mailbox(s, q),
            r ==> forall|q: int| 0 <= q < old(self)@.n ==> #[trigger] final(self)@.counters[q] == old(self)@.counters[q] + 1,
            r ==> forall|s: int| 0 <= s < old(self)@.n && s != sender ==> #[trigger] final(self)@.ready[s] == old(self)@.ready[s],
            !r ==> final(self)@ == old(self)@ && final(data)@ == old(data)@,
    {
        if !self.ready_to_send[sender] {
            return false;
        }
        let ghost st = self@;
        let ghost vals = data@;
        let n = self.npeers;
        proof {
            lemma_send_well_formed(st, sender as int, vals);
            let st2 = st.send(sender as int, vals);
            assert forall|s: int| 0 <= s < n && s != sender implies #[trigger] st2.ready[s] == st.ready[s] by {}
        }
        // the values leave `data` from the last receiver down
        let mut receiver = n;
        proof {
            assert(data@ =~= vals.subrange(0, n as int));
        }
        while receiver > 0
            invariant
                n == st.n,
                n > 0,
                n * n <= usize::MAX,
                sender < n,
                receiver <= n,
                data@ == vals.subrange(0, receiver as int),
                vals.len() == n,
                self.npeers == n,
                self.mailboxes@.len() == n * n,
                self.receiver_counters@ == old(self).receiver_counters@,
                self.ready_to_send@ == old(self).ready_to_send@,
                forall|i: int|
                    0 <= i < n * n ==> #[trigger] self.mailboxes@[i] == if i / (n as int) == sender
                        && i % (n as int) >= receiver {
                        Some(vals[i % (n as int)])
                    } else {
                        st.mailboxes[i]
                    },
            decreases receiver,
        {
            receiver = receiver - 1;
            let v = data.pop().unwrap();
            proof {
                lemma_index(n as int, sender as int, receiver as int);
            }
            let idx = sender * n + receiver;
            let ghost before = self.mailboxes@;
            self.mailboxes[idx] = Some(v);
            proof {
                assert(v == vals[receiver as int]);
                assert forall|i: int| 0 <= i < n * n implies #[trigger] self.mailboxes@[i] == if i / (
                n as int) == sender && i % (n as int) >= receiver {
                    Some(vals[i % (n as int)])
                } else {
                    st.mailboxes[i]
                } by {
                    if i != idx {
                        vstd::arithmetic::div_mod::lemma_fundamental_div_mod(i, n as int);
                        assert(before[i] == self.mailboxes@[i]);
                        if i / (n as int) == sender && i % (n as int) == receiver {
                            let a = i / (n as int);
                            let b = i % (n as int);
                            assert(i == sender * n + receiver) by (nonlinear_arith)
                                requires
                                    i == (n as int) * a + b,
                                    a == sender,
                                    b == receiver,
                            ;
                        }
                    } else {
                        assert(self.mailboxes@[i] == Some(v));
                    }
                }
            }
            assert(data@ =~= vals.subrange(0, receiver as int));
        }
        proof {
            let st2 = st.send(sender as int, vals);
            assert(self.mailboxes@ =~= st2.mailboxes);
            lemma_column_count_le(st2, 0, n as int);
            assert forall|j: int| 0 <= j < n implies #[trigger] old(self).receiver_counters@[j] < n by {
                assert(st.counters[j] == old(self).receiver_counters@[j] as nat);
                lemma_column_count_le(st2, j, n as int);
                assert(st2.counters[j] == st2.column_count(j, n as int));
            }
        }
        let ghost mb = self.mailboxes@;
        let mut q: usize = 0;
        while q < n
            invariant
                n == st.n,
                q <= n,
                self.npeers == n,
                self.mailboxes@ == mb,
                self.ready_to_send@ == old(self).ready_to_send@,
                self.receiver_counters@.len() == n,
                old(self).receiver_counters@.len() == n,
                forall|j: int|
                    0 <= j < q ==> #[trigger] self.receiver_counters@[j] == old(
                        self,
                    ).receiver_counters@[j] + 1,
                forall|j: int|
                    q <= j < n ==> #[trigger] self.receiver_counters@[j] == old(
                        self,
                    ).receiver_counters@[j],
                forall|j: int| 0 <= j < n ==> #[trigger] old(self).receiver_counters@[j] < n,
            decreases n - q,
        {
            let c = self.receiver_counters[q];
            self.receiver_counters[q] = c + 1;
            q = q + 1;
        }
        self.ready_to_send[sender] = false;
        proof {
            let st2 = st.send(sender as int, vals);
            assert(self@.counters =~= st2.counters);
            assert(self@.ready =~= st2.ready);
            assert(self@.mailboxes =~= st2.mailboxes);
        }
        true
    }

    /// Whether every mailbox of `sender` is empty.
    fn row_is_empty(&self, sender: usize) -> (r: bool)
        requires
            self.npeers == self@.n,
            self@.n > 0,
            self.mailboxes@.len() == self@.n * self@.n,
            self.npeers * self.npeers <= usize::MAX,
            sender < self@.n,
        ensures
            r == self@.row_empty(sender as int),
    {
        let n = self.npeers;
        let mut q: usize = 0;
        while q < n
            invariant
                q <= n,
                n == self@.n,
                sender < n,
                n * n <= usize::MAX,
                self.mailboxes@.len() == n * n,
                forall|j: int| 0 <= j < q ==> (#[trigger] self@.mailbox(sender as int, j)).is_none(),
            decreases n - q,
        {
            proof {
                lemma_index(n as int, sender as int, q as int);
            }
            if self.mailboxes[sender * n + q].is_some() {
                assert(self@.mailbox(sender as int, q as int).is_some());
                return false;
            }
            q = q + 1;
        }
        true
    }

    /// Takes the values of every sender for `receiver`, in sender order, if
    /// they are all there; otherwise nothing changes.
    pub fn try_receive_all(&mut self, receiver: usize) -> (r: Option<Vec<T>>)
        requires
            old(self).well_formed(),
            receiver < old(self)@.n,
        ensures
            final(self).well_formed(),
            r.is_some() == (old(self)@.counters[receiver as int] == old(self)@.n),
            match r {
                Some(v) => v@ == old(self)@.column(receiver as int) && final(self)@ == old(
                    self,
                )@.receive(receiver as int),
                None => final(self)@ == old(self)@,
            },
            r matches Some(v) ==> v@.len() == old(self)@.n && forall|s: int|
                0 <= s < old(self)@.n ==> old(self)@.mailbox(s, receiver as int) == Some(#[trigger] v@[s]),
            r is Some ==> forall|s: int| 0 <= s < old(self)@.n ==> (#[trigger] final(self)@.mailbox(s, receiver as int)).is_none(),
            r is Some ==> forall|s: int, q: int|
                0 <= s < old(self)@.n && 0 <= q < old(self)@.n && q != receiver ==> #[trigger] final(self)@.mailbox(s, q) == old(self)@.mailbox(s, q),
            r is Some ==> forall|s: int| 0 <= s < old(self)@.n ==> (#[trigger] final(self)@.ready[s] <==> final(self)@.row_empty(s)),
    {
        if !self.ready_to_receive(receiver) {
            return None;
        }
        let ghost st = self@;
        let n = self.npeers;
        proof {
            lemma_column_count_full(st, receiver as int, n as int);
            lemma_receive_well_formed(st, receiver as int);
        }
        let mut out: Vec<T> = Vec::new();
        let mut s: usize = 0;
        while s < n
            invariant
                n == st.n,
                n > 0,
                n * n <= usize::MAX,
                receiver < n,
                s <= n,
                self.npeers == n,
                self.mailboxes@.len() == n * n,
                self.receiver_counters@ == old(self).receiver_counters@,
                self.ready_to_send@ == old(self).ready_to_send@,
                out@ == st.column(receiver as int).subrange(0, s as int),
                forall|q: int| 0 <= q < n ==> (#[trigger] st.mailbox(q, receiver as int)).is_some(),
                forall|i: int|
                    0 <= i < n * n ==> #[trigger] self.mailboxes@[i] == if i % (n as int)
                        == receiver && i / (n as int) < s {
                        None
                    } else {
                        st.mailboxes[i]
                    },
            decreases n - s,
        {
            proof {
                lemma_index(n as int, s as int, receiver as int);
            }
            let idx = s * n + receiver;
            let ghost before = self.mailboxes@;
            let v = self.mailboxes[idx].take();
            proof {
                assert(v == st.mailbox(s as int, receiver as int));
                assert forall|i: int| 0 <= i < n * n implies #[trigger] self.mailboxes@[i] == if i % (
                n as int) == receiver && i / (n as int) < s + 1 {
                    None
                } else {
                    st.mailboxes[i]
                } by {
                    if i != idx {
                        vstd::arithmetic::div_mod::lemma_fundamental_div_mod(i, n as int);
                        assert(before[i] == self.mailboxes@[i]);
                        if i % (n as int) == receiver && i / (n as int) == s {
                            let a = i / (n as int);
                            let b = i % (n as int);
                            assert(i == s * n + receiver) by (nonlinear_arith)
                                requires
                                    i == (n as int) * a + b,
                                    a == s,
                                    b == receiver,
                            ;
                        }
                    }
                }
            }
            out.push(v.unwrap());
            proof {
                assert(out@ =~= st.column(receiver as int).subrange(0, s + 1));
            }
            s = s + 1;
        }
        self.receiver_counters[receiver] = 0;
        let ghost st2 = st.receive(receiver as int);
        proof {
            assert forall|i: int| 0 <= i < n * n implies #[trigger] self.mailboxes@[i] == st2.mailboxes[i] by {
                lemma_div_mod_range(i, n as int);
            }
            assert(self.mailboxes@ =~= st2.mailboxes);
            assert(out@ =~= st.column(receiver as int));
        }
        let mut q: usize = 0;
        while q < n
            invariant
                n == st.n,
                n > 0,
                n * n <= usize::MAX,
                q <= n,
                self.npeers == n,
                self.mailboxes@ == st2.mailboxes,
                self.mailboxes@.len() == n * n,
                self@.n == st2.n,
                st2 == st.receive(receiver as int),
                self@.mailboxes == st2.mailboxes,
                self@.counters == st2.counters,
                self.ready_to_send@.len() == n,
                forall|j: int| 0 <= j < q ==> #[trigger] self.ready_to_send@[j] == st2.ready[j],
            decreases n - q,
        {
            let e = self.row_is_empty(q);
            proof {
                let mid = ExchangeState {
                    n: st.n,
                    mailboxes: st2.mailboxes,
                    counters: st.counters,
                    ready: st.ready,
                };
                assert(st2.ready[q as int] == mid.row_empty(q as int));
                if mid.row_empty(q as int) {
                    assert forall|r2: int| 0 <= r2 < n implies (#[trigger] self@.mailbox(q as int, r2)).is_none() by {
                        assert(mid.mailbox(q as int, r2).is_none());
                    }
                }
                if self@.row_empty(q as int) {
                    assert forall|r2: int| 0 <= r2 < n implies (#[trigger] mid.mailbox(q as int, r2)).is_none() by {
                        assert(self@.mailbox(q as int, r2).is_none());
                    }
                }
                assert(e == st2.ready[q as int]);
            }
            self.ready_to_send[q] = e;
            q = q + 1;
        }
        proof {
            assert(self@.ready =~= st2.ready);
            assert(self@.mailboxes =~= st2.mailboxes);
        }
        Some(out)
    }
}

proof fn lemma_div_mod_range(i: int, n: int)
    requires
        n > 0,
        0 <= i < n * n,
    ensures
        0 <= i / n < n,
        0 <= i % n < n,
{
    vstd::arithmetic::div_mod::lemma_fundamental_div_mod(i, n);
    vstd::arithmetic::div_mod::lemma_mod_pos_bound(i, n);
    let q = i / n;
    let m = i % n;
    assert(0 <= q < n) by (nonlinear_arith)
        requires
            i == n * q + m,
            0 <= m < n,
            0 <= i < n * n,
            n > 0,
    ;
}

proof fn lemma_column_count_all<T>(a: ExchangeState<T>, r: int, upto: int)
    requires
        upto >= 0,
        forall|s: int| 0 <= s < upto ==> (#[trigger] a.mailbox(s, r)).is_some(),
    ensures
        a.column_count(r, upto) == upto,
    decreases upto,
{
    if upto > 0 {
        lemma_column_count_all(a, r, upto - 1);
    }
}

} // verus!
