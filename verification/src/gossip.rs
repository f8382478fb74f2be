use vstd::prelude::*;
use crate::data::Message;
use crate::errors::Error;
use crate::hasht::{
    HashT, wf, contents, occ_count, contains_key, slot_occ, slot_value, place, place_ok, find,
    lemma_occ_count_le_len, lemma_occ_count_empty, lemma_key_slot_unique,
};

verus! {

/// The all-zero key: the sentinel that marks a vacant subscriber slot.
pub open spec fn zero_key() -> Seq<u8> {
    Seq::new(32, |i: int| 0u8)
}

/// A peer tracked by the registry: a 32-byte identity, an opaque endpoint
/// identifier, and the logical-clock value at last contact. A subscriber is
/// vacant exactly when its key is the all-zero sentinel.
#[derive(Clone, Copy, Debug)]
pub struct Subscriber {
    pub key: [u8; 32],
    pub addr: u64,
    pub lastping: u64,
}

impl Default for Subscriber {
    fn default() -> (d: Subscriber)
        ensures
            d.key@ == zero_key(),
            d.addr == 0,
            d.lastping == 0,
            d.spec_unused(),
    {
        let d = Subscriber { key: [0u8; 32], addr: 0, lastping: 0 };
        proof {
            assert(d.key@ =~= zero_key());
        }
        d
    }
}

impl HashT for Subscriber {
    open spec fn spec_key(&self) -> Seq<u8> {
        self.key@
    }

    open spec fn spec_unused(&self) -> bool {
        self.key@ == zero_key()
    }

    fn unused(&self) -> (b: bool) {
        let mut i: usize = 0;
        while i < 32
            invariant
                0 <= i <= 32,
                forall|j: int| 0 <= j < i ==> self.key@[j] == 0,
            decreases 32 - i,
        {
            if self.key[i] != 0 {
                proof {
                    assert(zero_key()[i as int] == 0);
                }
                return false;
            }
            i = i + 1;
        }
        proof {
            assert(self.key@ =~= zero_key());
        }
        true
    }

    fn key(&self) -> (k: &[u8; 32]) {
        &self.key
    }
}

/// The registry's abstract state: the occupied subscribers as a map keyed by
/// identity, the logical clock, the occupancy counter, and the table
/// capacity.
#[verifier::ext_equal]
pub struct RegView {
    pub subs: Map<Seq<u8>, Subscriber>,
    pub now: u64,
    pub used: nat,
    pub cap: nat,
}

/// The effect of one message on the abstract state:
/// `Signature` overwrites the clock; `Subscribe` binds the key (unless it is
/// the vacant sentinel), counts the slot if it was new, and doubles the
/// capacity when occupancy would exceed three quarters; anything else is a
/// no-op.
pub open spec fn step(s: RegView, m: Message) -> RegView {
    match m {
        Message::Signature { counter } => RegView {
            subs: s.subs,
            now: counter,
            used: s.used,
            cap: s.cap,
        },
        Message::Subscribe { key, addr } => {
            let added: nat = if s.subs.contains_key(key@) {
                0nat
            } else {
                1nat
            };
            let used2 = (s.used + added) as nat;
            let subs2 = if key@ == zero_key() {
                s.subs
            } else {
                s.subs.insert(key@, Subscriber { key, addr, lastping: s.now })
            };
            let cap2: nat = if 4 * used2 > 3 * s.cap {
                (2 * s.cap) as nat
            } else {
                s.cap
            };
            RegView { subs: subs2, now: s.now, used: used2, cap: cap2 }
        },
        Message::Noop => s,
    }
}

/// The effect of a message sequence, applied in order.
pub open spec fn run_steps(s: RegView, ms: Seq<Message>) -> RegView
    decreases ms.len(),
{
    if ms.len() == 0 {
        s
    } else {
        run_steps(step(s, ms[0]), ms.drop_first())
    }
}

pub proof fn lemma_run_steps_push(s: RegView, ms: Seq<Message>, m: Message)
    ensures
        run_steps(s, ms.push(m)) == step(run_steps(s, ms), m),
    decreases ms.len(),
{
    if ms.len() == 0 {
        assert(ms.push(m)[0] == m);
        assert(ms.push(m).drop_first() =~= Seq::<Message>::empty());
        assert(run_steps(s, ms.push(m)) == run_steps(step(s, m), ms.push(m).drop_first()));
        assert(run_steps(step(s, m), ms.push(m).drop_first()) == step(s, m));
        assert(run_steps(s, ms) == s);
    } else {
        assert(ms.push(m)[0] == ms[0]);
        assert(ms.push(m).drop_first() =~= ms.drop_first().push(m));
        assert(run_steps(s, ms.push(m)) == run_steps(step(s, ms[0]), ms.push(m).drop_first()));
        assert(ms.push(m).drop_first() == ms.drop_first().push(m));
        lemma_run_steps_push(step(s, ms[0]), ms.drop_first(), m);
        assert(run_steps(step(s, ms[0]), ms.drop_first().push(m)) == step(
            run_steps(step(s, ms[0]), ms.drop_first()),
            m,
        ));
        assert(run_steps(s, ms) == run_steps(step(s, ms[0]), ms.drop_first()));
    }
}

/// One step keeps the registry at or below three-quarters load, provided it
/// started there.
pub proof fn lemma_step_preserves_load(s: RegView, m: Message)
    requires
        4 * s.used <= 3 * s.cap,
        s.cap >= 1,
    ensures
        4 * step(s, m).used <= 3 * step(s, m).cap,
        step(s, m).cap >= 1,
{
    match m {
        Message::Subscribe { key, addr } => {
            let s2 = step(s, m);
            if s2.used > s.used {
                if 4 * s2.used > 3 * s.cap {
                    assert(s2.cap == 2 * s.cap);
                    if s.cap >= 2 {
                        assert(4 * s2.used <= 3 * s.cap + 4 <= 6 * s.cap);
                    } else {
                        assert(s.cap == 1);
                        assert(s.used == 0);
                    }
                }
            }
        },
        _ => {},
    }
}

/// Applying `Signature(counter)` overwrites the clock with `counter`
/// regardless of its previous value, and changes nothing else.
pub proof fn lemma_signature_sets_clock(s: RegView, c: u64)
    ensures
        step(s, Message::Signature { counter: c }).now == c,
        step(s, Message::Signature { counter: c }).subs == s.subs,
        step(s, Message::Signature { counter: c }).used == s.used,
        step(s, Message::Signature { counter: c }).cap == s.cap,
{
}

/// Applying the same `Subscribe` twice in a row is idempotent for occupancy:
/// the second application finds the key bound, adds nothing to `used`, and
/// leaves the subscriber map and the clock unchanged.
pub proof fn lemma_subscribe_idempotent(s: RegView, key: [u8; 32], addr: u64)
    requires
        key@ != zero_key(),
    ensures
        ({
            let s1 = step(s, Message::Subscribe { key, addr });
            let s2 = step(s1, Message::Subscribe { key, addr });
            &&& s2.used == s1.used
            &&& s2.subs == s1.subs
            &&& s2.now == s1.now
        }),
{
    let s1 = step(s, Message::Subscribe { key, addr });
    let s2 = step(s1, Message::Subscribe { key, addr });
    assert(s1.subs.contains_key(key@));
    assert(s1.subs[key@] == Subscriber { key, addr, lastping: s.now });
    assert(s2.subs =~= s1.subs);
}

/// The subscriber registry: an open-addressing table of subscribers, the
/// logical clock `now`, and the occupancy counter `used`. Capacity doubles
/// whenever occupancy would exceed three quarters of the table.
pub struct Gossip {
    subs: Vec<Subscriber>,
    now: u64,
    used: usize,
}

impl View for Gossip {
    type V = RegView;

    closed spec fn view(&self) -> RegView {
        RegView {
            subs: contents(self.subs@),
            now: self.now,
            used: self.used as nat,
            cap: self.subs@.len(),
        }
    }
}

impl Gossip {
    /// The registry's internal invariant: a nonempty, well-formed table,
    /// `used` at least the occupied-slot count, and load at most 3/4.
    pub closed spec fn inv(&self) -> bool {
        &&& self.subs@.len() >= 1
        &&& wf(self.subs@)
        &&& occ_count(self.subs@) <= self.used
        &&& 4 * (self.used as int) <= 3 * (self.subs@.len() as int)
    }

    /// Create a registry with `size` vacant slots, a zero clock and zero
    /// occupancy.
    pub fn new(size: usize) -> (g: Gossip)
        requires
            1 <= size,
        ensures
            g.inv(),
            g@.now == 0,
            g@.used == 0,
            g@.cap == size as nat,
            g@.subs == Map::<Seq<u8>, Subscriber>::empty(),
    {
        let mut v: Vec<Subscriber> = Vec::new();
        let mut i: usize = 0;
        while i < size
            invariant
                v@.len() == i,
                0 <= i <= size,
                forall|j: int| 0 <= j < i ==> v@[j].spec_unused(),
            decreases size - i,
        {
            v.push(Subscriber::default());
            i = i + 1;
        }
        let g = Gossip { subs: v, now: 0, used: 0 };
        proof {
            assert forall|ii: int| 0 <= ii < g.subs@.len() implies !slot_occ(g.subs@, ii) by {
                assert(g.subs@[ii].spec_unused());
            }
            assert(wf(g.subs@));
            lemma_occ_count_empty(g.subs@);
            assert forall|k2: Seq<u8>| !contains_key(g.subs@, k2) by {
                if contains_key(g.subs@, k2) {
                    let q = choose|qi: int|
                        0 <= qi < g.subs@.len() && #[trigger] slot_occ(g.subs@, qi)
                            && g.subs@[qi].spec_key() == k2;
                    assert(false);
                }
            }
            assert(contents(g.subs@) =~= Map::<Seq<u8>, Subscriber>::empty());
        }
        g
    }

    /// Apply one message to the table and clock, leaving `used` to the
    /// caller: the returned count is 1 exactly when a vacant slot was
    /// consumed.
    fn exec(&mut self, m: &Message) -> (added: usize)
        requires
            wf(old(self).subs@),
            old(self).subs@.len() >= 1,
            occ_count(old(self).subs@) < old(self).subs@.len(),
        ensures
            final(self).subs@.len() == old(self).subs@.len(),
            wf(final(self).subs@),
            final(self).used == old(self).used,
            added <= 1,
            ({
                let s0 = old(self)@;
                match *m {
                    Message::Signature { counter } => {
                        &&& final(self).now == counter
                        &&& contents(final(self).subs@) == s0.subs
                        &&& added == 0
                        &&& occ_count(final(self).subs@) == occ_count(old(self).subs@)
                    },
                    Message::Subscribe { key, addr } => {
                        &&& final(self).now == old(self).now
                        &&& (added == 1 <==> !s0.subs.contains_key(key@))
                        &&& contents(final(self).subs@) == (if key@ == zero_key() {
                            s0.subs
                        } else {
                            s0.subs.insert(key@, Subscriber { key, addr, lastping: old(self).now })
                        })
                        &&& occ_count(final(self).subs@) == occ_count(old(self).subs@) + (
                        if key@ != zero_key() && !s0.subs.contains_key(key@) {
                            1nat
                        } else {
                            0nat
                        })
                    },
                    Message::Noop => {
                        &&& final(self).now == old(self).now
                        &&& contents(final(self).subs@) == s0.subs
                        &&& added == 0
                        &&& occ_count(final(self).subs@) == occ_count(old(self).subs@)
                    },
                }
            }),
    {
        match *m {
            Message::Signature { counter } => {
                self.now = counter;
                0
            },
            Message::Subscribe { key, addr } => {
                let ghost t0 = self.subs@;
                let r = find(&self.subs, &key);
                let pos = match r {
                    Ok(p) => p,
                    Err(_) => {
                        proof {
                            assert(false);
                        }
                        return 0;
                    },
                };
                let was_unused = (&self.subs[pos]).unused();
                let update = Subscriber { key, addr, lastping: self.now };
                proof {
                    assert(update.spec_key() == key@);
                    if update.spec_unused() {
                        if !t0[pos as int].spec_unused() {
                            assert(t0[pos as int].spec_key() == key@);
                            assert(t0[pos as int].spec_unused());
                        }
                    }
                    assert(place_ok(t0, pos as int, update));
                }
                place(&mut self.subs, pos, update);
                proof {
                    if !was_unused {
                        assert(slot_occ(t0, pos as int) && t0[pos as int].spec_key() == key@);
                        assert(contains_key(t0, key@));
                    }
                    assert(contents(t0).contains_key(key@) == contains_key(t0, key@));
                }
                if was_unused {
                    1
                } else {
                    0
                }
            },
            Message::Noop => 0,
        }
    }

    /// Replace the table with one of twice the capacity, migrating every
    /// occupied slot; contents, clock and occupancy are unchanged.
    fn double(&mut self) -> (r: Result<(), Error>)
        requires
            wf(old(self).subs@),
            old(self).subs@.len() >= 1,
            old(self).subs@.len() <= usize::MAX / 2,
        ensures
            r is Ok,
            final(self).subs@.len() == 2 * old(self).subs@.len(),
            wf(final(self).subs@),
            contents(final(self).subs@) == contents(old(self).subs@),
            occ_count(final(self).subs@) == occ_count(old(self).subs@),
            final(self).now == old(self).now,
            final(self).used == old(self).used,
    {
        let size = self.subs.len() * 2;
        let mut v: Vec<Subscriber> = Vec::new();
        let mut i: usize = 0;
        while i < size
            invariant
                v@.len() == i,
                0 <= i <= size,
                forall|j: int| 0 <= j < i ==> v@[j].spec_unused(),
            decreases size - i,
        {
            v.push(Subscriber::default());
            i = i + 1;
        }
        proof {
            lemma_occ_count_le_len(self.subs@);
        }
        let r = crate::hasht::migrate(&self.subs, &mut v);
        match r {
            Ok(_) => {
                self.subs = v;
                Ok(())
            },
            Err(_) => {
                proof {
                    assert(false);
                }
                Err(Error::NoSpace)
            },
        }
    }

    /// Apply each message in order; after a message that consumed a vacant
    /// slot, double the table before the next message whenever occupancy
    /// exceeds three quarters. Always succeeds: the growth policy keeps a
    /// vacant slot available for every probe.
    pub fn execute(&mut self, msgs: &Vec<Message>) -> (r: Result<(), Error>)
        requires
            old(self).inv(),
            old(self)@.used + msgs@.len() <= usize::MAX as int / 8,
        ensures
            r is Ok,
            final(self).inv(),
            final(self)@ == run_steps(old(self)@, msgs@),
            4 * final(self)@.used <= 3 * final(self)@.cap,
    {
        let ghost s_init = self@;
        let mut i: usize = 0;
        while i < msgs.len()
            invariant
                self.inv(),
                0 <= i <= msgs@.len(),
                self@ == run_steps(s_init, msgs@.take(i as int)),
                self@.used + (msgs@.len() - i) <= usize::MAX as int / 8,
            decreases msgs@.len() - i,
        {
            let ghost s_prev = self@;
            let m = msgs[i];
            proof {
                lemma_occ_count_le_len(self.subs@);
            }
            let added = self.exec(&m);
            self.used = self.used + added;
            let ghost s_mid = self@;
            if 4u128 * (self.used as u128) > 3u128 * (self.subs.len() as u128) {
                proof {
                    assert(3 * (self.subs@.len() as int) < 4 * (self.used as int));
                    assert(self.subs@.len() <= usize::MAX / 2);
                }
                let r = self.double();
                match r {
                    Ok(_) => {},
                    Err(_) => {
                        proof {
                            assert(false);
                        }
                        return Err(Error::NoSpace);
                    },
                }
            }
            proof {
                assert(self@ =~= step(s_prev, m));
                lemma_step_preserves_load(s_prev, m);
                assert(msgs@.take(i + 1) =~= msgs@.take(i as int).push(msgs@[i as int]));
                lemma_run_steps_push(s_init, msgs@.take(i as int), m);
            }
            i = i + 1;
        }
        proof {
            assert(msgs@.take(msgs@.len() as int) =~= msgs@);
        }
        Ok(())
    }

    /// Downstream broadcast entry point. Transmitting to peers is a
    /// collaborator's job; this core only owns the registry state, which the
    /// call leaves untouched.
    pub fn downstream(&mut self) -> (r: Result<(), Error>)
        ensures
            r is Ok,
            *final(self) == *old(self),
    {
        Ok(())
    }

    /// Current occupancy counter.
    pub fn used(&self) -> (u: usize)
        ensures
            u == self@.used,
    {
        self.used
    }

    /// Current table capacity.
    pub fn capacity(&self) -> (c: usize)
        ensures
            c == self@.cap,
    {
        self.subs.len()
    }

    /// Current logical-clock value.
    pub fn now(&self) -> (t: u64)
        ensures
            t == self@.now,
    {
        self.now
    }

    /// The registered subscribers arranged for the downstream broadcast
    /// tree: every subscriber exactly once, in rank order. Positions in the
    /// result are heap positions; `fanout_children` reads a node's children
    /// off it.
    pub fn fanout_order(&self) -> (order: Vec<Subscriber>)
        requires
            self.inv(),
        ensures
            rank_sorted(order@),
            forall|p: int|
                0 <= p < order@.len() ==> #[trigger] self@.subs.contains_key(order@[p].key@)
                    && self@.subs[order@[p].key@] == order@[p],
            forall|k: Seq<u8>|
                #[trigger] self@.subs.contains_key(k) ==> exists|p: int|
                    0 <= p < order@.len() && #[trigger] order@[p].key@ == k,
            forall|p: int, q: int|
                0 <= p < q < order@.len() ==> order@[p].key@ != order@[q].key@,
    {
        let ghost t = self.subs@;
        let mut out: Vec<Subscriber> = Vec::new();
        let mut i: usize = 0;
        while i < self.subs.len()
            invariant
                self.inv(),
                t == self.subs@,
                0 <= i <= t.len(),
                forall|p: int|
                    0 <= p < out@.len() ==> #[trigger] contains_key(t, out@[p].key@)
                        && slot_value(t, out@[p].key@) == out@[p],
                forall|p: int|
                    0 <= p < out@.len() ==> #[trigger] contains_key(t.take(i as int), out@[p].key@),
                forall|k: Seq<u8>|
                    #[trigger] contains_key(t.take(i as int), k) ==> exists|p: int|
                        0 <= p < out@.len() && #[trigger] out@[p].key@ == k,
                forall|p: int, q: int|
                    0 <= p < q < out@.len() ==> out@[p].key@ != out@[q].key@,
            decreases t.len() - i,
        {
            let ghost out0 = out@;
            proof {
                assert forall|k: Seq<u8>| #[trigger] contains_key(t.take(i as int), k) implies
                contains_key(t.take(i as int + 1), k) by {
                    let q = choose|qi: int|
                        0 <= qi < t.take(i as int).len() && #[trigger] slot_occ(
                            t.take(i as int),
                            qi,
                        ) && t.take(i as int)[qi].spec_key() == k;
                    assert(t.take(i as int)[q] == t[q]);
                    assert(t.take(i as int + 1)[q] == t[q]);
                    assert(slot_occ(t.take(i as int + 1), q) && t.take(i as int + 1)[q].spec_key()
                        == k);
                }
            }
            let s = &self.subs[i];
            if !s.unused() {
                out.push(*s);
                proof {
                    assert(out@ == out0.push(t[i as int]));
                    assert(slot_occ(t, i as int));
                    crate::hasht::lemma_slot_value_of_occ(t, i as int);
                    assert(t.take(i as int + 1)[i as int] == t[i as int]);
                    assert(slot_occ(t.take(i as int + 1), i as int));
                    assert(contains_key(t.take(i as int + 1), t[i as int].spec_key()));
                    assert forall|p: int| 0 <= p < out@.len() implies #[trigger] contains_key(
                        t.take(i as int + 1),
                        out@[p].key@,
                    ) by {
                        if p < out0.len() {
                            assert(out@[p] == out0[p]);
                            assert(contains_key(t.take(i as int), out0[p].key@));
                        } else {
                            assert(out@[p] == t[i as int]);
                        }
                    }
                    assert forall|k: Seq<u8>| #[trigger] contains_key(
                        t.take(i as int + 1),
                        k,
                    ) implies exists|p: int|
                        0 <= p < out@.len() && #[trigger] out@[p].key@ == k by {
                        let q = choose|qi: int|
                            0 <= qi < t.take(i as int + 1).len() && #[trigger] slot_occ(
                                t.take(i as int + 1),
                                qi,
                            ) && t.take(i as int + 1)[qi].spec_key() == k;
                        assert(t.take(i as int + 1)[q] == t[q]);
                        if q < i {
                            assert(t.take(i as int)[q] == t[q]);
                            assert(slot_occ(t.take(i as int), q)
                                && t.take(i as int)[q].spec_key() == k);
                            assert(contains_key(t.take(i as int), k));
                            let p = choose|p: int|
                                0 <= p < out0.len() && #[trigger] out0[p].key@ == k;
                            assert(out@[p].key@ == k);
                        } else {
                            assert(q == i);
                            assert(out@[out0.len() as int].key@ == k);
                        }
                    }
                    assert forall|p: int, q: int|
                        0 <= p < q < out@.len() implies out@[p].key@ != out@[q].key@ by {
                        if q == out0.len() {
                            assert(contains_key(t.take(i as int), out0[p].key@));
                            let qp = choose|qi: int|
                                0 <= qi < t.take(i as int).len() && #[trigger] slot_occ(
                                    t.take(i as int),
                                    qi,
                                ) && t.take(i as int)[qi].spec_key() == out0[p].key@;
                            assert(t.take(i as int)[qp] == t[qp]);
                            assert(slot_occ(t, qp));
                            assert(out@[q] == t[i as int]);
                            if t[qp].spec_key() == t[i as int].spec_key() {
                                lemma_key_slot_unique(t, qp, i as int);
                                assert(false);
                            }
                        }
                    }
                }
            } else {
                proof {
                    assert forall|p: int| 0 <= p < out@.len() implies #[trigger] contains_key(
                        t.take(i as int + 1),
                        out@[p].key@,
                    ) by {
                        assert(out@[p] == out0[p]);
                        assert(contains_key(t.take(i as int), out0[p].key@));
                    }
                    assert forall|k: Seq<u8>| #[trigger] contains_key(
                        t.take(i as int + 1),
                        k,
                    ) implies contains_key(t.take(i as int), k) by {
                        let q = choose|qi: int|
                            0 <= qi < t.take(i as int + 1).len() && #[trigger] slot_occ(
                                t.take(i as int + 1),
                                qi,
                            ) && t.take(i as int + 1)[qi].spec_key() == k;
                        assert(t.take(i as int + 1)[q] == t[q]);
                        assert(q != i);
                        assert(t.take(i as int)[q] == t[q]);
                        assert(slot_occ(t.take(i as int), q) && t.take(i as int)[q].spec_key()
                            == k);
                    }
                }
            }
            i = i + 1;
        }
        let ghost out0 = out@;
        proof {
            assert forall|p: int| 0 <= p < out0.len() implies #[trigger] contains_key(
                t,
                out0[p].key@,
            ) && slot_value(t, out0[p].key@) == out0[p] by {
                assert(contains_key(t, out@[p].key@) && slot_value(t, out@[p].key@) == out@[p]);
            }
        }
        sort_by_rank(&mut out);
        proof {
            broadcast use vstd::seq_lib::group_to_multiset_ensures;
            broadcast use vstd::multiset::group_multiset_axioms;

            assert(t.take(t.len() as int) =~= t);
            assert forall|p: int|
                0 <= p < out@.len() implies #[trigger] self@.subs.contains_key(out@[p].key@)
                && self@.subs[out@[p].key@] == out@[p] by {
                assert(out@.contains(out@[p]));
                assert(out@.to_multiset().count(out@[p]) > 0);
                assert(out0.contains(out@[p]));
                let p0 = choose|p0: int| 0 <= p0 < out0.len() && out0[p0] == out@[p];
                assert(0 <= p0 < out0.len());
                assert(out0[p0] == out@[p]);
                assert(contains_key(t, out0[p0].key@));
                assert(slot_value(t, out0[p0].key@) == out0[p0]);
            }
            assert forall|k: Seq<u8>| #[trigger] self@.subs.contains_key(k) implies exists|p: int|
                0 <= p < out@.len() && #[trigger] out@[p].key@ == k by {
                assert(contains_key(t, k));
                let p0 = choose|p: int| 0 <= p < out0.len() && #[trigger] out0[p].key@ == k;
                assert(out0.contains(out0[p0]));
                assert(out0.to_multiset().count(out0[p0]) > 0);
                assert(out@.contains(out0[p0]));
                let p = choose|p: int| 0 <= p < out@.len() && out@[p] == out0[p0];
                assert(out@[p].key@ == k);
            }
            assert forall|p: int, q: int|
                0 <= p < q < out@.len() implies out@[p].key@ != out@[q].key@ by {
                if out@[p].key@ == out@[q].key@ {
                    if out@[p] == out@[q] {
                        assert(out0.no_duplicates()) by {
                            assert forall|a: int, b: int|
                                0 <= a < out0.len() && 0 <= b < out0.len() && a != b implies out0[a]
                                != out0[b] by {
                                if a < b {
                                    assert(out0[a].key@ != out0[b].key@);
                                } else {
                                    assert(out0[b].key@ != out0[a].key@);
                                }
                            }
                        }
                        out0.lemma_multiset_has_no_duplicates();
                        out@.lemma_multiset_has_no_duplicates_conv();
                        assert(false);
                    } else {
                        assert(out@.contains(out@[p]));
                        assert(out@.contains(out@[q]));
                        assert(out@.to_multiset().count(out@[p]) > 0);
                        assert(out@.to_multiset().count(out@[q]) > 0);
                        assert(out0.to_multiset().count(out@[p]) > 0);
                        assert(out0.to_multiset().count(out@[q]) > 0);
                        assert(out0.contains(out@[p]));
                        assert(out0.contains(out@[q]));
                        let a = choose|a: int| 0 <= a < out0.len() && out0[a] == out@[p];
                        let b = choose|b: int| 0 <= b < out0.len() && out0[b] == out@[q];
                        assert(a != b);
                        if a < b {
                            assert(out0[a].key@ != out0[b].key@);
                        } else {
                            assert(out0[b].key@ != out0[a].key@);
                        }
                        assert(false);
                    }
                }
            }
        }
        out
    }
}

/// The direct children, in the rank order `order`, of the node at heap
/// position `index` in an implicit tree of branching factor `width`: the
/// nodes at positions `width*index + 1` up to `width*index + width`, as far
/// as the order reaches.
pub fn fanout_children(order: &Vec<Subscriber>, index: usize, width: usize) -> (c: Vec<Subscriber>)
    requires
        width >= 1,
    ensures
        ({
            let n = order@.len() as int;
            let lo0 = (width as int) * (index as int) + 1;
            let lo = if lo0 <= n {
                lo0
            } else {
                n
            };
            let hi0 = lo0 + (width as int);
            let hi = if hi0 <= n {
                hi0
            } else {
                n
            };
            c@ == order@.subrange(lo, hi)
        }),
{
    let n = order.len();
    let ghost lo0 = (width as int) * (index as int) + 1;
    if index != 0 && width > (usize::MAX - 1) / index {
        proof {
            assert(lo0 > usize::MAX as int) by (nonlinear_arith)
                requires
                    lo0 == (width as int) * (index as int) + 1,
                    index >= 1,
                    width as int > (usize::MAX as int - 1) / (index as int),
                    width >= 1,
            ;
            assert(n as int <= usize::MAX as int);
            assert(order@.subrange(n as int, n as int) =~= Seq::<Subscriber>::empty());
        }
        return Vec::new();
    }
    proof {
        assert(lo0 <= usize::MAX as int) by (nonlinear_arith)
            requires
                lo0 == (width as int) * (index as int) + 1,
                index == 0 || width as int <= (usize::MAX as int - 1) / (index as int),
                width >= 1,
                index >= 0,
        ;
    }
    let lo = width * index + 1;
    if lo >= n {
        proof {
            assert(order@.subrange(n as int, n as int) =~= Seq::<Subscriber>::empty());
        }
        return Vec::new();
    }
    let hi = if n - lo < width {
        n
    } else {
        lo + width
    };
    let mut c: Vec<Subscriber> = Vec::new();
    let mut k: usize = lo;
    while k < hi
        invariant
            lo <= k <= hi <= order@.len(),
            c@ == order@.subrange(lo as int, k as int),
        decreases hi - k,
    {
        c.push(order[k]);
        proof {
            assert(c@ =~= order@.subrange(lo as int, k as int + 1));
        }
        k = k + 1;
    }
    c
}

/// Lexicographic order on byte sequences: `a` at or before `b`.
pub open spec fn lex_le(a: Seq<u8>, b: Seq<u8>) -> bool
    decreases a.len(),
{
    if a.len() == 0 {
        true
    } else if b.len() == 0 {
        false
    } else if a[0] < b[0] {
        true
    } else if a[0] > b[0] {
        false
    } else {
        lex_le(a.drop_first(), b.drop_first())
    }
}

pub proof fn lemma_lex_le_total(a: Seq<u8>, b: Seq<u8>)
    ensures
        lex_le(a, b) || lex_le(b, a),
    decreases a.len(),
{
    if a.len() != 0 && b.len() != 0 && a[0] == b[0] {
        lemma_lex_le_total(a.drop_first(), b.drop_first());
    }
}

pub proof fn lemma_lex_le_trans(a: Seq<u8>, b: Seq<u8>, c: Seq<u8>)
    requires
        lex_le(a, b),
        lex_le(b, c),
    ensures
        lex_le(a, c),
    decreases a.len(),
{
    if a.len() != 0 && b.len() != 0 && c.len() != 0 && a[0] == b[0] && b[0] == c[0] {
        lemma_lex_le_trans(a.drop_first(), b.drop_first(), c.drop_first());
    }
}

/// Byte-wise lexicographic comparison of two keys.
fn key_le(a: &[u8; 32], b: &[u8; 32]) -> (r: bool)
    ensures
        r == lex_le(a@, b@),
{
    proof {
        assert(a@.skip(0) =~= a@);
        assert(b@.skip(0) =~= b@);
    }
    let mut i: usize = 0;
    while i < 32
        invariant
            0 <= i <= 32,
            lex_le(a@, b@) == lex_le(a@.skip(i as int), b@.skip(i as int)),
        decreases 32 - i,
    {
        let x = a[i];
        let y = b[i];
        proof {
            assert(a@.skip(i as int)[0] == a@[i as int]);
            assert(b@.skip(i as int)[0] == b@[i as int]);
            assert(a@.skip(i as int).drop_first() =~= a@.skip(i as int + 1));
            assert(b@.skip(i as int).drop_first() =~= b@.skip(i as int + 1));
        }
        if x < y {
            return true;
        }
        if x > y {
            return false;
        }
        i = i + 1;
    }
    proof {
        assert(a@.skip(32).len() == 0);
    }
    true
}

/// The broadcast rank order: higher `lastping` (the rank proxy) first, ties
/// broken by key bytes ascending. Total over subscribers with distinct keys.
pub open spec fn rank_le(a: Subscriber, b: Subscriber) -> bool {
    a.lastping > b.lastping || (a.lastping == b.lastping && lex_le(a.key@, b.key@))
}

pub proof fn lemma_rank_le_total(a: Subscriber, b: Subscriber)
    ensures
        rank_le(a, b) || rank_le(b, a),
{
    if a.lastping == b.lastping {
        lemma_lex_le_total(a.key@, b.key@);
    }
}

pub proof fn lemma_rank_le_trans(a: Subscriber, b: Subscriber, c: Subscriber)
    requires
        rank_le(a, b),
        rank_le(b, c),
    ensures
        rank_le(a, c),
{
    if a.lastping == b.lastping && b.lastping == c.lastping {
        lemma_lex_le_trans(a.key@, b.key@, c.key@);
    }
}

/// The sequence stands in rank order, first to last.
pub open spec fn rank_sorted(s: Seq<Subscriber>) -> bool {
    forall|i: int, j: int| 0 <= i < j < s.len() ==> rank_le(#[trigger] s[i], #[trigger] s[j])
}

fn rank_le_exec(a: &Subscriber, b: &Subscriber) -> (r: bool)
    ensures
        r == rank_le(*a, *b),
{
    if a.lastping > b.lastping {
        true
    } else if a.lastping < b.lastping {
        false
    } else {
        key_le(&a.key, &b.key)
    }
}

/// Insertion sort into rank order; the result is a permutation of the
/// input.
fn sort_by_rank(v: &mut Vec<Subscriber>)
    ensures
        final(v)@.len() == old(v)@.len(),
        rank_sorted(final(v)@),
        final(v)@.to_multiset() == old(v)@.to_multiset(),
{
    let mut i: usize = 1;
    while i < v.len()
        invariant
            v@.len() == old(v)@.len(),
            v@.len() == 0 || (1 <= i <= v@.len() && rank_sorted(v@.take(i as int))),
            v@.to_multiset() == old(v)@.to_multiset(),
        decreases v@.len() - i,
    {
        proof {
            assert forall|p: int, q: int| 0 <= p < q < i implies rank_le(
                #[trigger] v@[p],
                #[trigger] v@[q],
            ) by {
                assert(v@.take(i as int)[p] == v@[p]);
                assert(v@.take(i as int)[q] == v@[q]);
                assert(rank_le(v@.take(i as int)[p], v@.take(i as int)[q]));
            }
        }
        let mut j: usize = i;
        while j > 0 && !rank_le_exec(&v[j - 1], &v[j])
            invariant
                v@.len() == old(v)@.len(),
                0 <= j <= i < v@.len(),
                v@.to_multiset() == old(v)@.to_multiset(),
                forall|p: int, q: int|
                    0 <= p < q <= i && q != j ==> rank_le(#[trigger] v@[p], #[trigger] v@[q]),
            decreases j,
        {
            let ghost s_pre = v@;
            let x = v[j - 1];
            let y = v[j];
            proof {
                lemma_rank_le_total(x, y);
                assert(rank_le(y, x));
            }
            v[j - 1] = y;
            v[j] = x;
            proof {
                broadcast use vstd::seq_lib::group_to_multiset_ensures;
                broadcast use vstd::seq_lib::to_multiset_update;
                broadcast use vstd::multiset::group_multiset_axioms;

                assert(s_pre[j - 1] == x);
                assert(s_pre.contains(x));
                assert(s_pre.update(j - 1, y)[j as int] == y);
                assert(s_pre.update(j - 1, y).contains(y)) by {
                    assert(s_pre.update(j - 1, y)[j as int] == y);
                }
                assert(v@ == s_pre.update(j - 1, y).update(j as int, x));
                assert(v@.to_multiset() =~= s_pre.to_multiset());
                let ghost t1 = v@;
                assert forall|p: int, q: int|
                    0 <= p < q <= i && q != j - 1 implies rank_le(
                    #[trigger] t1[p],
                    #[trigger] t1[q],
                ) by {
                    if p == j - 1 && q == j {
                        assert(t1[p] == y && t1[q] == x);
                    } else if q == j {
                        assert(t1[q] == x && x == s_pre[j - 1]);
                        assert(t1[p] == s_pre[p]);
                        assert(rank_le(s_pre[p], s_pre[j - 1]));
                    } else if p == j - 1 {
                        assert(t1[p] == y);
                        assert(t1[q] == s_pre[q]);
                        assert(rank_le(s_pre[j as int], s_pre[q]));
                    } else if p == j {
                        assert(t1[p] == x && x == s_pre[j - 1]);
                        assert(t1[q] == s_pre[q]);
                        assert(rank_le(s_pre[j - 1], s_pre[q]));
                    } else {
                        assert(t1[p] == s_pre[p] && t1[q] == s_pre[q]);
                    }
                }
            }
            j = j - 1;
        }
        proof {
            let t1 = v@;
            assert forall|p: int, q: int| 0 <= p < q <= i implies rank_le(
                #[trigger] t1[p],
                #[trigger] t1[q],
            ) by {
                if q == j {
                    assert(j > 0);
                    assert(rank_le(t1[j - 1], t1[j as int]));
                    if p < j - 1 {
                        assert(rank_le(t1[p], t1[j - 1]));
                        lemma_rank_le_trans(t1[p], t1[j - 1], t1[j as int]);
                    }
                }
            }
            assert forall|p: int, q: int|
                0 <= p < q < (i + 1) implies rank_le(
                #[trigger] t1.take(i + 1)[p],
                #[trigger] t1.take(i + 1)[q],
            ) by {
                assert(t1.take(i + 1)[p] == t1[p]);
                assert(t1.take(i + 1)[q] == t1[q]);
            }
            assert(rank_sorted(t1.take(i + 1)));
        }
        i = i + 1;
    }
    proof {
        if v@.len() == 0 {
            assert(rank_sorted(v@));
        } else {
            assert(v@.take(v@.len() as int) =~= v@);
        }
    }
}

} // verus!
