use vstd::prelude::*;
use crate::errors::Error;

verus! {

/// A slot value of an open-addressing table: it reports its key and whether
/// it marks a vacant slot. Occupied slots carry pairwise distinct keys and
/// are reachable by linear probing from their key's home position.
pub trait HashT: Sized {
    /// The slot's key, as a mathematical byte sequence.
    spec fn spec_key(&self) -> Seq<u8>;

    /// Whether this value marks a vacant slot.
    spec fn spec_unused(&self) -> bool;

    fn unused(&self) -> (b: bool)
        ensures
            b == self.spec_unused(),
    ;

    fn key(&self) -> (k: &[u8; 32])
        ensures
            k@ == self.spec_key(),
    ;
}

/// Fold of the hash over a byte sequence: a multiply-and-add accumulator in
/// wrapping 64-bit arithmetic. Any deterministic function would do; table
/// correctness depends only on determinism.
pub open spec fn hash_fold(s: Seq<u8>) -> u64
    decreases s.len(),
{
    if s.len() == 0 {
        0xcbf2_9ce4_8422_2325u64
    } else {
        vstd::wrapping::u64_specs::wrapping_add(
            vstd::wrapping::u64_specs::wrapping_mul(hash_fold(s.drop_last()), 0x0000_0100_0000_01b3u64),
            s.last() as u64,
        )
    }
}

/// The home position source of a key: its hash, before reduction modulo the
/// table length.
pub open spec fn spec_start(k: Seq<u8>) -> usize {
    hash_fold(k) as usize
}

/// Deterministic, well-distributed hash of a key into `[0, usize::MAX]`.
pub fn start(key: &[u8; 32]) -> (h: usize)
    ensures
        h == spec_start(key@),
{
    let mut acc: u64 = 0xcbf2_9ce4_8422_2325u64;
    let mut i: usize = 0;
    while i < 32
        invariant
            0 <= i <= 32,
            acc == hash_fold(key@.take(i as int)),
        decreases 32 - i,
    {
        acc = acc.wrapping_mul(0x0000_0100_0000_01b3u64).wrapping_add(key[i] as u64);
        i = i + 1;
        proof {
            assert(key@.take(i as int).drop_last() =~= key@.take(i as int - 1));
            assert(key@.take(i as int).last() == key@[i as int - 1]);
        }
    }
    proof {
        assert(key@.take(32) =~= key@);
    }
    acc as usize
}

/// Byte-wise equality of two keys.
pub fn key_eq(a: &[u8; 32], b: &[u8; 32]) -> (r: bool)
    ensures
        r == (a@ == b@),
{
    let mut i: usize = 0;
    while i < 32
        invariant
            0 <= i <= 32,
            forall|j: int| 0 <= j < i ==> a@[j] == b@[j],
        decreases 32 - i,
    {
        if a[i] != b[i] {
            return false;
        }
        i = i + 1;
    }
    proof {
        assert(a@ =~= b@);
    }
    true
}

/// The slot reached after `j` probe steps from `home` in a table of `n`
/// slots, walking forward with wraparound. Meaningful for `0 <= home < n`
/// and `0 <= j < n`.
pub open spec fn probe_slot(n: int, home: int, j: int) -> int {
    if home + j < n {
        home + j
    } else {
        home + j - n
    }
}

/// The number of probe steps from `home` to slot `i`, walking forward with
/// wraparound.
pub open spec fn probe_dist(n: int, home: int, i: int) -> int {
    if i >= home {
        i - home
    } else {
        i + n - home
    }
}

/// A key's home position in a table of `n` slots.
pub open spec fn home_of(k: Seq<u8>, n: int) -> int {
    spec_start(k) as int % n
}

/// Whether slot `i` of the table is occupied.
pub open spec fn slot_occ<V: HashT>(t: Seq<V>, i: int) -> bool {
    !t[i].spec_unused()
}

/// The first `d` probe slots for key `k` are all occupied.
pub open spec fn valid_probe_path<V: HashT>(t: Seq<V>, k: Seq<u8>, d: int) -> bool {
    forall|j: int|
        0 <= j < d ==> slot_occ(
            t,
            #[trigger] probe_slot(t.len() as int, home_of(k, t.len() as int), j),
        )
}

/// Well-formedness of an open-addressing table: occupied slots carry
/// pairwise distinct keys, and every occupied slot is reachable from its
/// key's home position through occupied slots only (no tombstones).
pub open spec fn wf<V: HashT>(t: Seq<V>) -> bool {
    &&& forall|i: int, j: int|
        0 <= i < t.len() && 0 <= j < t.len() && i != j && #[trigger] slot_occ(t, i)
            && #[trigger] slot_occ(t, j) ==> t[i].spec_key() != t[j].spec_key()
    &&& forall|i: int|
        0 <= i < t.len() && #[trigger] slot_occ(t, i) ==> valid_probe_path(
            t,
            t[i].spec_key(),
            probe_dist(t.len() as int, home_of(t[i].spec_key(), t.len() as int), i),
        )
}

/// Some occupied slot of the table holds key `k`.
pub open spec fn contains_key<V: HashT>(t: Seq<V>, k: Seq<u8>) -> bool {
    exists|i: int| 0 <= i < t.len() && #[trigger] slot_occ(t, i) && t[i].spec_key() == k
}

/// The index of the occupied slot holding key `k` (unique in a well-formed
/// table).
pub open spec fn slot_index_of<V: HashT>(t: Seq<V>, k: Seq<u8>) -> int {
    choose|i: int| 0 <= i < t.len() && #[trigger] slot_occ(t, i) && t[i].spec_key() == k
}

/// The value stored under key `k`.
pub open spec fn slot_value<V: HashT>(t: Seq<V>, k: Seq<u8>) -> V {
    t[slot_index_of(t, k)]
}

/// The table's contents as a map from key to stored value.
pub open spec fn contents<V: HashT>(t: Seq<V>) -> Map<Seq<u8>, V> {
    Map::new(|k: Seq<u8>| contains_key(t, k), |k: Seq<u8>| slot_value(t, k))
}

/// The number of occupied slots.
pub open spec fn occ_count<V: HashT>(t: Seq<V>) -> nat
    decreases t.len(),
{
    if t.len() == 0 {
        0
    } else {
        occ_count(t.drop_last()) + (if slot_occ(t, t.len() - 1) {
            1nat
        } else {
            0nat
        })
    }
}

pub proof fn lemma_occ_count_le_len<V: HashT>(t: Seq<V>)
    ensures
        occ_count(t) <= t.len(),
    decreases t.len(),
{
    if t.len() > 0 {
        lemma_occ_count_le_len(t.drop_last());
    }
}

pub proof fn lemma_occ_count_full<V: HashT>(t: Seq<V>)
    requires
        forall|i: int| 0 <= i < t.len() ==> #[trigger] slot_occ(t, i),
    ensures
        occ_count(t) == t.len(),
    decreases t.len(),
{
    if t.len() > 0 {
        assert forall|i: int| 0 <= i < t.drop_last().len() implies #[trigger] slot_occ(
            t.drop_last(),
            i,
        ) by {
            assert(t.drop_last()[i] == t[i]);
            assert(slot_occ(t, i));
        }
        lemma_occ_count_full(t.drop_last());
        assert(slot_occ(t, t.len() - 1));
    }
}

pub proof fn lemma_occ_count_empty<V: HashT>(t: Seq<V>)
    requires
        forall|i: int| 0 <= i < t.len() ==> !#[trigger] slot_occ(t, i),
    ensures
        occ_count(t) == 0,
    decreases t.len(),
{
    if t.len() > 0 {
        assert forall|i: int| 0 <= i < t.drop_last().len() implies !#[trigger] slot_occ(
            t.drop_last(),
            i,
        ) by {
            assert(t.drop_last()[i] == t[i]);
            assert(!slot_occ(t, i));
        }
        lemma_occ_count_empty(t.drop_last());
        assert(!slot_occ(t, t.len() - 1));
    }
}

pub proof fn lemma_occ_count_update<V: HashT>(t: Seq<V>, i: int, v: V)
    requires
        0 <= i < t.len(),
    ensures
        occ_count(t.update(i, v)) + (if slot_occ(t, i) {
            1nat
        } else {
            0nat
        }) == occ_count(t) + (if v.spec_unused() {
            0nat
        } else {
            1nat
        }),
    decreases t.len(),
{
    let t1 = t.update(i, v);
    if i == t.len() - 1 {
        assert(t1.drop_last() =~= t.drop_last());
        assert(t1[t1.len() - 1] == v);
    } else {
        assert(t1.drop_last() =~= t.drop_last().update(i, v));
        lemma_occ_count_update(t.drop_last(), i, v);
        assert(t.drop_last()[i] == t[i]);
        assert(t1[t1.len() - 1] == t[t.len() - 1]);
    }
}

pub proof fn lemma_occ_count_take_step<V: HashT>(t: Seq<V>, i: int)
    requires
        0 <= i < t.len(),
    ensures
        occ_count(t.take(i + 1)) == occ_count(t.take(i)) + (if slot_occ(t, i) {
            1nat
        } else {
            0nat
        }),
{
    assert(t.take(i + 1).drop_last() =~= t.take(i));
    assert(t.take(i + 1)[i] == t[i]);
}

pub proof fn lemma_occ_count_take_mono<V: HashT>(t: Seq<V>, i: int)
    requires
        0 <= i <= t.len(),
    ensures
        occ_count(t.take(i)) <= occ_count(t),
    decreases t.len() - i,
{
    if i == t.len() {
        assert(t.take(i) =~= t);
    } else {
        lemma_occ_count_take_step(t, i);
        lemma_occ_count_take_mono(t, i + 1);
    }
}

/// In a well-formed table, a key occupies at most one slot.
pub proof fn lemma_key_slot_unique<V: HashT>(t: Seq<V>, i: int, j: int)
    requires
        wf(t),
        0 <= i < t.len(),
        0 <= j < t.len(),
        slot_occ(t, i),
        slot_occ(t, j),
        t[i].spec_key() == t[j].spec_key(),
    ensures
        i == j,
{
}

/// An occupied slot is the slot its own key maps to in the contents map.
pub proof fn lemma_slot_value_of_occ<V: HashT>(t: Seq<V>, q: int)
    requires
        wf(t),
        0 <= q < t.len(),
        slot_occ(t, q),
    ensures
        contains_key(t, t[q].spec_key()),
        slot_value(t, t[q].spec_key()) == t[q],
{
    let k = t[q].spec_key();
    assert(contains_key(t, k));
    let si = slot_index_of(t, k);
    assert(0 <= si < t.len() && slot_occ(t, si) && t[si].spec_key() == k);
    lemma_key_slot_unique(t, si, q);
}

/// Linear probing from the key's home position. Returns the first slot that
/// is vacant (the insertion point: the key is then absent from the whole
/// table) or that already holds the key (the update point). Fails with
/// `NoSpace` only when every slot is occupied by another key.
pub fn find<V: HashT>(tbl: &Vec<V>, key: &[u8; 32]) -> (r: Result<usize, Error>)
    requires
        tbl@.len() > 0,
        wf(tbl@),
    ensures
        ({
            let t = tbl@;
            let n = t.len() as int;
            let home = home_of(key@, n);
            match r {
                Ok(pos) => {
                    &&& 0 <= pos < t.len()
                    &&& (t[pos as int].spec_unused() ==> {
                        &&& !contains_key(t, key@)
                        &&& probe_slot(n, home, probe_dist(n, home, pos as int)) == pos as int
                        &&& valid_probe_path(t, key@, probe_dist(n, home, pos as int))
                    })
                    &&& (!t[pos as int].spec_unused() ==> t[pos as int].spec_key() == key@)
                },
                Err(e) => {
                    &&& e == Error::NoSpace
                    &&& occ_count(t) == t.len()
                    &&& !contains_key(t, key@)
                },
            }
        }),
        contains_key(tbl@, key@) ==> r is Ok,
        occ_count(tbl@) < tbl@.len() ==> r is Ok,
{
    let n = tbl.len();
    let st = start(key);
    let off = st % n;
    proof {
        assert(0 <= off < n);
        assert(off as int == home_of(key@, n as int));
    }
    let mut j: usize = 0;
    while j < n
        invariant
            tbl@.len() == n,
            n > 0,
            wf(tbl@),
            0 <= off < n,
            off as int == home_of(key@, n as int),
            0 <= j <= n,
            forall|jj: int|
                0 <= jj < j ==> slot_occ(tbl@, #[trigger] probe_slot(n as int, off as int, jj))
                    && tbl@[probe_slot(n as int, off as int, jj)].spec_key() != key@,
        decreases n - j,
    {
        let pos = if j < n - off {
            off + j
        } else {
            j - (n - off)
        };
        proof {
            assert(pos as int == probe_slot(n as int, off as int, j as int));
        }
        let slot = &tbl[pos];
        if slot.unused() {
            proof {
                if contains_key(tbl@, key@) {
                    let t = tbl@;
                    let ni = n as int;
                    let home = off as int;
                    let q = choose|qi: int|
                        0 <= qi < t.len() && #[trigger] slot_occ(t, qi) && t[qi].spec_key()
                            == key@;
                    let dq = probe_dist(ni, home, q);
                    assert(0 <= dq < ni);
                    assert(probe_slot(ni, home, dq) == q);
                    assert(valid_probe_path(t, key@, dq));
                    if dq < j {
                        assert(slot_occ(t, probe_slot(ni, home, dq)));
                        assert(false);
                    } else if dq == j {
                        assert(false);
                    } else {
                        assert(slot_occ(t, probe_slot(ni, home, j as int)));
                        assert(false);
                    }
                }
            }
            return Ok(pos);
        }
        if key_eq(slot.key(), key) {
            return Ok(pos);
        }
        j = j + 1;
    }
    proof {
        let t = tbl@;
        let ni = n as int;
        let home = off as int;
        assert forall|i: int| 0 <= i < ni implies #[trigger] slot_occ(t, i) by {
            let d = probe_dist(ni, home, i);
            assert(0 <= d < ni);
            assert(probe_slot(ni, home, d) == i);
        }
        lemma_occ_count_full(t);
        if contains_key(t, key@) {
            let q = choose|qi: int|
                0 <= qi < t.len() && #[trigger] slot_occ(t, qi) && t[qi].spec_key() == key@;
            let dq = probe_dist(ni, home, q);
            assert(0 <= dq < ni);
            assert(probe_slot(ni, home, dq) == q);
            assert(false);
        }
    }
    Err(Error::NoSpace)
}

/// The conditions under which writing `v` at slot `pos` is legal: a vacant
/// value only over a vacant slot; an occupied value either over the vacant
/// slot that `find` chose for an absent key, or over the slot that already
/// holds the same key.
pub open spec fn place_ok<V: HashT>(t: Seq<V>, pos: int, v: V) -> bool {
    &&& 0 <= pos < t.len()
    &&& (v.spec_unused() ==> t[pos].spec_unused())
    &&& (!v.spec_unused() && t[pos].spec_unused() ==> !contains_key(t, v.spec_key())
        && valid_probe_path(
        t,
        v.spec_key(),
        probe_dist(t.len() as int, home_of(v.spec_key(), t.len() as int), pos),
    ))
    &&& (!v.spec_unused() && !t[pos].spec_unused() ==> t[pos].spec_key() == v.spec_key())
}

proof fn lemma_place_wf<V: HashT>(t0: Seq<V>, pos: int, v: V)
    requires
        wf(t0),
        place_ok(t0, pos, v),
    ensures
        wf(t0.update(pos, v)),
{
    let t1 = t0.update(pos, v);
    let n = t0.len() as int;
    assert forall|x: int| 0 <= x < n && slot_occ(t0, x) implies slot_occ(t1, x) by {
        if x != pos {
            assert(t1[x] == t0[x]);
        }
    }
    assert forall|i: int, j: int|
        0 <= i < n && 0 <= j < n && i != j && #[trigger] slot_occ(t1, i) && #[trigger] slot_occ(
            t1,
            j,
        ) implies t1[i].spec_key() != t1[j].spec_key() by {
        if i != pos && j != pos {
            assert(t1[i] == t0[i]);
            assert(t1[j] == t0[j]);
            assert(slot_occ(t0, i) && slot_occ(t0, j));
        } else {
            let o = if i == pos {
                j
            } else {
                i
            };
            assert(t1[o] == t0[o]);
            assert(slot_occ(t0, o));
            assert(t1[pos] == v);
            assert(!v.spec_unused());
            if t1[o].spec_key() == v.spec_key() {
                if t0[pos].spec_unused() {
                    assert(contains_key(t0, v.spec_key()));
                    assert(false);
                } else {
                    assert(slot_occ(t0, pos));
                    assert(t0[pos].spec_key() == v.spec_key());
                    assert(false);
                }
            }
        }
    }
    assert forall|i: int| 0 <= i < n && #[trigger] slot_occ(t1, i) implies valid_probe_path(
        t1,
        t1[i].spec_key(),
        probe_dist(n, home_of(t1[i].spec_key(), n), i),
    ) by {
        let k = t1[i].spec_key();
        let d = probe_dist(n, home_of(k, n), i);
        if i == pos {
            assert(t1[pos] == v);
            assert(k == v.spec_key());
            if t0[pos].spec_unused() {
                assert(valid_probe_path(t0, k, d));
            } else {
                assert(slot_occ(t0, pos));
                assert(t0[pos].spec_key() == k);
                assert(valid_probe_path(t0, k, d));
            }
        } else {
            assert(t1[i] == t0[i]);
            assert(slot_occ(t0, i));
            assert(valid_probe_path(t0, k, d));
        }
        assert forall|jj: int| 0 <= jj < d implies slot_occ(
            t1,
            #[trigger] probe_slot(t1.len() as int, home_of(k, t1.len() as int), jj),
        ) by {
            assert(slot_occ(t0, probe_slot(n, home_of(k, n), jj)));
            assert(0 <= home_of(k, n) < n);
            assert(0 <= probe_slot(n, home_of(k, n), jj) < n);
        }
    }
}

proof fn lemma_place_contents<V: HashT>(t0: Seq<V>, pos: int, v: V)
    requires
        wf(t0),
        place_ok(t0, pos, v),
    ensures
        !v.spec_unused() ==> contents(t0.update(pos, v)) == contents(t0).insert(v.spec_key(), v),
        v.spec_unused() ==> contents(t0.update(pos, v)) == contents(t0),
{
    let t1 = t0.update(pos, v);
    let n = t0.len() as int;
    if !v.spec_unused() {
        let k = v.spec_key();
        assert forall|k2: Seq<u8>| #[trigger] contains_key(t1, k2) implies (k2 == k
            || contains_key(t0, k2)) by {
            let q = choose|qi: int|
                0 <= qi < t1.len() && #[trigger] slot_occ(t1, qi) && t1[qi].spec_key() == k2;
            if q != pos {
                assert(t1[q] == t0[q]);
                assert(slot_occ(t0, q) && t0[q].spec_key() == k2);
                assert(contains_key(t0, k2));
            } else {
                assert(t1[pos] == v);
            }
        }
        assert(t1[pos] == v);
        assert(slot_occ(t1, pos) && t1[pos].spec_key() == k);
        assert(contains_key(t1, k));
        assert forall|k2: Seq<u8>| #[trigger] contains_key(t0, k2) implies contains_key(
            t1,
            k2,
        ) by {
            let q = choose|qi: int|
                0 <= qi < t0.len() && #[trigger] slot_occ(t0, qi) && t0[qi].spec_key() == k2;
            if q == pos {
                assert(!t0[pos].spec_unused());
                assert(t0[pos].spec_key() == k);
                assert(k2 == k);
            } else {
                assert(t1[q] == t0[q]);
                assert(slot_occ(t1, q) && t1[q].spec_key() == k2);
            }
        }
        assert forall|q: int|
            0 <= q < n && #[trigger] slot_occ(t1, q) && t1[q].spec_key() == k implies q
            == pos by {
            if q != pos {
                assert(t1[q] == t0[q]);
                assert(slot_occ(t0, q) && t0[q].spec_key() == k);
                if t0[pos].spec_unused() {
                    assert(contains_key(t0, k));
                    assert(false);
                } else {
                    assert(slot_occ(t0, pos));
                    assert(t0[pos].spec_key() == k);
                    assert(false);
                }
            }
        }
        let si = slot_index_of(t1, k);
        assert(0 <= si < t1.len() && slot_occ(t1, si) && t1[si].spec_key() == k);
        assert(slot_value(t1, k) == v);
        assert forall|k2: Seq<u8>| k2 != k && #[trigger] contains_key(t0, k2) implies slot_value(
            t1,
            k2,
        ) == slot_value(t0, k2) by {
            assert(contains_key(t1, k2));
            let q1 = slot_index_of(t1, k2);
            assert(0 <= q1 < t1.len() && slot_occ(t1, q1) && t1[q1].spec_key() == k2);
            let q0 = slot_index_of(t0, k2);
            assert(0 <= q0 < t0.len() && slot_occ(t0, q0) && t0[q0].spec_key() == k2);
            assert(q1 != pos);
            assert(t1[q1] == t0[q1]);
            assert(slot_occ(t0, q1));
            if q0 == pos {
                assert(!t0[pos].spec_unused());
                assert(t0[pos].spec_key() == k);
                assert(false);
            }
            lemma_key_slot_unique(t0, q0, q1);
        }
        assert(contents(t1) =~= contents(t0).insert(k, v));
    } else {
        assert(t0[pos].spec_unused());
        assert(t1[pos] == v);
        assert forall|k2: Seq<u8>| #[trigger] contains_key(t1, k2) implies contains_key(t0, k2)
            && slot_value(t1, k2) == slot_value(t0, k2) by {
            let q1 = slot_index_of(t1, k2);
            assert(0 <= q1 < t1.len() && slot_occ(t1, q1) && t1[q1].spec_key() == k2);
            assert(q1 != pos);
            assert(t1[q1] == t0[q1]);
            assert(slot_occ(t0, q1) && t0[q1].spec_key() == k2);
            assert(contains_key(t0, k2));
            let q0 = slot_index_of(t0, k2);
            assert(0 <= q0 < t0.len() && slot_occ(t0, q0) && t0[q0].spec_key() == k2);
            lemma_key_slot_unique(t0, q0, q1);
        }
        assert forall|k2: Seq<u8>| #[trigger] contains_key(t0, k2) implies contains_key(
            t1,
            k2,
        ) by {
            let q = choose|qi: int|
                0 <= qi < t0.len() && #[trigger] slot_occ(t0, qi) && t0[qi].spec_key() == k2;
            assert(q != pos);
            assert(t1[q] == t0[q]);
            assert(slot_occ(t1, q) && t1[q].spec_key() == k2);
        }
        assert(contents(t1) =~= contents(t0));
    }
}

/// Write `v` into slot `pos`, as chosen by `find`: the single primitive by
/// which the table's contents change. Preserves well-formedness and updates
/// the contents map by exactly one binding.
pub fn place<V: HashT>(tbl: &mut Vec<V>, pos: usize, v: V)
    requires
        wf(old(tbl)@),
        place_ok(old(tbl)@, pos as int, v),
    ensures
        final(tbl)@ == old(tbl)@.update(pos as int, v),
        wf(final(tbl)@),
        !v.spec_unused() ==> contents(final(tbl)@) == contents(old(tbl)@).insert(v.spec_key(), v),
        v.spec_unused() ==> contents(final(tbl)@) == contents(old(tbl)@),
        occ_count(final(tbl)@) + (if slot_occ(old(tbl)@, pos as int) {
            1nat
        } else {
            0nat
        }) == occ_count(old(tbl)@) + (if v.spec_unused() {
            0nat
        } else {
            1nat
        }),
{
    let ghost t0 = tbl@;
    tbl[pos] = v;
    proof {
        assert(tbl@ == t0.update(pos as int, v));
        lemma_place_wf(t0, pos as int, v);
        lemma_place_contents(t0, pos as int, v);
        lemma_occ_count_update(t0, pos as int, v);
    }
}

proof fn lemma_contents_take_step<V: HashT>(t: Seq<V>, i: int)
    requires
        wf(t),
        0 <= i < t.len(),
    ensures
        slot_occ(t, i) ==> contents(t.take(i + 1)) == contents(t.take(i)).insert(
            t[i].spec_key(),
            t[i],
        ),
        !slot_occ(t, i) ==> contents(t.take(i + 1)) == contents(t.take(i)),
{
    let p = t.take(i);
    let p1 = t.take(i + 1);
    assert forall|k2: Seq<u8>| #[trigger] contains_key(p1, k2) implies (contains_key(p, k2) || (
    slot_occ(t, i) && t[i].spec_key() == k2)) by {
        let q = choose|qi: int|
            0 <= qi < p1.len() && #[trigger] slot_occ(p1, qi) && p1[qi].spec_key() == k2;
        assert(p1[q] == t[q]);
        if q < i {
            assert(p[q] == t[q]);
            assert(slot_occ(p, q) && p[q].spec_key() == k2);
            assert(contains_key(p, k2));
        } else {
            assert(q == i);
            assert(slot_occ(t, i) && t[i].spec_key() == k2);
        }
    }
    assert forall|k2: Seq<u8>| #[trigger] contains_key(p, k2) implies contains_key(p1, k2) by {
        let q = choose|qi: int|
            0 <= qi < p.len() && #[trigger] slot_occ(p, qi) && p[qi].spec_key() == k2;
        assert(p[q] == t[q]);
        assert(p1[q] == t[q]);
        assert(slot_occ(p1, q) && p1[q].spec_key() == k2);
    }
    if slot_occ(t, i) {
        let k = t[i].spec_key();
        assert(p1[i] == t[i]);
        assert(slot_occ(p1, i) && p1[i].spec_key() == k);
        assert(contains_key(p1, k));
        assert forall|q: int|
            0 <= q < p1.len() && #[trigger] slot_occ(p1, q) && p1[q].spec_key() == k implies q
            == i by {
            assert(p1[q] == t[q]);
            assert(slot_occ(t, q));
            lemma_key_slot_unique(t, q, i);
        }
        let si = slot_index_of(p1, k);
        assert(0 <= si < p1.len() && slot_occ(p1, si) && p1[si].spec_key() == k);
        assert(slot_value(p1, k) == t[i]);
        assert forall|k2: Seq<u8>| k2 != k && #[trigger] contains_key(p, k2) implies slot_value(
            p1,
            k2,
        ) == slot_value(p, k2) by {
            assert(contains_key(p1, k2));
            let q1 = slot_index_of(p1, k2);
            assert(0 <= q1 < p1.len() && slot_occ(p1, q1) && p1[q1].spec_key() == k2);
            let q0 = slot_index_of(p, k2);
            assert(0 <= q0 < p.len() && slot_occ(p, q0) && p[q0].spec_key() == k2);
            assert(p1[q1] == t[q1]);
            assert(p[q0] == t[q0]);
            assert(slot_occ(t, q1) && slot_occ(t, q0));
            lemma_key_slot_unique(t, q0, q1);
        }
        assert(contents(p1) =~= contents(p).insert(k, t[i]));
    } else {
        assert forall|k2: Seq<u8>| #[trigger] contains_key(p1, k2) implies contains_key(p, k2)
            && slot_value(p1, k2) == slot_value(p, k2) by {
            let q1 = slot_index_of(p1, k2);
            assert(0 <= q1 < p1.len() && slot_occ(p1, q1) && p1[q1].spec_key() == k2);
            assert(p1[q1] == t[q1]);
            assert(p1[i] == t[i]);
            assert(q1 != i);
            assert(p[q1] == t[q1]);
            assert(slot_occ(p, q1) && p[q1].spec_key() == k2);
            assert(contains_key(p, k2));
            let q0 = slot_index_of(p, k2);
            assert(0 <= q0 < p.len() && slot_occ(p, q0) && p[q0].spec_key() == k2);
            assert(p[q0] == t[q0]);
            assert(slot_occ(t, q0) && slot_occ(t, q1));
            lemma_key_slot_unique(t, q0, q1);
        }
        assert(contents(p1) =~= contents(p));
    }
}

/// Copy every occupied slot of `src` into the larger, empty table `dst`,
/// re-probing each key from its home position. Contents and occupied count
/// are preserved exactly; used only for table growth.
pub fn migrate<V: HashT + Copy>(src: &Vec<V>, dst: &mut Vec<V>) -> (r: Result<(), Error>)
    requires
        wf(src@),
        old(dst)@.len() > 0,
        occ_count(src@) < old(dst)@.len(),
        forall|i: int| 0 <= i < old(dst)@.len() ==> old(dst)@[i].spec_unused(),
    ensures
        r is Ok,
        final(dst)@.len() == old(dst)@.len(),
        wf(final(dst)@),
        contents(final(dst)@) == contents(src@),
        occ_count(final(dst)@) == occ_count(src@),
{
    proof {
        assert forall|i: int| 0 <= i < old(dst)@.len() implies !slot_occ(old(dst)@, i) by {
            assert(old(dst)@[i].spec_unused());
        }
        lemma_occ_count_empty(old(dst)@);
        assert(wf(old(dst)@));
        assert forall|k2: Seq<u8>| !contains_key(old(dst)@, k2) by {
            if contains_key(old(dst)@, k2) {
                let q = choose|qi: int|
                    0 <= qi < old(dst)@.len() && #[trigger] slot_occ(old(dst)@, qi)
                        && old(dst)@[qi].spec_key() == k2;
                assert(false);
            }
        }
        assert forall|k2: Seq<u8>| !contains_key(src@.take(0), k2) by {
            if contains_key(src@.take(0), k2) {
                let q = choose|qi: int|
                    0 <= qi < src@.take(0).len() && #[trigger] slot_occ(src@.take(0), qi)
                        && src@.take(0)[qi].spec_key() == k2;
                assert(false);
            }
        }
        assert(contents(old(dst)@) =~= contents(src@.take(0)));
        assert(src@.take(0) =~= Seq::<V>::empty());
        lemma_occ_count_empty(src@.take(0));
    }
    let mut i: usize = 0;
    while i < src.len()
        invariant
            wf(src@),
            occ_count(src@) < dst@.len(),
            dst@.len() == old(dst)@.len(),
            0 <= i <= src@.len(),
            wf(dst@),
            contents(dst@) == contents(src@.take(i as int)),
            occ_count(dst@) == occ_count(src@.take(i as int)),
        decreases src@.len() - i,
    {
        let s = &src[i];
        if !s.unused() {
            proof {
                lemma_occ_count_take_mono(src@, i as int);
            }
            let r = find(dst, s.key());
            let pos = match r {
                Ok(p) => p,
                Err(e) => {
                    proof {
                        assert(false);
                    }
                    return Err(e);
                },
            };
            proof {
                let k = src@[i as int].spec_key();
                if contains_key(dst@, k) {
                    assert(contents(dst@).dom().contains(k));
                    assert(contains_key(src@.take(i as int), k));
                    let q = choose|qi: int|
                        0 <= qi < src@.take(i as int).len() && #[trigger] slot_occ(
                            src@.take(i as int),
                            qi,
                        ) && src@.take(i as int)[qi].spec_key() == k;
                    assert(src@.take(i as int)[q] == src@[q]);
                    assert(slot_occ(src@, q));
                    lemma_key_slot_unique(src@, q, i as int);
                    assert(false);
                }
                if !dst@[pos as int].spec_unused() {
                    assert(dst@[pos as int].spec_key() == k);
                    assert(slot_occ(dst@, pos as int));
                    assert(contains_key(dst@, k));
                    assert(false);
                }
                assert(place_ok(dst@, pos as int, src@[i as int]));
            }
            place(dst, pos, *s);
            proof {
                lemma_contents_take_step(src@, i as int);
                lemma_occ_count_take_step(src@, i as int);
            }
        } else {
            proof {
                lemma_contents_take_step(src@, i as int);
                lemma_occ_count_take_step(src@, i as int);
            }
        }
        i = i + 1;
    }
    proof {
        assert(src@.take(src@.len() as int) =~= src@);
    }
    Ok(())
}

} // verus!
