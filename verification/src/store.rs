//! The shared table of current prices, one slot per instrument code.
//!
//! The store is the only mutable state of a run. Within a tick every slot
//! is written at most once, by exactly one worker; the engine then takes a
//! full snapshot before any slot of the next tick is touched. The
//! order-independence of such disjoint single-slot writes is proved in
//! [`lemma_apply_updates_order_irrelevant`].

use vstd::prelude::*;

use crate::models::closes_of;
use crate::models::opens_of;
use crate::models::Stock;

verus! {

/// Current price (as IEEE-754 bit pattern) per instrument code; slot `c`
/// belongs to the instrument with wire code `c`.
#[derive(Clone, Debug)]
pub struct PriceStore {
    prices: Vec<u64>,
}

impl View for PriceStore {
    type V = Seq<u64>;

    closed spec fn view(&self) -> Seq<u64> {
        self.prices@
    }
}

impl PriceStore {
    /// A fresh store holding every instrument's open price, the tick-zero
    /// state of the simulation.
    pub fn init(stocks: &Vec<Stock>) -> (s: PriceStore)
        ensures
            s@ == opens_of(stocks@),
    {
        let n = stocks.len();
        let mut prices: Vec<u64> = Vec::new();
        let mut i: usize = 0;
        while i < n
            invariant
                i <= n,
                n == stocks@.len(),
                prices@ =~= opens_of(stocks@).take(i as int),
            decreases n - i,
        {
            prices.push(stocks[i].open_bits);
            i += 1;
        }
        proof {
            assert(prices@ =~= opens_of(stocks@));
        }
        PriceStore { prices }
    }

    /// The number of slots.
    pub fn len(&self) -> (n: usize)
        ensures
            n == self@.len(),
    {
        self.prices.len()
    }

    /// The price in slot `code`; `None` exactly for out-of-range codes,
    /// which a caller must treat as a broken run invariant.
    pub fn get(&self, code: usize) -> (r: Option<u64>)
        ensures
            r == (if (code as int) < self@.len() {
                Some(self@[code as int])
            } else {
                None::<u64>
            }),
    {
        if code < self.prices.len() {
            Some(self.prices[code])
        } else {
            None
        }
    }

    /// Writes one slot; the single mutation a worker performs per
    /// instrument per tick.
    pub fn set_price(&mut self, code: usize, bits: u64)
        requires
            code < old(self)@.len(),
        ensures
            final (self)@ == old(self)@.update(code as int, bits),
    {
        self.prices[code] = bits;
    }

    /// Commits one tick's updates in a single pass: slot `c` takes
    /// `updates[c]` where the model produced a value, and keeps its old
    /// price where the model is missing for that instrument.
    pub fn apply_tick(&mut self, updates: &Vec<Option<u64>>)
        requires
            updates@.len() == old(self)@.len(),
        ensures
            final (self)@.len() == old(self)@.len(),
            forall|c: int|
                0 <= c < final (self)@.len() ==> final (self)@[c] == (match updates@[c] {
                    Some(bits) => bits,
                    None => old(self)@[c],
                }),
    {
        let n = self.prices.len();
        let mut c: usize = 0;
        while c < n
            invariant
                c <= n,
                n == self@.len(),
                n == updates@.len(),
                self@.len() == old(self)@.len(),
                forall|k: int|
                    c <= k < self@.len() ==> #[trigger] self@[k] == old(self)@[k],
                forall|k: int|
                    0 <= k < c ==> #[trigger] self@[k] == (match updates@[k] {
                        Some(bits) => bits,
                        None => old(self)@[k],
                    }),
            decreases n - c,
        {
            match updates[c] {
                Some(bits) => {
                    self.prices[c] = bits;
                },
                None => {},
            }
            c += 1;
        }
    }

    /// Commits a run of single-slot writes in the order given, as one
    /// worker does for its partition range. When the slots are pairwise
    /// distinct — one writer per instrument — the outcome does not depend
    /// on the order; see [`lemma_apply_updates_order_irrelevant`].
    pub fn commit_updates(&mut self, updates: &Vec<(usize, u64)>)
        requires
            forall|i: int|
                0 <= i < updates@.len() ==> (#[trigger] updates@[i]).0 < old(self)@.len(),
        ensures
            final (self)@ == apply_updates(
                old(self)@,
                updates@.map_values(|u: (usize, u64)| (u.0 as int, u.1)),
            ),
    {
        let ghost all = updates@.map_values(|u: (usize, u64)| (u.0 as int, u.1));
        let n = updates.len();
        let mut i: usize = 0;
        proof {
            assert(all.skip(0) =~= all);
        }
        while i < n
            invariant
                i <= n,
                n == updates@.len(),
                all == updates@.map_values(|u: (usize, u64)| (u.0 as int, u.1)),
                self@.len() == old(self)@.len(),
                forall|k: int| 0 <= k < updates@.len() ==> (#[trigger] updates@[k]).0 < self@.len(),
                apply_updates(self@, all.skip(i as int)) == apply_updates(old(self)@, all),
            decreases n - i,
        {
            let ghost cur = self@;
            let ghost tail = all.skip(i as int);
            proof {
                assert(tail.len() > 0);
                assert(tail[0] == all[i as int]);
                assert(tail.drop_first() =~= all.skip(i + 1));
            }
            let (slot, bits) = updates[i];
            self.prices[slot] = bits;
            proof {
                assert(tail[0] == (slot as int, bits));
                assert(self@ == cur.update(tail[0].0, tail[0].1));
                assert(apply_updates(cur, tail) == apply_updates(self@, all.skip(i + 1)));
            }
            i += 1;
        }
        proof {
            assert(all.skip(n as int) =~= Seq::<(int, u64)>::empty());
        }
    }

    /// The convergence tick: every slot is forced to its instrument's close
    /// price exactly, whatever path the prices took before.
    pub fn converge(&mut self, stocks: &Vec<Stock>)
        requires
            stocks@.len() == old(self)@.len(),
        ensures
            final (self)@ == closes_of(stocks@),
    {
        let n = self.prices.len();
        let mut c: usize = 0;
        while c < n
            invariant
                c <= n,
                n == self@.len(),
                n == stocks@.len(),
                self@.len() == old(self)@.len(),
                forall|k: int| 0 <= k < c ==> #[trigger] self@[k] == stocks@[k].close_bits,
            decreases n - c,
        {
            self.prices[c] = stocks[c].close_bits;
            c += 1;
        }
        proof {
            assert(self@ =~= closes_of(stocks@));
        }
    }

    /// An immutable snapshot of the whole store in wire order: one
    /// `(code, price bits)` record per slot.
    pub fn snapshot_records(&self) -> (r: Vec<(u16, u64)>)
        requires
            self@.len() <= 0x10000,
        ensures
            r@.len() == self@.len(),
            forall|c: int|
                0 <= c < r@.len() ==> (#[trigger] r@[c]).0 == c as u16 && r@[c].1 == self@[c],
    {
        let n = self.prices.len();
        let mut r: Vec<(u16, u64)> = Vec::new();
        let mut c: usize = 0;
        while c < n
            invariant
                c <= n,
                n == self@.len(),
                n <= 0x10000,
                r@.len() == c,
                forall|k: int|
                    0 <= k < c ==> (#[trigger] r@[k]).0 == k as u16 && r@[k].1 == self@[k],
            decreases n - c,
        {
            r.push((c as u16, self.prices[c]));
            c += 1;
        }
        r
    }
}

/// One tick's worth of single-slot writes (as performed by
/// [`PriceStore::set_price`]), landing in sequence order.
pub open spec fn apply_updates(s: Seq<u64>, ups: Seq<(int, u64)>) -> Seq<u64>
    decreases ups.len(),
{
    if ups.len() == 0 {
        s
    } else {
        apply_updates(s.update(ups[0].0, ups[0].1), ups.drop_first())
    }
}

/// No two writes target the same slot.
pub open spec fn distinct_slots(ups: Seq<(int, u64)>) -> bool {
    forall|i: int, j: int|
        0 <= i < j < ups.len() ==> (#[trigger] ups[i]).0 != (#[trigger] ups[j]).0
}

/// Every write targets a slot of a store of `n` slots.
pub open spec fn slots_in_range(ups: Seq<(int, u64)>, n: int) -> bool {
    forall|i: int| 0 <= i < ups.len() ==> 0 <= (#[trigger] ups[i]).0 < n
}

/// Some write targets slot `c`.
pub open spec fn writes_slot(ups: Seq<(int, u64)>, c: int) -> bool {
    exists|i: int| 0 <= i < ups.len() && (#[trigger] ups[i]).0 == c
}

/// Writes to pairwise distinct slots land pointwise, whatever their order:
/// a written slot holds its written value, an untouched slot its old one.
pub proof fn lemma_apply_updates_pointwise(s: Seq<u64>, ups: Seq<(int, u64)>)
    requires
        slots_in_range(ups, s.len() as int),
        distinct_slots(ups),
    ensures
        apply_updates(s, ups).len() == s.len(),
        forall|c: int|
            0 <= c < s.len() && !writes_slot(ups, c) ==> apply_updates(s, ups)[c] == s[c],
        forall|i: int|
            0 <= i < ups.len() ==> apply_updates(s, ups)[(#[trigger] ups[i]).0] == ups[i].1,
    decreases ups.len(),
{
    if ups.len() > 0 {
        let c0 = ups[0].0;
        let v0 = ups[0].1;
        let s1 = s.update(c0, v0);
        let rest = ups.drop_first();
        assert(forall|i: int| 0 <= i < rest.len() ==> rest[i] == ups[i + 1]);
        assert(slots_in_range(rest, s1.len() as int));
        assert(distinct_slots(rest));
        lemma_apply_updates_pointwise(s1, rest);
        assert(apply_updates(s, ups) == apply_updates(s1, rest));
        assert forall|c: int|
            0 <= c < s.len() && !writes_slot(ups, c) implies apply_updates(s, ups)[c] == s[c] by {
            assert(!writes_slot(rest, c));
            assert(c != c0);
            assert(s1[c] == s[c]);
        }
        assert forall|i: int| 0 <= i < ups.len() implies apply_updates(s, ups)[(
        #[trigger] ups[i]).0] == ups[i].1 by {
            if i == 0 {
                assert(!writes_slot(rest, c0));
                assert(apply_updates(s1, rest)[c0] == s1[c0]);
                assert(s1[c0] == v0);
            } else {
                assert(rest[i - 1] == ups[i]);
                assert(apply_updates(s1, rest)[rest[i - 1].0] == rest[i - 1].1);
            }
        }
    }
}

/// The no-interleaving discipline of a tick: every instrument's slot is
/// written by exactly one worker, so the table after the tick does not
/// depend on the order in which the workers' writes land.
pub proof fn lemma_apply_updates_order_irrelevant(
    s: Seq<u64>,
    ups1: Seq<(int, u64)>,
    ups2: Seq<(int, u64)>,
)
    requires
        slots_in_range(ups1, s.len() as int),
        distinct_slots(ups1),
        ups2.to_multiset() == ups1.to_multiset(),
    ensures
        apply_updates(s, ups1) == apply_updates(s, ups2),
{
    broadcast use vstd::seq_lib::group_to_multiset_ensures;

    assert(ups1.no_duplicates()) by {
        assert forall|i: int, j: int|
            0 <= i < ups1.len() && 0 <= j < ups1.len() && i != j implies ups1[i] != ups1[j] by {
            if i < j {
                assert(ups1[i].0 != ups1[j].0);
            } else {
                assert(ups1[j].0 != ups1[i].0);
            }
        }
    }
    ups1.lemma_multiset_has_no_duplicates();
    assert(forall|x: (int, u64)|
        ups2.to_multiset().contains(x) ==> #[trigger] ups2.to_multiset().count(x) == 1);
    ups2.lemma_multiset_has_no_duplicates_conv();
    assert(forall|x: (int, u64)| ups1.contains(x) <==> ups2.contains(x)) by {
        assert(forall|x: (int, u64)|
            #[trigger] ups1.contains(x) <==> ups1.to_multiset().count(x) > 0);
        assert(forall|x: (int, u64)|
            #[trigger] ups2.contains(x) <==> ups2.to_multiset().count(x) > 0);
    }
    assert(distinct_slots(ups2)) by {
        assert forall|i: int, j: int|
            0 <= i < j < ups2.len() implies (#[trigger] ups2[i]).0 != (#[trigger] ups2[j]).0 by {
            if ups2[i].0 == ups2[j].0 {
                assert(ups2[i] != ups2[j]);
                assert(ups2.contains(ups2[i]));
                assert(ups2.contains(ups2[j]));
                assert(ups1.contains(ups2[i]));
                assert(ups1.contains(ups2[j]));
                let k = choose|k: int| 0 <= k < ups1.len() && ups1[k] == ups2[i];
                let l = choose|l: int| 0 <= l < ups1.len() && ups1[l] == ups2[j];
                assert(k != l);
                if k < l {
                    assert(ups1[k].0 != ups1[l].0);
                } else {
                    assert(ups1[l].0 != ups1[k].0);
                }
            }
        }
    }
    assert(slots_in_range(ups2, s.len() as int)) by {
        assert forall|i: int| 0 <= i < ups2.len() implies 0 <= (#[trigger] ups2[i]).0
            < s.len() by {
            assert(ups2.contains(ups2[i]));
            assert(ups1.contains(ups2[i]));
            let k = choose|k: int| 0 <= k < ups1.len() && ups1[k] == ups2[i];
            assert(0 <= ups1[k].0 < s.len());
        }
    }
    lemma_apply_updates_pointwise(s, ups1);
    lemma_apply_updates_pointwise(s, ups2);
    let r1 = apply_updates(s, ups1);
    let r2 = apply_updates(s, ups2);
    assert forall|c: int| 0 <= c < s.len() implies r1[c] == r2[c] by {
        assert(writes_slot(ups1, c) <==> writes_slot(ups2, c)) by {
            if writes_slot(ups1, c) {
                let i = choose|i: int| 0 <= i < ups1.len() && (#[trigger] ups1[i]).0 == c;
                assert(ups1.contains(ups1[i]));
                assert(ups2.contains(ups1[i]));
                let j = choose|j: int| 0 <= j < ups2.len() && ups2[j] == ups1[i];
                assert((ups2[j]).0 == c);
            }
            if writes_slot(ups2, c) {
                let i = choose|i: int| 0 <= i < ups2.len() && (#[trigger] ups2[i]).0 == c;
                assert(ups2.contains(ups2[i]));
                assert(ups1.contains(ups2[i]));
                let j = choose|j: int| 0 <= j < ups1.len() && ups1[j] == ups2[i];
                assert((ups1[j]).0 == c);
            }
        }
        if writes_slot(ups1, c) {
            let i = choose|i: int| 0 <= i < ups1.len() && (#[trigger] ups1[i]).0 == c;
            assert(r1[c] == ups1[i].1);
            assert(ups2.contains(ups1[i]));
            let j = choose|j: int| 0 <= j < ups2.len() && ups2[j] == ups1[i];
            assert(r2[(ups2[j]).0] == ups2[j].1);
            assert(r2[c] == ups1[i].1);
        } else {
            assert(r1[c] == s[c] && r2[c] == s[c]);
        }
    }
    assert(r1 =~= r2);
}

} // verus!
