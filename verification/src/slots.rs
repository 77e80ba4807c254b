//! The slot array of the map: open addressing with linear probing, kept in
//! Robin Hood order, so that a probe can stop as soon as it meets an entry
//! closer to its home slot than the probe is to its own.

use vstd::prelude::*;
use vstd::arithmetic::power2::{pow2, lemma_pow2_pos, lemma_pow2_strictly_increases, lemma2_to64};
use vstd::bits::{low_bits_mask, lemma_u64_low_bits_mask_is_mod};
use vstd::set_lib::{set_int_range, lemma_int_range, lemma_len_subset, lemma_map_size};

verus! {

/// A slot's content: where the entry sits in the table, and the full hash of its key.
#[derive(Clone, Copy, Debug)]
pub struct EntryIndex {
    pub index: usize,
    pub hash: u64,
}

impl EntryIndex {
    pub fn new(index: usize, hash: u64) -> (e: EntryIndex)
        ensures
            e.index == index,
            e.hash == hash,
    {
        EntryIndex { index, hash }
    }
}

/// A slot array of `c` slots, `c` a power of two no smaller than 8, with `mask` its low-bit mask.
pub open spec fn geom(c: int, mask: u64, exp: nat) -> bool {
    &&& 3 <= exp < 64
    &&& c == pow2(exp)
    &&& mask as int == c - 1
    &&& c <= usize::MAX
}

/// The home slot of a hash.
pub open spec fn home(h: u64, c: int) -> int {
    h as int % c
}

/// The slot after `s`, wrapping around.
pub open spec fn next(s: int, c: int) -> int {
    if s + 1 == c { 0 } else { s + 1 }
}

/// The slot before `s`, wrapping around.
pub open spec fn prev(s: int, c: int) -> int {
    if s == 0 { c - 1 } else { s - 1 }
}

/// How many steps forward, wrapping around, slot `s` lies from slot `a`.
pub open spec fn dist(s: int, a: int, c: int) -> int {
    if s >= a { s - a } else { s + c - a }
}

/// The slot `j` steps forward from slot `a`, wrapping around.
pub open spec fn probe(a: int, j: int, c: int) -> int {
    if a + j < c { a + j } else { a + j - c }
}

pub open spec fn occupied(slots: Seq<Option<EntryIndex>>, s: int) -> bool {
    0 <= s < slots.len() && slots[s] is Some
}

/// How far the entry in slot `s` sits from its home slot.
pub open spec fn sdist(slots: Seq<Option<EntryIndex>>, s: int) -> int {
    dist(s, home(slots[s].unwrap().hash, slots.len() as int), slots.len() as int)
}

/// The Robin Hood condition at slot `s`: an entry away from its home has a
/// predecessor that is at most one step less displaced than it.
pub open spec fn rh_at(slots: Seq<Option<EntryIndex>>, s: int) -> bool {
    occupied(slots, s) && sdist(slots, s) > 0 ==> {
        &&& occupied(slots, prev(s, slots.len() as int))
        &&& sdist(slots, prev(s, slots.len() as int)) + 1 >= sdist(slots, s)
    }
}

pub open spec fn rh_ok(slots: Seq<Option<EntryIndex>>) -> bool {
    forall|s: int| 0 <= s < slots.len() ==> #[trigger] rh_at(slots, s)
}

/// No two occupied slots name the same table position.
pub open spec fn index_injective(slots: Seq<Option<EntryIndex>>) -> bool {
    forall|u: int, v: int|
        #![trigger occupied(slots, u), occupied(slots, v)]
        occupied(slots, u) && occupied(slots, v) && u != v ==> slots[u].unwrap().index
            != slots[v].unwrap().index
}

/// Every occupied slot names a table position below `n`.
pub open spec fn indices_below(slots: Seq<Option<EntryIndex>>, n: int) -> bool {
    forall|s: int| #[trigger] occupied(slots, s) ==> slots[s].unwrap().index < n
}

/// `x` stands in some slot.
pub open spec fn holds(slots: Seq<Option<EntryIndex>>, x: EntryIndex) -> bool {
    exists|s: int| 0 <= s < slots.len() && slots[s] == Some(x)
}

pub proof fn lemma_geom(c: int, mask: u64, exp: nat)
    requires
        geom(c, mask, exp),
    ensures
        c >= 8,
        forall|h: u64| 0 <= #[trigger] home(h, c) < c,
{
    lemma2_to64();
    if exp > 3 {
        lemma_pow2_strictly_increases(3, exp);
    }
}

/// An entry `d` steps from its home has, at every step `j < d` of its probe
/// sequence, an entry displaced at least `j` from its own home.
pub proof fn lemma_rh_chain(slots: Seq<Option<EntryIndex>>, t: int, j: int)
    requires
        slots.len() >= 2,
        rh_ok(slots),
        occupied(slots, t),
        0 <= home(slots[t].unwrap().hash, slots.len() as int) < slots.len(),
        0 <= j <= sdist(slots, t),
    ensures
        ({
            let c = slots.len() as int;
            let a = home(slots[t].unwrap().hash, c);
            let q = probe(a, j, c);
            &&& occupied(slots, q)
            &&& sdist(slots, q) >= j
        }),
    decreases sdist(slots, t) - j,
{
    let c = slots.len() as int;
    let a = home(slots[t].unwrap().hash, c);
    if j < sdist(slots, t) {
        lemma_rh_chain(slots, t, j + 1);
        let q = probe(a, j + 1, c);
        assert(rh_at(slots, q));
        assert(prev(q, c) == probe(a, j, c));
    }
}

/// When no two entries share a home slot, every entry sits in its home slot:
/// shown for the entries from just after an empty slot `e` up to `s`.
pub proof fn lemma_distinct_homes_at_home(slots: Seq<Option<EntryIndex>>, e: int, s: int)
    requires
        slots.len() >= 2,
        rh_ok(slots),
        forall|h: u64| 0 <= #[trigger] home(h, slots.len() as int) < slots.len(),
        0 <= e < slots.len(),
        slots[e] is None,
        occupied(slots, s),
        forall|u: int, v: int|
            #![trigger occupied(slots, u), occupied(slots, v)]
            occupied(slots, u) && occupied(slots, v) && u != v ==> home(slots[u].unwrap().hash, slots.len() as int)
                != home(slots[v].unwrap().hash, slots.len() as int),
    ensures
        sdist(slots, s) == 0,
    decreases dist(s, e, slots.len() as int),
{
    let c = slots.len() as int;
    if sdist(slots, s) > 0 {
        assert(rh_at(slots, s));
        let p = prev(s, c);
        assert(p != e);
        lemma_distinct_homes_at_home(slots, e, p);
        assert(occupied(slots, p) && occupied(slots, s) && p != s);
    }
}

/// The slot array after Robin Hood insertion of `carried`, walking forward from
/// slot `p` for at most `fuel` steps: at an empty slot the carried entry is
/// placed; at a slot whose occupant is strictly closer to its home than the
/// carried entry is to its own, the two trade places and the walk goes on with
/// the occupant; otherwise the walk goes on with the same entry.
pub open spec fn rh_walk(slots: Seq<Option<EntryIndex>>, carried: EntryIndex, p: int, fuel: nat) -> Seq<Option<EntryIndex>>
    decreases fuel,
{
    let c = slots.len() as int;
    if fuel == 0 {
        slots
    } else if slots[p] is None {
        slots.update(p, Some(carried))
    } else {
        let occ = slots[p].unwrap();
        if dist(p, home(carried.hash, c), c) > dist(p, home(occ.hash, c), c) {
            rh_walk(slots.update(p, Some(carried)), occ, next(p, c), (fuel - 1) as nat)
        } else {
            rh_walk(slots, carried, next(p, c), (fuel - 1) as nat)
        }
    }
}

/// The slot array after Robin Hood insertion of `item`, starting at its home slot.
pub open spec fn rh_insert(slots: Seq<Option<EntryIndex>>, item: EntryIndex) -> Seq<Option<EntryIndex>> {
    rh_walk(slots, item, home(item.hash, slots.len() as int), slots.len())
}

/// The slot array after emptying the hole at slot `p` by shifting back, for at
/// most `fuel` steps, each following entry that stands away from its home.
pub open spec fn rh_shift(slots: Seq<Option<EntryIndex>>, p: int, fuel: nat) -> Seq<Option<EntryIndex>>
    decreases fuel,
{
    let c = slots.len() as int;
    let q = next(p, c);
    if fuel == 0 || slots[q] is None || sdist(slots, q) == 0 {
        slots
    } else {
        rh_shift(slots.update(p, slots[q]).update(q, None), q, (fuel - 1) as nat)
    }
}

/// The slot array after removing the entry in slot `s` with backward shifting.
pub open spec fn rh_delete(slots: Seq<Option<EntryIndex>>, s: int) -> Seq<Option<EntryIndex>> {
    rh_shift(slots.update(s, None), s, slots.len())
}

/// The slot array after placing, in slot order, the entries of the first `k`
/// slots of `old` into `new`.
pub open spec fn rh_rebuild(old: Seq<Option<EntryIndex>>, new: Seq<Option<EntryIndex>>, k: int) -> Seq<Option<EntryIndex>>
    decreases k,
{
    if k <= 0 {
        new
    } else {
        let before = rh_rebuild(old, new, k - 1);
        match old[k - 1] {
            Some(x) => rh_insert(before, x),
            None => before,
        }
    }
}

/// The slot array with every slot naming table position `from` renamed to name `to`.
pub open spec fn rename_index(slots: Seq<Option<EntryIndex>>, from: int, to: int) -> Seq<Option<EntryIndex>> {
    Seq::new(
        slots.len(),
        |j: int|
            if slots[j] is Some && slots[j].unwrap().index == from {
                Some(EntryIndex { index: to as usize, hash: slots[j].unwrap().hash })
            } else {
                slots[j]
            },
    )
}

/// The slot that names table position `i`.
pub open spec fn slot_of(slots: Seq<Option<EntryIndex>>, i: int) -> int {
    choose|s: int| #[trigger] occupied(slots, s) && slots[s].unwrap().index == i
}

/// `n` empty slots.
pub open spec fn no_slots(n: nat) -> Seq<Option<EntryIndex>> {
    Seq::new(n, |i: int| None)
}

/// The set of occupied slots.
pub open spec fn occ_set(slots: Seq<Option<EntryIndex>>) -> Set<int> {
    Set::new(|s: int| occupied(slots, s))
}

/// The occupied slots name distinct table positions below `n`, none of them
/// `missing`, so there are at most as many of them as such positions.
pub proof fn lemma_occ_bound(slots: Seq<Option<EntryIndex>>, n: int, missing: int)
    requires
        index_injective(slots),
        indices_below(slots, n),
        0 <= missing < n,
        forall|s: int| #[trigger] occupied(slots, s) ==> slots[s].unwrap().index != missing,
    ensures
        occ_set(slots).finite(),
        occ_set(slots).len() <= n - 1,
{
    let occ = occ_set(slots);
    let f = |s: int| slots[s].unwrap().index as int;
    assert(occ.subset_of(set_int_range(0, slots.len() as int)));
    lemma_int_range(0, slots.len() as int);
    lemma_len_subset(occ, set_int_range(0, slots.len() as int));
    assert(vstd::relations::injective_on(f, occ)) by {
        assert forall|u: int, v: int| occ.contains(u) && occ.contains(v) && f(u) == f(v) implies u == v by {
            if u != v {
                assert(occupied(slots, u) && occupied(slots, v));
            }
        }
    }
    lemma_map_size(occ, occ.map(f), f);
    let target = set_int_range(0, n).remove(missing);
    assert(occ.map(f).subset_of(target)) by {
        assert forall|i: int| occ.map(f).contains(i) implies target.contains(i) by {
            let s = choose|s: int| occ.contains(s) && f(s) == i;
            assert(occupied(slots, s));
        }
    }
    lemma_int_range(0, n);
    lemma_len_subset(occ.map(f), target);
}

/// Like `lemma_occ_bound`, with no position left out.
pub proof fn lemma_occ_bound_full(slots: Seq<Option<EntryIndex>>, n: int)
    requires
        index_injective(slots),
        indices_below(slots, n),
        0 <= n,
    ensures
        occ_set(slots).finite(),
        occ_set(slots).len() <= n,
{
    assert(indices_below(slots, n + 1));
    lemma_occ_bound(slots, n + 1, n);
}

/// When fewer than `c - 1` slots are occupied, some slot other than `hole` is empty.
pub proof fn lemma_empty_slot(slots: Seq<Option<EntryIndex>>, hole: int) -> (e: int)
    requires
        occ_set(slots).finite(),
        occ_set(slots).len() + 1 < slots.len(),
    ensures
        0 <= e < slots.len(),
        e != hole,
        slots[e] is None,
{
    let c = slots.len() as int;
    if forall|e: int| 0 <= e < c && e != hole ==> slots[e] is Some {
        let occ = occ_set(slots);
        lemma_int_range(0, c);
        let rest = set_int_range(0, c).remove(hole);
        assert(rest.subset_of(occ));
        lemma_len_subset(rest, occ);
        assert(false);
    }
    choose|e: int| 0 <= e < c && e != hole && slots[e] is None
}

/// The home slot of `hash` in a slot array of `cap` slots whose low-bit mask is `mask`.
pub fn home_slot(hash: u64, mask: u64, cap: usize, Ghost(exp): Ghost<nat>) -> (a: usize)
    requires
        geom(cap as int, mask, exp),
    ensures
        a as int == home(hash, cap as int),
        a < cap,
{
    proof {
        lemma_geom(cap as int, mask, exp);
        lemma_u64_low_bits_mask_is_mod(hash, exp);
        lemma_pow2_pos(exp);
        assert(low_bits_mask(exp) as u64 == mask);
        assert(pow2(exp) as u64 == cap as u64);
    }
    (hash & mask) as usize
}

/// The slot after `p`.
pub fn next_slot(p: usize, cap: usize) -> (q: usize)
    requires
        p < cap,
    ensures
        q as int == next(p as int, cap as int),
{
    if p + 1 == cap { 0 } else { p + 1 }
}

/// How far slot `p` lies from slot `a`.
pub fn slot_distance(p: usize, a: usize, cap: usize) -> (d: usize)
    requires
        p < cap,
        a < cap,
    ensures
        d as int == dist(p as int, a as int, cap as int),
{
    if p >= a { p - a } else { (cap - a) + p }
}

/// Places `item` in the slot array, Robin Hood style: walking forward from the
/// item's home, whenever the carried entry is farther from its home than the
/// slot's occupant, the two trade places; the walk ends at the first empty slot.
pub fn rh_place(slots: &mut Vec<Option<EntryIndex>>, mask: u64, Ghost(exp): Ghost<nat>, item: EntryIndex, Ghost(n): Ghost<int>)
    requires
        geom(old(slots)@.len() as int, mask, exp),
        rh_ok(old(slots)@),
        index_injective(old(slots)@),
        indices_below(old(slots)@, n),
        0 <= item.index < n,
        n < old(slots)@.len(),
        forall|s: int| #[trigger] occupied(old(slots)@, s) ==> old(slots)@[s].unwrap().index != item.index,
    ensures
        final(slots)@.len() == old(slots)@.len(),
        rh_ok(final(slots)@),
        index_injective(final(slots)@),
        indices_below(final(slots)@, n),
        forall|x: EntryIndex| #[trigger] holds(final(slots)@, x) <==> (holds(old(slots)@, x) || x == item),
        final(slots)@ == rh_insert(old(slots)@, item),
{
    let cap = slots.len();
    let ghost c = cap as int;
    proof {
        lemma_geom(c, mask, exp);
    }
    proof {
        lemma_occ_bound(slots@, n, item.index as int);
    }
    let ghost e = lemma_empty_slot(slots@, -1);
    let mut carried = item;
    let mut p = home_slot(item.hash, mask, cap, Ghost(exp));
    let ghost mut fuel: nat = c as nat;
    loop
        invariant
            rh_walk(slots@, carried, p as int, fuel) == rh_insert(old(slots)@, item),
            fuel >= dist(e, p as int, c) + 1,
            slots@.len() == c,
            c == old(slots)@.len(),
            cap == c,
            c >= 8,
            forall|h: u64| 0 <= #[trigger] home(h, c) < c,
            geom(c, mask, exp),
            p < cap,
            0 <= e < c,
            slots@[e] is None,
            rh_ok(slots@),
            index_injective(slots@),
            indices_below(slots@, n),
            0 <= carried.index < n,
            forall|s: int| #[trigger] occupied(slots@, s) ==> slots@[s].unwrap().index != carried.index,
            forall|x: EntryIndex| #[trigger] holds(slots@, x) || x == carried <==> (holds(old(slots)@, x) || x == item),
            ({
                let cd = dist(p as int, home(carried.hash, c), c);
                cd == 0 || (occupied(slots@, prev(p as int, c)) && sdist(slots@, prev(p as int, c)) + 1 >= cd)
            }),
        decreases dist(e, p as int, c),
    {
        let ghost before = slots@;
        match slots[p] {
            None => {
                slots.set(p, Some(carried));
                proof {
                    assert forall|s: int| 0 <= s < c implies #[trigger] rh_at(slots@, s) by {
                        assert(rh_at(before, s));
                        if s == next(p as int, c) {
                            assert(prev(s, c) == p);
                        } else if s != p {
                            assert(prev(s, c) != p);
                        }
                    }
                    assert forall|u: int, v: int|
                        #![trigger occupied(slots@, u), occupied(slots@, v)]
                        occupied(slots@, u) && occupied(slots@, v) && u != v implies slots@[u].unwrap().index
                            != slots@[v].unwrap().index by {
                        if u != p && v != p {
                            assert(occupied(before, u) && occupied(before, v));
                        } else if u == p {
                            assert(occupied(before, v));
                        } else {
                            assert(occupied(before, u));
                        }
                    }
                    assert forall|s: int| #[trigger] occupied(slots@, s) implies slots@[s].unwrap().index < n by {
                        if s != p {
                            assert(occupied(before, s));
                        }
                    }
                    assert forall|x: EntryIndex| #[trigger] holds(slots@, x) <==> (holds(old(slots)@, x) || x == item) by {
                        if holds(slots@, x) {
                            let s = choose|s: int| 0 <= s < c && slots@[s] == Some(x);
                            if s != p {
                                assert(before[s] == Some(x));
                                assert(holds(before, x));
                            }
                        }
                        if holds(before, x) {
                            let s = choose|s: int| 0 <= s < c && before[s] == Some(x);
                            assert(s != p);
                            assert(slots@[s] == Some(x));
                        }
                        if x == carried {
                            assert(slots@[p as int] == Some(x));
                        }
                        assert(holds(before, x) || x == carried <==> (holds(old(slots)@, x) || x == item));
                    }
                }
                return;
            }
            Some(occ) => {
                let a_c = home_slot(carried.hash, mask, cap, Ghost(exp));
                let a_o = home_slot(occ.hash, mask, cap, Ghost(exp));
                let cd = slot_distance(p, a_c, cap);
                let od = slot_distance(p, a_o, cap);
                let ghost old_carried = carried;
                if cd > od {
                    slots.set(p, Some(carried));
                    carried = occ;
                    proof {
                        assert(occupied(before, p as int));
                        assert forall|s: int| 0 <= s < c implies #[trigger] rh_at(slots@, s) by {
                            assert(rh_at(before, s));
                            if s == next(p as int, c) {
                                assert(prev(s, c) == p);
                            } else if s != p {
                                assert(prev(s, c) != p);
                            }
                        }
                        assert forall|u: int, v: int|
                            #![trigger occupied(slots@, u), occupied(slots@, v)]
                            occupied(slots@, u) && occupied(slots@, v) && u != v implies slots@[u].unwrap().index
                                != slots@[v].unwrap().index by {
                            assert(occupied(before, u) && occupied(before, v));
                        }
                        assert forall|s: int| #[trigger] occupied(slots@, s) implies slots@[s].unwrap().index < n by {
                            assert(occupied(before, s));
                        }
                        assert forall|s: int| #[trigger] occupied(slots@, s) implies slots@[s].unwrap().index != carried.index by {
                            if s != p {
                                assert(occupied(before, s));
                                assert(occupied(before, p as int));
                            }
                        }
                        assert forall|x: EntryIndex| #[trigger] holds(slots@, x) || x == carried <==> (holds(old(slots)@, x) || x == item) by {
                            if holds(slots@, x) {
                                let s = choose|s: int| 0 <= s < c && slots@[s] == Some(x);
                                if s != p {
                                    assert(before[s] == Some(x));
                                    assert(holds(before, x));
                                }
                            }
                            if holds(before, x) {
                                let s = choose|s: int| 0 <= s < c && before[s] == Some(x);
                                if s != p {
                                    assert(slots@[s] == Some(x));
                                }
                            }
                            if x == old_carried {
                                assert(slots@[p as int] == Some(x));
                            }
                            if x == carried {
                                assert(before[p as int] == Some(x));
                            }
                            assert(holds(before, x) || x == old_carried <==> (holds(old(slots)@, x) || x == item));
                        }
                    }
                } else {
                    proof {
                        assert(occupied(slots@, p as int));
                    }
                }
                proof {
                    fuel = (fuel - 1) as nat;
                }
                p = next_slot(p, cap);
            }
        }
    }
}

/// Empties slot `s`, then shifts each following entry that stands away from its
/// home back by one slot, up to the first empty slot or entry at its home, so
/// that no probe sequence is cut short by the emptied slot.
pub fn rh_remove(slots: &mut Vec<Option<EntryIndex>>, s: usize, mask: u64, Ghost(exp): Ghost<nat>, Ghost(n): Ghost<int>)
    requires
        geom(old(slots)@.len() as int, mask, exp),
        rh_ok(old(slots)@),
        occupied(old(slots)@, s as int),
        index_injective(old(slots)@.update(s as int, None)),
        indices_below(old(slots)@.update(s as int, None), n),
        0 <= n,
        n + 1 < old(slots)@.len(),
    ensures
        final(slots)@.len() == old(slots)@.len(),
        rh_ok(final(slots)@),
        index_injective(final(slots)@),
        indices_below(final(slots)@, n),
        forall|x: EntryIndex| #[trigger] holds(final(slots)@, x) <==> holds(old(slots)@.update(s as int, None), x),
        final(slots)@ == rh_delete(old(slots)@, s as int),
{
    let cap = slots.len();
    let ghost c = cap as int;
    let ghost start = old(slots)@.update(s as int, None);
    proof {
        lemma_geom(c, mask, exp);
    }
    let ghost hd: int = sdist(slots@, s as int);
    slots.set(s, None);
    proof {
        assert(slots@ =~= start);
        lemma_occ_bound_full(slots@, n);
    }
    let ghost e = lemma_empty_slot(slots@, s as int);
    proof {
        let pre = old(slots)@;
        assert forall|u: int| 0 <= u < c && u != next(s as int, c) implies #[trigger] rh_at(slots@, u) by {
            assert(rh_at(pre, u));
            if u != s {
                assert(prev(u, c) != s);
            }
        }
        assert(rh_at(pre, next(s as int, c)));
        assert(prev(next(s as int, c), c) == s);
        assert(rh_at(pre, s as int));
    }
    let mut p = s;
    let ghost mut fuel: nat = c as nat;
    loop
        invariant
            rh_shift(slots@, p as int, fuel) == rh_delete(old(slots)@, s as int),
            fuel >= dist(e, p as int, c) + 1,
            slots@.len() == c,
            c == old(slots)@.len(),
            cap == c,
            c >= 8,
            forall|h: u64| 0 <= #[trigger] home(h, c) < c,
            geom(c, mask, exp),
            p < cap,
            slots@[p as int] is None,
            0 <= e < c,
            e != p,
            slots@[e] is None,
            forall|u: int| 0 <= u < c && u != next(p as int, c) ==> #[trigger] rh_at(slots@, u),
            occupied(slots@, next(p as int, c)) && sdist(slots@, next(p as int, c)) > 0 ==> sdist(slots@, next(p as int, c)) <= hd + 1,
            hd >= 0,
            hd == 0 || (occupied(slots@, prev(p as int, c)) && sdist(slots@, prev(p as int, c)) + 1 >= hd),
            index_injective(slots@),
            indices_below(slots@, n),
            forall|x: EntryIndex| #[trigger] holds(slots@, x) <==> holds(start, x),
            start == old(slots)@.update(s as int, None),
        decreases dist(e, p as int, c),
    {
        let q = next_slot(p, cap);
        match slots[q] {
            None => {
                proof {
                    assert(rh_at(slots@, q as int));
                }
                return;
            }
            Some(x) => {
                let ax = home_slot(x.hash, mask, cap, Ghost(exp));
                let dq = slot_distance(q, ax, cap);
                if dq == 0 {
                    proof {
                        assert(rh_at(slots@, q as int));
                    }
                    return;
                }
                let ghost before = slots@;
                slots.set(p, Some(x));
                slots.set(q, None);
                proof {
                    assert(prev(q as int, c) == p);
                    assert(occupied(before, q as int));
                    assert(sdist(slots@, p as int) == dq - 1);
                    assert forall|u: int| 0 <= u < c && u != next(q as int, c) implies #[trigger] rh_at(slots@, u) by {
                        if u != p && u != q {
                            assert(rh_at(before, u));
                            assert(prev(u, c) != p);
                            assert(prev(u, c) != q);
                        }
                    }
                    assert(rh_at(before, next(q as int, c)));
                    assert(prev(next(q as int, c), c) == q);
                    assert forall|u: int, v: int|
                        #![trigger occupied(slots@, u), occupied(slots@, v)]
                        occupied(slots@, u) && occupied(slots@, v) && u != v implies slots@[u].unwrap().index
                            != slots@[v].unwrap().index by {
                        let u2 = if u == p { q as int } else { u };
                        let v2 = if v == p { q as int } else { v };
                        assert(occupied(before, u2) && occupied(before, v2));
                    }
                    assert forall|t: int| #[trigger] occupied(slots@, t) implies slots@[t].unwrap().index < n by {
                        let t2 = if t == p { q as int } else { t };
                        assert(occupied(before, t2));
                    }
                    assert forall|y: EntryIndex| #[trigger] holds(slots@, y) <==> holds(start, y) by {
                        if holds(slots@, y) {
                            let t = choose|t: int| 0 <= t < c && slots@[t] == Some(y);
                            let t2 = if t == p { q as int } else { t };
                            assert(before[t2] == Some(y));
                            assert(holds(before, y));
                        }
                        if holds(before, y) {
                            let t = choose|t: int| 0 <= t < c && before[t] == Some(y);
                            let t2 = if t == q { p as int } else { t };
                            assert(slots@[t2] == Some(y));
                        }
                    }
                    hd = dq as int;
                    fuel = (fuel - 1) as nat;
                }
                p = q;
            }
        }
    }
}

/// A slot array of `n` empty slots.
pub fn empty_slots(n: usize) -> (v: Vec<Option<EntryIndex>>)
    ensures
        v@.len() == n,
        forall|s: int| 0 <= s < n ==> v@[s] is None,
        v@ == no_slots(n as nat),
{
    let mut v: Vec<Option<EntryIndex>> = Vec::new();
    let mut i: usize = 0;
    while i < n
        invariant
            i <= n,
            v@.len() == i,
            forall|s: int| 0 <= s < i ==> v@[s] is None,
        decreases n - i,
    {
        v.push(None);
        i = i + 1;
    }
    assert(v@ =~= no_slots(n as nat));
    v
}

} // verus!
