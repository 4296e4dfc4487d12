//! The cell library, indexed by function.
use std::collections::HashMap;

use vstd::prelude::*;
use vstd::std_specs::hash::*;

use crate::cost::Cost;
use crate::names::{bytes_less, lemma_bytes_strict, lemma_bytes_weak};
use crate::perm::{
    invert, inverted, orderings, orderings_are_all, orders_first, perm_seqs, permutations,
    permute_tt, permuted,
};

verus! {

/// A cell of the library.
#[derive(Debug)]
pub struct CellSpec {
    pub name: String,
    /// Number of input pins.
    pub arity: usize,
    /// Function over the pins, pin `i` being variable `i`.
    pub tt: u64,
    pub area: Cost,
    pub delay: Cost,
}

/// A cell with an assignment of its pins.
#[derive(Clone, Copy, Debug)]
pub struct Entry {
    pub cell: usize,
    /// Cell pin `i` is fed by cut leaf `perm[i]`.
    pub perm: [u8; 4],
}

#[verifier::ext_equal]
pub struct EntryView {
    pub cell: usize,
    pub perm: Seq<u8>,
}

impl View for Entry {
    type V = EntryView;

    open spec fn view(&self) -> EntryView {
        EntryView { cell: self.cell, perm: self.perm@ }
    }
}

/// A cell has no pins or more than four.
#[derive(Clone, Copy, Debug, PartialEq, Eq, Structural)]
pub struct ArityError {
    pub cell: usize,
}

/// The best entry by area and the best by delay.
pub type Slot = (EntryView, EntryView);

/// Keyed by (number of leaves, truth table).
pub type Index = Map<(usize, u64), Slot>;

/// Lexicographic order of two costs and a permutation; false where it meets a cost that is
/// not a number.
pub open spec fn triple_less(
    a: (Cost, Cost, Seq<u8>),
    b: (Cost, Cost, Seq<u8>),
) -> bool {
    if a.0.same(b.0) {
        if a.1.same(b.1) {
            bytes_less(a.2, b.2)
        } else {
            a.1.below(b.1)
        }
    } else {
        a.0.below(b.0)
    }
}

/// By area, then delay, then permutation.
pub open spec fn area_key(cells: Seq<CellSpec>, e: EntryView) -> (Cost, Cost, Seq<u8>) {
    (cells[e.cell as int].area, cells[e.cell as int].delay, e.perm)
}

/// By delay, then area, then permutation.
pub open spec fn delay_key(cells: Seq<CellSpec>, e: EntryView) -> (Cost, Cost, Seq<u8>) {
    (cells[e.cell as int].delay, cells[e.cell as int].area, e.perm)
}

/// The index after one more entry: a better one takes the place of an earlier one.
pub open spec fn offered(m: Index, cells: Seq<CellSpec>, key: (usize, u64), e: EntryView) -> Index {
    if m.dom().contains(key) {
        let (ba, bd) = m[key];
        m.insert(
            key,
            (
                if triple_less(area_key(cells, e), area_key(cells, ba)) {
                    e
                } else {
                    ba
                },
                if triple_less(delay_key(cells, e), delay_key(cells, bd)) {
                    e
                } else {
                    bd
                },
            ),
        )
    } else {
        m.insert(key, (e, e))
    }
}

/// The key of cell `ci` under the order `p` of its pins: variable `i` is pin `p[i]`.
pub open spec fn variant_key(cells: Seq<CellSpec>, ci: int, p: Seq<u8>) -> (usize, u64) {
    (cells[ci].arity, permuted(cells[ci].tt, cells[ci].arity as nat, p))
}

/// The entry of cell `ci` under the order `p` of its pins: pin `i` is fed by the leaf that
/// the inverse order gives.
pub open spec fn variant_entry(cells: Seq<CellSpec>, ci: int, p: Seq<u8>) -> EntryView {
    EntryView { cell: ci as usize, perm: inverted(p, cells[ci].arity as nat) }
}

/// The index after the first `n` orders of the pins of cell `ci`.
pub open spec fn with_variants(m: Index, cells: Seq<CellSpec>, ci: int, n: nat) -> Index
    decreases n,
{
    if n == 0 {
        m
    } else {
        let p = orderings(cells[ci].arity as nat)[n - 1];
        offered(
            with_variants(m, cells, ci, (n - 1) as nat),
            cells,
            variant_key(cells, ci, p),
            variant_entry(cells, ci, p),
        )
    }
}

/// The index of the first `n` cells.
pub open spec fn indexed(cells: Seq<CellSpec>, n: nat) -> Index
    decreases n,
{
    if n == 0 {
        Map::empty()
    } else {
        with_variants(
            indexed(cells, (n - 1) as nat),
            cells,
            n - 1,
            orderings(cells[n - 1].arity as nat).len(),
        )
    }
}

/// The cell has one to four pins.
pub open spec fn arity_ok(c: CellSpec) -> bool {
    1 <= c.arity <= 4
}

/// The first `n` cells have one to four pins.
pub open spec fn arities_ok(cells: Seq<CellSpec>, n: int) -> bool {
    forall|i: int| 0 <= i < n ==> arity_ok(#[trigger] cells[i])
}

// ------------------------------------------------------------------------- laws

/// Entry `e` belongs under `key`: its cell, under some order of its pins, has the key's
/// function, and its pins are fed by the inverse order.
pub open spec fn belongs(cells: Seq<CellSpec>, key: (usize, u64), e: EntryView) -> bool {
    &&& e.cell < cells.len()
    &&& exists|p: Seq<u8>|
        #[trigger] orders_first(p, key.0 as nat) && key == variant_key(cells, e.cell as int, p) && e
            == variant_entry(cells, e.cell as int, p)
}

/// No cost is `Nan`.
pub open spec fn numeric(cells: Seq<CellSpec>) -> bool {
    forall|i: int|
        0 <= i < cells.len() ==> (#[trigger] cells[i]).area is Number && cells[i].delay is Number
}

/// No entry of the cell and order beats the slot of its key.
pub open spec fn beaten(m: Index, cells: Seq<CellSpec>, ci: int, p: Seq<u8>) -> bool {
    let key = variant_key(cells, ci, p);
    let e = variant_entry(cells, ci, p);
    &&& m.dom().contains(key)
    &&& !triple_less(area_key(cells, e), area_key(cells, m[key].0))
    &&& !triple_less(delay_key(cells, e), delay_key(cells, m[key].1))
}

proof fn lemma_triple_trans(
    a: (Cost, Cost, Seq<u8>),
    b: (Cost, Cost, Seq<u8>),
    c: (Cost, Cost, Seq<u8>),
)
    requires
        triple_less(a, b),
        triple_less(b, c),
        b.0 is Number,
        b.1 is Number,
    ensures
        triple_less(a, c),
{
    if bytes_less(a.2, b.2) {
        lemma_bytes_weak(a.2, b.2, c.2);
        lemma_bytes_strict(b.2, c.2);
    }
}

proof fn lemma_triple_irreflexive(a: (Cost, Cost, Seq<u8>))
    ensures
        !triple_less(a, a),
{
    lemma_bytes_strict(a.2, a.2);
}

/// Entries stay in their place when more are offered.
proof fn lemma_offer_ok(m: Index, cells: Seq<CellSpec>, ci: int, p: Seq<u8>)
    requires
        0 <= ci < cells.len(),
        cells.len() <= usize::MAX,
        orders_first(p, cells[ci].arity as nat),
        forall|key: (usize, u64)|
            #[trigger] m.dom().contains(key) ==> belongs(cells, key, m[key].0) && belongs(
                cells,
                key,
                m[key].1,
            ),
    ensures
        ({
            let t = offered(m, cells, variant_key(cells, ci, p), variant_entry(cells, ci, p));
            forall|key: (usize, u64)|
                #[trigger] t.dom().contains(key) ==> belongs(cells, key, t[key].0) && belongs(
                    cells,
                    key,
                    t[key].1,
                )
        }),
{
    let k0 = variant_key(cells, ci, p);
    let e = variant_entry(cells, ci, p);
    let t = offered(m, cells, k0, e);
    assert(belongs(cells, k0, e)) by {
        assert(e.cell as int == ci);
        assert(orders_first(p, k0.0 as nat));
    }
    assert forall|key: (usize, u64)| #[trigger] t.dom().contains(key) implies belongs(
        cells,
        key,
        t[key].0,
    ) && belongs(cells, key, t[key].1) by {
        if key != k0 || m.dom().contains(key) {
            assert(m.dom().contains(key));
        }
    }
}

proof fn lemma_variants_ok(m: Index, cells: Seq<CellSpec>, ci: int, n: nat)
    requires
        0 <= ci < cells.len(),
        cells.len() <= usize::MAX,
        arity_ok(cells[ci]),
        n <= orderings(cells[ci].arity as nat).len(),
        forall|key: (usize, u64)|
            #[trigger] m.dom().contains(key) ==> belongs(cells, key, m[key].0) && belongs(
                cells,
                key,
                m[key].1,
            ),
    ensures
        ({
            let t = with_variants(m, cells, ci, n);
            forall|key: (usize, u64)|
                #[trigger] t.dom().contains(key) ==> belongs(cells, key, t[key].0) && belongs(
                    cells,
                    key,
                    t[key].1,
                )
        }),
    decreases n,
{
    if n > 0 {
        lemma_variants_ok(m, cells, ci, (n - 1) as nat);
        let p = orderings(cells[ci].arity as nat)[n - 1];
        orderings_are_all(cells[ci].arity as nat, p);
        assert(orderings(cells[ci].arity as nat).contains(p));
        lemma_offer_ok(with_variants(m, cells, ci, (n - 1) as nat), cells, ci, p);
    }
}

/// Every entry of the index belongs under its key.
pub proof fn index_entries_match(cells: Seq<CellSpec>, n: nat)
    requires
        n <= cells.len() <= usize::MAX,
        arities_ok(cells, n as int),
    ensures
        forall|key: (usize, u64)|
            #[trigger] indexed(cells, n).dom().contains(key) ==> belongs(
                cells,
                key,
                indexed(cells, n)[key].0,
            ) && belongs(cells, key, indexed(cells, n)[key].1),
    decreases n,
{
    if n > 0 {
        index_entries_match(cells, (n - 1) as nat);
        assert(arity_ok(cells[n - 1]));
        lemma_variants_ok(
            indexed(cells, (n - 1) as nat),
            cells,
            n - 1,
            orderings(cells[n - 1].arity as nat).len(),
        );
    }
}

/// Offering more does not let an earlier entry beat its slot.
proof fn lemma_offer_beats(
    m: Index,
    cells: Seq<CellSpec>,
    ci: int,
    p: Seq<u8>,
    cj: int,
    q: Seq<u8>,
)
    requires
        0 <= ci < cells.len() <= usize::MAX,
        0 <= cj < cells.len(),
        numeric(cells),
        (ci == cj && p == q) || beaten(m, cells, cj, q),
    ensures
        beaten(
            offered(m, cells, variant_key(cells, ci, p), variant_entry(cells, ci, p)),
            cells,
            cj,
            q,
        ),
{
    let e = variant_entry(cells, ci, p);
    let x = variant_entry(cells, cj, q);
    let key = variant_key(cells, cj, q);
    assert(cells[ci].area is Number && cells[cj].area is Number);
    lemma_triple_irreflexive(area_key(cells, e));
    lemma_triple_irreflexive(delay_key(cells, e));
    if m.dom().contains(key) {
        let (ba, bd) = m[key];
        if triple_less(area_key(cells, x), area_key(cells, e)) && triple_less(
            area_key(cells, e),
            area_key(cells, ba),
        ) {
            lemma_triple_trans(area_key(cells, x), area_key(cells, e), area_key(cells, ba));
        }
        if triple_less(delay_key(cells, x), delay_key(cells, e)) && triple_less(
            delay_key(cells, e),
            delay_key(cells, bd),
        ) {
            lemma_triple_trans(delay_key(cells, x), delay_key(cells, e), delay_key(cells, bd));
        }
    }
}

proof fn lemma_variants_beat(
    m: Index,
    cells: Seq<CellSpec>,
    ci: int,
    n: nat,
    cj: int,
    q: Seq<u8>,
)
    requires
        0 <= ci < cells.len() <= usize::MAX,
        0 <= cj < cells.len(),
        numeric(cells),
        n <= orderings(cells[ci].arity as nat).len(),
        beaten(m, cells, cj, q) || (ci == cj && exists|i: int|
            0 <= i < n && #[trigger] orderings(cells[ci].arity as nat)[i] == q),
    ensures
        beaten(with_variants(m, cells, ci, n), cells, cj, q),
    decreases n,
{
    if n > 0 {
        let p = orderings(cells[ci].arity as nat)[n - 1];
        let prev = with_variants(m, cells, ci, (n - 1) as nat);
        if beaten(m, cells, cj, q) {
            lemma_variants_beat(m, cells, ci, (n - 1) as nat, cj, q);
        } else {
            let i = choose|i: int|
                0 <= i < n && #[trigger] orderings(cells[ci].arity as nat)[i] == q;
            if i < n - 1 {
                assert(orderings(cells[ci].arity as nat)[i] == q);
                lemma_variants_beat(m, cells, ci, (n - 1) as nat, cj, q);
            }
        }
        lemma_offer_beats(prev, cells, ci, p, cj, q);
    }
}

/// The index knows every order of the pins of every cell, and where all costs are numbers
/// its entries are the best: none of the same function beats them by (area, delay,
/// permutation) or by (delay, area, permutation).
pub proof fn index_entries_are_best(cells: Seq<CellSpec>, n: nat, ci: int, p: Seq<u8>)
    requires
        n <= cells.len() <= usize::MAX,
        arities_ok(cells, n as int),
        numeric(cells),
        0 <= ci < n,
        orders_first(p, cells[ci].arity as nat),
    ensures
        beaten(indexed(cells, n), cells, ci, p),
    decreases n,
{
    let m = indexed(cells, (n - 1) as nat);
    let len = orderings(cells[n - 1].arity as nat).len();
    if ci < n - 1 {
        index_entries_are_best(cells, (n - 1) as nat, ci, p);
    } else {
        assert(arity_ok(cells[ci]));
        orderings_are_all(cells[ci].arity as nat, p);
        let o = orderings(cells[ci].arity as nat);
        let i = choose|i: int| 0 <= i < o.len() && o[i] == p;
        assert(orderings(cells[ci].arity as nat)[i] == p);
    }
    lemma_variants_beat(m, cells, n - 1, len, ci, p);
}

// -------------------------------------------------------------------- execution

/// Index over all orders of the pins of all cells.
#[derive(Debug)]
pub struct MatchIndex {
    /// Per number of pins: truth table -> (best by area, best by delay).
    pub by_arity: Vec<HashMap<u64, (Entry, Entry)>>,
}

impl MatchIndex {
    /// A table for each number of pins.
    pub open spec fn wf(&self) -> bool {
        self.by_arity@.len() == 4
    }

    /// The slots by (number of pins, truth table).
    pub open spec fn slots(&self) -> Index {
        Map::new(
            |k: (usize, u64)|
                1 <= k.0 <= 4 && self.by_arity@[k.0 - 1]@.dom().contains(k.1),
            |k: (usize, u64)|
                (self.by_arity@[k.0 - 1]@[k.1].0@, self.by_arity@[k.0 - 1]@[k.1].1@),
        )
    }

    /// The best entry by area and the best by delay for a function of `arity` leaves.
    pub fn lookup(&self, arity: usize, tt: u64) -> (r: Option<(Entry, Entry)>)
        requires
            self.wf(),
        ensures
            match r {
                Some((ba, bd)) => self.slots().dom().contains((arity, tt)) && self.slots()[(
                    arity,
                    tt,
                )] == (ba@, bd@),
                None => !self.slots().dom().contains((arity, tt)),
            },
    {
        broadcast use group_hash_axioms;

        if arity == 0 || arity > 4 {
            return None;
        }
        match self.by_arity[arity - 1].get(&tt) {
            Some(s) => Some(*s),
            None => None,
        }
    }

    /// Number of functions that the index knows.
    pub fn len(&self) -> (n: usize)
        requires
            self.wf(),
        ensures
            n == self.count_upto(4),
    {
        broadcast use group_hash_axioms;

        let mut n: usize = 0;
        let mut i: usize = 0;
        while i < 4
            invariant
                i <= 4,
                self.wf(),
                n == self.count_upto(i as nat),
            decreases 4 - i,
        {
            n = n.saturating_add(self.by_arity[i].len());
            i = i + 1;
        }
        n
    }

    /// Number of functions of at most `n` leaves, as far as a machine word can tell.
    pub open spec fn count_upto(&self, n: nat) -> usize
        decreases n,
    {
        if n == 0 {
            0
        } else {
            let c = self.count_upto((n - 1) as nat) + self.by_arity@[n - 1]@.len();
            if c > usize::MAX {
                usize::MAX
            } else {
                c as usize
            }
        }
    }

    /// Offers an entry for a function of `arity` leaves.
    fn offer(&mut self, cells: &Vec<CellSpec>, arity: usize, tt: u64, e: Entry)
        requires
            old(self).wf(),
            1 <= arity <= 4,
            e.cell < cells@.len(),
            forall|key: (usize, u64)|
                #[trigger] old(self).slots().dom().contains(key)
                    ==> old(self).slots()[key].0.cell < cells@.len()
                    && old(self).slots()[key].1.cell < cells@.len(),
        ensures
            final(self).wf(),
            final(self).slots() == offered(old(self).slots(), cells@, (arity, tt), e@),
    {
        broadcast use group_hash_axioms;

        let ghost m0 = self.slots();
        let ghost maps0 = self.by_arity@;
        let slot: (Entry, Entry) = match self.lookup(arity, tt) {
            None => (e, e),
            Some((ba, bd)) => {
                let best_area: Entry = if area_less(cells, &e, &ba) {
                    e
                } else {
                    ba
                };
                let best_delay: Entry = if delay_less(cells, &e, &bd) {
                    e
                } else {
                    bd
                };
                (best_area, best_delay)
            },
        };
        self.by_arity[arity - 1].insert(tt, slot);
        proof {
            let m1 = self.slots();
            let want = offered(m0, cells@, (arity, tt), e@);
            assert forall|k: (usize, u64)| m1.dom().contains(k) == #[trigger] want.dom().contains(
                k,
            ) by {
                if 1 <= k.0 <= 4 && k.0 != arity {
                    assert(self.by_arity@[k.0 - 1] == maps0[k.0 - 1]);
                }
            }
            assert forall|k: (usize, u64)| #[trigger] want.dom().contains(k) implies m1[k]
                == want[k] by {
                if 1 <= k.0 <= 4 && k.0 != arity {
                    assert(self.by_arity@[k.0 - 1] == maps0[k.0 - 1]);
                }
            }
            assert(m1 =~= want);
        }
    }
}

/// Lexicographic order of permutations.
fn perm_less(a: &[u8; 4], b: &[u8; 4]) -> (r: bool)
    ensures
        r == bytes_less(a@, b@),
{
    let mut i: usize = 0;
    assert(a@.skip(0) =~= a@);
    assert(b@.skip(0) =~= b@);
    while i < 4
        invariant
            i <= 4,
            a@.len() == 4,
            b@.len() == 4,
            bytes_less(a@, b@) == bytes_less(a@.skip(i as int), b@.skip(i as int)),
        decreases 4 - i,
    {
        if a[i] != b[i] {
            return a[i] < b[i];
        }
        assert(a@.skip(i as int).drop_first() =~= a@.skip(i + 1));
        assert(b@.skip(i as int).drop_first() =~= b@.skip(i + 1));
        i = i + 1;
    }
    false
}

fn area_less(cells: &Vec<CellSpec>, x: &Entry, y: &Entry) -> (r: bool)
    requires
        x.cell < cells@.len(),
        y.cell < cells@.len(),
    ensures
        r == triple_less(area_key(cells@, x@), area_key(cells@, y@)),
{
    let a: &CellSpec = &cells[x.cell];
    let b: &CellSpec = &cells[y.cell];
    if a.area.equal(b.area) {
        if a.delay.equal(b.delay) {
            perm_less(&x.perm, &y.perm)
        } else {
            a.delay.less(b.delay)
        }
    } else {
        a.area.less(b.area)
    }
}

fn delay_less(cells: &Vec<CellSpec>, x: &Entry, y: &Entry) -> (r: bool)
    requires
        x.cell < cells@.len(),
        y.cell < cells@.len(),
    ensures
        r == triple_less(delay_key(cells@, x@), delay_key(cells@, y@)),
{
    let a: &CellSpec = &cells[x.cell];
    let b: &CellSpec = &cells[y.cell];
    if a.delay.equal(b.delay) {
        if a.area.equal(b.area) {
            perm_less(&x.perm, &y.perm)
        } else {
            a.area.less(b.area)
        }
    } else {
        a.delay.less(b.delay)
    }
}

/// Every slot names cells of the library.
spec fn cells_known(m: Index, n: nat) -> bool {
    forall|key: (usize, u64)|
        #[trigger] m.dom().contains(key) ==> m[key].0.cell < n && m[key].1.cell < n
}

/// Indexes every order of the pins of every cell, keeping per function the best entry by
/// area and the best by delay. A cell must have one to four pins.
pub fn build_index(cells: &Vec<CellSpec>) -> (r: Result<MatchIndex, ArityError>)
    ensures
        match r {
            Ok(ix) => arities_ok(cells@, cells@.len() as int) && ix.wf() && ix.slots() == indexed(
                cells@,
                cells@.len(),
            ),
            Err(e) => e.cell < cells@.len() && !arity_ok(cells@[e.cell as int]) && arities_ok(
                cells@,
                e.cell as int,
            ),
        },
{
    broadcast use group_hash_axioms;

    let mut by_arity: Vec<HashMap<u64, (Entry, Entry)>> = Vec::new();
    while by_arity.len() < 4
        invariant
            by_arity@.len() <= 4,
            forall|i: int|
                0 <= i < by_arity@.len() ==> (#[trigger] by_arity@[i])@ == Map::<
                    u64,
                    (Entry, Entry),
                >::empty(),
        decreases 4 - by_arity@.len(),
    {
        by_arity.push(HashMap::new());
    }
    let mut index: MatchIndex = MatchIndex { by_arity };
    assert(index.slots() =~= indexed(cells@, 0));
    let mut ci: usize = 0;
    while ci < cells.len()
        invariant
            ci <= cells@.len(),
            arities_ok(cells@, ci as int),
            index.wf(),
            index.slots() == indexed(cells@, ci as nat),
            cells_known(index.slots(), cells@.len()),
        decreases cells@.len() - ci,
    {
        let c: &CellSpec = &cells[ci];
        if c.arity == 0 || c.arity > 4 {
            return Err(ArityError { cell: ci });
        }
        let ps: Vec<[u8; 4]> = permutations(c.arity);
        let ghost m0 = index.slots();
        let mut i: usize = 0;
        while i < ps.len()
            invariant
                i <= ps@.len(),
                ci < cells@.len(),
                *c == cells@[ci as int],
                1 <= c.arity <= 4,
                perm_seqs(ps@) == orderings(c.arity as nat),
                index.wf(),
                index.slots() == with_variants(m0, cells@, ci as int, i as nat),
                cells_known(index.slots(), cells@.len()),
            decreases ps@.len() - i,
        {
            let p: [u8; 4] = ps[i];
            proof {
                assert(perm_seqs(ps@)[i as int] == p@);
                orderings_are_all(c.arity as nat, p@);
                assert(orderings(c.arity as nat).contains(p@));
            }
            let tt: u64 = permute_tt(c.tt, c.arity, &p);
            let perm: [u8; 4] = invert(&p, c.arity);
            index.offer(cells, c.arity, tt, Entry { cell: ci, perm });
            i = i + 1;
        }
        ci = ci + 1;
    }
    Ok(index)
}

} // verus!
