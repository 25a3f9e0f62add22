//! How much resting quantity an incoming order can trade against.
//!
//! The opposite side's levels are kept in a hash map, so their prices come
//! in no set order; the sums here are stated over any listing of them and
//! shown not to depend on which.
use crate::command::Side;
use crate::order_book::OrderBook;
use crate::price_level::PriceLevel;
use vstd::prelude::*;

verus! {

/// Whether an order of `side` at `price` trades against a resting `best`.
pub open spec fn crosses(side: Side, price: u64, best: u64) -> bool {
    match side {
        Side::Bid => price >= best,
        Side::Ask => price <= best,
    }
}

/// Whether the book holds an opposite order that an order of `side` at
/// `price` trades against.
pub open spec fn can_cross(book: &OrderBook, side: Side, price: u64) -> bool {
    match book.spec_best(side.spec_opposite()) {
        Some(b) => crosses(side, price, b),
        None => false,
    }
}

/// Total quantity of the levels among `prices` that an order of `side` at
/// `price` would trade against.
pub open spec fn crossing_qty(levels: Map<u64, PriceLevel>, prices: Seq<u64>, side: Side, price: u64) -> int
    decreases prices.len(),
{
    if prices.len() == 0 {
        0
    } else {
        crossing_qty(levels, prices.drop_last(), side, price) + (if crosses(side, price, prices.last()) {
            levels[prices.last()].total_qty as int
        } else {
            0
        })
    }
}

/// Taking one price out of the list takes its level's share out of the sum.
proof fn lemma_crossing_qty_remove(levels: Map<u64, PriceLevel>, s: Seq<u64>, side: Side, price: u64, m: int)
    requires
        0 <= m < s.len(),
    ensures
        crossing_qty(levels, s, side, price) == crossing_qty(levels, s.remove(m), side, price) + (if crosses(
            side,
            price,
            s[m],
        ) {
            levels[s[m]].total_qty as int
        } else {
            0
        }),
    decreases s.len(),
{
    if m < s.len() - 1 {
        assert(s.remove(m).drop_last() =~= s.drop_last().remove(m));
        assert(s.remove(m).last() == s.last());
        lemma_crossing_qty_remove(levels, s.drop_last(), side, price, m);
    } else {
        assert(s.remove(m) =~= s.drop_last());
    }
}

/// The crossing quantity does not depend on the order of the prices.
#[verifier::spinoff_prover]
pub proof fn lemma_crossing_qty_order(levels: Map<u64, PriceLevel>, s1: Seq<u64>, s2: Seq<u64>, side: Side, price: u64)
    requires
        s1.no_duplicates(),
        s2.no_duplicates(),
        s1.to_set() == s2.to_set(),
    ensures
        crossing_qty(levels, s1, side, price) == crossing_qty(levels, s2, side, price),
    decreases s1.len(),
{
    if s1.len() == 0 {
        s2.lemma_cardinality_of_empty_set_is_0();
        s1.lemma_cardinality_of_empty_set_is_0();
    } else {
        let x = s1.last();
        assert(s1.to_set().contains(x));
        assert(s2.to_set().contains(x));
        let m = choose|m: int| 0 <= m < s2.len() && s2[m] == x;
        let t1 = s1.drop_last();
        let t2 = s2.remove(m);
        assert(t1.no_duplicates());
        assert(t2.no_duplicates()) by {
            assert forall|i: int, j: int| 0 <= i < t2.len() && 0 <= j < t2.len() && i != j implies t2[i] != t2[j] by {
                let fi = if i < m { i } else { i + 1 };
                let fj = if j < m { j } else { j + 1 };
                assert(t2[i] == s2[fi] && t2[j] == s2[fj]);
            }
        }
        assert(t1.to_set() =~= t2.to_set()) by {
            assert forall|y: u64| t1.to_set().contains(y) implies t2.to_set().contains(y) by {
                let i = choose|i: int| 0 <= i < t1.len() && t1[i] == y;
                assert(s1[i] == y);
                assert(y != x);
                assert(s1.to_set().contains(y));
                let j = choose|j: int| 0 <= j < s2.len() && s2[j] == y;
                assert(j != m);
                let tj = if j < m { j } else { j - 1 };
                assert(t2[tj] == y);
            }
            assert forall|y: u64| t2.to_set().contains(y) implies t1.to_set().contains(y) by {
                let j = choose|j: int| 0 <= j < t2.len() && t2[j] == y;
                let sj = if j < m { j } else { j + 1 };
                assert(s2[sj] == y);
                assert(y != x);
                assert(s2.to_set().contains(y));
                let i = choose|i: int| 0 <= i < s1.len() && s1[i] == y;
                assert(i != s1.len() - 1);
                assert(t1[i] == y);
            }
        }
        lemma_crossing_qty_order(levels, t1, t2, side, price);
        lemma_crossing_qty_remove(levels, s2, side, price, m);
    }
}

/// Every finite set of prices is listed, each once, by some sequence.
#[verifier::spinoff_prover]
pub proof fn lemma_prices_listed(keys: Set<u64>)
    requires
        keys.finite(),
    ensures
        exists|s: Seq<u64>| s.no_duplicates() && s.to_set() == keys,
    decreases keys.len(),
{
    if keys.len() == 0 {
        assert(Seq::<u64>::empty().to_set() =~= keys);
        assert(Seq::<u64>::empty().no_duplicates());
    } else {
        let x = keys.choose();
        lemma_prices_listed(keys.remove(x));
        let t = choose|t: Seq<u64>| t.no_duplicates() && t.to_set() == keys.remove(x);
        let s = t.push(x);
        assert(!t.contains(x)) by {
            if t.contains(x) {
                assert(t.to_set().contains(x));
            }
        }
        assert(s.no_duplicates()) by {
            assert forall|i: int, j: int| 0 <= i < s.len() && 0 <= j < s.len() && i != j implies s[i] != s[j] by {
                if i < t.len() && j < t.len() {
                    assert(s[i] == t[i] && s[j] == t[j]);
                } else if i < t.len() {
                    assert(s[i] == t[i]);
                } else {
                    assert(s[j] == t[j]);
                }
            }
        }
        assert(s.to_set() =~= keys) by {
            assert forall|y: u64| s.to_set().contains(y) implies keys.contains(y) by {
                let i = choose|i: int| 0 <= i < s.len() && s[i] == y;
                if i < t.len() {
                    assert(t[i] == y);
                    assert(t.to_set().contains(y));
                }
            }
            assert forall|y: u64| keys.contains(y) implies s.to_set().contains(y) by {
                if y == x {
                    assert(s[t.len() as int] == x);
                } else {
                    assert(keys.remove(x).contains(y));
                    assert(t.to_set().contains(y));
                    let i = choose|i: int| 0 <= i < t.len() && t[i] == y;
                    assert(s[i] == y);
                }
            }
        }
    }
}

/// The prices of `keys` in some order, each once.
pub open spec fn listed(keys: Set<u64>) -> Seq<u64> {
    choose|s: Seq<u64>| s.no_duplicates() && s.to_set() == keys
}

/// Total quantity on the opposite side that an order of `side` at `price`
/// trades against.
pub open spec fn crossable(book: &OrderBook, side: Side, price: u64) -> int {
    let levels = book.levels(side.spec_opposite());
    crossing_qty(levels, listed(levels.dom()), side, price)
}

/// The crossable quantity is the crossing sum over any listing of the
/// opposite prices.
pub proof fn lemma_crossable(book: &OrderBook, side: Side, price: u64, s: Seq<u64>)
    requires
        book.levels(side.spec_opposite()).dom().finite(),
        s.no_duplicates(),
        s.to_set() == book.levels(side.spec_opposite()).dom(),
    ensures
        crossable(book, side, price) == crossing_qty(book.levels(side.spec_opposite()), s, side, price),
{
    let levels = book.levels(side.spec_opposite());
    lemma_prices_listed(levels.dom());
    lemma_crossing_qty_order(levels, listed(levels.dom()), s, side, price);
}

/// The crossing sum reads only the totals of the listed levels.
proof fn lemma_crossing_qty_frame(l1: Map<u64, PriceLevel>, l2: Map<u64, PriceLevel>, s: Seq<u64>, side: Side, price: u64)
    requires
        forall|k: int| 0 <= k < s.len() ==> l1[#[trigger] s[k]].total_qty == l2[s[k]].total_qty,
    ensures
        crossing_qty(l1, s, side, price) == crossing_qty(l2, s, side, price),
    decreases s.len(),
{
    if s.len() > 0 {
        let t = s.drop_last();
        assert forall|k: int| 0 <= k < t.len() implies l1[#[trigger] t[k]].total_qty == l2[t[k]].total_qty by {
            assert(t[k] == s[k]);
        }
        lemma_crossing_qty_frame(l1, l2, t, side, price);
    }
}

/// The crossing sum is never negative.
pub proof fn lemma_crossing_qty_nonneg(l: Map<u64, PriceLevel>, s: Seq<u64>, side: Side, price: u64)
    ensures
        crossing_qty(l, s, side, price) >= 0,
    decreases s.len(),
{
    if s.len() > 0 {
        lemma_crossing_qty_nonneg(l, s.drop_last(), side, price);
    }
}

/// A listing where no price crosses sums to zero.
proof fn lemma_crossing_qty_zero(l: Map<u64, PriceLevel>, s: Seq<u64>, side: Side, price: u64)
    requires
        forall|k: int| 0 <= k < s.len() ==> !crosses(side, price, #[trigger] s[k]),
    ensures
        crossing_qty(l, s, side, price) == 0,
    decreases s.len(),
{
    if s.len() > 0 {
        let t = s.drop_last();
        assert forall|k: int| 0 <= k < t.len() implies !crosses(side, price, #[trigger] t[k]) by {
            assert(t[k] == s[k]);
        }
        assert(!crosses(side, price, s[s.len() - 1]));
        lemma_crossing_qty_zero(l, t, side, price);
    }
}

/// Whatever the order crosses is worth zero when it does not cross the best
/// opposite price.
pub proof fn lemma_no_cross_no_liquidity(book: &OrderBook, side: Side, price: u64)
    requires
        book.best_ok(),
        !can_cross(book, side, price),
    ensures
        crossable(book, side, price) == 0,
{
    let levels = book.levels(side.spec_opposite());
    lemma_prices_listed(levels.dom());
    let s = listed(levels.dom());
    assert forall|k: int| 0 <= k < s.len() implies !crosses(side, price, #[trigger] s[k]) by {
        assert(s.to_set().contains(s[k]));
        assert(levels.dom().contains(s[k]));
    }
    lemma_crossing_qty_zero(levels, s, side, price);
}

/// One fill of `q` at crossing level `p`: the level's total drops by `q`,
/// or the level goes away when `q` was all of it. The crossable quantity
/// drops by `q`.
#[verifier::spinoff_prover]
pub proof fn lemma_crossable_step(b0: &OrderBook, b1: &OrderBook, side: Side, price: u64, p: u64, q: int)
    requires
        b0.best_ok(),
        b1.best_ok(),
        b0.levels(side.spec_opposite()).contains_key(p),
        crosses(side, price, p),
        ({
            let l0 = b0.levels(side.spec_opposite());
            let l1 = b1.levels(side.spec_opposite());
            ||| l1 == l0.remove(p) && l0[p].total_qty == q
            ||| l1 == l0.insert(p, l1[p]) && l1[p].total_qty == l0[p].total_qty - q
        }),
    ensures
        crossable(b1, side, price) == crossable(b0, side, price) - q,
{
    let l0 = b0.levels(side.spec_opposite());
    let l1 = b1.levels(side.spec_opposite());
    lemma_prices_listed(l0.dom());
    let s = listed(l0.dom());
    lemma_crossable(b0, side, price, s);
    assert(s.to_set().contains(p));
    let m = choose|m: int| 0 <= m < s.len() && s[m] == p;
    lemma_crossing_qty_remove(l0, s, side, price, m);
    let t = s.remove(m);
    assert forall|k: int| 0 <= k < t.len() implies #[trigger] t[k] != p by {
        let sk = if k < m { k } else { k + 1 };
        assert(t[k] == s[sk]);
    }
    if l1 == l0.remove(p) && l0[p].total_qty == q {
        assert(t.no_duplicates()) by {
            assert forall|i: int, j: int| 0 <= i < t.len() && 0 <= j < t.len() && i != j implies t[i] != t[j] by {
                let si = if i < m { i } else { i + 1 };
                let sj = if j < m { j } else { j + 1 };
                assert(t[i] == s[si] && t[j] == s[sj]);
            }
        }
        assert(t.to_set() =~= l1.dom()) by {
            assert forall|y: u64| t.to_set().contains(y) implies l1.dom().contains(y) by {
                let i = choose|i: int| 0 <= i < t.len() && t[i] == y;
                let si = if i < m { i } else { i + 1 };
                assert(s[si] == y);
                assert(s.to_set().contains(y));
            }
            assert forall|y: u64| l1.dom().contains(y) implies t.to_set().contains(y) by {
                assert(s.to_set().contains(y));
                let j = choose|j: int| 0 <= j < s.len() && s[j] == y;
                assert(j != m);
                let tj = if j < m { j } else { j - 1 };
                assert(t[tj] == y);
            }
        }
        lemma_crossable(b1, side, price, t);
        lemma_crossing_qty_frame(l0, l1, t, side, price);
    } else {
        assert(l1.dom() =~= l0.dom());
        lemma_crossable(b1, side, price, s);
        lemma_crossing_qty_remove(l1, s, side, price, m);
        lemma_crossing_qty_frame(l0, l1, t, side, price);
    }
}

/// The opposite side cannot fill `qty` of an order of `side` at `price`.
pub open spec fn fok_short(book: &OrderBook, side: Side, price: u64, qty: u32) -> bool {
    crossable(book, side, price) < qty
}

} // verus!
