//! What holds of the book across calls: volume as orders arrive, how a fill
//! spreads over the resting orders, and how orders group into levels.

use crate::orderbook::{
    distinct_prices, excess, filled, has_level, left_at, lemma_placed_keeps_level,
    lemma_placed_side_ok, lemma_volume_prefix_monotone, matched, placed, side_ok, volume,
    BidOrAsk, Limit, Order,
};
use crate::price::Price;
use vstd::prelude::*;

verus! {

/// Resting one more order at a level adds its size to the level's volume, so
/// a level's volume is the sum of the sizes of all orders rested there.
pub proof fn law_add_adds_volume(orders: Seq<Order>, order: Order)
    ensures
        volume(orders.push(order)) == volume(orders) + order.spec_size(),
{
    assert(orders.push(order).drop_last() =~= orders);
}

/// The volume of the first `i + 1` orders is that of the first `i` and the
/// size of the order at `i`.
proof fn lemma_volume_step(orders: Seq<Order>, i: int)
    requires
        0 <= i < orders.len(),
    ensures
        volume(orders.take(i + 1)) == volume(orders.take(i)) + orders[i].spec_size(),
{
    assert(orders.take(i + 1).drop_last() =~= orders.take(i));
}

/// A market order of exactly the level's volume empties every resting order
/// and is itself filled.
pub proof fn law_exact_fill(before: Seq<Order>, after: Seq<Order>, m: nat)
    requires
        filled(before, after, m),
        m == volume(before),
    ensures
        forall|i: int| 0 <= i < after.len() ==> (#[trigger] after[i]).spec_size() == 0,
        excess(m, volume(before)) == 0,
{
    assert forall|i: int| 0 <= i < after.len() implies (#[trigger] after[i]).spec_size() == 0 by {
        lemma_volume_step(before, i);
        lemma_volume_prefix_monotone(before, i + 1, before.len() as int);
        assert(before.take(before.len() as int) =~= before);
        assert(left_at(before, m, i) >= before[i].spec_size());
    }
}

/// A market order smaller than the first resting order is filled from that
/// order alone, which keeps the difference; the others stay as they were.
pub proof fn law_small_fill(before: Seq<Order>, after: Seq<Order>, m: nat)
    requires
        filled(before, after, m),
        before.len() > 0,
        m < before[0].spec_size(),
    ensures
        after[0].spec_size() == before[0].spec_size() - m,
        forall|j: int| 1 <= j < after.len() ==> (#[trigger] after[j]).spec_size() == before[j].spec_size(),
        excess(m, volume(before)) == 0,
{
    lemma_volume_step(before, 0);
    assert(before.take(0) =~= Seq::<Order>::empty());
    assert(matched(before[0], after[0], left_at(before, m, 0)));
    assert forall|j: int| 1 <= j < after.len() implies (#[trigger] after[j]).spec_size() == before[j].spec_size() by {
        lemma_volume_prefix_monotone(before, 1, j);
        assert(matched(before[j], after[j], left_at(before, m, j)));
    }
    lemma_volume_prefix_monotone(before, 1, before.len() as int);
    assert(before.take(before.len() as int) =~= before);
}

/// A market order larger than the first resting order and smaller than the
/// first two together empties the first and takes the rest from the second;
/// the others stay as they were.
pub proof fn law_spill_fill(before: Seq<Order>, after: Seq<Order>, m: nat)
    requires
        filled(before, after, m),
        before.len() >= 2,
        before[0].spec_size() < m < before[0].spec_size() + before[1].spec_size(),
    ensures
        after[0].spec_size() == 0,
        after[1].spec_size() == before[0].spec_size() + before[1].spec_size() - m,
        forall|j: int| 2 <= j < after.len() ==> (#[trigger] after[j]).spec_size() == before[j].spec_size(),
        excess(m, volume(before)) == 0,
{
    assert(before.take(0) =~= Seq::<Order>::empty());
    lemma_volume_step(before, 0);
    lemma_volume_step(before, 1);
    assert(matched(before[0], after[0], left_at(before, m, 0)));
    assert(matched(before[1], after[1], left_at(before, m, 1)));
    assert forall|j: int| 2 <= j < after.len() implies (#[trigger] after[j]).spec_size() == before[j].spec_size() by {
        lemma_volume_prefix_monotone(before, 2, j);
        assert(matched(before[j], after[j], left_at(before, m, j)));
    }
    lemma_volume_prefix_monotone(before, 2, before.len() as int);
    assert(before.take(before.len() as int) =~= before);
}

/// Two orders of one side rested at one price share one level, behind the
/// orders already there and in the order they came; no other level has that
/// price.
pub proof fn law_same_price_one_level(
    l0: Seq<Limit>,
    l1: Seq<Limit>,
    l2: Seq<Limit>,
    side: BidOrAsk,
    price: Price,
    o1: Order,
    o2: Order,
)
    requires
        side_ok(l0, side),
        o1.spec_side() == side,
        o2.spec_side() == side,
        placed(l0, l1, price, o1),
        placed(l1, l2, price, o2),
    ensures
        distinct_prices(l2),
        has_level(l0, price) ==> exists|k: int|
            0 <= k < l0.len() && l0[k].spec_price() == price && (#[trigger] l2[k]).spec_price() == price
                && l2[k].spec_orders() == l0[k].spec_orders().push(o1).push(o2),
        !has_level(l0, price) ==> {
            &&& l2.len() == l0.len() + 1
            &&& l2.last().spec_price() == price
            &&& l2.last().spec_orders() == seq![o1, o2]
        },
{
    lemma_placed_side_ok(l0, l1, price, o1);
    lemma_placed_side_ok(l1, l2, price, o2);
    if has_level(l0, price) {
        let k = choose|k: int| 0 <= k < l0.len() && (#[trigger] l0[k]).spec_price() == price;
        assert(l1[k].spec_price() == price);
        assert(l2[k].spec_price() == price);
    } else {
        let n = l0.len() as int;
        assert(l1.last().spec_price() == price);
        assert(has_level(l1, price));
        assert(l2[n] == l2.last());
        assert(l2.last().spec_orders() =~= seq![o1, o2]);
    }
}

/// Two orders of one side rested at two different prices stand in two
/// different levels, one at each price.
pub proof fn law_two_prices_two_levels(
    l0: Seq<Limit>,
    l1: Seq<Limit>,
    l2: Seq<Limit>,
    side: BidOrAsk,
    price_a: Price,
    price_b: Price,
    o1: Order,
    o2: Order,
)
    requires
        side_ok(l0, side),
        o1.spec_side() == side,
        o2.spec_side() == side,
        price_a != price_b,
        placed(l0, l1, price_a, o1),
        placed(l1, l2, price_b, o2),
    ensures
        distinct_prices(l2),
        has_level(l2, price_a),
        has_level(l2, price_b),
{
    lemma_placed_side_ok(l0, l1, price_a, o1);
    lemma_placed_side_ok(l1, l2, price_b, o2);
    lemma_placed_keeps_level(l0, l1, price_a, o1, price_a);
    lemma_placed_keeps_level(l1, l2, price_b, o2, price_a);
    lemma_placed_keeps_level(l1, l2, price_b, o2, price_b);
}

} // verus!
