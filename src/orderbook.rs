//! Orders, price levels and the book that holds one level per price on each
//! side.

use crate::price::Price;
use vstd::prelude::*;

verus! {

/// The side of an order: a bid buys, an ask sells.
#[derive(Clone, Copy, Debug, PartialEq, Eq, Structural)]
pub enum BidOrAsk {
    Bid,
    Ask,
}

/// An order: its side and the quantity that is still to be matched, in
/// whole units of the traded asset.
#[derive(Clone, Copy, Debug)]
pub struct Order {
    size: u64,
    bid_or_ask: BidOrAsk,
}

/// `a` less `b`, or zero where `b` is the larger.
pub open spec fn excess(a: nat, b: nat) -> nat {
    if a > b {
        (a - b) as nat
    } else {
        0
    }
}

/// The sum of the sizes of `orders`.
pub open spec fn volume(orders: Seq<Order>) -> nat
    decreases orders.len(),
{
    if orders.len() == 0 {
        0
    } else {
        volume(orders.drop_last()) + orders.last().spec_size()
    }
}

/// What a market order of size `m` has left when it reaches the order at
/// index `i` of `orders`: all before it are matched first.
pub open spec fn left_at(orders: Seq<Order>, m: nat, i: int) -> nat {
    excess(m, volume(orders.take(i)))
}

/// `after` is the resting order `before` once a market order with `r` left
/// has been matched against it: the smaller of the two sizes is taken off.
pub open spec fn matched(before: Order, after: Order, r: nat) -> bool {
    &&& after.spec_side() == before.spec_side()
    &&& after.spec_size() == before.spec_size() - (if r < before.spec_size() {
        r
    } else {
        before.spec_size()
    })
}

/// `after` is what the resting orders `before` become when a market order of
/// size `m` is filled against them in their order.
pub open spec fn filled(before: Seq<Order>, after: Seq<Order>, m: nat) -> bool {
    &&& after.len() == before.len()
    &&& forall|i: int| 0 <= i < before.len() ==> matched(before[i], #[trigger] after[i], left_at(before, m, i))
}

impl Order {
    pub closed spec fn spec_size(&self) -> nat {
        self.size as nat
    }

    pub closed spec fn spec_side(&self) -> BidOrAsk {
        self.bid_or_ask
    }

    /// An order of `size` units on side `bid_or_ask`.
    pub fn new(bid_or_ask: BidOrAsk, size: u64) -> (r: Order)
        ensures
            r.spec_side() == bid_or_ask,
            r.spec_size() == size,
    {
        Order { size, bid_or_ask }
    }

    /// Whether nothing of the order is left to match.
    pub fn is_filled(&self) -> (r: bool)
        ensures
            r == (self.spec_size() == 0),
    {
        self.size == 0
    }

    /// The quantity still to be matched.
    pub fn size(&self) -> (r: u64)
        ensures
            r == self.spec_size(),
    {
        self.size
    }

    /// The side of the order.
    pub fn bid_or_ask(&self) -> (r: BidOrAsk)
        ensures
            r == self.spec_side(),
    {
        self.bid_or_ask
    }
}

/// The volume of a prefix grows with the prefix.
pub proof fn lemma_volume_prefix_monotone(orders: Seq<Order>, i: int, j: int)
    requires
        0 <= i <= j <= orders.len(),
    ensures
        volume(orders.take(i)) <= volume(orders.take(j)),
    decreases j - i,
{
    if i < j {
        lemma_volume_prefix_monotone(orders, i, j - 1);
        assert(orders.take(j).drop_last() =~= orders.take(j - 1));
    }
}

/// The orders resting at one price, in the order they arrived.
#[derive(Debug)]
pub struct Limit {
    price: Price,
    orders: Vec<Order>,
}

impl Limit {
    pub closed spec fn spec_price(&self) -> Price {
        self.price
    }

    pub closed spec fn spec_orders(&self) -> Seq<Order> {
        self.orders@
    }

    /// An empty level at `price`.
    pub fn new(price: Price) -> (r: Limit)
        ensures
            r.spec_price() == price,
            r.spec_orders() == Seq::<Order>::empty(),
    {
        Limit { price, orders: Vec::new() }
    }

    /// The price of the level.
    pub fn price(&self) -> (r: Price)
        ensures
            r == self.spec_price(),
    {
        self.price
    }

    /// The resting orders, oldest first.
    pub fn orders(&self) -> (r: &Vec<Order>)
        ensures
            r@ == self.spec_orders(),
    {
        &self.orders
    }

    /// Puts `order` behind the orders already resting here.
    pub fn add_order(&mut self, order: Order)
        ensures
            final(self).spec_price() == old(self).spec_price(),
            final(self).spec_orders() == old(self).spec_orders().push(order),
    {
        self.orders.push(order);
    }

    /// The sum of the sizes of the resting orders, filled ones included; zero
    /// for an empty level.
    pub fn total_volume(&self) -> (r: u128)
        ensures
            r == volume(self.spec_orders()),
    {
        let n: usize = self.orders.len();
        let mut sum: u128 = 0;
        let mut i: usize = 0;
        while i < n
            invariant
                n == self.orders@.len(),
                i <= n,
                sum == volume(self.orders@.take(i as int)),
                sum <= i * 0xffff_ffff_ffff_ffffint,
            decreases n - i,
        {
            let s: u64 = self.orders[i].size;
            proof {
                assert(self.orders@.take(i + 1).drop_last() =~= self.orders@.take(i as int));
                assert(sum + s <= (i + 1) * 0xffff_ffff_ffff_ffffint) by (nonlinear_arith)
                    requires
                        sum <= i * 0xffff_ffff_ffff_ffffint,
                        s <= 0xffff_ffff_ffff_ffffint,
                ;
                assert((i + 1) * 0xffff_ffff_ffff_ffffint <= 0x1_0000_0000_0000_0000int
                    * 0xffff_ffff_ffff_ffffint) by (nonlinear_arith)
                    requires
                        i + 1 <= 0x1_0000_0000_0000_0000int,
                ;
            }
            sum = sum + s as u128;
            i = i + 1;
        }
        proof {
            assert(self.orders@.take(n as int) =~= self.orders@);
        }
        sum
    }

    /// Matches `market_order` against the resting orders, first come first
    /// served, until it is filled or they are all gone through. Of each pair
    /// the smaller size is taken off both; filled resting orders stay.
    pub fn fill_order(&mut self, market_order: &mut Order)
        ensures
            final(self).spec_price() == old(self).spec_price(),
            filled(old(self).spec_orders(), final(self).spec_orders(), old(market_order).spec_size()),
            final(market_order).spec_side() == old(market_order).spec_side(),
            final(market_order).spec_size() == excess(
                old(market_order).spec_size(),
                volume(old(self).spec_orders()),
            ),
    {
        let ghost before = self.orders@;
        let ghost m = market_order.size as nat;
        let n: usize = self.orders.len();
        let mut i: usize = 0;
        while i < n && market_order.size != 0
            invariant
                n == before.len(),
                self.orders@.len() == n,
                self.price == old(self).price,
                before == old(self).orders@,
                m == old(market_order).size,
                i <= n,
                market_order.bid_or_ask == old(market_order).bid_or_ask,
                market_order.size == left_at(before, m, i as int),
                forall|j: int| 0 <= j < i ==> matched(before[j], #[trigger] self.orders@[j], left_at(before, m, j)),
                forall|j: int| i <= j < n ==> #[trigger] self.orders@[j] == before[j],
            decreases n - i,
        {
            proof {
                assert(before.take(i + 1).drop_last() =~= before.take(i as int));
            }
            let resting: Order = self.orders[i];
            if market_order.size >= resting.size {
                market_order.size = market_order.size - resting.size;
                self.orders[i].size = 0;
            } else {
                self.orders[i].size = resting.size - market_order.size;
                market_order.size = 0;
            }
            i = i + 1;
        }
        proof {
            if i < n {
                assert forall|j: int| i <= j < n implies matched(before[j], #[trigger] self.orders@[j], left_at(before, m, j)) by {
                    lemma_volume_prefix_monotone(before, i as int, j);
                }
                lemma_volume_prefix_monotone(before, i as int, n as int);
            }
            assert(before.take(n as int) =~= before);
        }
    }
}

/// The sum of the volumes of the levels in `limits`.
pub open spec fn side_volume(limits: Seq<Limit>) -> nat
    decreases limits.len(),
{
    if limits.len() == 0 {
        0
    } else {
        side_volume(limits.drop_last()) + volume(limits.last().spec_orders())
    }
}

/// The volume of a prefix of levels grows with the prefix.
pub proof fn lemma_side_volume_prefix_monotone(limits: Seq<Limit>, i: int, j: int)
    requires
        0 <= i <= j <= limits.len(),
    ensures
        side_volume(limits.take(i)) <= side_volume(limits.take(j)),
    decreases j - i,
{
    if i < j {
        lemma_side_volume_prefix_monotone(limits, i, j - 1);
        assert(limits.take(j).drop_last() =~= limits.take(j - 1));
    }
}

/// No two of `limits` stand at one price.
pub open spec fn distinct_prices(limits: Seq<Limit>) -> bool {
    forall|i: int, j: int|
        0 <= i < j < limits.len() ==> #[trigger] limits[i].spec_price() != #[trigger] limits[j].spec_price()
}

/// Well-formed levels of one side: no two at one price, and every order
/// resting in them is of that side.
pub open spec fn side_ok(limits: Seq<Limit>, side: BidOrAsk) -> bool {
    &&& distinct_prices(limits)
    &&& forall|i: int, o: int|
        0 <= i < limits.len() && 0 <= o < limits[i].spec_orders().len()
            ==> (#[trigger] limits[i].spec_orders()[o]).spec_side() == side
}

/// `a` and `b` hold the same levels, at the same prices, with the same orders.
pub open spec fn same_levels(a: Seq<Limit>, b: Seq<Limit>) -> bool {
    &&& a.len() == b.len()
    &&& forall|i: int| 0 <= i < a.len() ==> (#[trigger] a[i]).spec_price() == b[i].spec_price()
        && a[i].spec_orders() == b[i].spec_orders()
}

/// Whether some level of `limits` stands at `price`.
pub open spec fn has_level(limits: Seq<Limit>, price: Price) -> bool {
    exists|i: int| 0 <= i < limits.len() && (#[trigger] limits[i]).spec_price() == price
}

/// `after` is `before` with `order` put behind the orders of the level at
/// `price`, a new level at the end where there was none.
pub open spec fn placed(before: Seq<Limit>, after: Seq<Limit>, price: Price, order: Order) -> bool {
    if has_level(before, price) {
        &&& after.len() == before.len()
        &&& forall|i: int| 0 <= i < before.len() ==> (#[trigger] after[i]).spec_price() == before[i].spec_price()
            && after[i].spec_orders() == (if before[i].spec_price() == price {
            before[i].spec_orders().push(order)
        } else {
            before[i].spec_orders()
        })
    } else {
        &&& after.len() == before.len() + 1
        &&& same_levels(before, after.drop_last())
        &&& after.last().spec_price() == price
        &&& after.last().spec_orders() == seq![order]
    }
}

/// `after` is what the levels `before` become when a market order of size
/// `m` is filled against them, level by level in their order.
pub open spec fn swept(before: Seq<Limit>, after: Seq<Limit>, m: nat) -> bool {
    &&& after.len() == before.len()
    &&& forall|k: int| 0 <= k < before.len() ==> (#[trigger] after[k]).spec_price() == before[k].spec_price()
        && filled(before[k].spec_orders(), after[k].spec_orders(), excess(m, side_volume(before.take(k))))
}

/// The resting orders of an instrument: bid levels and ask levels, each kept
/// in the order in which their prices first appeared.
#[derive(Debug)]
pub struct Orderbook {
    asks: Vec<Limit>,
    bids: Vec<Limit>,
}

/// Puts `order` into the level of `limits` at `price`, making that level
/// where there is none.
fn place(limits: &mut Vec<Limit>, price: Price, order: Order)
    requires
        distinct_prices(old(limits)@),
    ensures
        placed(old(limits)@, final(limits)@, price, order),
{
    let n: usize = limits.len();
    let mut k: usize = 0;
    while k < n
        invariant
            n == limits@.len(),
            limits@ == old(limits)@,
            distinct_prices(old(limits)@),
            k <= n,
            forall|j: int| 0 <= j < k ==> (#[trigger] limits@[j]).spec_price() != price,
        decreases n - k,
    {
        if limits[k].price == price {
            limits[k].add_order(order);
            proof {
                let before = old(limits)@;
                assert(has_level(before, price));
                assert forall|i: int| 0 <= i < before.len() && i != k implies (#[trigger] before[i]).spec_price() != price by {
                    if i > k {
                        assert(before[k as int].spec_price() != before[i].spec_price());
                    }
                }
                assert forall|i: int| 0 <= i < before.len() implies (#[trigger] limits@[i]).spec_price() == before[i].spec_price()
                    && limits@[i].spec_orders() == (if before[i].spec_price() == price {
                    before[i].spec_orders().push(order)
                } else {
                    before[i].spec_orders()
                }) by {
                    if i != k {
                        assert(before[i].spec_price() != price);
                    }
                }
            }
            return;
        }
        k = k + 1;
    }
    let mut limit = Limit::new(price);
    limit.add_order(order);
    limits.push(limit);
    proof {
        assert(limits@.drop_last() =~= old(limits)@);
        assert(limits@.last().spec_orders() =~= seq![order]);
    }
}

impl Orderbook {
    pub closed spec fn spec_asks(&self) -> Seq<Limit> {
        self.asks@
    }

    pub closed spec fn spec_bids(&self) -> Seq<Limit> {
        self.bids@
    }

    /// The levels of the book's `side`.
    pub open spec fn levels(&self, side: BidOrAsk) -> Seq<Limit> {
        match side {
            BidOrAsk::Bid => self.spec_bids(),
            BidOrAsk::Ask => self.spec_asks(),
        }
    }

    /// Each side well formed: one level per price, orders of that side only.
    pub open spec fn wf(&self) -> bool {
        side_ok(self.spec_bids(), BidOrAsk::Bid) && side_ok(self.spec_asks(), BidOrAsk::Ask)
    }

    /// An empty book.
    pub fn new() -> (r: Orderbook)
        ensures
            r.wf(),
            r.spec_asks().len() == 0,
            r.spec_bids().len() == 0,
    {
        Orderbook { asks: Vec::new(), bids: Vec::new() }
    }

    /// The ask levels, in the order in which their prices first appeared:
    /// not ordered by price.
    pub fn ask_limits(&self) -> (r: &Vec<Limit>)
        ensures
            r@ == self.spec_asks(),
    {
        &self.asks
    }

    /// The bid levels, in the order in which their prices first appeared:
    /// not ordered by price.
    pub fn bid_limits(&self) -> (r: &Vec<Limit>)
        ensures
            r@ == self.spec_bids(),
    {
        &self.bids
    }

    /// Rests `order` at `price` on its own side: behind the orders of the
    /// level at that price, or as the first order of a new level.
    pub fn add_order(&mut self, price: Price, order: Order)
        requires
            old(self).wf(),
        ensures
            final(self).wf(),
            placed(old(self).levels(order.spec_side()), final(self).levels(order.spec_side()), price, order),
            same_levels(old(self).levels(opposite(order.spec_side())), final(self).levels(opposite(order.spec_side()))),
    {
        match order.bid_or_ask {
            BidOrAsk::Bid => place(&mut self.bids, price, order),
            BidOrAsk::Ask => place(&mut self.asks, price, order),
        }
        proof {
            lemma_placed_side_ok(old(self).levels(order.spec_side()), self.levels(order.spec_side()), price, order);
        }
    }

    /// Fills a bid market order against the ask levels, level by level in
    /// their order and first come first served within each, until it is
    /// filled or the asks are all gone through. An ask market order is left
    /// as it is, and so is the book.
    pub fn fill_market_order(&mut self, market_order: &mut Order)
        requires
            old(self).wf(),
        ensures
            final(self).wf(),
            final(market_order).spec_side() == old(market_order).spec_side(),
            same_levels(old(self).spec_bids(), final(self).spec_bids()),
            old(market_order).spec_side() == BidOrAsk::Bid ==> {
                &&& swept(old(self).spec_asks(), final(self).spec_asks(), old(market_order).spec_size())
                &&& final(market_order).spec_size() == excess(
                    old(market_order).spec_size(),
                    side_volume(old(self).spec_asks()),
                )
            },
            old(market_order).spec_side() == BidOrAsk::Ask ==> {
                &&& same_levels(old(self).spec_asks(), final(self).spec_asks())
                &&& final(market_order).spec_size() == old(market_order).spec_size()
            },
    {
        match market_order.bid_or_ask {
            BidOrAsk::Bid => {
                let ghost before = self.asks@;
                let ghost m = market_order.size as nat;
                let n: usize = self.asks.len();
                let mut k: usize = 0;
                while k < n && !market_order.is_filled()
                    invariant
                        n == before.len(),
                        self.asks@.len() == n,
                        before == old(self).asks@,
                        self.bids == old(self).bids,
                        side_ok(before, BidOrAsk::Ask),
                        m == old(market_order).spec_size(),
                        k <= n,
                        market_order.spec_side() == BidOrAsk::Bid,
                        market_order.spec_size() == excess(m, side_volume(before.take(k as int))),
                        forall|j: int| 0 <= j < k ==> (#[trigger] self.asks@[j]).spec_price() == before[j].spec_price()
                            && filled(before[j].spec_orders(), self.asks@[j].spec_orders(), excess(m, side_volume(before.take(j)))),
                        forall|j: int| k <= j < n ==> #[trigger] self.asks@[j] == before[j],
                    decreases n - k,
                {
                    proof {
                        assert(before.take(k + 1).drop_last() =~= before.take(k as int));
                    }
                    self.asks[k].fill_order(market_order);
                    k = k + 1;
                }
                proof {
                    if k < n {
                        assert forall|j: int| k <= j < n implies (#[trigger] self.asks@[j]).spec_price() == before[j].spec_price()
                            && filled(before[j].spec_orders(), self.asks@[j].spec_orders(), excess(m, side_volume(before.take(j)))) by {
                            lemma_side_volume_prefix_monotone(before, k as int, j);
                            lemma_nothing_left(before[j].spec_orders());
                        }
                        lemma_side_volume_prefix_monotone(before, k as int, n as int);
                    }
                    assert(before.take(n as int) =~= before);
                    lemma_swept_side_ok(before, self.asks@, m, BidOrAsk::Ask);
                }
            },
            BidOrAsk::Ask => {},
        }
    }
}

/// The side opposite `side`.
pub open spec fn opposite(side: BidOrAsk) -> BidOrAsk {
    match side {
        BidOrAsk::Bid => BidOrAsk::Ask,
        BidOrAsk::Ask => BidOrAsk::Bid,
    }
}

/// A market order with nothing left leaves resting orders as they are.
proof fn lemma_nothing_left(orders: Seq<Order>)
    ensures
        filled(orders, orders, 0),
{
}

/// Placing an order of a side on well-formed levels of that side keeps them
/// well formed.
pub proof fn lemma_placed_side_ok(before: Seq<Limit>, after: Seq<Limit>, price: Price, order: Order)
    requires
        side_ok(before, order.spec_side()),
        placed(before, after, price, order),
    ensures
        side_ok(after, order.spec_side()),
{
    let side = order.spec_side();
    if has_level(before, price) {
        assert forall|i: int, o: int| 0 <= i < after.len() && 0 <= o < after[i].spec_orders().len()
            implies (#[trigger] after[i].spec_orders()[o]).spec_side() == side by {
            if before[i].spec_price() == price && o == before[i].spec_orders().len() {
                assert(after[i].spec_orders()[o] == order);
            } else {
                assert(after[i].spec_orders()[o] == before[i].spec_orders()[o]);
            }
        }
    } else {
        let n = before.len() as int;
        assert forall|i: int| 0 <= i < n implies #[trigger] after[i] == after.drop_last()[i] by {}
        assert forall|i: int, j: int| 0 <= i < j < after.len()
            implies #[trigger] after[i].spec_price() != #[trigger] after[j].spec_price() by {
            if j == n {
                assert(after[i].spec_price() == before[i].spec_price());
            } else {
                assert(after.drop_last()[i].spec_price() == before[i].spec_price());
                assert(after.drop_last()[j].spec_price() == before[j].spec_price());
            }
        }
        assert forall|i: int, o: int| 0 <= i < after.len() && 0 <= o < after[i].spec_orders().len()
            implies (#[trigger] after[i].spec_orders()[o]).spec_side() == side by {
            if i < n {
                assert(after.drop_last()[i].spec_orders() == before[i].spec_orders());
            }
        }
    }
}

/// After an order is placed at `price`, there is a level at `price`, and every
/// level there was before is still there.
pub proof fn lemma_placed_keeps_level(before: Seq<Limit>, after: Seq<Limit>, price: Price, order: Order, p: Price)
    requires
        placed(before, after, price, order),
        p == price || has_level(before, p),
    ensures
        has_level(after, p),
{
    if has_level(before, p) {
        let k = choose|k: int| 0 <= k < before.len() && (#[trigger] before[k]).spec_price() == p;
        if has_level(before, price) {
            assert(after[k].spec_price() == p);
        } else {
            assert(after.drop_last()[k].spec_price() == p);
            assert(after[k] == after.drop_last()[k]);
        }
    } else if has_level(before, price) {
        let k = choose|k: int| 0 <= k < before.len() && (#[trigger] before[k]).spec_price() == price;
        assert(after[k].spec_price() == p);
    } else {
        assert(after[before.len() as int] == after.last());
    }
}

/// Filling keeps prices and sides, so well-formed levels stay well formed.
proof fn lemma_swept_side_ok(before: Seq<Limit>, after: Seq<Limit>, m: nat, side: BidOrAsk)
    requires
        side_ok(before, side),
        swept(before, after, m),
    ensures
        side_ok(after, side),
{
    assert forall|i: int, o: int| 0 <= i < after.len() && 0 <= o < after[i].spec_orders().len()
        implies (#[trigger] after[i].spec_orders()[o]).spec_side() == side by {
        assert(matched(before[i].spec_orders()[o], after[i].spec_orders()[o], left_at(before[i].spec_orders(), excess(m, side_volume(before.take(i))), o)));
    }
}

} // verus!
