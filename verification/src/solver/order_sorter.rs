use rand::seq::SliceRandom;
use vstd::prelude::*;
use vstd::seq_lib::{to_multiset_build, to_multiset_insert};
use vstd::utf8::encode_utf8;
use crate::model::order::Order;
use crate::network::Network;
use crate::solver::algorithms::batched::orders_known;

verus! {

/// By what orders are put in a row.
#[derive(Debug, Clone, Copy, PartialEq, Eq, Structural)]
pub enum SortKey {
    /// By their weight.
    Weight,
    /// By their name, byte by byte.
    Name,
    /// By the distance from where they wait to where they have to go.
    Distance,
}

/// Whether the bytes `a` come no later than the bytes `b` in the order of
/// a dictionary.
pub open spec fn bytes_le(a: Seq<u8>, b: Seq<u8>) -> bool
    decreases a.len(),
{
    if a.len() == 0 {
        true
    } else if b.len() == 0 {
        false
    } else if a[0] != b[0] {
        a[0] < b[0]
    } else {
        bytes_le(a.drop_first(), b.drop_first())
    }
}

/// Whether order `a` may stand before order `b` when they are put in a
/// row by `key`.
pub open spec fn rank_le(key: SortKey, network: Option<&Network>, a: Order, b: Order) -> bool {
    match key {
        SortKey::Weight => a.weight <= b.weight,
        SortKey::Name => bytes_le(encode_utf8(a.name@), encode_utf8(b.name@)),
        SortKey::Distance => match network {
            Some(net) => net.dist(a.location@, a.destination@) <= net.dist(b.location@, b.destination@),
            None => true,
        },
    }
}

/// `row` with `x` put behind the last order that may stand before it.
pub open spec fn inserted(row: Seq<Order>, x: Order, key: SortKey, network: Option<&Network>) -> Seq<Order>
    decreases row.len(),
{
    if row.len() == 0 {
        seq![x]
    } else if rank_le(key, network, row.last(), x) {
        row.push(x)
    } else {
        inserted(row.drop_last(), x, key, network).push(row.last())
    }
}

/// The orders in a row by `key`, smallest first; orders that rank the same
/// keep their order.
pub open spec fn in_a_row(orders: Seq<Order>, key: SortKey, network: Option<&Network>) -> Seq<Order>
    decreases orders.len(),
{
    if orders.len() == 0 {
        orders
    } else {
        inserted(in_a_row(orders.drop_last(), key, network), orders.last(), key, network)
    }
}

/// Whether the orders can be put in a row by `key`: by distance only with
/// a network that holds their stations.
pub open spec fn sortable(orders: Seq<Order>, key: SortKey, network: Option<&Network>) -> bool {
    key == SortKey::Distance ==> match network {
        Some(net) => net.wf() && orders_known(net, orders),
        None => false,
    }
}

/// Whether `a` comes no later than `b` as `str` orders strings: as a
/// dictionary orders words, by the values of their bytes.
pub(crate) fn str_le(a: &str, b: &str) -> (le: bool)
    ensures
        le == bytes_le(encode_utf8(a@), encode_utf8(b@)),
{
    let x = a.as_bytes();
    let y = b.as_bytes();
    let mut i: usize = 0;
    assert(x@.skip(0) =~= x@ && y@.skip(0) =~= y@);
    while i < x.len() && i < y.len()
        invariant
            i <= x@.len(),
            i <= y@.len(),
            x@ == encode_utf8(a@),
            y@ == encode_utf8(b@),
            bytes_le(x@, y@) == bytes_le(x@.skip(i as int), y@.skip(i as int)),
        decreases x@.len() - i,
    {
        proof {
            assert(x@.skip(i as int)[0] == x@[i as int]);
            assert(y@.skip(i as int)[0] == y@[i as int]);
            assert(x@.skip(i as int).drop_first() =~= x@.skip(i + 1));
            assert(y@.skip(i as int).drop_first() =~= y@.skip(i + 1));
        }
        if x[i] != y[i] {
            return x[i] < y[i];
        }
        i += 1;
    }
    x.len() <= y.len()
}

/// Shuffles the orders with `rand::seq::SliceRandom::shuffle` and the
/// thread's generator. Taken on trust: the orders are the same, in some
/// order.
#[verifier::external_body]
fn shuffle(orders: &mut Vec<Order>)
    ensures
        final(orders)@.to_multiset() == old(orders)@.to_multiset(),
{
    orders.shuffle(&mut rand::thread_rng());
}

/// Whether `a` may stand before `b` by `key`.
pub(crate) fn ranks_before(key: SortKey, network: Option<&Network>, a: &Order, b: &Order) -> (le: bool)
    requires
        key == SortKey::Distance ==> match network {
            Some(net) => net.wf() && net.has(a.location@) && net.has(a.destination@) && net.has(b.location@)
                && net.has(b.destination@),
            None => false,
        },
    ensures
        le == rank_le(key, network, *a, *b),
{
    match key {
        SortKey::Weight => a.weight <= b.weight,
        SortKey::Name => str_le(a.name.as_str(), b.name.as_str()),
        SortKey::Distance => match network {
            Some(net) => net.distance(&a.location, &a.destination) <= net.distance(&b.location, &b.destination),
            None => true,
        },
    }
}

/// Putting `x` at the place behind the last order that may stand before it
/// is inserting it.
pub(crate) proof fn lemma_inserted_at(row: Seq<Order>, x: Order, key: SortKey, network: Option<&Network>, at: int)
    requires
        0 <= at <= row.len(),
        forall|j: int| at <= j < row.len() ==> !rank_le(key, network, #[trigger] row[j], x),
        at > 0 ==> rank_le(key, network, row[at - 1], x),
    ensures
        inserted(row, x, key, network) == row.insert(at, x),
    decreases row.len(),
{
    if row.len() == 0 {
        assert(row.insert(0, x) =~= seq![x]);
    } else if at == row.len() {
        assert(row.insert(at, x) =~= row.push(x));
    } else {
        assert(!rank_le(key, network, row[row.len() - 1], x));
        lemma_inserted_at(row.drop_last(), x, key, network, at);
        assert(row.drop_last().insert(at, x).push(row.last()) =~= row.insert(at, x));
    }
}

/// The orders in a row by `key`, smallest first; orders that rank the same
/// keep their order.
pub fn sort_by_key(orders: &Vec<Order>, key: SortKey, network: Option<&Network>) -> (sorted: Vec<Order>)
    requires
        sortable(orders@, key, network),
    ensures
        sorted@ == in_a_row(orders@, key, network),
        sorted@.to_multiset() == orders@.to_multiset(),
{
    let mut sorted: Vec<Order> = Vec::new();
    let mut k: usize = 0;
    assert(orders@.take(0) =~= Seq::<Order>::empty());
    while k < orders.len()
        invariant
            k <= orders@.len(),
            sortable(orders@, key, network),
            sorted@ == in_a_row(orders@.take(k as int), key, network),
            sorted@.to_multiset() == orders@.take(k as int).to_multiset(),
            sorted@.len() == k,
            key == SortKey::Distance ==> match network {
                Some(net) => orders_known(net, sorted@),
                None => false,
            },
        decreases orders@.len() - k,
    {
        let x = orders[k].copy();
        let mut at: usize = sorted.len();
        while at > 0 && !ranks_before(key, network, &sorted[at - 1], &x)
            invariant
                at <= sorted@.len(),
                x == orders@[k as int],
                k < orders@.len(),
                sortable(orders@, key, network),
                key == SortKey::Distance ==> match network {
                    Some(net) => orders_known(net, sorted@),
                    None => false,
                },
                forall|j: int| at <= j < sorted@.len() ==> !rank_le(key, network, #[trigger] sorted@[j], x),
            decreases at,
        {
            at -= 1;
        }
        let ghost before = sorted@;
        sorted.insert(at, x);
        proof {
            lemma_inserted_at(before, x, key, network, at as int);
            assert(orders@.take(k + 1).drop_last() =~= orders@.take(k as int));
            assert(orders@.take(k + 1) =~= orders@.take(k as int).push(x));
            to_multiset_insert(before, at as int, x);
            to_multiset_build(orders@.take(k as int), x);
            if key == SortKey::Distance {
                let net = network.unwrap();
                assert forall|i: int| 0 <= i < sorted@.len() implies net.has((#[trigger] sorted@[i]).location@)
                    && net.has(sorted@[i].destination@) by {
                    if i != at {
                        assert(sorted@[i] == before[if i < at { i } else { i - 1 }]);
                    }
                }
            }
        }
        k += 1;
    }
    assert(orders@.take(k as int) =~= orders@);
    sorted
}

/// The orders in the opposite order.
pub fn reversed_orders(orders: Vec<Order>) -> (back: Vec<Order>)
    ensures
        back@ == orders@.reverse(),
        back@.to_multiset() == orders@.to_multiset(),
{
    let mut back: Vec<Order> = Vec::new();
    let mut rest = orders;
    let ghost whole = rest@;
    while rest.len() > 0
        invariant
            rest@.len() + back@.len() == whole.len(),
            rest@ == whole.take(rest@.len() as int),
            forall|j: int| 0 <= j < back@.len() ==> #[trigger] back@[j] == whole[whole.len() - 1 - j],
        decreases rest@.len(),
    {
        let last = rest.pop();
        match last {
            Some(order) => {
                back.push(order);
            },
            None => {},
        }
        assert(rest@ =~= whole.take(rest@.len() as int));
    }
    assert(back@ =~= whole.reverse());
    proof {
        whole.lemma_reverse_to_multiset();
    }
    back
}

/// A copy of the orders.
pub(crate) fn copy_orders(orders: &Vec<Order>) -> (copy: Vec<Order>)
    ensures
        copy@ == orders@,
{
    let mut copy: Vec<Order> = Vec::new();
    let mut k: usize = 0;
    while k < orders.len()
        invariant
            k <= orders@.len(),
            copy@ == orders@.take(k as int),
        decreases orders@.len() - k,
    {
        copy.push(orders[k].copy());
        assert(copy@ =~= orders@.take(k + 1));
        k += 1;
    }
    assert(orders@.take(k as int) =~= orders@);
    copy
}

/// A way to put the waiting orders in a row before an algorithm sees them.
pub trait OrderSorter {
    /// Whether this sorter can put `orders` in a row.
    spec fn accepts(&self, orders: Seq<Order>) -> bool;

    /// The same orders, in this sorter's order.
    fn sort(&self, orders: &Vec<Order>) -> (sorted: Vec<Order>)
        requires
            self.accepts(orders@),
        ensures
            sorted@.to_multiset() == orders@.to_multiset(),
    ;

    /// Whether `sort` gives the same row whenever it gets the same orders.
    fn stable(&self) -> bool;
}

/// Lightest order first.
#[derive(Debug)]
pub struct SortOrdersByWeightAsc;

impl OrderSorter for SortOrdersByWeightAsc {
    open spec fn accepts(&self, orders: Seq<Order>) -> bool {
        true
    }

    fn sort(&self, orders: &Vec<Order>) -> (sorted: Vec<Order>)
        ensures
            sorted@ == in_a_row(orders@, SortKey::Weight, None),
    {
        sort_by_key(orders, SortKey::Weight, None)
    }

    fn stable(&self) -> (yes: bool)
        ensures
            yes,
    {
        true
    }
}

/// Heaviest order first.
#[derive(Debug)]
pub struct SortOrdersByWeightDesc;

impl OrderSorter for SortOrdersByWeightDesc {
    open spec fn accepts(&self, orders: Seq<Order>) -> bool {
        true
    }

    fn sort(&self, orders: &Vec<Order>) -> (sorted: Vec<Order>)
        ensures
            sorted@ == in_a_row(orders@, SortKey::Weight, None).reverse(),
    {
        reversed_orders(sort_by_key(orders, SortKey::Weight, None))
    }

    fn stable(&self) -> (yes: bool)
        ensures
            yes,
    {
        true
    }
}

/// By name, first name first.
#[derive(Debug)]
pub struct SortOrdersByNameAsc;

impl OrderSorter for SortOrdersByNameAsc {
    open spec fn accepts(&self, orders: Seq<Order>) -> bool {
        true
    }

    fn sort(&self, orders: &Vec<Order>) -> (sorted: Vec<Order>)
        ensures
            sorted@ == in_a_row(orders@, SortKey::Name, None),
    {
        sort_by_key(orders, SortKey::Name, None)
    }

    fn stable(&self) -> (yes: bool)
        ensures
            yes,
    {
        true
    }
}

/// By name, last name first.
#[derive(Debug)]
pub struct SortOrdersByNameDesc;

impl OrderSorter for SortOrdersByNameDesc {
    open spec fn accepts(&self, orders: Seq<Order>) -> bool {
        true
    }

    fn sort(&self, orders: &Vec<Order>) -> (sorted: Vec<Order>)
        ensures
            sorted@ == in_a_row(orders@, SortKey::Name, None).reverse(),
    {
        reversed_orders(sort_by_key(orders, SortKey::Name, None))
    }

    fn stable(&self) -> (yes: bool)
        ensures
            yes,
    {
        true
    }
}

/// The order with the shortest way to go first.
pub struct SortOrdersByDistanceAsc<'a> {
    pub network: &'a Network,
}

impl<'a> SortOrdersByDistanceAsc<'a> {
    pub fn new(network: &'a Network) -> (sorter: Self)
        ensures
            sorter.network == network,
    {
        Self { network }
    }
}

impl<'a> OrderSorter for SortOrdersByDistanceAsc<'a> {
    open spec fn accepts(&self, orders: Seq<Order>) -> bool {
        self.network.wf() && orders_known(self.network, orders)
    }

    fn sort(&self, orders: &Vec<Order>) -> (sorted: Vec<Order>)
        ensures
            sorted@ == in_a_row(orders@, SortKey::Distance, Some(self.network)),
    {
        sort_by_key(orders, SortKey::Distance, Some(self.network))
    }

    fn stable(&self) -> (yes: bool)
        ensures
            yes,
    {
        true
    }
}

/// The order with the longest way to go first.
pub struct SortOrdersByDistanceDesc<'a> {
    pub network: &'a Network,
}

impl<'a> SortOrdersByDistanceDesc<'a> {
    pub fn new(network: &'a Network) -> (sorter: Self)
        ensures
            sorter.network == network,
    {
        Self { network }
    }
}

impl<'a> OrderSorter for SortOrdersByDistanceDesc<'a> {
    open spec fn accepts(&self, orders: Seq<Order>) -> bool {
        self.network.wf() && orders_known(self.network, orders)
    }

    fn sort(&self, orders: &Vec<Order>) -> (sorted: Vec<Order>)
        ensures
            sorted@ == in_a_row(orders@, SortKey::Distance, Some(self.network)).reverse(),
    {
        reversed_orders(sort_by_key(orders, SortKey::Distance, Some(self.network)))
    }

    fn stable(&self) -> (yes: bool)
        ensures
            yes,
    {
        true
    }
}

/// The orders as they come.
#[derive(Debug)]
pub struct DoNotSortOrders;

impl OrderSorter for DoNotSortOrders {
    open spec fn accepts(&self, orders: Seq<Order>) -> bool {
        true
    }

    fn sort(&self, orders: &Vec<Order>) -> (sorted: Vec<Order>)
        ensures
            sorted@ == orders@,
    {
        copy_orders(orders)
    }

    fn stable(&self) -> (yes: bool)
        ensures
            yes,
    {
        true
    }
}

/// The orders in an order left to chance.
#[derive(Debug)]
pub struct SortOrdersRandomly;

impl OrderSorter for SortOrdersRandomly {
    open spec fn accepts(&self, orders: Seq<Order>) -> bool {
        true
    }

    fn sort(&self, orders: &Vec<Order>) -> (sorted: Vec<Order>) {
        let mut sorted = copy_orders(orders);
        shuffle(&mut sorted);
        sorted
    }

    fn stable(&self) -> (yes: bool)
        ensures
            !yes,
    {
        false
    }
}

} // verus!
