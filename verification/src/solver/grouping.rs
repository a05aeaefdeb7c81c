use vstd::prelude::*;
use crate::model::order::Order;
use crate::model::station::Station;
use vstd::utf8::encode_utf8;
use crate::solver::algorithms::weight_of;
use crate::solver::order_sorter::{bytes_le, str_le};

verus! {

/// The waiting orders that share a station, by their places in the order
/// list, with their weight taken together.
pub struct Batch {
    pub station: Station,
    pub weight: u64,
    pub places: Vec<usize>,
}

/// The station by which an order is grouped: where it has to go, or where
/// it waits.
pub open spec fn anchor(order: Order, by_destination: bool) -> Seq<char> {
    if by_destination {
        order.destination@
    } else {
        order.location@
    }
}

/// Whether order `k` still waits and is grouped under `name`.
pub open spec fn belongs(orders: Seq<Order>, done: Seq<bool>, by_destination: bool, name: Seq<char>, k: int) -> bool {
    0 <= k < orders.len() && !done[k] && anchor(orders[k], by_destination) == name
}

/// Whether `k` is one of the places.
pub open spec fn among(places: Seq<usize>, k: int) -> bool {
    exists|i: int| 0 <= i < places.len() && #[trigger] places[i] == k
}

/// Whether the batch holds, in rising order, exactly the places of the
/// waiting orders below `upto` that are grouped under its station, and
/// their weight.
pub open spec fn batch_upto(orders: Seq<Order>, done: Seq<bool>, by_destination: bool, upto: int, batch: Batch) -> bool {
    &&& forall|i: int|
        0 <= i < batch.places@.len() ==> (#[trigger] batch.places@[i]) < upto && belongs(
            orders,
            done,
            by_destination,
            batch.station@,
            batch.places@[i] as int,
        )
    &&& forall|i: int, j: int| 0 <= i < j < batch.places@.len() ==> batch.places@[i] < batch.places@[j]
    &&& forall|k: int|
        0 <= k < upto && #[trigger] belongs(orders, done, by_destination, batch.station@, k) ==> among(
            batch.places@,
            k,
        )
    &&& batch.weight == weight_of(orders, batch.places@)
}

/// Whether the batch is one of the groups of the waiting orders: not
/// empty, and complete for its station.
pub open spec fn batch_ok(orders: Seq<Order>, done: Seq<bool>, by_destination: bool, batch: Batch) -> bool {
    batch.places@.len() > 0 && batch_upto(orders, done, by_destination, orders.len() as int, batch)
}

/// A batch as plain values.
pub struct Group {
    pub station: Station,
    pub weight: u64,
    pub places: Seq<usize>,
}

impl View for Batch {
    type V = Group;

    open spec fn view(&self) -> Group {
        Group { station: self.station, weight: self.weight, places: self.places@ }
    }
}

/// The batches as plain values.
pub open spec fn groups_in(batches: Seq<Batch>) -> Seq<Group> {
    Seq::new(batches.len(), |g: int| batches[g]@)
}

/// The station by which an order is grouped.
pub open spec fn anchor_station(order: Order, by_destination: bool) -> Station {
    if by_destination {
        order.destination
    } else {
        order.location
    }
}

/// The places below `upto` of the waiting orders that are grouped under
/// `name`, in rising order.
pub open spec fn places_of(orders: Seq<Order>, done: Seq<bool>, by_destination: bool, name: Seq<char>, upto: int) -> Seq<usize>
    decreases upto,
{
    if upto <= 0 {
        Seq::empty()
    } else if belongs(orders, done, by_destination, name, upto - 1) {
        places_of(orders, done, by_destination, name, upto - 1).push((upto - 1) as usize)
    } else {
        places_of(orders, done, by_destination, name, upto - 1)
    }
}

/// The group of the waiting orders that share the station of order `k`.
pub open spec fn group_of(orders: Seq<Order>, done: Seq<bool>, by_destination: bool, k: int) -> Group {
    let station = anchor_station(orders[k], by_destination);
    let places = places_of(orders, done, by_destination, station@, orders.len() as int);
    Group { station, weight: weight_of(orders, places) as u64, places }
}

/// Whether group `a` is served before group `b`: it is heavier, or as
/// heavy and its station's name comes later.
pub open spec fn served_before(a: Group, b: Group) -> bool {
    a.weight > b.weight || (a.weight == b.weight && !bytes_le(encode_utf8(a.station@), encode_utf8(b.station@)))
}

/// `row` with `x` put behind the last group that is served before it.
pub open spec fn group_put(row: Seq<Group>, x: Group) -> Seq<Group>
    decreases row.len(),
{
    if row.len() == 0 {
        seq![x]
    } else if served_before(row.last(), x) {
        row.push(x)
    } else {
        group_put(row.drop_last(), x).push(row.last())
    }
}

/// Whether a waiting order before `k` is grouped under the same station as
/// order `k`.
pub open spec fn seen(orders: Seq<Order>, done: Seq<bool>, by_destination: bool, k: int) -> bool {
    exists|j: int| 0 <= j < k && #[trigger] belongs(orders, done, by_destination, anchor(orders[k], by_destination), j)
}

/// The groups of the waiting orders below `upto`, in the order in which
/// they are served.
pub open spec fn groups_upto(orders: Seq<Order>, done: Seq<bool>, by_destination: bool, upto: int) -> Seq<Group>
    decreases upto,
{
    if upto <= 0 {
        Seq::empty()
    } else if !done[upto - 1] && !seen(orders, done, by_destination, upto - 1) {
        group_put(
            groups_upto(orders, done, by_destination, upto - 1),
            group_of(orders, done, by_destination, upto - 1),
        )
    } else {
        groups_upto(orders, done, by_destination, upto - 1)
    }
}

/// The groups of the waiting orders: one for each station, with its
/// orders in their order, the heaviest group first and, of groups of one
/// weight, the one whose station's name comes later.
pub open spec fn groups(orders: Seq<Order>, done: Seq<bool>, by_destination: bool) -> Seq<Group> {
    groups_upto(orders, done, by_destination, orders.len() as int)
}

/// Putting `x` at the place behind the last group that is served before it
/// is putting it into the row.
pub(crate) proof fn lemma_group_put_at(row: Seq<Group>, x: Group, at: int)
    requires
        0 <= at <= row.len(),
        forall|j: int| at <= j < row.len() ==> !served_before(#[trigger] row[j], x),
        at > 0 ==> served_before(row[at - 1], x),
    ensures
        group_put(row, x) == row.insert(at, x),
    decreases row.len(),
{
    if row.len() == 0 {
        assert(row.insert(0, x) =~= seq![x]);
    } else if at == row.len() {
        assert(row.insert(at, x) =~= row.push(x));
    } else {
        assert(!served_before(row[row.len() - 1], x));
        lemma_group_put_at(row.drop_last(), x, at);
        assert(row.drop_last().insert(at, x).push(row.last()) =~= row.insert(at, x));
    }
}

/// Whether some waiting order below `upto` is grouped under the batch's
/// station.
pub open spec fn led(orders: Seq<Order>, done: Seq<bool>, by_destination: bool, upto: int, batch: Batch) -> bool {
    exists|j: int| 0 <= j < upto && #[trigger] belongs(orders, done, by_destination, batch.station@, j)
}

/// Whether order `k`, if it still waits, has a batch for its station.
pub open spec fn housed(orders: Seq<Order>, done: Seq<bool>, by_destination: bool, batches: Seq<Batch>, k: int) -> bool {
    !done[k] ==> exists|g: int|
        0 <= g < batches.len() && (#[trigger] batches[g]).station@ == anchor(orders[k], by_destination)
}

/// Whether none of the batches is heavier than one before it.
pub open spec fn falling(batches: Seq<Batch>) -> bool {
    forall|g: int, h: int| 0 <= g < h < batches.len() ==> (#[trigger] batches[g]).weight >= (#[trigger] batches[h]).weight
}

/// Whether the batches are the groups of the waiting orders below `upto`:
/// each is complete for its station, no two share a station, every such
/// order is in one of them, and none is heavier than one before it.
pub open spec fn grouped_upto(
    orders: Seq<Order>,
    done: Seq<bool>,
    by_destination: bool,
    upto: int,
    batches: Seq<Batch>,
) -> bool {
    &&& forall|g: int| 0 <= g < batches.len() ==> batch_ok(orders, done, by_destination, #[trigger] batches[g])
    &&& forall|g: int| 0 <= g < batches.len() ==> led(orders, done, by_destination, upto, #[trigger] batches[g])
    &&& forall|g: int, h: int| 0 <= g < h < batches.len() ==> (#[trigger] batches[g]).station@ != (#[trigger] batches[h]).station@
    &&& forall|k: int| 0 <= k < upto ==> #[trigger] housed(orders, done, by_destination, batches, k)
    &&& falling(batches)
}

/// Whether the batches are the groups of all waiting orders.
pub open spec fn grouped(orders: Seq<Order>, done: Seq<bool>, by_destination: bool, batches: Seq<Batch>) -> bool {
    grouped_upto(orders, done, by_destination, orders.len() as int, batches)
}

/// The groups of the orders below `k`, with the group of order `k` put in
/// by weight, are the groups of the orders up to `k`.
proof fn lemma_group_added(
    orders: Seq<Order>,
    done: Seq<bool>,
    by_destination: bool,
    k: int,
    before: Seq<Batch>,
    at: int,
    batch: Batch,
    after: Seq<Batch>,
)
    requires
        0 <= k < orders.len(),
        grouped_upto(orders, done, by_destination, k, before),
        0 <= at <= before.len(),
        after == before.insert(at, batch),
        falling(after),
        batch_ok(orders, done, by_destination, batch),
        belongs(orders, done, by_destination, batch.station@, k),
        forall|j: int| 0 <= j < k ==> !#[trigger] belongs(orders, done, by_destination, batch.station@, j),
    ensures
        grouped_upto(orders, done, by_destination, k + 1, after),
{
    assert forall|g: int| 0 <= g < after.len() implies batch_ok(orders, done, by_destination, #[trigger] after[g])
        && led(orders, done, by_destination, k + 1, after[g]) by {
        if g == at {
            assert(after[g] == batch);
        } else {
            let g0 = if g < at { g } else { g - 1 };
            assert(after[g] == before[g0]);
            assert(led(orders, done, by_destination, k, before[g0]));
            let j = choose|j: int| 0 <= j < k && #[trigger] belongs(orders, done, by_destination, before[g0].station@, j);
            assert(belongs(orders, done, by_destination, after[g].station@, j));
        }
    }
    assert forall|g: int, h: int| 0 <= g < h < after.len() implies (#[trigger] after[g]).station@ != (
    #[trigger] after[h]).station@ by {
        let g0 = if g < at { g } else { g - 1 };
        let h0 = if h < at { h } else { h - 1 };
        if g == at || h == at {
            let other = if g == at { h0 } else { g0 };
            assert(after[if g == at { h } else { g }] == before[other]);
            assert(led(orders, done, by_destination, k, before[other]));
            let j = choose|j: int| 0 <= j < k && #[trigger] belongs(orders, done, by_destination, before[other].station@, j);
            if before[other].station@ == batch.station@ {
                assert(belongs(orders, done, by_destination, batch.station@, j));
            }
        } else {
            assert(after[g] == before[g0]);
            assert(after[h] == before[h0]);
        }
    }
    assert forall|j: int| 0 <= j < k + 1 implies #[trigger] housed(orders, done, by_destination, after, j) by {
        if !done[j] {
            if j < k {
                assert(housed(orders, done, by_destination, before, j));
                let g0 = choose|g: int|
                    0 <= g < before.len() && (#[trigger] before[g]).station@ == anchor(orders[j], by_destination);
                let g = if g0 < at { g0 } else { g0 + 1 };
                assert(after[g] == before[g0]);
            } else {
                assert(after[at] == batch);
            }
        }
    }
}

/// The groups of the orders below `k` are the groups of the orders up to
/// `k` when order `k` does not wait or shares its station with an order
/// before it.
proof fn lemma_group_kept(orders: Seq<Order>, done: Seq<bool>, by_destination: bool, k: int, batches: Seq<Batch>)
    requires
        0 <= k < orders.len(),
        grouped_upto(orders, done, by_destination, k, batches),
        done[k] || exists|j: int|
            0 <= j < k && #[trigger] belongs(orders, done, by_destination, anchor(orders[k], by_destination), j),
    ensures
        grouped_upto(orders, done, by_destination, k + 1, batches),
{
    assert forall|g: int| 0 <= g < batches.len() implies led(orders, done, by_destination, k + 1, #[trigger] batches[g]) by {
        assert(led(orders, done, by_destination, k, batches[g]));
        let j = choose|j: int| 0 <= j < k && #[trigger] belongs(orders, done, by_destination, batches[g].station@, j);
        assert(belongs(orders, done, by_destination, batches[g].station@, j));
    }
    assert forall|j: int| 0 <= j < k + 1 implies #[trigger] housed(orders, done, by_destination, batches, j) by {
        if j == k && !done[k] {
            let i = choose|i: int|
                0 <= i < k && #[trigger] belongs(orders, done, by_destination, anchor(orders[k], by_destination), i);
            assert(housed(orders, done, by_destination, batches, i));
        }
    }
}

/// The station by which `order` is grouped.
pub(crate) fn anchor_of(order: &Order, by_destination: bool) -> (station: &Station)
    ensures
        station@ == anchor(*order, by_destination),
        *station == anchor_station(*order, by_destination),
{
    if by_destination {
        &order.destination
    } else {
        &order.location
    }
}

/// Collects the waiting orders that are grouped under `station`.
pub(crate) fn collect_batch(orders: &Vec<Order>, done: &Vec<bool>, by_destination: bool, station: &Station) -> (batch: Batch)
    requires
        orders@.len() <= u32::MAX,
        done@.len() == orders@.len(),
    ensures
        batch.station == *station,
        batch_upto(orders@, done@, by_destination, orders@.len() as int, batch),
        batch.places@ == places_of(orders@, done@, by_destination, station@, orders@.len() as int),
{
    let mut batch = Batch { station: station.copy(), weight: 0, places: Vec::new() };
    let mut k: usize = 0;
    while k < orders.len()
        invariant
            k <= orders@.len(),
            orders@.len() <= u32::MAX,
            done@.len() == orders@.len(),
            batch.station == *station,
            batch_upto(orders@, done@, by_destination, k as int, batch),
            batch.places@ == places_of(orders@, done@, by_destination, station@, k as int),
            batch.places@.len() <= k,
            batch.weight <= batch.places@.len() * 0xffff_ffff,
        decreases orders@.len() - k,
    {
        if !done[k] && anchor_of(&orders[k], by_destination).same(station) {
            let ghost before = batch.places@;
            let mut places = batch.places;
            places.push(k);
            let weight: u64 = batch.weight + orders[k].weight as u64;
            batch = Batch { station: batch.station, weight, places };
            proof {
                assert(batch.places@.drop_last() =~= before);
                assert forall|j: int|
                    0 <= j < k + 1 && #[trigger] belongs(
                        orders@,
                        done@,
                        by_destination,
                        batch.station@,
                        j,
                    ) implies among(batch.places@, j) by {
                    if j < k {
                        assert(among(before, j));
                        let i = choose|i: int| 0 <= i < before.len() && #[trigger] before[i] == j;
                        assert(batch.places@[i] == j);
                    } else {
                        assert(batch.places@[before.len() as int] == k);
                    }
                }
            }
        }
        k += 1;
    }
    batch
}

/// Whether a waiting order before `k` is grouped under the same station as
/// order `k`.
pub(crate) fn seen_before(orders: &Vec<Order>, done: &Vec<bool>, by_destination: bool, k: usize) -> (seen: bool)
    requires
        k < orders@.len(),
        done@.len() == orders@.len(),
    ensures
        seen == self::seen(orders@, done@, by_destination, k as int),
{
    let station = anchor_of(&orders[k], by_destination);
    let mut j: usize = 0;
    while j < k
        invariant
            j <= k,
            k < orders@.len(),
            done@.len() == orders@.len(),
            station@ == anchor(orders@[k as int], by_destination),
            forall|i: int| 0 <= i < j ==> !#[trigger] belongs(orders@, done@, by_destination, station@, i),
        decreases k - j,
    {
        if !done[j] && anchor_of(&orders[j], by_destination).same(station) {
            assert(belongs(orders@, done@, by_destination, station@, j as int));
            return true;
        }
        j += 1;
    }
    false
}

/// Puts `batch` into `batches`, which fall in weight, behind the last
/// batch that is heavier, or as heavy with a later station name.
pub(crate) fn insert_by_weight(batches: &mut Vec<Batch>, batch: Batch) -> (at: usize)
    requires
        falling(old(batches)@),
    ensures
        at <= old(batches)@.len(),
        final(batches)@ == old(batches)@.insert(at as int, batch),
        falling(final(batches)@),
        groups_in(final(batches)@) == group_put(groups_in(old(batches)@), batch@),
{
    let mut at: usize = batches.len();
    while at > 0 && !(batches[at - 1].weight > batch.weight || (batches[at - 1].weight == batch.weight && !str_le(
        batches[at - 1].station.name.as_str(),
        batch.station.name.as_str(),
    )))
        invariant
            at <= batches@.len(),
            batches@ == old(batches)@,
            falling(batches@),
            forall|h: int| at <= h < batches@.len() ==> !served_before((#[trigger] batches@[h])@, batch@),
        decreases at,
    {
        at -= 1;
    }
    let ghost before = batches@;
    proof {
        assert forall|g: int| 0 <= g < at implies (#[trigger] before[g]).weight >= batch.weight by {
            assert(before[g].weight >= before[at - 1].weight);
        }
    }
    batches.insert(at, batch);
    proof {
        assert forall|j: int| at <= j < groups_in(before).len() implies !served_before(
            #[trigger] groups_in(before)[j],
            batch@,
        ) by {
            assert(!served_before(before[j]@, batch@));
        }
        lemma_group_put_at(groups_in(before), batch@, at as int);
        assert(groups_in(batches@) =~= groups_in(before).insert(at as int, batch@));
        assert forall|h: int| at <= h < before.len() implies (#[trigger] before[h]).weight <= batch.weight by {
            assert(!served_before(before[h]@, batch@));
        }
        assert forall|g: int, h: int| 0 <= g < h < batches@.len() implies (#[trigger] batches@[g]).weight >= (
        #[trigger] batches@[h]).weight by {
            let g0 = if g < at { g } else { g - 1 };
            let h0 = if h < at { h } else { h - 1 };
            if g != at {
                assert(batches@[g] == before[g0]);
            }
            if h != at {
                assert(batches@[h] == before[h0]);
            }
            if g != at && h != at {
                assert(before[g0].weight >= before[h0].weight);
            }
            if g == at {
                assert(before[h0].weight <= batch.weight);
            }
        }
    }
    at
}

/// Groups the waiting orders, those whose flag in `done` is not set, by
/// the station where they wait or, with `by_destination`, by the station
/// where they have to go. The heaviest group comes first; of two groups of
/// one weight, the one whose station's name comes later.
pub(crate) fn group_places(orders: &Vec<Order>, done: &Vec<bool>, by_destination: bool) -> (batches: Vec<Batch>)
    requires
        orders@.len() <= u32::MAX,
        done@.len() == orders@.len(),
    ensures
        grouped(orders@, done@, by_destination, batches@),
        groups_in(batches@) == groups(orders@, done@, by_destination),
{
    let mut batches: Vec<Batch> = Vec::new();
    assert(groups_in(batches@) =~= Seq::<Group>::empty());
    let mut k: usize = 0;
    while k < orders.len()
        invariant
            k <= orders@.len(),
            orders@.len() <= u32::MAX,
            done@.len() == orders@.len(),
            grouped_upto(orders@, done@, by_destination, k as int, batches@),
            groups_in(batches@) == groups_upto(orders@, done@, by_destination, k as int),
        decreases orders@.len() - k,
    {
        if !done[k] && !seen_before(orders, done, by_destination, k) {
            let batch = collect_batch(orders, done, by_destination, anchor_of(&orders[k], by_destination));
            let ghost before = batches@;
            proof {
                assert(belongs(orders@, done@, by_destination, batch.station@, k as int));
                assert(among(batch.places@, k as int));
                assert(batch@ == group_of(orders@, done@, by_destination, k as int));
            }
            let at = insert_by_weight(&mut batches, batch);
            proof {
                lemma_group_added(orders@, done@, by_destination, k as int, before, at as int, batch, batches@);
            }
        } else {
            proof {
                lemma_group_kept(orders@, done@, by_destination, k as int, batches@);
            }
        }
        k += 1;
    }
    batches
}

} // verus!
