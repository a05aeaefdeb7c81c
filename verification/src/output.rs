use vstd::prelude::*;
use vstd::utf8::encode_utf8;
use crate::solver::order_sorter::{bytes_le, str_le};

verus! {

/// One leg of one train: it leaves `from` at `time` with `load` taken on
/// board there, and sets `unload` down on arrival at `to`.
#[derive(Debug, Clone, PartialEq, Eq)]
pub struct Move {
    pub time: u32,
    pub train: String,
    pub from: String,
    pub load: Vec<String>,
    pub to: String,
    pub unload: Vec<String>,
}

impl Move {
    pub fn new(
        time: u32,
        train: String,
        from: String,
        load: Vec<String>,
        to: String,
        unload: Vec<String>,
    ) -> (mv: Self)
        ensures
            mv.time == time,
            mv.train == train,
            mv.from == from,
            mv.load == load,
            mv.to == to,
            mv.unload == unload,
    {
        Self { time, train, from, load, to, unload }
    }
}

/// A plan: the legs in the order in which they were decided, and the moment
/// at which the last train comes to rest.
#[derive(Debug, Clone, PartialEq, Eq)]
pub struct Output {
    pub moves: Vec<Move>,
    pub total_time: u32,
}

impl Output {
    pub fn new(moves: Vec<Move>, total_time: u32) -> (out: Self)
        ensures
            out.moves == moves,
            out.total_time == total_time,
    {
        Self { moves, total_time }
    }

    pub fn total_time(&self) -> (time: u32)
        ensures
            time == self.total_time,
    {
        self.total_time
    }

    /// The plan with its legs by the moment at which they start; legs that
    /// start together keep their order.
    pub fn sort_by_time(&self) -> (sorted: Self)
        ensures
            sorted.total_time == self.total_time,
            legs(sorted.moves@) == lined_up(legs(self.moves@), false),
    {
        Self { moves: line_up(&self.moves, false), total_time: self.total_time }
    }

    /// The plan with its legs by the name of their train; the legs of one
    /// train keep their order.
    pub fn sort_by_train(&self) -> (sorted: Self)
        ensures
            sorted.total_time == self.total_time,
            legs(sorted.moves@) == lined_up(legs(self.moves@), true),
    {
        Self { moves: line_up(&self.moves, true), total_time: self.total_time }
    }
}

/// What a leg says, as plain values.
pub struct Leg {
    pub time: u32,
    pub train: Seq<char>,
    pub from: Seq<char>,
    pub load: Seq<Seq<char>>,
    pub to: Seq<char>,
    pub unload: Seq<Seq<char>>,
}

/// The names in a list.
pub open spec fn names_in(list: Seq<String>) -> Seq<Seq<char>> {
    Seq::new(list.len(), |i: int| list[i]@)
}

impl View for Move {
    type V = Leg;

    open spec fn view(&self) -> Leg {
        Leg {
            time: self.time,
            train: self.train@,
            from: self.from@,
            load: names_in(self.load@),
            to: self.to@,
            unload: names_in(self.unload@),
        }
    }
}

/// What the legs say, in their order.
pub open spec fn legs(moves: Seq<Move>) -> Seq<Leg> {
    Seq::new(moves.len(), |i: int| moves[i]@)
}

/// Whether leg `a` may stand before leg `b`: by the name of the train, or
/// by the moment at which it starts.
pub open spec fn leg_le(by_train: bool, a: Leg, b: Leg) -> bool {
    if by_train {
        bytes_le(encode_utf8(a.train), encode_utf8(b.train))
    } else {
        a.time <= b.time
    }
}

/// `row` with `x` put behind the last leg that may stand before it.
pub open spec fn leg_inserted(row: Seq<Leg>, x: Leg, by_train: bool) -> Seq<Leg>
    decreases row.len(),
{
    if row.len() == 0 {
        seq![x]
    } else if leg_le(by_train, row.last(), x) {
        row.push(x)
    } else {
        leg_inserted(row.drop_last(), x, by_train).push(row.last())
    }
}

/// The legs in a row, smallest first; legs that rank the same keep their
/// order.
pub open spec fn lined_up(row: Seq<Leg>, by_train: bool) -> Seq<Leg>
    decreases row.len(),
{
    if row.len() == 0 {
        row
    } else {
        leg_inserted(lined_up(row.drop_last(), by_train), row.last(), by_train)
    }
}

/// Putting `x` at the place behind the last leg that may stand before it is
/// inserting it.
pub(crate) proof fn lemma_leg_inserted_at(row: Seq<Leg>, x: Leg, by_train: bool, at: int)
    requires
        0 <= at <= row.len(),
        forall|j: int| at <= j < row.len() ==> !leg_le(by_train, #[trigger] row[j], x),
        at > 0 ==> leg_le(by_train, row[at - 1], x),
    ensures
        leg_inserted(row, x, by_train) == row.insert(at, x),
    decreases row.len(),
{
    if row.len() == 0 {
        assert(row.insert(0, x) =~= seq![x]);
    } else if at == row.len() {
        assert(row.insert(at, x) =~= row.push(x));
    } else {
        assert(!leg_le(by_train, row[row.len() - 1], x));
        lemma_leg_inserted_at(row.drop_last(), x, by_train, at);
        assert(row.drop_last().insert(at, x).push(row.last()) =~= row.insert(at, x));
    }
}

/// A copy of a list of names.
pub(crate) fn copy_names(list: &Vec<String>) -> (copy: Vec<String>)
    ensures
        copy@ == list@,
{
    let mut copy: Vec<String> = Vec::new();
    let mut k: usize = 0;
    while k < list.len()
        invariant
            k <= list@.len(),
            copy@ == list@.take(k as int),
        decreases list@.len() - k,
    {
        copy.push(list[k].clone());
        assert(copy@ =~= list@.take(k + 1));
        k += 1;
    }
    assert(list@.take(k as int) =~= list@);
    copy
}

/// Whether leg `a` may stand before leg `b`.
pub(crate) fn leg_before(by_train: bool, a: &Move, b: &Move) -> (le: bool)
    ensures
        le == leg_le(by_train, a@, b@),
{
    if by_train {
        str_le(a.train.as_str(), b.train.as_str())
    } else {
        a.time <= b.time
    }
}

/// The legs in a row, smallest first; legs that rank the same keep their
/// order.
pub(crate) fn line_up(moves: &Vec<Move>, by_train: bool) -> (sorted: Vec<Move>)
    ensures
        legs(sorted@) == lined_up(legs(moves@), by_train),
{
    let mut sorted: Vec<Move> = Vec::new();
    let mut k: usize = 0;
    assert(legs(moves@).take(0) =~= Seq::<Leg>::empty());
    assert(legs(sorted@) =~= Seq::<Leg>::empty());
    while k < moves.len()
        invariant
            k <= moves@.len(),
            legs(sorted@) == lined_up(legs(moves@).take(k as int), by_train),
        decreases moves@.len() - k,
    {
        let leg = &moves[k];
        let load = copy_names(&leg.load);
        let unload = copy_names(&leg.unload);
        let x = Move::new(leg.time, leg.train.clone(), leg.from.clone(), load, leg.to.clone(), unload);
        assert(x@ == leg@);
        let mut at: usize = sorted.len();
        while at > 0 && !leg_before(by_train, &sorted[at - 1], &x)
            invariant
                at <= sorted@.len(),
                forall|j: int| at <= j < sorted@.len() ==> !leg_le(by_train, (#[trigger] sorted@[j])@, x@),
            decreases at,
        {
            at -= 1;
        }
        let ghost before = sorted@;
        sorted.insert(at, x);
        proof {
            assert forall|j: int| at <= j < legs(before).len() implies !leg_le(by_train, #[trigger] legs(before)[j], x@) by {
                assert(!leg_le(by_train, before[j]@, x@));
            }
            lemma_leg_inserted_at(legs(before), x@, by_train, at as int);
            assert(legs(moves@).take(k + 1).drop_last() =~= legs(moves@).take(k as int));
            assert(legs(moves@).take(k + 1).last() == x@);
            assert(legs(sorted@) =~= legs(before).insert(at as int, x@));
        }
        k += 1;
    }
    assert(legs(moves@).take(k as int) =~= legs(moves@));
    sorted
}

} // verus!
