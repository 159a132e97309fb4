//! Shorthands for long ids.
//!
//! The short ids depend on the order in which they are asked for. They are as
//! wide as the machine's words, so that they do not run out, and the small
//! ones are handed out first.

use std::collections::HashMap;
use vstd::prelude::*;

verus! {

broadcast use vstd::std_specs::hash::group_hash_axioms;

/// A type that stands for a number.
pub trait TypedNumber: Sized {
    type N;

    /// The number that the value stands for.
    spec fn number(&self) -> Self::N;

    fn as_number(&self) -> (n: Self::N)
        ensures
            n == self.number(),
    ;

    fn from_number(n: Self::N) -> (r: Self)
        ensures
            r.number() == n,
    ;
}

impl TypedNumber for u128 {
    type N = Self;

    open spec fn number(&self) -> u128 {
        *self
    }

    fn as_number(&self) -> (n: u128) {
        *self
    }

    fn from_number(n: u128) -> (r: u128) {
        n
    }
}

impl TypedNumber for usize {
    type N = Self;

    open spec fn number(&self) -> usize {
        *self
    }

    fn as_number(&self) -> (n: usize) {
        *self
    }

    fn from_number(n: usize) -> (r: usize) {
        n
    }
}

impl TypedNumber for u32 {
    type N = Self;

    open spec fn number(&self) -> u32 {
        *self
    }

    fn as_number(&self) -> (n: u32) {
        *self
    }

    fn from_number(n: u32) -> (r: u32) {
        n
    }
}

/// Hands out a short id for each long id, and finds the long id again.
pub trait IdCompressor<Long: TypedNumber<N = u128>, Short: TypedNumber<N = usize>> {
    /// The compressor is in order.
    spec fn wf(&self) -> bool;

    /// The long id behind each short id that was handed out.
    spec fn known(&self) -> Map<usize, u128>;

    /// Whether the compressor can take up this long id.
    spec fn has_room(&self, id: u128) -> bool;

    /// The short id for a long id: the one handed out for it before, or a
    /// new one. Short ids handed out before stay as they are.
    fn shorten(&mut self, id: Long) -> (r: Short)
        requires
            old(self).wf(),
            old(self).has_room(id.number()),
        ensures
            final(self).wf(),
            final(self).known().contains_key(r.number()),
            final(self).known()[r.number()] == id.number(),
            old(self).known().submap_of(final(self).known()),
            forall|s: usize|
                old(self).known().contains_key(s) && old(self).known()[s] == id.number() ==> s
                    == r.number(),
    ;

    /// The long id behind a short id that was handed out.
    fn full(&self, id: Short) -> (r: Long)
        requires
            self.wf(),
            self.known().contains_key(id.number()),
        ensures
            r.number() == self.known()[id.number()],
    ;
}

/// Id compressor for ids spread out at random: a short id is the position at
/// which its long id was first asked for.
pub struct Table<Long, Short> {
    vec: Vec<u128>,
    map: HashMap<u128, usize>,
    phantom: core::marker::PhantomData<(Long, Short)>,
}

impl<Long, Short> View for Table<Long, Short> {
    type V = Seq<u128>;

    /// The long ids in the order in which they were first asked for.
    closed spec fn view(&self) -> Seq<u128> {
        self.vec@
    }
}

impl<Long, Short> Table<Long, Short> {
    /// Every long id is listed once, and the map leads to its position.
    pub closed spec fn in_order(&self) -> bool {
        &&& forall|k: u128| #[trigger]
            self.map@.contains_key(k) ==> self.map@[k] < self.vec@.len()
                && self.vec@[self.map@[k] as int] == k
        &&& forall|i: int|
            0 <= i < self.vec@.len() ==> self.map@.contains_key(#[trigger] self.vec@[i])
                && self.map@[self.vec@[i]] == i
    }

    /// No long id is listed twice.
    pub proof fn lemma_no_duplicates(&self)
        requires
            self.in_order(),
        ensures
            self@.no_duplicates(),
    {
        assert forall|i: int, j: int|
            0 <= i < self@.len() && 0 <= j < self@.len() && i != j implies self@[i] != self@[j] by {
            assert(self.map@[self.vec@[i]] == i);
            assert(self.map@[self.vec@[j]] == j);
        }
    }

    /// A table that has handed out no short id yet.
    pub fn new() -> (r: Self)
        ensures
            r.in_order(),
            r@ == Seq::<u128>::empty(),
    {
        Self { vec: Vec::new(), map: HashMap::new(), phantom: core::marker::PhantomData }
    }

    /// Position of a long id, putting it at the end if it is not listed yet.
    pub fn position(&mut self, id: u128) -> (r: usize)
        requires
            old(self).in_order(),
        ensures
            final(self).in_order(),
            r < final(self)@.len(),
            final(self)@[r as int] == id,
            final(self)@ == if old(self)@.contains(id) {
                old(self)@
            } else {
                old(self)@.push(id)
            },
    {
        match self.map.get(&id) {
            Some(found) => {
                let r = *found;
                assert(self@.contains(id)) by {
                    assert(self@[r as int] == id);
                }
                r
            },
            None => {
                assert(!self@.contains(id)) by {
                    if self@.contains(id) {
                        let i = choose|i: int| 0 <= i < self@.len() && self@[i] == id;
                        assert(self.map@.contains_key(self.vec@[i]));
                    }
                }
                self.vec.push(id);
                let r = self.vec.len() - 1;
                self.map.insert(id, r);
                r
            },
        }
    }

    /// Number of long ids listed.
    pub fn len(&self) -> (r: usize)
        ensures
            r == self@.len(),
    {
        self.vec.len()
    }

    /// Whether a long id is listed.
    pub fn holds(&self, id: u128) -> (r: bool)
        requires
            self.in_order(),
        ensures
            r == self@.contains(id),
    {
        match self.map.get(&id) {
            Some(found) => {
                assert(self@[*found as int] == id);
                true
            },
            None => {
                proof {
                    if self@.contains(id) {
                        let i = choose|i: int| 0 <= i < self@.len() && self@[i] == id;
                        assert(self.map@.contains_key(self.vec@[i]));
                    }
                }
                false
            },
        }
    }

    /// The long id at a position.
    pub fn at(&self, position: usize) -> (r: u128)
        requires
            position < self@.len(),
        ensures
            r == self@[position as int],
    {
        self.vec[position]
    }
}

impl<Long, Short> IdCompressor<Long, Short> for Table<Long, Short> where
    Short: TypedNumber<N = usize> + Copy,
    Long: TypedNumber<N = u128> + Copy,
 {
    open spec fn wf(&self) -> bool {
        self.in_order()
    }

    open spec fn known(&self) -> Map<usize, u128> {
        Map::new(|s: usize| s < self@.len(), |s: usize| self@[s as int])
    }

    open spec fn has_room(&self, id: u128) -> bool {
        true
    }

    fn shorten(&mut self, id: Long) -> (r: Short) {
        proof {
            self.lemma_no_duplicates();
        }
        let position = self.position(id.as_number());
        proof {
            assert forall|s: usize|
                old(self).known().contains_key(s) && old(self).known()[s] == id.number() implies s
                    == position by {
                assert(old(self)@.contains(id.number()));
                self.lemma_no_duplicates();
            }
        }
        Short::from_number(position)
    }

    fn full(&self, id: Short) -> (r: Long) {
        Long::from_number(self.at(id.as_number()))
    }
}


/// Number of low bits of an id that a `RangeTable` leaves as they are.
pub const SHIFT: usize = 10;

/// The low `SHIFT` bits.
pub const MASK_LOW: usize = 1023;

/// Number of ids that share their high bits: two to the power of `SHIFT`.
pub open spec fn block() -> int {
    1024
}

/// Id compressor for ids that lie close together. Shortens all but the low
/// `SHIFT` bits through a `Table` and leaves those bits unchanged.
///
/// The table then needs one entry for a whole block of ids, at the cost of
/// going through the short ids faster where the ids do not lie together.
/// Consecutive long ids do not in general get consecutive short ids.
pub struct RangeTable<Long, Short> {
    table: Table<u128, usize>,
    phantom: core::marker::PhantomData<(Long, Short)>,
}

impl<Long, Short> RangeTable<Long, Short> {
    /// The high bits of the long ids, in the order in which they were first
    /// asked for.
    pub closed spec fn blocks(&self) -> Seq<u128> {
        self.table@
    }

    /// The table is in order, its entries are high bits of ids, and a short
    /// id for each of them fits in a `usize`.
    pub closed spec fn in_order(&self) -> bool {
        &&& self.table.in_order()
        &&& self.table@.len() * block() <= usize::MAX + 1
        &&& forall|i: int|
            0 <= i < self.table@.len() ==> (#[trigger] self.table@[i]) * block() + block()
                <= u128::MAX + 1
    }

    /// A table that has handed out no short id yet.
    pub fn new() -> (r: Self)
        ensures
            r.in_order(),
            r.blocks() == Seq::<u128>::empty(),
    {
        Self { table: Table::new(), phantom: core::marker::PhantomData }
    }

    /// Number of blocks of ids that the table has taken up.
    pub fn block_count(&self) -> (r: usize)
        ensures
            r == self.blocks().len(),
    {
        self.table.len()
    }

    /// Whether one more block of short ids fits in a `usize`.
    pub fn room_left(&self) -> (r: bool)
        ensures
            r == ((self.blocks().len() + 1) * block() <= usize::MAX + 1),
    {
        assert(usize::MAX == 0xffff_ffff || usize::MAX == 0xffff_ffff_ffff_ffff);
        self.table.len() <= usize::MAX / 1024
    }

    /// Position of the block of a long id, taking the block up if it is new.
    /// `None`, and nothing changed, if the block is new and there is no room.
    fn block_position(&mut self, inner_id: u128) -> (r: Option<usize>)
        requires
            old(self).in_order(),
            inner_id * block() + block() <= u128::MAX + 1,
        ensures
            final(self).in_order(),
            old(self).blocks().is_prefix_of(final(self).blocks()),
            match r {
                Some(p) => p < final(self).blocks().len() && final(self).blocks()[p as int]
                    == inner_id,
                None => final(self).blocks() == old(self).blocks(),
            },
            old(self).blocks().contains(inner_id) ==> {
                &&& r is Some
                &&& final(self).blocks() == old(self).blocks()
            },
            !old(self).blocks().contains(inner_id) && (old(self).blocks().len() + 1) * block()
                <= usize::MAX + 1 ==> {
                &&& r == Some(old(self).blocks().len() as usize)
                &&& final(self).blocks() == old(self).blocks().push(inner_id)
            },
    {
        if !self.table.holds(inner_id) && !self.room_left() {
            return None;
        }
        let p = self.table.position(inner_id);
        proof {
            if old(self).table@.contains(inner_id) {
                assert(self.table@ == old(self).table@);
            } else {
                assert(self.table@ == old(self).table@.push(inner_id));
            }
        }
        Some(p)
    }
}

/// Whether none of the blocks of the long ids from `start` through `end` was
/// taken up yet, and there is room for all of them.
pub open spec fn can_take_up(blocks: Seq<u128>, start: u128, end: u128) -> bool {
    &&& start <= end
    &&& forall|b: u128| start / 1024 <= b <= end / 1024 ==> !blocks.contains(b)
    &&& (blocks.len() + (end / 1024 - start / 1024) + 1) * block() <= usize::MAX + 1
}

/// The short id of `x` in a range of consecutive short ids in which `start`
/// has the short id `first`.
pub open spec fn nth_short(first: usize, start: u128, x: u128) -> usize {
    (first + (x - start)) as usize
}

/// Taking an id apart into its high and its low bits, and putting it
/// together again, is dividing by the size of a block and multiplying again.
proof fn lemma_bits_are_arithmetic(id: u128, high: u64, low: u64)
    requires
        low < 1024,
        high < 0x40_0000_0000_0000,
    ensures
        id >> 10 == id / 1024,
        id & 1023 == id % 1024,
        (high << 10) | low == high * 1024 + low,
        id >> 10 <= 0x3f_ffff_ffff_ffff_ffff_ffff_ffff_ffff,
{
    assert(id >> 10 == id / 1024) by (bit_vector);
    assert(id & 1023 == id % 1024) by (bit_vector);
    assert((high << 10) | low == high * 1024 + low) by (bit_vector)
        requires
            low < 1024,
            high < 0x40_0000_0000_0000,
    ;
    assert(id >> 10 <= 0x3f_ffff_ffff_ffff_ffff_ffff_ffff_ffff) by (bit_vector);
}

/// The same for taking a short id apart.
proof fn lemma_short_bits(short: u64)
    ensures
        short >> 10 == short / 1024,
        short & 1023 == short % 1024,
{
    assert(short >> 10 == short / 1024) by (bit_vector);
    assert(short & 1023 == short % 1024) by (bit_vector);
}

/// The same for putting a long id together.
proof fn lemma_long_bits(high: u128, low: u128)
    requires
        low < 1024,
        high <= 0x3f_ffff_ffff_ffff_ffff_ffff_ffff_ffff,
    ensures
        (high << 10) | low == high * 1024 + low,
{
    assert((high << 10) | low == high * 1024 + low) by (bit_vector)
        requires
            low < 1024,
            high <= 0x3f_ffff_ffff_ffff_ffff_ffff_ffff_ffff,
    ;
}

impl<Long, Short> IdCompressor<Long, Short> for RangeTable<Long, Short> where
    Short: TypedNumber<N = usize> + Copy,
    Long: TypedNumber<N = u128> + Copy,
 {
    open spec fn wf(&self) -> bool {
        self.in_order()
    }

    /// A short id is known when its high bits are a position of the table;
    /// the long id behind it has the entry at that position for its high
    /// bits, and the same low bits.
    open spec fn known(&self) -> Map<usize, u128> {
        Map::new(
            |s: usize| s / 1024 < self.blocks().len(),
            |s: usize| (self.blocks()[s as int / block()] * block() + s % 1024) as u128,
        )
    }

    /// There is room while one more block of short ids fits in a `usize`.
    open spec fn has_room(&self, id: u128) -> bool {
        (self.blocks().len() + 1) * block() <= usize::MAX + 1
    }

    fn shorten(&mut self, id: Long) -> (r: Short) {
        let long = id.as_number();
        let inner_id = long >> 10;
        let low = (long & 1023) as u64;
        proof {
            self.table.lemma_no_duplicates();
            lemma_bits_are_arithmetic(long, 0, 0);
        }
        let inner = self.table.position(inner_id) as u64;
        proof {
            self.table.lemma_no_duplicates();
            lemma_bits_are_arithmetic(long, inner, low);
        }
        let short = ((inner << 10) | low) as usize;
        proof {
            assert(short / 1024 == inner && short % 1024 == low) by (nonlinear_arith)
                requires
                    short == inner * 1024 + low,
                    0 <= low < 1024,
            ;
            assert forall|s: usize| #[trigger]
                old(self).known().contains_key(s) && old(self).known()[s] == long implies s
                == short by {
                let at = s as int / 1024;
                let entry = old(self).blocks()[at];
                assert(entry == long / 1024 && s % 1024 == long % 1024) by (nonlinear_arith)
                    requires
                        entry * 1024 + s % 1024 == long,
                        0 <= s % 1024 < 1024,
                        0 <= entry,
                ;
                assert(old(self).blocks().contains(inner_id));
                assert(self.blocks()[at] == inner_id);
                assert(at == inner);
                assert(s == short) by (nonlinear_arith)
                    requires
                        s / 1024 == inner,
                        s % 1024 == low,
                        short == inner * 1024 + low,
                        s == 1024 * (s / 1024) + s % 1024,
                ;
            }
            Self::lemma_known_grows(old(self), self);
        }
        Short::from_number(short)
    }

    fn full(&self, id: Short) -> (r: Long) {
        let short = id.as_number() as u64;
        proof {
            lemma_short_bits(short);
        }
        let inner_id = (short >> 10) as usize;
        let inner = self.table.at(inner_id);
        let low = (short & 1023) as u128;
        proof {
            lemma_long_bits(inner, low);
        }
        Long::from_number((inner << 10) | low)
    }
}


impl<Long, Short> RangeTable<Long, Short> where
    Short: TypedNumber<N = usize> + Copy,
    Long: TypedNumber<N = u128> + Copy,
 {
    /// A table that only took up more blocks knows every short id it knew.
    proof fn lemma_known_grows(before: &Self, after: &Self)
        requires
            before.blocks().is_prefix_of(after.blocks()),
        ensures
            before.known().submap_of(after.known()),
    {
        assert forall|s: usize| before.known().contains_key(s) implies #[trigger] after.known()
            .contains_key(s) && after.known()[s] == before.known()[s] by {}
    }

    /// Whether a short id was handed out, so that `full` can be asked for it.
    pub fn knows(&self, id: Short) -> (r: bool)
        ensures
            r == self.known().contains_key(id.number()),
    {
        let short = id.as_number() as u64;
        proof {
            lemma_short_bits(short);
        }
        ((short >> 10) as usize) < self.table.len()
    }

    /// Short ids for a range of long ids, from `start` through `end`, such
    /// that consecutive long ids get consecutive short ids. Returns the first
    /// and the last short id of the range.
    ///
    /// This works out where the blocks of the range have never been seen
    /// before, and where the range is part of a range that was reserved
    /// before. Where it does not work out, or where `end` lies before
    /// `start`, the result is `None`; blocks taken up until then stay.
    /// Ranges are in effect rounded down and up to whole blocks.
    pub fn reserve_range(&mut self, start: Long, end: Long) -> (r: Option<(Short, Short)>)
        requires
            old(self).in_order(),
        ensures
            final(self).in_order(),
            old(self).known().submap_of(final(self).known()),
            r matches Some((first, last)) ==> {
                &&& start.number() <= end.number()
                &&& last.number() - first.number() == end.number() - start.number()
                &&& forall|x: u128|
                    start.number() <= x <= end.number() ==> final(self).known().contains_key(
                        #[trigger] nth_short(first.number(), start.number(), x),
                    ) && final(self).known()[nth_short(first.number(), start.number(), x)] == x
            },
            can_take_up(old(self).blocks(), start.number(), end.number()) ==> r is Some,
    {
        let ghost fresh = can_take_up(old(self).blocks(), start.number(), end.number());
        let from = start.as_number();
        let to = end.as_number();
        if from > to {
            return None;
        }
        let inner_start = from >> 10;
        let inner_end = to >> 10;
        proof {
            lemma_bits_are_arithmetic(from, 0, 0);
            lemma_bits_are_arithmetic(to, 0, 0);
            assert(inner_start <= inner_end) by (nonlinear_arith)
                requires
                    inner_start == from / 1024,
                    inner_end == to / 1024,
                    from <= to,
            ;
        }
        proof {
            if fresh {
                assert(0 <= (inner_end - inner_start) * block());
                assert(!old(self).blocks().contains(inner_start));
            }
        }
        let base = match self.block_position(inner_start) {
            Some(p) => p,
            None => {
                proof {
                    Self::lemma_known_grows(old(self), self);
                }
                return None;
            },
        };
        let mut previous = base;
        let mut i = inner_start;
        while i < inner_end
            invariant
                self.in_order(),
                old(self).blocks().is_prefix_of(self.blocks()),
                inner_start <= i <= inner_end,
                inner_end <= 0x3f_ffff_ffff_ffff_ffff_ffff_ffff_ffff,
                previous == base + (i - inner_start),
                base + (i - inner_start) < self.blocks().len(),
                fresh == can_take_up(old(self).blocks(), from, to),
                from == start.number(),
                to == end.number(),
                inner_start == from / 1024,
                inner_end == to / 1024,
                fresh ==> base == old(self).blocks().len() && self.blocks().len() == base + (i
                    - inner_start) + 1,
                forall|b: u128|
                    inner_start <= b <= i ==> #[trigger] self.blocks()[base + (b - inner_start)] == b,
            decreases inner_end - i,
        {
            i += 1;
            let ghost before = self.blocks();
            proof {
                if fresh {
                    assert(!old(self).blocks().contains(i));
                    assert(!before.contains(i)) by {
                        if before.contains(i) {
                            let at = choose|at: int| 0 <= at < before.len() && before[at] == i;
                            if at < base {
                                assert(old(self).blocks()[at] == before[at]);
                            } else {
                                let b = (inner_start + (at - base)) as u128;
                                assert(before[base + (b - inner_start)] == b);
                            }
                        }
                    }
                    let all = old(self).blocks().len() + (inner_end - inner_start) + 1;
                    assert((before.len() + 1) * block() <= usize::MAX + 1) by (nonlinear_arith)
                        requires
                            before.len() + 1 <= all,
                            all * block() <= usize::MAX + 1,
                            block() == 1024,
                    ;
                }
            }
            match self.block_position(i) {
                Some(short) => {
                    if short == 0 || previous != short - 1 {
                        proof {
                            Self::lemma_known_grows(old(self), self);
                        }
                        return None;
                    }
                    previous = short;
                    proof {
                        assert forall|b: u128| inner_start <= b <= i implies #[trigger] self
                            .blocks()[base + (b - inner_start)] == b by {
                            if b < i {
                                assert(before[base + (b - inner_start)] == b);
                            }
                        }
                    }
                },
                None => {
                    proof {
                        Self::lemma_known_grows(old(self), self);
                    }
                    return None;
                },
            }
        }
        let low_first = (from & 1023) as u64;
        let low_last = (to & 1023) as u64;
        proof {
            lemma_bits_are_arithmetic(from, base as u64, low_first);
            lemma_bits_are_arithmetic(to, previous as u64, low_last);
        }
        let first = ((base as u64) << 10 | low_first) as usize;
        let last = ((previous as u64) << 10 | low_last) as usize;
        proof {
            Self::lemma_known_grows(old(self), self);
            assert forall|x: u128| from <= x <= to implies self.known().contains_key(
                #[trigger] nth_short(first, from, x),
            ) && self.known()[nth_short(first, from, x)] == x by {
                let b = x / 1024;
                let low = x % 1024;
                assert(inner_start <= b <= inner_end && first + (x - from) == (base + (b
                    - inner_start)) * 1024 + low) by (nonlinear_arith)
                    requires
                        from <= x <= to,
                        b == x / 1024,
                        low == x % 1024,
                        inner_start == from / 1024,
                        inner_end == to / 1024,
                        first == base * 1024 + from % 1024,
                ;
                let at = base + (b - inner_start);
                let short = (first + (x - from)) as usize;
                assert(self.blocks()[at] == b);
                assert(at * 1024 + low <= usize::MAX) by (nonlinear_arith)
                    requires
                        at < self.blocks().len(),
                        self.blocks().len() * 1024 <= usize::MAX + 1,
                        0 <= low < 1024,
                ;
                assert(short / 1024 == at && short % 1024 == low) by (nonlinear_arith)
                    requires
                        short == at * 1024 + low,
                        0 <= low < 1024,
                ;
            }
        }
        Some((Short::from_number(first), Short::from_number(last)))
    }
}

} // verus!
