use std::marker::PhantomData;
use vstd::prelude::*;

verus! {

/// Values of one type, each known by its index, and a table of id lists
/// that values may refer to by a range.
#[derive(Debug, Clone, PartialEq)]
pub struct Arena<V: Clone> {
    values: Vec<V>,
    children: Vec<ArenaId<V>>,
}

impl<V: Clone> Arena<V> {
    pub closed spec fn values(&self) -> Seq<V> {
        self.values@
    }

    pub closed spec fn child_table(&self) -> Seq<ArenaId<V>> {
        self.children@
    }

    pub fn new() -> (r: Self)
        ensures
            r.values() == Seq::<V>::empty(),
            r.child_table() == Seq::<ArenaId<V>>::empty(),
    {
        Self { values: Vec::new(), children: Vec::new() }
    }

    /// How many values the arena holds.
    pub fn len(&self) -> (r: usize)
        ensures
            r == self.values().len(),
    {
        self.values.len()
    }

    /// How many ids the child table holds.
    pub fn n_children(&self) -> (r: usize)
        ensures
            r == self.child_table().len(),
    {
        self.children.len()
    }

    pub fn get(&self, id: ArenaId<V>) -> (r: &V)
        requires
            id.index() < self.values().len(),
        ensures
            *r == self.values()[id.index()],
    {
        &self.values[id.0 as usize]
    }

    pub fn get_children(&self, range: ArenaRange<V>) -> (r: &[ArenaId<V>])
        requires
            range.start() + range.len() <= self.child_table().len(),
        ensures
            r@ == self.child_table().subrange(range.start(), range.start() + range.len()),
    {
        let start = range.0 as usize;
        assert(start + range.1 as usize <= self.children.len());
        vstd::slice::slice_subrange(self.children.as_slice(), start, start + range.1 as usize)
    }

    pub fn push(&mut self, value: V) -> (r: ArenaId<V>)
        requires
            old(self).values().len() < u32::MAX,
        ensures
            final(self).values() == old(self).values().push(value),
            final(self).child_table() == old(self).child_table(),
            r.index() == old(self).values().len(),
    {
        self.values.push(value);
        ArenaId::new((self.values.len() - 1) as u32)
    }

    pub fn push_children(&mut self, children: &[ArenaId<V>]) -> (r: ArenaRange<V>)
        requires
            old(self).child_table().len() + children@.len() <= u32::MAX,
        ensures
            final(self).values() == old(self).values(),
            final(self).child_table() == old(self).child_table() + children@,
            r.start() == old(self).child_table().len(),
            r.len() == children@.len(),
    {
        let range = ArenaRange::new(self.children.len() as u32, children.len() as u32);
        let mut i: usize = 0;
        while i < children.len()
            invariant
                0 <= i <= children@.len(),
                self.values@ == old(self).values@,
                self.children@ == old(self).children@ + children@.take(i as int),
            decreases children@.len() - i,
        {
            self.children.push(children[i]);
            i = i + 1;
            assert(children@.take(i as int) =~= children@.take(i - 1).push(children@[i - 1]));
        }
        assert(children@.take(children@.len() as int) =~= children@);
        range
    }
}

/// A range `start..start + len` of an arena's child table.
#[derive(Debug, PartialEq, Eq)]
pub struct ArenaRange<V>(u32, u32, PhantomData<V>);

impl<V> Clone for ArenaRange<V> {
    fn clone(&self) -> (r: Self)
        ensures
            r == *self,
    {
        ArenaRange(self.0, self.1, PhantomData)
    }
}

impl<V> Copy for ArenaRange<V> {

}

impl<V> ArenaRange<V> {
    pub closed spec fn start(self) -> int {
        self.0 as int
    }

    pub closed spec fn len(self) -> int {
        self.1 as int
    }

    pub fn new(start: u32, len: u32) -> (r: Self)
        ensures
            r.start() == start,
            r.len() == len,
    {
        Self(start, len, PhantomData)
    }
}

/// The index of a value in an arena.
#[derive(Debug, PartialEq, Eq)]
pub struct ArenaId<V>(u32, PhantomData<V>);

impl<V> Clone for ArenaId<V> {
    fn clone(&self) -> (r: Self)
        ensures
            r == *self,
    {
        ArenaId(self.0, PhantomData)
    }
}

impl<V> Copy for ArenaId<V> {

}

impl<V> ArenaId<V> {
    pub closed spec fn index(self) -> int {
        self.0 as int
    }

    pub fn new(id: u32) -> (r: Self)
        ensures
            r.index() == id,
    {
        Self(id, PhantomData)
    }

    /// The index of the id.
    pub fn to_index(&self) -> (r: usize)
        ensures
            r == self.index(),
    {
        self.0 as usize
    }

    /// Whether the two ids are the same.
    pub fn same(&self, other: &Self) -> (r: bool)
        ensures
            r == (*self == *other),
    {
        self.0 == other.0
    }
}

/// A value pushed into an arena is what `get` gives for the id that `push`
/// returned, however many values and id lists are pushed after it.
pub proof fn law_arena_value_kept<V: Clone>(before: Arena<V>, value: V, later: Arena<V>, id: ArenaId<V>)
    requires
        before.values().push(value).is_prefix_of(later.values()),
        id.index() == before.values().len(),
    ensures
        id.index() < later.values().len(),
        later.values()[id.index()] == value,
{
    assert(later.values()[id.index()] == before.values().push(value)[id.index()]);
}

/// An id list pushed into an arena is what `get_children` gives for the
/// range that `push_children` returned, however much is pushed after it.
pub proof fn law_arena_children_kept<V: Clone>(
    before: Arena<V>,
    children: Seq<ArenaId<V>>,
    later: Arena<V>,
    range: ArenaRange<V>,
)
    requires
        (before.child_table() + children).is_prefix_of(later.child_table()),
        range.start() == before.child_table().len(),
        range.len() == children.len(),
    ensures
        range.start() + range.len() <= later.child_table().len(),
        later.child_table().subrange(range.start(), range.start() + range.len()) == children,
{
    let t = later.child_table();
    assert forall|k: int| 0 <= k < children.len() implies t.subrange(
        range.start(),
        range.start() + range.len(),
    )[k] == children[k] by {
        assert(t[range.start() + k] == (before.child_table() + children)[range.start() + k]);
    }
    assert(t.subrange(range.start(), range.start() + range.len()) =~= children);
}

} // verus!
