//! An arena of values, identified by ID. Values are stored in chunks of a
//! fixed size, so that a value never moves once it is inserted.

use vstd::prelude::*;
use std::marker::PhantomData;

verus! {

/// The number of values in each chunk of an arena.
pub const CHUNK_SIZE: usize = 1024;

/// An arena of values, identified by ID.
pub struct Arena<T> {
    chunks: Vec<Vec<T>>,
    len: u32,
}

/// The ID for a value in an arena.
pub struct Id<T> {
    /// The 1-based ID of the value, i.e., the index plus 1.
    id: u32,
    marker: PhantomData<T>,
}

/// Where the value at `i` lies among chunks that hold `len` values: in a
/// chunk that exists, at a slot that the chunk fills.
proof fn lemma_slot(len: int, i: int)
    requires
        0 <= i < len,
    ensures
        0 <= i / 1024 < (len + 1023) / 1024,
        i / 1024 + 1 < (len + 1023) / 1024 ==> i % 1024 < 1024,
        i / 1024 + 1 == (len + 1023) / 1024 ==> i % 1024 < len - (i / 1024) * 1024,
{
}

impl<T> Arena<T> {
    /// Whether the chunks hold `len` values: each chunk but the last is
    /// full, and the last holds the rest.
    pub closed spec fn wf(&self) -> bool {
        &&& self.chunks@.len() == (self.len + 1023) / 1024
        &&& forall|k: int|
            0 <= k < self.chunks@.len() ==> (#[trigger] self.chunks@[k])@.len() == if k + 1 < self.chunks@.len() {
                1024
            } else {
                self.len - k * 1024
            }
    }
}

impl<T> View for Arena<T> {
    type V = Seq<T>;

    /// The values of the arena, in the order they were inserted.
    closed spec fn view(&self) -> Seq<T> {
        Seq::new(self.len as nat, |i: int| self.chunks@[i / 1024]@[i % 1024])
    }
}

impl<T> Id<T> {
    /// The 0-based index of the identified value.
    pub closed spec fn spec_index(self) -> int {
        self.id - 1
    }

    /// Returns the 0-based index of this ID.
    pub fn index(self) -> (i: usize)
        requires
            self.spec_index() >= 0,
        ensures
            i == self.spec_index(),
    {
        (self.id - 1) as usize
    }
}

impl<T> Clone for Id<T> {
    fn clone(&self) -> (r: Self)
        ensures
            r.spec_index() == self.spec_index(),
    {
        Id { id: self.id, marker: PhantomData }
    }
}

impl<T> Copy for Id<T> {
}

impl<T> Arena<T> {
    /// Constructs a new, empty arena.
    pub fn new() -> (a: Self)
        ensures
            a.wf(),
            a@ == Seq::<T>::empty(),
    {
        let a = Arena { chunks: Vec::new(), len: 0 };
        proof {
            assert(a@ =~= Seq::<T>::empty());
        }
        a
    }

    /// Inserts a value into the arena, returning its ID.
    pub fn insert(&mut self, value: T) -> (id: Id<T>)
        requires
            old(self).wf(),
            old(self)@.len() < u32::MAX,
        ensures
            final(self).wf(),
            final(self)@ == old(self)@.push(value),
            id.spec_index() == old(self)@.len(),
    {
        let ghost old_chunks = self.chunks@;
        let len = self.len;
        if len as usize % CHUNK_SIZE == 0 {
            self.chunks.push(Vec::with_capacity(CHUNK_SIZE));
        }
        let ghost grown = self.chunks@;
        let mut chunk = self.chunks.pop().unwrap();
        chunk.push(value);
        self.chunks.push(chunk);
        self.len = len + 1;
        proof {
            let n = len as int;
            assert(self.chunks@.len() == (n + 1 + 1023) / 1024);
            assert forall|k: int| 0 <= k < self.chunks@.len() implies (#[trigger] self.chunks@[k])@.len() == if k + 1
                < self.chunks@.len() {
                1024
            } else {
                self.len - k * 1024
            } by {
                if k + 1 < self.chunks@.len() {
                    assert(self.chunks@[k] == grown[k]);
                    if n % 1024 == 0 {
                        assert(k < old_chunks.len());
                        assert(grown[k] == old_chunks[k]);
                    }
                }
            }
            assert forall|i: int| 0 <= i < n + 1 implies #[trigger] self@[i] == old(self)@.push(value)[i] by {
                if i < n {
                    lemma_slot(n, i);
                    if n % 1024 == 0 {
                        assert(i / 1024 < old_chunks.len());
                        assert(self.chunks@[i / 1024] == old_chunks[i / 1024]);
                    } else if i / 1024 + 1 < old_chunks.len() {
                        assert(self.chunks@[i / 1024] == old_chunks[i / 1024]);
                    }
                }
            }
            assert(self@ =~= old(self)@.push(value));
        }
        Id { id: len + 1, marker: PhantomData }
    }

    /// Returns the value at an index.
    pub fn index(&self, index: usize) -> (r: &T)
        requires
            self.wf(),
            index < self@.len(),
        ensures
            *r == self@[index as int],
    {
        proof {
            lemma_slot(self.len as int, index as int);
        }
        &self.chunks[index / CHUNK_SIZE][index % CHUNK_SIZE]
    }

    /// Returns the number of values in this arena.
    pub fn len(&self) -> (n: usize)
        ensures
            n == self@.len(),
    {
        self.len as usize
    }

    /// Returns whether this arena contains no values.
    pub fn is_empty(&self) -> (b: bool)
        ensures
            b == (self@.len() == 0),
    {
        self.len() == 0
    }

    /// Returns the values of this arena, in the order they were inserted.
    pub fn iter(&self) -> (values: Vec<&T>)
        requires
            self.wf(),
        ensures
            values@.len() == self@.len(),
            forall|i: int| 0 <= i < self@.len() ==> *(#[trigger] values@[i]) == self@[i],
    {
        let mut values: Vec<&T> = Vec::new();
        let mut i: usize = 0;
        while i < self.len()
            invariant
                self.wf(),
                i <= self@.len(),
                values@.len() == i,
                forall|j: int| 0 <= j < i ==> *(#[trigger] values@[j]) == self@[j],
            decreases self@.len() - i,
        {
            values.push(self.index(i));
            i = i + 1;
        }
        values
    }
}

} // verus!
