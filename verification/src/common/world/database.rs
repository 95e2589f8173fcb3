use crate::common::world::chunk::{
    block_map, has_offset, lemma_block_map_index, lemma_block_map_push, lemma_block_map_remove, unique_offsets,
};
use crate::common::world::point::Point3;
use vstd::prelude::*;

verus! {

/// A loaded chunk of the world database: the chunk of the server, of type `S`, with what the
/// server keeps of it, or the chunk of a client, of type `C`.
#[derive(Clone, Copy, Debug, PartialEq, Eq)]
pub enum Entry<S, C> {
    Server(S),
    Client(C),
}

impl<S, C> Entry<S, C> {
    /// A server entry.
    pub fn from_server(server: S) -> (r: Self)
        ensures
            r == Entry::<S, C>::Server(server),
    {
        Entry::Server(server)
    }

    /// A client entry.
    pub fn from_client(client: C) -> (r: Self)
        ensures
            r == Entry::<S, C>::Client(client),
    {
        Entry::Client(client)
    }

    /// The chunk of a server entry.
    pub fn unwrap_server(&self) -> (r: &S)
        requires
            self is Server,
        ensures
            *r == self->Server_0,
    {
        match self {
            Entry::Server(chunk) => chunk,
            Entry::Client(_) => {
                proof {
                    assert(false);
                }
                unreached()
            },
        }
    }

    /// The chunk of a client entry.
    pub fn unwrap_client(&self) -> (r: &C)
        requires
            self is Client,
        ensures
            *r == self->Client_0,
    {
        match self {
            Entry::Client(chunk) => chunk,
            Entry::Server(_) => {
                proof {
                    assert(false);
                }
                unreached()
            },
        }
    }

    /// What `on_server` makes of the chunk of a server entry, or `on_client` of the chunk of a
    /// client entry.
    pub fn map_chunk<R, F: FnOnce(&S) -> R, G: FnOnce(&C) -> R>(&self, on_server: F, on_client: G) -> (r: R)
        requires
            self matches Entry::Server(s) ==> on_server.requires((&s,)),
            self matches Entry::Client(c) ==> on_client.requires((&c,)),
        ensures
            self matches Entry::Server(s) ==> on_server.ensures((&s,), r),
            self matches Entry::Client(c) ==> on_client.ensures((&c,), r),
    {
        match self {
            Entry::Server(chunk) => on_server(chunk),
            Entry::Client(chunk) => on_client(chunk),
        }
    }
}

/// A change of the loaded world told to listeners: the chunk at a coordinate was inserted, or
/// dropped, with its blocks, of type `T`.
#[derive(Clone, Debug, PartialEq, Eq)]
pub enum Update<T> {
    Inserted(Point3<i64>, Vec<T>),
    Dropped(Point3<i64>, Vec<T>),
}

/// The updates told when a chunk with blocks `inserted` is inserted at `coordinate`: where it
/// replaces a chunk, whose blocks were `previous`, that one dropped first, then this one inserted.
pub fn insert_updates<T>(coordinate: Point3<i64>, previous: Option<Vec<T>>, inserted: Vec<T>) -> (r: Vec<Update<T>>)
    ensures
        r@ == match previous {
            Some(blocks) => seq![Update::Dropped(coordinate, blocks), Update::Inserted(coordinate, inserted)],
            None => seq![Update::Inserted(coordinate, inserted)],
        },
{
    let mut updates: Vec<Update<T>> = Vec::new();
    if let Some(blocks) = previous {
        updates.push(Update::Dropped(coordinate, blocks));
    }
    updates.push(Update::Inserted(coordinate, inserted));
    proof {
        assert(updates@ =~= match previous {
            Some(blocks) => seq![Update::Dropped(coordinate, blocks), Update::Inserted(coordinate, inserted)],
            None => seq![Update::Inserted(coordinate, inserted)],
        });
    }
    updates
}

/// The updates told when the chunk at `coordinate` is removed: dropped, with its blocks
/// `previous`, where there was one.
pub fn remove_updates<T>(coordinate: Point3<i64>, previous: Option<Vec<T>>) -> (r: Vec<Update<T>>)
    ensures
        r@ == match previous {
            Some(blocks) => seq![Update::Dropped(coordinate, blocks)],
            None => Seq::<Update<T>>::empty(),
        },
{
    let mut updates: Vec<Update<T>> = Vec::new();
    if let Some(blocks) = previous {
        updates.push(Update::Dropped(coordinate, blocks));
    }
    proof {
        assert(updates@ =~= match previous {
            Some(blocks) => seq![Update::Dropped(coordinate, blocks)],
            None => Seq::<Update<T>>::empty(),
        });
    }
    updates
}

/// The loaded chunks of the world, each an entry of type `E`, by chunk coordinate.
pub struct Database<E> {
    chunks: Vec<(Point3<i64>, E)>,
}

impl<E> View for Database<E> {
    type V = Map<Point3<i64>, E>;

    /// The entry of each loaded chunk, by coordinate.
    closed spec fn view(&self) -> Map<Point3<i64>, E> {
        block_map(self.chunks@)
    }
}

impl<E> Database<E> {
    /// No coordinate holds two entries.
    pub closed spec fn wf(&self) -> bool {
        unique_offsets(self.chunks@)
    }

    /// No chunk is loaded.
    pub fn new() -> (r: Self)
        ensures
            r.wf(),
            r@ == Map::<Point3<i64>, E>::empty(),
    {
        let r = Database { chunks: Vec::new() };
        proof {
            assert(r@ =~= Map::<Point3<i64>, E>::empty());
        }
        r
    }

    /// The index of the entry at `coordinate`, if there is one.
    fn find(&self, coordinate: &Point3<i64>) -> (r: Option<usize>)
        requires
            self.wf(),
        ensures
            r matches Some(i) ==> i < self.chunks@.len() && self.chunks@[i as int].0 == *coordinate,
            r is None ==> !has_offset(self.chunks@, *coordinate),
    {
        let mut i: usize = 0;
        while i < self.chunks.len()
            invariant
                i <= self.chunks@.len(),
                forall|j: int| 0 <= j < i ==> #[trigger] self.chunks@[j].0 != *coordinate,
            decreases self.chunks@.len() - i,
        {
            if self.chunks[i].0 == *coordinate {
                return Some(i);
            }
            i = i + 1;
        }
        None
    }

    /// Loads `entry` at `coordinate`; returns the entry it replaces, if any.
    pub fn insert_chunk(&mut self, coordinate: Point3<i64>, entry: E) -> (r: Option<E>)
        requires
            old(self).wf(),
        ensures
            final(self).wf(),
            final(self)@ == old(self)@.insert(coordinate, entry),
            r is Some <==> old(self)@.contains_key(coordinate),
            r matches Some(e) ==> e == old(self)@[coordinate],
    {
        match self.find(&coordinate) {
            Some(i) => {
                proof {
                    lemma_block_map_index(self.chunks@, i as int);
                    lemma_block_map_remove(self.chunks@, i as int);
                }
                let (_, previous) = self.chunks.remove(i);
                proof {
                    assert(!has_offset(self.chunks@, coordinate)) by {
                        if has_offset(self.chunks@, coordinate) {
                            let k = choose|k: int| 0 <= k < self.chunks@.len() && #[trigger] self.chunks@[k].0 == coordinate;
                            assert(block_map(self.chunks@).contains_key(coordinate));
                        }
                    }
                    lemma_block_map_push(self.chunks@, coordinate, entry);
                }
                self.chunks.push((coordinate, entry));
                proof {
                    assert(self@ =~= old(self)@.insert(coordinate, entry));
                }
                Some(previous)
            },
            None => {
                proof {
                    lemma_block_map_push(self.chunks@, coordinate, entry);
                }
                self.chunks.push((coordinate, entry));
                None
            },
        }
    }

    /// Unloads the chunk at `coordinate`; returns its entry, if it was loaded.
    pub fn remove_chunk(&mut self, coordinate: &Point3<i64>) -> (r: Option<E>)
        requires
            old(self).wf(),
        ensures
            final(self).wf(),
            final(self)@ == old(self)@.remove(*coordinate),
            r is Some <==> old(self)@.contains_key(*coordinate),
            r matches Some(e) ==> e == old(self)@[*coordinate],
    {
        match self.find(coordinate) {
            Some(i) => {
                proof {
                    lemma_block_map_index(self.chunks@, i as int);
                    lemma_block_map_remove(self.chunks@, i as int);
                }
                let (_, previous) = self.chunks.remove(i);
                Some(previous)
            },
            None => {
                proof {
                    assert(self@ =~= old(self)@.remove(*coordinate));
                }
                None
            },
        }
    }

    /// The entry of the chunk at `coordinate`, if it is loaded.
    pub fn find_chunk(&self, coordinate: &Point3<i64>) -> (r: Option<&E>)
        requires
            self.wf(),
        ensures
            r is Some <==> self@.contains_key(*coordinate),
            r matches Some(e) ==> *e == self@[*coordinate],
    {
        match self.find(coordinate) {
            Some(i) => {
                proof {
                    lemma_block_map_index(self.chunks@, i as int);
                }
                Some(&self.chunks[i].1)
            },
            None => None,
        }
    }
}

} // verus!
