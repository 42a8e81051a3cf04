//! The grids of the prepared maps, kept by map name.
//!
//! As in the registry of names, the names are kept in a list and found by
//! comparing texts, for want of a hash map keyed by `String` that a proof
//! could rest on.  No name is listed twice.

use crate::grid::Grid;
use vstd::prelude::*;

verus! {

/// The grid of each prepared map.  `names[i]` is the name of the map whose
/// grid is `grids[i]`.
pub struct GridStore {
    pub names: Vec<String>,
    pub grids: Vec<Grid>,
}

impl GridStore {
    /// The store has one grid for each name, no name twice, and every grid
    /// is sound.
    pub open spec fn wf(&self) -> bool {
        &&& self.names@.len() == self.grids@.len()
        &&& forall|i: int, j: int|
            0 <= i < j < self.names@.len() ==> (#[trigger] self.names@[i])@ != (
            #[trigger] self.names@[j])@
        &&& forall|i: int| 0 <= i < self.grids@.len() ==> (#[trigger] self.grids@[i]).wf()
    }

    /// Whether the store has a grid under `name`.
    pub open spec fn has(&self, name: Seq<char>) -> bool {
        exists|i: int| 0 <= i < self.names@.len() && (#[trigger] self.names@[i])@ == name
    }

    /// The position of the grid stored under `name`.
    pub open spec fn position(&self, name: Seq<char>) -> int {
        choose|i: int| 0 <= i < self.names@.len() && (#[trigger] self.names@[i])@ == name
    }

    /// The grid stored under `name`, if there is one.
    pub open spec fn lookup(&self, name: Seq<char>) -> Option<Grid> {
        if self.has(name) {
            Some(self.grids@[self.position(name)])
        } else {
            None
        }
    }

    /// A store without grids.
    pub fn new() -> (store: GridStore)
        ensures
            store.wf(),
            forall|name: Seq<char>| !#[trigger] store.has(name),
    {
        GridStore { names: Vec::new(), grids: Vec::new() }
    }

    /// The position of the grid stored under `name`, if there is one.
    pub fn find(&self, name: &String) -> (found: Option<usize>)
        requires
            self.wf(),
        ensures
            match found {
                Some(i) => self.has(name@) && i == self.position(name@),
                None => !self.has(name@),
            },
    {
        let mut i: usize = 0;
        while i < self.names.len()
            invariant
                self.wf(),
                0 <= i <= self.names@.len(),
                forall|k: int| 0 <= k < i ==> (#[trigger] self.names@[k])@ != name@,
            decreases self.names.len() - i,
        {
            if self.names[i] == *name {
                proof {
                    assert(self.names@[i as int]@ == name@);
                    let p = self.position(name@);
                    if p < i {
                        assert(self.names@[p]@ != self.names@[i as int]@);
                    }
                    if i < p {
                        assert(self.names@[i as int]@ != self.names@[p]@);
                    }
                }
                return Some(i);
            }
            i = i + 1;
        }
        None
    }

    /// The grid stored under `name`, if there is one.
    pub fn get(&self, name: &String) -> (found: Option<&Grid>)
        requires
            self.wf(),
        ensures
            match found {
                Some(grid) => self.lookup(name@) == Some(*grid) && grid.wf(),
                None => self.lookup(name@).is_none(),
            },
    {
        match self.find(name) {
            Some(i) => Some(&self.grids[i]),
            None => None,
        }
    }

    /// Stores `grid` under `name`, in place of the grid that was stored
    /// under that name, if there was one.  The grids under other names stay.
    pub fn insert(&mut self, name: String, grid: Grid)
        requires
            old(self).wf(),
            grid.wf(),
        ensures
            final(self).wf(),
            final(self).lookup(name@) == Some(grid),
            forall|other: Seq<char>|
                other != name@ ==> #[trigger] final(self).lookup(other) == old(self).lookup(other),
    {
        let ghost before = *self;
        match self.find(&name) {
            Some(i) => {
                self.grids[i] = grid;
                proof {
                    assert(self.names@ == before.names@);
                    assert(self.has(name@));
                    assert forall|other: Seq<char>| other != name@ implies #[trigger] self.lookup(
                        other,
                    ) == before.lookup(other) by {
                        assert(self.has(other) == before.has(other));
                        if self.has(other) {
                            assert(self.position(other) == before.position(other));
                            assert(self.position(other) != i);
                        }
                    }
                }
            },
            None => {
                self.names.push(name);
                self.grids.push(grid);
                proof {
                    let last = before.names@.len() as int;
                    assert(self.names@[last]@ == name@);
                    assert forall|i: int, j: int| 0 <= i < j < self.names@.len() implies (
                    #[trigger] self.names@[i])@ != (#[trigger] self.names@[j])@ by {
                        if j == last {
                            assert(self.names@[i] == before.names@[i]);
                        } else {
                            assert(self.names@[i] == before.names@[i]);
                            assert(self.names@[j] == before.names@[j]);
                        }
                    }
                    assert(self.has(name@));
                    let p = self.position(name@);
                    if p < last {
                        assert(self.names@[p] == before.names@[p]);
                    }
                    assert(p == last);
                    assert forall|other: Seq<char>| other != name@ implies #[trigger] self.lookup(
                        other,
                    ) == before.lookup(other) by {
                        if before.has(other) {
                            let q = before.position(other);
                            assert(self.names@[q] == before.names@[q]);
                            assert(self.has(other));
                            let r = self.position(other);
                            if r < last {
                                assert(self.names@[r] == before.names@[r]);
                                if r < q {
                                    assert(before.names@[r]@ != before.names@[q]@);
                                }
                                if q < r {
                                    assert(before.names@[q]@ != before.names@[r]@);
                                }
                            }
                            assert(self.grids@[q] == before.grids@[q]);
                        } else if self.has(other) {
                            let r = self.position(other);
                            assert(r < last);
                            assert(self.names@[r] == before.names@[r]);
                        }
                    }
                }
            },
        }
    }
}

} // verus!
