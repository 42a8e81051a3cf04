//! The registry of map names: each name gets the next free 16-bit id when
//! it is first seen, and keeps it.
//!
//! The names are kept in a list and found by comparing texts from the
//! front.  A hash map keyed by `String` has no specification that a proof
//! could rest on, so the id of a name is its position in the list.

use vstd::prelude::*;

verus! {

/// The names of the maps seen so far.  The id of a map is the position of
/// its name.
pub struct MapRegistry {
    pub names: Vec<String>,
}

impl View for MapRegistry {
    type V = Seq<Seq<char>>;

    open spec fn view(&self) -> Seq<Seq<char>> {
        Seq::new(self.names@.len(), |i: int| self.names@[i]@)
    }
}

/// Whether `name` is one of `names`.
pub open spec fn has_name(names: Seq<Seq<char>>, name: Seq<char>) -> bool {
    exists|i: int| 0 <= i < names.len() && #[trigger] names[i] == name
}

/// Whether no name occurs twice in `names`.
pub open spec fn distinct_names(names: Seq<Seq<char>>) -> bool {
    forall|i: int, j: int|
        0 <= i < j < names.len() ==> #[trigger] names[i] != #[trigger] names[j]
}

impl MapRegistry {
    /// No name occurs twice, and every position fits a 16-bit id.
    pub open spec fn wf(&self) -> bool {
        &&& self@.len() <= 0x1_0000
        &&& distinct_names(self@)
    }

    /// Whether the registry is full and `name` is not in it, so that no id
    /// is left for it.
    pub open spec fn exhausted_for(&self, name: Seq<char>) -> bool {
        !has_name(self@, name) && self@.len() >= 0x1_0000
    }

    /// A registry without names.
    pub fn new() -> (registry: MapRegistry)
        ensures
            registry.wf(),
            registry@.len() == 0,
    {
        MapRegistry { names: Vec::new() }
    }

    /// The id of `name`, if the registry holds it.
    pub fn find(&self, name: &String) -> (found: Option<u16>)
        requires
            self.wf(),
        ensures
            match found {
                Some(id) => id < self@.len() && self@[id as int] == name@,
                None => !has_name(self@, name@),
            },
    {
        let mut i: usize = 0;
        while i < self.names.len()
            invariant
                self.wf(),
                0 <= i <= self.names@.len(),
                forall|k: int| 0 <= k < i ==> #[trigger] self@[k] != name@,
            decreases self.names.len() - i,
        {
            if self.names[i] == *name {
                assert(self@[i as int] == name@);
                return Some(i as u16);
            }
            i = i + 1;
        }
        None
    }
}

/// The id of the map `map_name`, which is entered at the end of the registry
/// if it is new.
pub fn get_or_create_map_id(registry: &mut MapRegistry, map_name: &str) -> (id: u16)
    requires
        old(registry).wf(),
        !old(registry).exhausted_for(map_name@),
    ensures
        final(registry).wf(),
        id < final(registry)@.len(),
        final(registry)@[id as int] == map_name@,
        has_name(old(registry)@, map_name@) ==> final(registry)@ == old(registry)@,
        !has_name(old(registry)@, map_name@) ==> final(registry)@ == old(registry)@.push(map_name@)
            && id == old(registry)@.len(),
{
    let name: String = map_name.to_owned();
    match registry.find(&name) {
        Some(id) => id,
        None => {
            let ghost before = registry@;
            let id: u16 = registry.names.len() as u16;
            registry.names.push(name);
            proof {
                assert(registry@ =~= before.push(map_name@));
                assert forall|i: int, j: int| 0 <= i < j < registry@.len() implies #[trigger]
                    registry@[i] != #[trigger] registry@[j] by {
                    if j == before.len() {
                        assert(before[i] != map_name@);
                    } else {
                        assert(before[i] != before[j]);
                    }
                }
            }
            id
        },
    }
}

/// The name of the map with id `map_id`, if there is one.
pub fn get_map_name(registry: &MapRegistry, map_id: u32) -> (name: Option<String>)
    ensures
        match name {
            Some(text) => map_id < registry@.len() && text@ == registry@[map_id as int],
            None => map_id >= registry@.len(),
        },
{
    if (map_id as usize) < registry.names.len() {
        Some(registry.names[map_id as usize].clone())
    } else {
        None
    }
}

/// Two names with the same id are the same name: in a registry without
/// repeats a name has one id only.
pub proof fn lemma_id_unique(registry: MapRegistry, i: int, j: int)
    requires
        registry.wf(),
        0 <= i < registry@.len(),
        0 <= j < registry@.len(),
        registry@[i] == registry@[j],
    ensures
        i == j,
{
    if i < j {
        assert(registry@[i] != registry@[j]);
    }
    if j < i {
        assert(registry@[j] != registry@[i]);
    }
}

} // verus!
