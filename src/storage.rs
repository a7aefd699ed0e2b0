use vstd::prelude::*;

use crate::extension::ExtensionStorages;
use crate::registry::RegistryError;
use crate::system::contains_string;

verus! {

/// The raw contents of the world's storages, by storage id.
pub type StorageBytes = Map<Seq<char>, Seq<u8>>;

/// The world after the storages `ids` are withdrawn.
pub open spec fn withdraw(world: StorageBytes, ids: Seq<Seq<char>>) -> StorageBytes {
    world.remove_keys(ids.to_set())
}

/// The world after a fresh load registers empty storages under `ids`.
pub open spec fn register_fresh(world: StorageBytes, ids: Seq<Seq<char>>) -> StorageBytes {
    world.union_prefer_right(Map::new(|k: Seq<char>| ids.contains(k), |k: Seq<char>| Seq::<u8>::empty()))
}

/// The world after the bytes that `before` held under `ids` are written back, each into
/// the storage of its id.
pub open spec fn restore(world: StorageBytes, before: StorageBytes, ids: Seq<Seq<char>>) -> StorageBytes {
    world.union_prefer_right(before.restrict(ids.to_set()))
}

/// Withdrawing storages, loading the new library, and writing the withdrawn bytes back
/// leaves every withdrawn storage holding exactly the bytes it held before, provided the
/// new library registers each withdrawn id again.
pub proof fn lemma_hard_reload_keeps_bytes(world: StorageBytes, ids: Seq<Seq<char>>, fresh: Seq<Seq<char>>)
    requires
        forall|k: Seq<char>| ids.contains(k) ==> world.contains_key(k),
        forall|k: Seq<char>| ids.contains(k) ==> fresh.contains(k),
    ensures
        ({
            let after = restore(register_fresh(withdraw(world, ids), fresh), world, ids);
            forall|k: Seq<char>| #[trigger] ids.contains(k) ==> after.contains_key(k) && after[k] == world[k]
        }),
{
    let after = restore(register_fresh(withdraw(world, ids), fresh), world, ids);
    assert forall|k: Seq<char>| #[trigger] ids.contains(k) implies after.contains_key(k) && after[k] == world[k] by {
        assert(ids.to_set().contains(k));
        assert(world.restrict(ids.to_set()).contains_key(k));
    }
}

/// The first id of `previous` that `fresh` lacks.
fn first_missing(previous: &Vec<String>, fresh: &Vec<String>) -> (r: Option<usize>)
    ensures
        match r {
            Some(i) => i < previous@.len() && !fresh.deep_view().contains(previous@[i as int]@)
                && forall|j: int| 0 <= j < i ==> fresh.deep_view().contains(#[trigger] previous@[j]@),
            None => forall|j: int| 0 <= j < previous@.len() ==> fresh.deep_view().contains(#[trigger] previous@[j]@),
        },
{
    let mut i: usize = 0;
    while i < previous.len()
        invariant
            i <= previous@.len(),
            forall|j: int| 0 <= j < i ==> fresh.deep_view().contains(#[trigger] previous@[j]@),
        decreases previous@.len() - i,
    {
        if !contains_string(fresh, &previous[i]) {
            return Some(i);
        }
        i = i + 1;
    }
    None
}

/// Checks that the reloaded library registered again every storage that the old one
/// surrendered, so that each withdrawn buffer has a storage to be written into.
pub fn check_restorable(previous: &ExtensionStorages, fresh: &ExtensionStorages) -> (r: Result<(), RegistryError>)
    ensures
        r is Ok <==> (
            (forall|j: int| 0 <= j < previous.components@.len() ==>
                fresh.components.deep_view().contains(#[trigger] previous.components@[j]@))
            && (forall|j: int| 0 <= j < previous.resources@.len() ==>
                fresh.resources.deep_view().contains(#[trigger] previous.resources@[j]@))
        ),
        r matches Err(e) ==> e is MissingStorage,
        r matches Err(RegistryError::MissingStorage { id }) ==> (exists|j: int| 0 <= j < previous.components@.len()
            && #[trigger] previous.components@[j]@ == id@ && !fresh.components.deep_view().contains(id@))
            || (exists|j: int| 0 <= j < previous.resources@.len()
            && #[trigger] previous.resources@[j]@ == id@ && !fresh.resources.deep_view().contains(id@)),
{
    match first_missing(&previous.components, &fresh.components) {
        Some(i) => {
            return Err(RegistryError::MissingStorage { id: previous.components[i].clone() });
        },
        None => {},
    }
    match first_missing(&previous.resources, &fresh.resources) {
        Some(i) => Err(RegistryError::MissingStorage { id: previous.resources[i].clone() }),
        None => Ok(()),
    }
}

} // verus!
