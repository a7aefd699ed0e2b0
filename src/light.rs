use vstd::prelude::*;

use crate::extension::{ExtensionStorageLoader, ExtensionSystemsLoader};
use crate::system::SystemSpec;

verus! {

/// The extensions that the torchlight extension must be loaded after.
pub fn dependencies() -> (r: Vec<String>)
    ensures
        r.deep_view() == seq![seq!['c', 'h', 'u', 'n', 'k', 's'], seq!['t', 'e', 'r', 'r', 'a', 'i', 'n']],
{
    proof {
        reveal_strlit("chunks");
        reveal_strlit("terrain");
    }
    let chunks = "chunks";
    let terrain = "terrain";
    assert(chunks@ =~= seq!['c', 'h', 'u', 'n', 'k', 's']);
    assert(terrain@ =~= seq!['t', 'e', 'r', 'r', 'a', 'i', 'n']);
    let mut r: Vec<String> = Vec::new();
    r.push(String::from_str(chunks));
    r.push(String::from_str(terrain));
    assert(r.deep_view() =~= seq![seq!['c', 'h', 'u', 'n', 'k', 's'], seq!['t', 'e', 'r', 'r', 'a', 'i', 'n']]);
    r
}

/// A system of the client tick with the given ordering constraints.
pub open spec fn tick_system(id: Seq<char>, after: Seq<Seq<char>>, before: Seq<Seq<char>>) -> SystemSpec {
    SystemSpec { group: "client_tick"@, id, run_after: after, run_before: before }
}

/// The torchlight systems, in the order they are declared.
pub open spec fn torchlight_systems() -> Seq<SystemSpec> {
    seq![
        tick_system("torchlight_chunk_init_system"@, seq!["chunk_loading_system"@], seq![]),
        tick_system("torchlight_update_system"@, seq!["torchlight_chunk_init_system"@], seq![]),
        tick_system("torchlight_debug_place_system"@, seq![], seq!["torchlight_update_system"@]),
        tick_system("player_light_modifier"@, seq!["player_spawn"@], seq!["player_spawned"@]),
    ]
}

/// Declares the torchlight systems of the client tick.
pub fn systems(loader: &mut ExtensionSystemsLoader)
    ensures
        final(loader).systems@.len() == old(loader).systems@.len() + 4,
        forall|j: int| 0 <= j < old(loader).systems@.len() ==> #[trigger] final(loader).systems@[j] == old(loader).systems@[j],
        forall|k: int| 0 <= k < 4 ==> #[trigger] final(loader).systems@[old(loader).systems@.len() + k]@ == torchlight_systems()[k],
{
    let ghost n = loader.systems@.len() as int;
    loader.system("client_tick", "torchlight_chunk_init_system").run_after("chunk_loading_system");
    assert(loader.systems@[n]@ =~= torchlight_systems()[0]);
    loader.system("client_tick", "torchlight_update_system").run_after("torchlight_chunk_init_system");
    assert(loader.systems@[n + 1]@ =~= torchlight_systems()[1]);
    loader.system("client_tick", "torchlight_debug_place_system").run_before("torchlight_update_system");
    assert(loader.systems@[n + 2]@ =~= torchlight_systems()[2]);
    loader.system("client_tick", "player_light_modifier").run_after("player_spawn").run_before("player_spawned");
    assert(loader.systems@[n + 3]@ =~= torchlight_systems()[3]);
    assert(loader.systems@[n]@ == torchlight_systems()[0]);
}

/// Registers the torchlight storages: the chunk light resource and the light modifier
/// component.
pub fn load(storages: &mut ExtensionStorageLoader)
    ensures
        final(storages).storages.resources.deep_view() == old(storages).storages.resources.deep_view().push(
            seq!['T', 'o', 'r', 'c', 'h', 'L', 'i', 'g', 'h', 't', 'C', 'h', 'u', 'n', 'k', 's', 'R', 'e', 's', 'o', 'u', 'r', 'c', 'e'],
        ),
        final(storages).storages.components.deep_view() == old(storages).storages.components.deep_view().push(
            seq!['T', 'o', 'r', 'c', 'h', 'L', 'i', 'g', 'h', 't', 'M', 'o', 'd', 'i', 'f', 'i', 'e', 'r', 'C', 'o', 'm', 'p', 'o', 'n', 'e', 'n', 't'],
        ),
{
    proof {
        reveal_strlit("TorchLightChunksResource");
        reveal_strlit("TorchLightModifierComponent");
    }
    let resource = "TorchLightChunksResource";
    let component = "TorchLightModifierComponent";
    assert(resource@ =~= seq!['T', 'o', 'r', 'c', 'h', 'L', 'i', 'g', 'h', 't', 'C', 'h', 'u', 'n', 'k', 's', 'R', 'e', 's', 'o', 'u', 'r', 'c', 'e']);
    assert(component@ =~= seq!['T', 'o', 'r', 'c', 'h', 'L', 'i', 'g', 'h', 't', 'M', 'o', 'd', 'i', 'f', 'i', 'e', 'r', 'C', 'o', 'm', 'p', 'o', 'n', 'e', 'n', 't']);
    storages.resource(resource);
    storages.component(component);
}

} // verus!
