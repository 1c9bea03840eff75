//! What to hand the container runtime when spawning a server: the
//! environment and the image for a given name and kind. The runtime calls
//! themselves (create, attach to the `ems_network` network, start — in that
//! order) are made by the I/O shell.

use vstd::prelude::*;
use vstd::string::StringExecFns;

use crate::packet::{Kind, KindView};

verus! {

/// Only lobbies and minigame servers can be spawned; asking for a proxy or a
/// limbo container is a programmer error.
pub open spec fn spawnable(kind: KindView) -> bool {
    kind is Lobby || kind is Minigame
}

/// The environment for a spawned container.
pub open spec fn spec_spawn_env(name: Seq<char>, kind: KindView) -> Seq<Seq<char>> {
    seq!["CONTROLLER_IP=controller"@, "SERVER_NAME="@ + name] + match kind {
        KindView::Limbo => seq!["SERVER_KIND=Limbo"@],
        KindView::Lobby => seq!["SERVER_KIND=Lobby"@],
        KindView::Minigame { kind } => seq!["SERVER_KIND=Minigame"@, "MINIGAME_KIND="@ + kind],
        KindView::Proxy => Seq::empty(),
    }
}

/// The image a kind is spawned from.
pub open spec fn spec_spawn_image(kind: KindView) -> Seq<char> {
    match kind {
        KindView::Lobby => "ems-lobby"@,
        KindView::Minigame { .. } => "ems-minigame"@,
        _ => Seq::empty(),
    }
}

/// The container plan for one spawn: pass `env` to the create call and use
/// `image`; then attach the created container to the network and start it.
pub struct SpawnPlan {
    pub env: Vec<String>,
    pub image: String,
}

/// Build the environment and image for spawning `name` of `kind`.
pub fn spawn_plan(name: &str, kind: &Kind) -> (r: SpawnPlan)
    requires
        spawnable(kind@),
    ensures
        r.env.deep_view() == spec_spawn_env(name@, kind@),
        r.image@ == spec_spawn_image(kind@),
{
    let mut env: Vec<String> = Vec::new();
    env.push("CONTROLLER_IP=controller".to_owned());
    let mut server_name = "SERVER_NAME=".to_owned();
    server_name.append(name);
    env.push(server_name);
    let image: String;
    match kind {
        Kind::Lobby => {
            env.push("SERVER_KIND=Lobby".to_owned());
            image = "ems-lobby".to_owned();
        },
        Kind::Minigame { kind: mk } => {
            env.push("SERVER_KIND=Minigame".to_owned());
            let mut mk_var = "MINIGAME_KIND=".to_owned();
            mk_var.append(mk.as_str());
            env.push(mk_var);
            image = "ems-minigame".to_owned();
        },
        _ => {
            proof {
                assert(false);
            }
            image = String::new();
        },
    }
    proof {
        assert(env.deep_view() =~= spec_spawn_env(name@, kind@));
    }
    SpawnPlan { env, image }
}

} // verus!
