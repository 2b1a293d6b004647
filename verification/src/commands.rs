use vstd::prelude::*;
use crate::cluster::{ClusterState, slot_entries, slots_json_of};
use crate::errors::ServerError;
use crate::slots::TOTAL_SLOTS;
use crate::store::CacheStore;

verus! {

/// A decoded client command, as the wire adapter hands it to the core.
#[allow(non_camel_case_types)]
pub enum Command {
    SET { key: String, value: Vec<u8> },
    GET { key: String },
    DEL { keys: Vec<String> },
    EXISTS { key: String },
    CLUSTER_JOIN { address: String },
    CLUSTER_SLOTS,
}

/// The core's answer to one command, for the wire adapter to encode.
pub enum Response {
    Success,
    Error(String),
    Data(Vec<u8>),
    Exists(bool),
    Slots(String),
}

/// The whole shared state of the server: the cache store and the cluster
/// topology, guarded together by one lock outside the core.
pub struct ServerState {
    pub cache: CacheStore,
    pub cluster: ClusterState,
}

impl ServerState {
    /// Both halves of the state are internally consistent.
    pub open spec fn wf(&self) -> bool {
        &&& self.cache.wf()
        &&& self.cluster.wf()
    }

    /// A fresh server state: an empty cache, and a topology whose only
    /// member is this process's own bind address.
    pub fn new(self_addr: String) -> (s: Self)
        ensures
            s.wf(),
            s.cache@ == Map::<Seq<char>, Seq<u8>>::empty(),
            s.cluster.node_set() == Set::empty().insert(self_addr@),
            s.cluster.nodes@.len() == 1,
    {
        ServerState { cache: CacheStore::new(), cluster: ClusterState::new(self_addr) }
    }
}

/// Dispatch one decoded command against the server state, inside the
/// caller's critical section, and produce the response value or the error
/// that the wire adapter reports back.
pub fn process_command(cmd: Command, state: &mut ServerState) -> (r: Result<Response, ServerError>)
    requires
        old(state).wf(),
        cmd matches Command::CLUSTER_JOIN { address } ==> (old(state).cluster.nodes@.len()
            < TOTAL_SLOTS || old(state).cluster.node_set().contains(address@)),
    ensures
        final(state).wf(),
        match cmd {
            Command::SET { key, value } => {
                &&& r matches Ok(resp) && resp is Success
                &&& final(state).cache@ == old(state).cache@.insert(key@, value@)
                &&& final(state).cluster == old(state).cluster
            },
            Command::GET { key } => {
                &&& *final(state) == *old(state)
                &&& old(state).cache@.contains_key(key@) ==> (r matches Ok(resp) && resp matches
                    Response::Data(v) && v@ == old(state).cache@[key@])
                &&& !old(state).cache@.contains_key(key@) ==> (r matches Err(e) && e matches
                    ServerError::KeyNotFound(m) && m@ == key@)
            },
            Command::DEL { keys } => {
                &&& final(state).cluster == old(state).cluster
                &&& final(state).cache@ == old(state).cache@.remove_keys(
                    Set::new(
                        |k: Seq<char>|
                            exists|i: int| 0 <= i < keys@.len() && #[trigger] keys@[i]@ == k,
                    ),
                )
                &&& r is Ok <==> (exists|i: int|
                    0 <= i < keys@.len() && old(state).cache@.contains_key(#[trigger] keys@[i]@))
                &&& r matches Ok(resp) ==> resp is Success
                &&& r matches Err(e) ==> (e matches ServerError::KeyNotFound(m) && m@
                    == "None of the keys found"@)
            },
            Command::EXISTS { key } => {
                &&& *final(state) == *old(state)
                &&& r matches Ok(resp) && resp matches Response::Exists(b) && b == old(
                    state,
                ).cache@.contains_key(key@)
            },
            Command::CLUSTER_JOIN { address } => {
                &&& r matches Ok(resp) && resp is Success
                &&& final(state).cache == old(state).cache
                &&& final(state).cluster.node_set() == old(state).cluster.node_set().insert(
                    address@,
                )
            },
            Command::CLUSTER_SLOTS => {
                &&& *final(state) == *old(state)
                &&& r matches Ok(resp) && resp matches Response::Slots(s) && s@ == slots_json_of(
                    slot_entries(old(state).cluster.slot_map@),
                )
            },
        },
{
    match cmd {
        Command::SET { key, value } => {
            match state.cache.put(key, &value) {
                Ok(()) => Ok(Response::Success),
                Err(e) => {
                    proof {
                        assert(false);
                    }
                    Err(e)
                },
            }
        },
        Command::GET { key } => {
            match state.cache.get(&key) {
                Ok(data) => Ok(Response::Data(data)),
                Err(e) => Err(e),
            }
        },
        Command::DEL { keys } => {
            match state.cache.delete(&keys) {
                Ok(()) => Ok(Response::Success),
                Err(e) => Err(e),
            }
        },
        Command::EXISTS { key } => Ok(Response::Exists(state.cache.contains_key(&key))),
        Command::CLUSTER_JOIN { address } => {
            state.cluster.add_node(address);
            Ok(Response::Success)
        },
        Command::CLUSTER_SLOTS => Ok(Response::Slots(state.cluster.get_slots_json())),
    }
}

/// Dispatch one read-only command (`GET`, `EXISTS`, `CLUSTER_SLOTS`) under a
/// shared guard: these commands never change the state, so the caller may
/// hold the read side of the lock.
pub fn process_read_command(cmd: &Command, state: &ServerState) -> (r: Result<
    Response,
    ServerError,
>)
    requires
        state.wf(),
        cmd is GET || cmd is EXISTS || cmd is CLUSTER_SLOTS,
    ensures
        match cmd {
            Command::GET { key } => {
                &&& state.cache@.contains_key(key@) ==> (r matches Ok(resp) && resp matches
                    Response::Data(v) && v@ == state.cache@[key@])
                &&& !state.cache@.contains_key(key@) ==> (r matches Err(e) && e matches
                    ServerError::KeyNotFound(m) && m@ == key@)
            },
            Command::EXISTS { key } => r matches Ok(resp) && resp matches Response::Exists(b) && b
                == state.cache@.contains_key(key@),
            Command::CLUSTER_SLOTS => r matches Ok(resp) && resp matches Response::Slots(s) && s@
                == slots_json_of(slot_entries(state.cluster.slot_map@)),
            _ => true,
        },
{
    match cmd {
        Command::GET { key } => {
            match state.cache.get(key) {
                Ok(data) => Ok(Response::Data(data)),
                Err(e) => Err(e),
            }
        },
        Command::EXISTS { key } => Ok(Response::Exists(state.cache.contains_key(key))),
        Command::CLUSTER_SLOTS => Ok(Response::Slots(state.cluster.get_slots_json())),
        _ => {
            proof {
                assert(false);
            }
            Ok(Response::Success)
        },
    }
}

} // verus!
