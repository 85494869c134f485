//! Bookkeeping of the HTTP server: client ids and the tasks that serve them.
use std::collections::HashMap;
use tokio::net::TcpListener;
use tokio::task::JoinHandle;
use vstd::prelude::*;

verus! {

broadcast use vstd::std_specs::hash::group_hash_axioms;

/// `tokio::net::TcpListener`, carried as it is.
#[verifier::external_type_specification]
#[verifier::external_body]
pub struct ExTcpListener(tokio::net::TcpListener);

/// `tokio::task::JoinHandle`, carried as it is.
#[verifier::external_type_specification]
#[verifier::external_body]
#[verifier::reject_recursive_types(T)]
pub struct ExJoinHandle<T>(tokio::task::JoinHandle<T>);

/// `tokio::task::JoinError`, the error a `JoinHandle` resolves to; declared
/// so that `JoinHandle` can be used at all.
#[verifier::external_type_specification]
#[verifier::external_body]
pub struct ExJoinError(tokio::task::JoinError);

/// The id after `id`: one more, wrapping to 0 after `u64::MAX`.
pub open spec fn id_after(id: u64) -> u64 {
    if id == u64::MAX {
        0
    } else {
        (id + 1) as u64
    }
}

/// Hands out client ids, counting up from 1.
pub struct ClientManager {
    id: u64,
}

impl ClientManager {
    /// The id that the next call of `gen_client_id` returns.
    pub closed spec fn next_id(&self) -> u64 {
        self.id
    }

    pub fn new() -> (m: ClientManager)
        ensures
            m.next_id() == 1,
    {
        ClientManager { id: 1 }
    }

    /// Returns the next id and counts on, wrapping after `u64::MAX`.
    pub fn gen_client_id(&mut self) -> (cli_id: u64)
        ensures
            cli_id == old(self).next_id(),
            final(self).next_id() == id_after(cli_id),
    {
        let cli_id = self.id;
        self.id = if cli_id == u64::MAX {
            0
        } else {
            cli_id + 1
        };
        cli_id
    }
}

/// A run of `gen_client_id` calls on a new manager: `states[i]` is the
/// manager before call `i` and `ids[i]` what that call returned.
pub open spec fn is_id_run(states: Seq<ClientManager>, ids: Seq<u64>) -> bool {
    &&& states.len() == ids.len() + 1
    &&& states[0].next_id() == 1
    &&& forall|i: int|
        0 <= i < ids.len() ==> #[trigger] ids[i] == states[i].next_id() && states[i + 1].next_id()
            == id_after(ids[i])
}

proof fn lemma_id_run_counts(states: Seq<ClientManager>, ids: Seq<u64>, k: int)
    requires
        is_id_run(states, ids),
        ids.len() < u64::MAX,
        0 <= k <= ids.len(),
    ensures
        states[k].next_id() == k + 1,
    decreases k,
{
    if k > 0 {
        lemma_id_run_counts(states, ids, k - 1);
        assert(ids[k - 1] == states[k - 1].next_id());
    }
}

/// The `k`-th call (from 0) on a new manager returns `k + 1`, so the first
/// `n` calls, for `n` below `u64::MAX`, return `1, ..., n`, each once.
pub proof fn client_ids_count_from_one(states: Seq<ClientManager>, ids: Seq<u64>)
    requires
        is_id_run(states, ids),
        ids.len() < u64::MAX,
    ensures
        forall|i: int| 0 <= i < ids.len() ==> #[trigger] ids[i] == i + 1,
        ids.no_duplicates(),
{
    assert forall|i: int| 0 <= i < ids.len() implies #[trigger] ids[i] == i + 1 by {
        lemma_id_run_counts(states, ids, i);
    }
}

/// A connected client, known by its id.
pub struct Client {
    client_id: u64,
}

impl Client {
    pub closed spec fn id(&self) -> u64 {
        self.client_id
    }

    pub fn new(client_id: u64) -> (c: Client)
        ensures
            c.id() == client_id,
    {
        Client { client_id }
    }

    pub fn client_id(&self) -> (id: u64)
        ensures
            id == self.id(),
    {
        self.client_id
    }
}

/// The HTTP server: its listening socket, the task serving each client, and
/// the source of client ids.
pub struct Server {
    listener: TcpListener,
    cli_handlers: HashMap<u64, JoinHandle<()>>,
    client_manager: ClientManager,
}

impl Server {
    /// The serving tasks, by client id.
    pub closed spec fn handlers(&self) -> Map<u64, JoinHandle<()>> {
        self.cli_handlers@
    }

    /// The id the next client gets.
    pub closed spec fn next_client(&self) -> u64 {
        self.client_manager.next_id()
    }

    /// Every registered client has an id below the next one.
    pub open spec fn wf(&self) -> bool {
        forall|id: u64| #[trigger] self.handlers().contains_key(id) ==> id < self.next_client()
    }

    /// A server on a bound listener, with no clients yet.
    pub fn from_listener(listener: TcpListener) -> (s: Server)
        ensures
            s.wf(),
            s.handlers() == Map::<u64, JoinHandle<()>>::empty(),
            s.next_client() == 1,
            s.listener_spec() == listener,
    {
        Server { listener, cli_handlers: HashMap::new(), client_manager: ClientManager::new() }
    }

    /// The socket the server accepts connections on.
    pub closed spec fn listener_spec(&self) -> TcpListener {
        self.listener
    }

    pub fn listener(&self) -> (l: &TcpListener)
        ensures
            *l == self.listener_spec(),
    {
        &self.listener
    }

    /// The id for a newly accepted connection.
    pub fn next_client_id(&mut self) -> (cli_id: u64)
        ensures
            cli_id == old(self).next_client(),
            final(self).next_client() == id_after(cli_id),
            final(self).handlers() == old(self).handlers(),
            old(self).wf() && cli_id < u64::MAX ==> final(self).wf(),
    {
        self.client_manager.gen_client_id()
    }

    /// Records the task that serves client `cli_id`.
    pub fn add_client_handler(&mut self, cli_id: u64, handler: JoinHandle<()>)
        ensures
            final(self).handlers() == old(self).handlers().insert(cli_id, handler),
            final(self).next_client() == old(self).next_client(),
            old(self).wf() && cli_id < old(self).next_client() ==> final(self).wf(),
    {
        self.cli_handlers.insert(cli_id, handler);
    }

    /// The number of clients registered.
    pub fn client_count(&self) -> (n: usize)
        ensures
            n == self.handlers().len(),
    {
        self.cli_handlers.len()
    }
}

/// The id handed to a new client is never that of a client already
/// registered, so registering it replaces no serving task.
pub proof fn new_client_id_is_fresh(s: &Server)
    requires
        s.wf(),
    ensures
        !s.handlers().contains_key(s.next_client()),
{
}

} // verus!
