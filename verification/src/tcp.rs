//! The decisions of the TCP endpoint: the runner that keeps the table of open
//! connections and routes lines between them and the system, each connection
//! that reads and writes lines, and each listener that numbers the clients it
//! accepts. The waiting, reading and writing happen outside; here is what
//! follows from each event.
use vstd::prelude::*;
use crate::endpoints::{EndpointAddr, IncomingMessage, ToRunner, ToTcpStream};
use vstd::string::StringExecFns;

verus! {

/// A connection is known by the listener that accepted it and its number
/// there.
pub type ClientKey = (usize, usize);

/// The table whose entries are `entries`, each key mapped to its client.
pub open spec fn table_of<C>(entries: Seq<(ClientKey, C)>) -> Map<ClientKey, C>
    decreases entries.len(),
{
    if entries.len() == 0 {
        Map::empty()
    } else {
        table_of(entries.drop_last()).insert(entries.last().0, entries.last().1)
    }
}

/// No key occurs twice in `entries`.
pub open spec fn keys_unique<C>(entries: Seq<(ClientKey, C)>) -> bool {
    forall|i: int, j: int|
        0 <= i < j < entries.len() ==> #[trigger] entries[i].0 != #[trigger] entries[j].0
}

proof fn lemma_table_of_dom<C>(entries: Seq<(ClientKey, C)>, k: ClientKey)
    ensures
        table_of(entries).dom().contains(k) <==> exists|i: int|
            0 <= i < entries.len() && #[trigger] entries[i].0 == k,
    decreases entries.len(),
{
    if entries.len() > 0 {
        let init = entries.drop_last();
        lemma_table_of_dom(init, k);
        if table_of(entries).dom().contains(k) {
            if k != entries.last().0 {
                let i = choose|i: int| 0 <= i < init.len() && #[trigger] init[i].0 == k;
                assert(entries[i].0 == k);
            } else {
                assert(entries[entries.len() - 1].0 == k);
            }
        }
        if exists|i: int| 0 <= i < entries.len() && #[trigger] entries[i].0 == k {
            let i = choose|i: int| 0 <= i < entries.len() && #[trigger] entries[i].0 == k;
            if i < init.len() {
                assert(init[i].0 == k);
            }
        }
    }
}

proof fn lemma_table_of_at<C>(entries: Seq<(ClientKey, C)>, i: int)
    requires
        keys_unique(entries),
        0 <= i < entries.len(),
    ensures
        table_of(entries).dom().contains(entries[i].0),
        table_of(entries)[entries[i].0] == entries[i].1,
    decreases entries.len(),
{
    let init = entries.drop_last();
    if i < entries.len() - 1 {
        assert(init[i] == entries[i]);
        assert(keys_unique(init)) by {
            assert forall|a: int, b: int| 0 <= a < b < init.len() implies #[trigger] init[a].0
                != #[trigger] init[b].0 by {
                assert(init[a] == entries[a] && init[b] == entries[b]);
            }
        }
        lemma_table_of_at(init, i);
        assert(entries[i].0 != entries[entries.len() - 1].0);
    }
}

proof fn lemma_table_of_remove<C>(entries: Seq<(ClientKey, C)>, i: int)
    requires
        keys_unique(entries),
        0 <= i < entries.len(),
    ensures
        table_of(entries.remove(i)) == table_of(entries).remove(entries[i].0),
        keys_unique(entries.remove(i)),
    decreases entries.len(),
{
    let r = entries.remove(i);
    assert(keys_unique(r)) by {
        assert forall|a: int, b: int| 0 <= a < b < r.len() implies #[trigger] r[a].0
            != #[trigger] r[b].0 by {
            let a2 = if a < i { a } else { a + 1 };
            let b2 = if b < i { b } else { b + 1 };
            assert(r[a] == entries[a2] && r[b] == entries[b2]);
        }
    }
    let init = entries.drop_last();
    let last = entries.last();
    assert(keys_unique(init)) by {
        assert forall|a: int, b: int| 0 <= a < b < init.len() implies #[trigger] init[a].0
            != #[trigger] init[b].0 by {
            assert(init[a] == entries[a] && init[b] == entries[b]);
        }
    }
    if i == entries.len() - 1 {
        assert(r =~= init);
        assert(!table_of(init).dom().contains(last.0)) by {
            lemma_table_of_dom(init, last.0);
            if table_of(init).dom().contains(last.0) {
                let j = choose|j: int| 0 <= j < init.len() && #[trigger] init[j].0 == last.0;
                assert(entries[j].0 == entries[entries.len() - 1].0);
            }
        }
        assert(table_of(entries).remove(last.0) =~= table_of(init));
    } else {
        lemma_table_of_remove(init, i);
        assert(r.drop_last() =~= init.remove(i));
        assert(r.last() == last);
        assert(init[i] == entries[i]);
        assert(entries[i].0 != last.0);
        assert(table_of(r) =~= table_of(init.remove(i)).insert(last.0, last.1));
        assert(table_of(entries).remove(entries[i].0) =~= table_of(init).remove(
            entries[i].0,
        ).insert(last.0, last.1));
    }
}

/// `clients` lists the connections of `table` one by one: the `i`-th is the
/// client under `keys[i]`, the keys are those of the table, and none occurs
/// twice. So each open connection is listed exactly once, and nothing else is.
pub open spec fn lists_table<C>(keys: Seq<ClientKey>, clients: Seq<C>, table: Map<ClientKey, C>) -> bool {
    &&& keys.len() == clients.len()
    &&& keys.no_duplicates()
    &&& forall|i: int|
        0 <= i < keys.len() ==> table.dom().contains(#[trigger] keys[i]) && table[keys[i]]
            == clients[i]
    &&& forall|k: ClientKey| #[trigger] table.dom().contains(k) ==> keys.contains(k)
}

/// The open connections, each kept under its key.
pub struct ClientTable<C> {
    entries: Vec<(ClientKey, C)>,
}

impl<C> ClientTable<C> {
    #[verifier::type_invariant]
    closed spec fn unique(self) -> bool {
        keys_unique(self.entries@)
    }

    /// The connections, as a map from key to client.
    pub closed spec fn table(&self) -> Map<ClientKey, C> {
        table_of(self.entries@)
    }

    /// The clients in the order the table holds them.
    pub closed spec fn clients(&self) -> Seq<C> {
        self.entries@.map_values(|e: (ClientKey, C)| e.1)
    }

    /// The keys in the order the table holds them.
    pub closed spec fn keys(&self) -> Seq<ClientKey> {
        self.entries@.map_values(|e: (ClientKey, C)| e.0)
    }

    proof fn lemma_lists_table(&self)
        requires
            keys_unique(self.entries@),
        ensures
            lists_table(self.keys(), self.clients(), self.table()),
    {
        let keys = self.keys();
        let es = self.entries@;
        assert forall|a: int, b: int| 0 <= a < keys.len() && 0 <= b < keys.len() && a != b implies keys[a]
            != keys[b] by {
            if a < b {
                assert(es[a].0 != es[b].0);
            } else {
                assert(es[b].0 != es[a].0);
            }
        }
        assert forall|i: int| 0 <= i < keys.len() implies self.table().dom().contains(
            #[trigger] keys[i],
        ) && self.table()[keys[i]] == self.clients()[i] by {
            lemma_table_of_at(es, i);
        }
        assert forall|k: ClientKey| #[trigger] self.table().dom().contains(k) implies keys.contains(k) by {
            lemma_table_of_dom(es, k);
            let i = choose|i: int| 0 <= i < es.len() && #[trigger] es[i].0 == k;
            assert(keys[i] == k);
        }
    }

    /// An empty table.
    pub fn new() -> (t: ClientTable<C>)
        ensures
            t.table() == Map::<ClientKey, C>::empty(),
            t.clients() == Seq::<C>::empty(),
    {
        let t = ClientTable { entries: Vec::new() };
        assert(t.clients() =~= Seq::<C>::empty());
        t
    }

    /// The number of open connections.
    pub fn len(&self) -> (n: usize)
        ensures
            n == self.table().dom().len(),
            n == self.clients().len(),
    {
        proof {
            use_type_invariant(self);
            self.lemma_dom_len();
        }
        self.entries.len()
    }

    proof fn lemma_dom_len(&self)
        requires
            keys_unique(self.entries@),
        ensures
            self.table().dom().finite(),
            self.table().dom().len() == self.entries@.len(),
        decreases self.entries@.len(),
    {
        lemma_unique_dom_len(self.entries@);
    }

    fn position(&self, key: ClientKey) -> (r: Option<usize>)
        ensures
            match r {
                Some(i) => i < self.entries@.len() && self.entries@[i as int].0 == key,
                None => !self.table().dom().contains(key),
            },
    {
        let mut i: usize = 0;
        while i < self.entries.len()
            invariant
                i <= self.entries@.len(),
                forall|j: int| 0 <= j < i ==> #[trigger] self.entries@[j].0 != key,
            decreases self.entries@.len() - i,
        {
            if self.entries[i].0.0 == key.0 && self.entries[i].0.1 == key.1 {
                return Some(i);
            }
            i = i + 1;
        }
        proof {
            lemma_table_of_dom(self.entries@, key);
        }
        None
    }

    /// Whether a connection is open under `key`.
    pub fn contains(&self, key: ClientKey) -> (b: bool)
        ensures
            b == self.table().dom().contains(key),
    {
        proof {
            use_type_invariant(self);
        }
        match self.position(key) {
            Some(i) => {
                proof {
                    lemma_table_of_at(self.entries@, i as int);
                }
                true
            },
            None => false,
        }
    }

    /// Takes the connection under `key` out of the table.
    pub fn remove(&mut self, key: ClientKey) -> (r: Option<C>)
        ensures
            final(self).table() == old(self).table().remove(key),
            match r {
                Some(c) => old(self).table().dom().contains(key) && c == old(self).table()[key],
                None => !old(self).table().dom().contains(key),
            },
    {
        proof {
            use_type_invariant(&*self);
        }
        match self.position(key) {
            Some(i) => {
                proof {
                    lemma_table_of_at(self.entries@, i as int);
                    lemma_table_of_remove(self.entries@, i as int);
                }
                let mut entries = Vec::new();
                std::mem::swap(&mut entries, &mut self.entries);
                let (_, c) = entries.remove(i);
                self.entries = entries;
                Some(c)
            },
            None => {
                assert(old(self).table().remove(key) =~= old(self).table());
                None
            },
        }
    }

    /// Puts `client` under `key`, replacing and handing back the connection
    /// that was there.
    pub fn insert(&mut self, key: ClientKey, client: C) -> (r: Option<C>)
        ensures
            final(self).table() == old(self).table().insert(key, client),
            match r {
                Some(c) => old(self).table().dom().contains(key) && c == old(self).table()[key],
                None => !old(self).table().dom().contains(key),
            },
    {
        let old_client = self.remove(key);
        proof {
            use_type_invariant(&*self);
            lemma_table_of_dom(self.entries@, key);
        }
        let ghost before = self.entries@;
        let mut entries = Vec::new();
        std::mem::swap(&mut entries, &mut self.entries);
        entries.push((key, client));
        proof {
            assert(entries@.drop_last() =~= before);
            assert forall|a: int, b: int| 0 <= a < b < entries@.len() implies #[trigger] entries@[a].0
                != #[trigger] entries@[b].0 by {
                if b == before.len() {
                    assert(entries@[a] == before[a]);
                } else {
                    assert(entries@[a] == before[a] && entries@[b] == before[b]);
                }
            }
            assert(table_of(entries@) =~= table_of(before).insert(key, client));
            assert(old(self).table().remove(key).insert(key, client) =~= old(self).table().insert(
                key,
                client,
            ));
        }
        self.entries = entries;
        old_client
    }

    /// Empties the table, handing back every connection it held.
    pub fn drain(&mut self) -> (all: Vec<C>)
        ensures
            all@ == old(self).clients(),
            lists_table(old(self).keys(), all@, old(self).table()),
            old(self).clients().len() == old(self).table().dom().len(),
            forall|k: ClientKey| #[trigger] old(self).table().dom().contains(k) ==> exists|i: int|
                0 <= i < all@.len() && all@[i] == old(self).table()[k],
            final(self).table() == Map::<ClientKey, C>::empty(),
            final(self).clients() == Seq::<C>::empty(),
    {
        proof {
            use_type_invariant(&*self);
            self.lemma_dom_len();
            self.lemma_lists_table();
            assert forall|k: ClientKey| #[trigger] old(self).table().dom().contains(k) implies exists|i: int|
                0 <= i < old(self).clients().len() && old(self).clients()[i] == old(self).table()[k] by {
                lemma_table_of_dom(self.entries@, k);
                let i = choose|i: int| 0 <= i < self.entries@.len() && #[trigger] self.entries@[i].0 == k;
                lemma_table_of_at(self.entries@, i);
                assert(old(self).clients()[i] == self.entries@[i].1);
            }
        }
        let mut entries = Vec::new();
        std::mem::swap(&mut entries, &mut self.entries);
        let ghost all_entries = entries@;
        let mut all: Vec<C> = Vec::new();
        let mut rest = entries;
        let mut reversed: Vec<C> = Vec::new();
        while rest.len() > 0
            invariant
                all_entries.map_values(|e: (ClientKey, C)| e.1) == rest@.map_values(
                    |e: (ClientKey, C)| e.1,
                ) + reversed@.reverse(),
            decreases rest@.len(),
        {
            let (_, c) = rest.pop().unwrap();
            let ghost r = reversed@;
            reversed.push(c);
            assert(reversed@.reverse() =~= seq![c] + r.reverse());
            assert(all_entries.map_values(|e: (ClientKey, C)| e.1) =~= rest@.map_values(
                |e: (ClientKey, C)| e.1,
            ) + reversed@.reverse());
        }
        while reversed.len() > 0
            invariant
                all_entries.map_values(|e: (ClientKey, C)| e.1) == all@ + reversed@.reverse(),
            decreases reversed@.len(),
        {
            let c = reversed.pop().unwrap();
            let ghost r = reversed@;
            all.push(c);
            assert(r.push(c).reverse() =~= seq![c] + r.reverse());
            assert(all_entries.map_values(|e: (ClientKey, C)| e.1) =~= all@ + reversed@.reverse());
        }
        assert(all@ =~= all_entries.map_values(|e: (ClientKey, C)| e.1));
        assert(self.clients() =~= Seq::<C>::empty());
        all
    }
}

proof fn lemma_unique_dom_len<C>(entries: Seq<(ClientKey, C)>)
    requires
        keys_unique(entries),
    ensures
        table_of(entries).dom().finite(),
        table_of(entries).dom().len() == entries.len(),
    decreases entries.len(),
{
    if entries.len() > 0 {
        let init = entries.drop_last();
        assert(keys_unique(init)) by {
            assert forall|a: int, b: int| 0 <= a < b < init.len() implies #[trigger] init[a].0
                != #[trigger] init[b].0 by {
                assert(init[a] == entries[a] && init[b] == entries[b]);
            }
        }
        lemma_unique_dom_len(init);
        lemma_table_of_dom(init, entries.last().0);
        if table_of(init).dom().contains(entries.last().0) {
            let j = choose|j: int| 0 <= j < init.len() && #[trigger] init[j].0 == entries.last().0;
            assert(entries[j].0 == entries[entries.len() - 1].0);
        }
    }
}


/// An event the runner handles: from a listener or a connection, or from the
/// endpoint that owns the runner.
pub enum RunnerEvent<C> {
    /// A listener accepted a connection; `client` is what talks to it.
    IncomingConnection { endpoint_index: usize, client_index: usize, client: C },
    /// A connection failed.
    ClientError { endpoint_index: usize, client_index: usize },
    /// A connection read a line.
    ClientReceive { endpoint_index: usize, client_index: usize, line: String },
    /// The endpoint asks for something.
    Control(ToRunner),
}

/// What the runner does after an event.
pub enum RunnerAction<C> {
    /// A connection was recorded; `replaced` is one that had the same key
    /// and is now dropped.
    Connected { replaced: Option<C> },
    /// A connection failed and was dropped; report it.
    Died(C),
    /// Pass this line on to the system.
    Forward(IncomingMessage),
    /// Send `message` to `client`, which is out of the table until
    /// [`TcpRunner::delivered`] says how the send went.
    Deliver { endpoint_index: usize, client_index: usize, client: C, message: String },
    /// Nothing to do.
    Ignore,
    /// Tell each of these connections to close, then stop.
    Stop(Vec<C>),
}

/// The state of the TCP runner: the open connections.
pub struct TcpRunner<C> {
    clients: ClientTable<C>,
}

impl<C> TcpRunner<C> {
    /// The open connections.
    pub closed spec fn table(&self) -> Map<ClientKey, C> {
        self.clients.table()
    }

    /// The open connections, in the order they are kept.
    pub closed spec fn clients(&self) -> Seq<C> {
        self.clients.clients()
    }

    /// The keys of the open connections, in the order they are kept.
    pub closed spec fn keys(&self) -> Seq<ClientKey> {
        self.clients.keys()
    }

    /// A runner with no connection.
    pub fn new() -> (r: TcpRunner<C>)
        ensures
            r.table() == Map::<ClientKey, C>::empty(),
            r.clients() == Seq::<C>::empty(),
    {
        TcpRunner { clients: ClientTable::new() }
    }

    /// Handles one event.
    pub fn step(&mut self, event: RunnerEvent<C>) -> (a: RunnerAction<C>)
        ensures
            match event {
                RunnerEvent::IncomingConnection { endpoint_index, client_index, client } => {
                    let k = (endpoint_index, client_index);
                    &&& final(self).table() == old(self).table().insert(k, client)
                    &&& a == RunnerAction::Connected {
                        replaced: if old(self).table().dom().contains(k) {
                            Some(old(self).table()[k])
                        } else {
                            None
                        },
                    }
                },
                RunnerEvent::ClientError { endpoint_index, client_index } => {
                    let k = (endpoint_index, client_index);
                    &&& final(self).table() == old(self).table().remove(k)
                    &&& a == if old(self).table().dom().contains(k) {
                        RunnerAction::Died(old(self).table()[k])
                    } else {
                        RunnerAction::Ignore
                    }
                },
                RunnerEvent::ClientReceive { endpoint_index, client_index, line } => {
                    &&& final(self).table() == old(self).table()
                    &&& a == RunnerAction::<C>::Forward(
                        IncomingMessage {
                            address: EndpointAddr::Tcp { endpoint_index, client_index },
                            message: line,
                        },
                    )
                },
                RunnerEvent::Control(ToRunner::Message { endpoint_index, client_index, message }) => {
                    let k = (endpoint_index, client_index);
                    &&& final(self).table() == old(self).table().remove(k)
                    &&& a == if old(self).table().dom().contains(k) {
                        RunnerAction::Deliver {
                            endpoint_index,
                            client_index,
                            client: old(self).table()[k],
                            message,
                        }
                    } else {
                        RunnerAction::Ignore
                    }
                },
                RunnerEvent::Control(ToRunner::Shutdown) => {
                    &&& final(self).table() == Map::<ClientKey, C>::empty()
                    &&& old(self).clients().len() == old(self).table().dom().len()
                    &&& a matches RunnerAction::Stop(all) && all@ == old(self).clients()
                        && lists_table(old(self).keys(), all@, old(self).table()) && forall|
                        k: ClientKey,
                    | #[trigger] old(self).table().dom().contains(k) ==> exists|i: int|
                        0 <= i < all@.len() && all@[i] == old(self).table()[k]
                },
            },
    {
        match event {
            RunnerEvent::IncomingConnection { endpoint_index, client_index, client } => {
                let replaced = self.clients.insert((endpoint_index, client_index), client);
                RunnerAction::Connected { replaced }
            },
            RunnerEvent::ClientError { endpoint_index, client_index } => {
                match self.clients.remove((endpoint_index, client_index)) {
                    Some(c) => RunnerAction::Died(c),
                    None => RunnerAction::Ignore,
                }
            },
            RunnerEvent::ClientReceive { endpoint_index, client_index, line } => {
                RunnerAction::Forward(
                    IncomingMessage {
                        address: EndpointAddr::Tcp { endpoint_index, client_index },
                        message: line,
                    },
                )
            },
            RunnerEvent::Control(ToRunner::Message { endpoint_index, client_index, message }) => {
                match self.clients.remove((endpoint_index, client_index)) {
                    Some(client) => RunnerAction::Deliver {
                        endpoint_index,
                        client_index,
                        client,
                        message,
                    },
                    None => RunnerAction::Ignore,
                }
            },
            RunnerEvent::Control(ToRunner::Shutdown) => {
                let all = self.clients.drain();
                RunnerAction::Stop(all)
            },
        }
    }

    /// Says how the send of a [`RunnerAction::Deliver`] went: a client that
    /// took the line goes back into the table; one that did not is dropped
    /// and handed back to be reported.
    pub fn delivered(
        &mut self,
        endpoint_index: usize,
        client_index: usize,
        client: C,
        sent: bool,
    ) -> (dropped: Option<C>)
        ensures
            sent ==> final(self).table() == old(self).table().insert(
                (endpoint_index, client_index),
                client,
            ) && dropped is None,
            !sent ==> final(self).table() == old(self).table() && dropped == Some(client),
    {
        if sent {
            let _ = self.clients.insert((endpoint_index, client_index), client);
            None
        } else {
            Some(client)
        }
    }
}

/// What a connection learns.
pub enum ConnectionEvent {
    /// The peer sent a line.
    Line(String),
    /// Reading from the peer failed.
    ReadFailed,
    /// The runner asks for something.
    Control(ToTcpStream),
    /// Nothing more will come.
    Closed,
}

/// What a connection does next.
#[derive(Debug)]
pub enum ConnectionAction {
    /// Pass the line on to the runner, as a line read by this connection.
    Receive { endpoint_index: usize, client_index: usize, line: String },
    /// Write these characters to the peer and flush.
    Write(String),
    /// Stop with an error.
    Fail,
    /// Stop.
    Finish,
}

/// What connection `client_index` of listener `endpoint_index` does after
/// `event`: lines from the peer go to the runner, and a line to send is
/// written with `\r\n` after it.
pub fn connection_step(endpoint_index: usize, client_index: usize, event: ConnectionEvent) -> (a:
    ConnectionAction)
    ensures
        match event {
            ConnectionEvent::Line(line) => a == (ConnectionAction::Receive {
                endpoint_index,
                client_index,
                line,
            }),
            ConnectionEvent::ReadFailed => a is Fail,
            ConnectionEvent::Control(ToTcpStream::Send(message)) => a matches ConnectionAction::Write(
                out,
            ) && out@ == message@ + seq!['\r', '\n'],
            ConnectionEvent::Control(ToTcpStream::Exit) => a is Finish,
            ConnectionEvent::Closed => a is Finish,
        },
{
    match event {
        ConnectionEvent::Line(line) => ConnectionAction::Receive { endpoint_index, client_index, line },
        ConnectionEvent::ReadFailed => ConnectionAction::Fail,
        ConnectionEvent::Control(ToTcpStream::Send(message)) => {
            let mut out = message;
            out.append("\r\n");
            proof {
                reveal_strlit("\r\n");
                assert("\r\n"@ =~= seq!['\r', '\n']);
            }
            ConnectionAction::Write(out)
        },
        ConnectionEvent::Control(ToTcpStream::Exit) => ConnectionAction::Finish,
        ConnectionEvent::Closed => ConnectionAction::Finish,
    }
}

/// A listener's numbering of the clients it accepts: each new connection
/// gets the next number, starting from 0.
pub struct Listener {
    pub endpoint_index: usize,
    pub next_client_index: usize,
}

impl Listener {
    /// The numbering of listener `endpoint_index`, before any connection.
    pub fn new(endpoint_index: usize) -> (l: Listener)
        ensures
            l.endpoint_index == endpoint_index,
            l.next_client_index == 0,
    {
        Listener { endpoint_index, next_client_index: 0 }
    }

    /// The key of a connection just accepted.
    pub fn accept(&mut self) -> (k: ClientKey)
        requires
            old(self).next_client_index < usize::MAX,
        ensures
            k == (old(self).endpoint_index, old(self).next_client_index),
            final(self).endpoint_index == old(self).endpoint_index,
            final(self).next_client_index == old(self).next_client_index + 1,
    {
        let k = (self.endpoint_index, self.next_client_index);
        self.next_client_index = self.next_client_index + 1;
        k
    }
}


/// A delivery that goes through leaves the table as it was: the client that
/// [`TcpRunner::step`] took out for a message is put back under its key.
pub proof fn lemma_delivery_restores_table<C>(table: Map<ClientKey, C>, k: ClientKey)
    requires
        table.dom().contains(k),
    ensures
        table.remove(k).insert(k, table[k]) == table,
{
    assert(table.remove(k).insert(k, table[k]) =~= table);
}

/// A connection that failed gets nothing more: once its key is out of the
/// table, a message for it is ignored, until a new connection takes the key.
pub proof fn lemma_failed_client_gets_nothing<C>(table: Map<ClientKey, C>, k: ClientKey)
    ensures
        !table.remove(k).dom().contains(k),
{
}


/// A connection dropped after it failed is not told to close at shutdown:
/// once its key is out of the table, the list of clients to close holds no
/// client under that key.
pub proof fn lemma_failed_client_not_closed_again<C>(
    table: Map<ClientKey, C>,
    k: ClientKey,
    keys: Seq<ClientKey>,
    clients: Seq<C>,
)
    requires
        lists_table(keys, clients, table.remove(k)),
    ensures
        !keys.contains(k),
{
    if keys.contains(k) {
        let i = choose|i: int| 0 <= i < keys.len() && keys[i] == k;
        assert(table.remove(k).dom().contains(keys[i]));
    }
}

} // verus!
