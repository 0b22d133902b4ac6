//! What the proxy is told to do, and whether that makes sense.

use crate::address::SocketAddr;
use crate::hello::MAX_SERVER_NAME;
pub use crate::routes::{normalize, BackendConfig, BackendProvider, RouteTable, Routes, ServerConfig};
use crate::routes::{self, BackendModel, Entry, ServerModel};
use crate::text::{self, push_number};
use crate::time::{self, Duration};
use vstd::prelude::*;
use vstd::string::*;
use vstd::utf8;

verus! {

/// The port a Hytale server listens on unless told otherwise.
pub const DEFAULT_PORT: u16 = 5520;

/// The proxy's configuration.
#[derive(Debug)]
pub struct Config {
    /// Address players connect to. The proxy owns this port in every state.
    ///
    /// An unspecified IPv6 address serves IPv4 clients too. A v4-only bind costs every client
    /// that resolves the hostname to IPv6 first a full handshake timeout before it retries over
    /// IPv4.
    pub listen: SocketAddr,
    /// Address the default backend binds. Must differ from `listen`, and should stay on
    /// loopback: relayed traffic arrives from the proxy, so exposing it publicly would let
    /// players bypass the proxy entirely.
    pub backend: SocketAddr,
    pub server: ServerConfig,
    /// Backends keyed by the name in a client's QUIC ClientHello. Unknown or unreadable names
    /// use `backend` and `server`.
    pub routes: RouteTable,
    /// Shut a backend down after this long with no active sessions.
    pub idle_timeout: Duration,
    /// Give up waking a backend if it has not logged its boot line by then.
    pub boot_timeout: Duration,
    /// Drop a relay session after this long without a datagram.
    ///
    /// Must exceed the server's own idle timeout, or the proxy will reap connections that are
    /// merely quiet, and undercount players.
    pub session_timeout: Duration,
    /// How long a backend gets to exit on SIGTERM before it is killed.
    pub shutdown_grace: Duration,
}

/// What a [`Config`] says.
pub struct ConfigModel {
    pub listen: SocketAddr,
    pub backend: SocketAddr,
    pub server: ServerModel,
    pub routes: Seq<Entry>,
    pub idle_timeout: Duration,
    pub boot_timeout: Duration,
    pub session_timeout: Duration,
    pub shutdown_grace: Duration,
}

impl View for Config {
    type V = ConfigModel;

    open spec fn view(&self) -> ConfigModel {
        ConfigModel {
            listen: self.listen,
            backend: self.backend,
            server: self.server@,
            routes: self.routes@,
            idle_timeout: self.idle_timeout,
            boot_timeout: self.boot_timeout,
            session_timeout: self.session_timeout,
            shutdown_grace: self.shutdown_grace,
        }
    }
}

/// The configuration that an empty file stands for.
pub open spec fn default_config() -> ConfigModel {
    ConfigModel {
        listen: SocketAddr::V6 { ip: 0, port: DEFAULT_PORT, flowinfo: 0, scope_id: 0 },
        backend: SocketAddr::V4 { ip: 0x7f00_0001, port: 5521 },
        server: ServerModel {
            provider: BackendProvider::Process,
            command: "java"@,
            args: seq!["-jar"@, "HytaleServer.jar"@],
            working_dir: "."@,
            forward_stdin: true,
        },
        routes: Seq::empty(),
        idle_timeout: Duration { nanos: (900 * time::SECOND) as u128 },
        boot_timeout: Duration { nanos: (300 * time::SECOND) as u128 },
        session_timeout: Duration { nanos: (90 * time::SECOND) as u128 },
        shutdown_grace: Duration { nanos: (10 * time::SECOND) as u128 },
    }
}

impl Default for Config {
    fn default() -> (config: Config)
        ensures
            config@ == default_config(),
    {
        Config {
            listen: SocketAddr::V6 { ip: 0, port: DEFAULT_PORT, flowinfo: 0, scope_id: 0 },
            backend: SocketAddr::V4 { ip: 0x7f00_0001, port: DEFAULT_PORT + 1 },
            server: ServerConfig::default(),
            routes: RouteTable::new(),
            idle_timeout: Duration::from_secs(900),
            boot_timeout: Duration::from_secs(300),
            session_timeout: Duration::from_secs(90),
            shutdown_grace: Duration::from_secs(10),
        }
    }
}

/// Why a configuration is refused.
#[allow(inconsistent_fields)]
pub enum Fault {
    SharedAddress { listen: SocketAddr },
    ListenPort,
    BackendPort,
    Command,
    RouteName { name: Seq<char>, len: nat },
    RouteIsListen { name: Seq<char>, listen: SocketAddr },
    RoutePort { name: Seq<char> },
    SameName { other: Seq<char>, name: Seq<char> },
    SameBackend { other: Option<Seq<char>>, name: Seq<char>, backend: SocketAddr },
    RouteCommand { name: Seq<char> },
}

/// The last of the first `n` routes that a name could be confused with.
pub open spec fn same_name(entries: Seq<Entry>, n: int, name: Seq<char>) -> Option<int>
    decreases n,
{
    if n <= 0 {
        None
    } else if routes::normal(entries[n - 1].0) == routes::normal(name) {
        Some(n - 1)
    } else {
        same_name(entries, n - 1, name)
    }
}

/// The last of the first `n` routes that leads to an address.
pub open spec fn same_backend(entries: Seq<Entry>, n: int, backend: SocketAddr) -> Option<int>
    decreases n,
{
    if n <= 0 {
        None
    } else if entries[n - 1].1.backend == backend {
        Some(n - 1)
    } else {
        same_backend(entries, n - 1, backend)
    }
}

impl ConfigModel {
    /// The default backend.
    pub open spec fn default_backend(self) -> BackendModel {
        BackendModel { backend: self.backend, server: self.server }
    }

    /// What is wrong with route `i`, given that the routes before it are in order.
    pub open spec fn route_fault(self, i: int) -> Option<Fault> {
        let name = self.routes[i].0;
        let route = self.routes[i].1;
        let len = utf8::encode_utf8(name).len();
        if !(1 <= len <= MAX_SERVER_NAME) {
            Some(Fault::RouteName { name, len })
        } else if route.backend == self.listen {
            Some(Fault::RouteIsListen { name, listen: self.listen })
        } else if route.backend.spec_port() == 0 {
            Some(Fault::RoutePort { name })
        } else if same_name(self.routes, i, name) is Some {
            let other = self.routes[same_name(self.routes, i, name).unwrap()].0;
            Some(Fault::SameName { other, name })
        } else if route.backend == self.backend {
            Some(Fault::SameBackend { other: None, name, backend: route.backend })
        } else if same_backend(self.routes, i, route.backend) is Some {
            let other = self.routes[same_backend(self.routes, i, route.backend).unwrap()].0;
            Some(Fault::SameBackend { other: Some(other), name, backend: route.backend })
        } else if route.server.command.len() == 0 {
            Some(Fault::RouteCommand { name })
        } else {
            None
        }
    }

    /// The first fault among the routes from `i` on.
    pub open spec fn routes_fault(self, i: int) -> Option<Fault>
        decreases self.routes.len() - i,
    {
        if i >= self.routes.len() {
            None
        } else {
            match self.route_fault(i) {
                Some(fault) => Some(fault),
                None => self.routes_fault(i + 1),
            }
        }
    }

    /// The first fault: of the proxy and the default backend, then of the routes in name order.
    pub open spec fn fault(self) -> Option<Fault> {
        if self.listen == self.backend {
            Some(Fault::SharedAddress { listen: self.listen })
        } else if self.listen.spec_port() == 0 {
            Some(Fault::ListenPort)
        } else if self.backend.spec_port() == 0 {
            Some(Fault::BackendPort)
        } else if self.server.command.len() == 0 {
            Some(Fault::Command)
        } else {
            self.routes_fault(0)
        }
    }

    /// A route that could stand on its own.
    pub open spec fn usable(self, i: int) -> bool {
        let name = self.routes[i].0;
        let route = self.routes[i].1;
        &&& 1 <= utf8::encode_utf8(name).len() <= MAX_SERVER_NAME
        &&& route.backend != self.listen
        &&& route.backend != self.backend
        &&& route.backend.spec_port() != 0
        &&& route.server.command.len() > 0
    }

    /// Two routes that cannot be confused.
    pub open spec fn apart(self, i: int, j: int) -> bool {
        &&& routes::normal(self.routes[i].0) != routes::normal(self.routes[j].0)
        &&& self.routes[i].1.backend != self.routes[j].1.backend
    }

    /// A configuration the proxy can run with: every endpoint has an address of its own and a
    /// fixed port, every backend a program, and no two routes answer to the same name.
    pub open spec fn valid(self) -> bool {
        &&& self.listen != self.backend
        &&& self.listen.spec_port() != 0
        &&& self.backend.spec_port() != 0
        &&& self.server.command.len() > 0
        &&& forall|i: int| 0 <= i < self.routes.len() ==> #[trigger] self.usable(i)
        &&& forall|i: int, j: int|
            0 <= i < j < self.routes.len() ==> #[trigger] self.apart(i, j)
    }
}

/// Why a configuration is refused, with what is needed to say so.
#[allow(inconsistent_fields)]
#[derive(Debug)]
pub enum ConfigError {
    /// The proxy and the default backend have one address.
    SharedAddress { listen: SocketAddr },
    /// The public port is left to chance.
    ListenPort,
    /// The default backend's port is left to chance.
    BackendPort,
    /// The default backend has no program.
    Command,
    /// A route's name is empty or too long.
    RouteName { name: String, len: usize },
    /// A route leads to the proxy itself.
    RouteIsListen { name: String, listen: SocketAddr },
    /// A route's port is left to chance.
    RoutePort { name: String },
    /// Two routes answer to one name.
    SameName { other: String, name: String },
    /// A route leads where another one, or the default, already does.
    SameBackend { other: Option<String>, name: String, backend: SocketAddr },
    /// A route has no program.
    RouteCommand { name: String },
}

impl View for ConfigError {
    type V = Fault;

    open spec fn view(&self) -> Fault {
        match *self {
            ConfigError::SharedAddress { listen } => Fault::SharedAddress { listen },
            ConfigError::ListenPort => Fault::ListenPort,
            ConfigError::BackendPort => Fault::BackendPort,
            ConfigError::Command => Fault::Command,
            ConfigError::RouteName { name, len } => Fault::RouteName {
                name: name@,
                len: len as nat,
            },
            ConfigError::RouteIsListen { name, listen } => Fault::RouteIsListen {
                name: name@,
                listen,
            },
            ConfigError::RoutePort { name } => Fault::RoutePort { name: name@ },
            ConfigError::SameName { other, name } => Fault::SameName {
                other: other@,
                name: name@,
            },
            ConfigError::SameBackend { other, name, backend } => Fault::SameBackend {
                other: match other {
                    Some(other) => Some(other@),
                    None => None,
                },
                name: name@,
                backend,
            },
            ConfigError::RouteCommand { name } => Fault::RouteCommand { name: name@ },
        }
    }
}

/// `names` are the normal forms of the first routes.
spec fn normal_names(names: Seq<String>, entries: Seq<Entry>) -> bool {
    &&& names.len() <= entries.len()
    &&& forall|k: int| 0 <= k < names.len() ==> (#[trigger] names[k])@ == routes::normal(
        entries[k].0,
    )
}

/// Find the last of the names that is the same.
fn find_name(names: &Vec<String>, name: &String, Ghost(entries): Ghost<Seq<Entry>>, Ghost(
    raw,
): Ghost<Seq<char>>) -> (found: Option<usize>)
    requires
        normal_names(names@, entries),
        name@ == routes::normal(raw),
    ensures
        match found {
            Some(j) => j < names@.len() && same_name(entries, names@.len() as int, raw) == Some(
                j as int,
            ),
            None => same_name(entries, names@.len() as int, raw) is None,
        },
{
    let mut j: usize = names.len();
    while j > 0
        invariant
            j <= names@.len(),
            normal_names(names@, entries),
            name@ == routes::normal(raw),
            same_name(entries, names@.len() as int, raw) == same_name(entries, j as int, raw),
        decreases j,
    {
        if names[j - 1] == *name {
            return Some(j - 1);
        }
        j = j - 1;
    }
    None
}

impl Config {
    /// Find the last of the first `n` routes that leads to an address.
    fn find_backend(&self, n: usize, backend: SocketAddr) -> (found: Option<usize>)
        requires
            n <= self.routes@.len(),
        ensures
            match found {
                Some(j) => j < n && same_backend(self.routes@, n as int, backend) == Some(
                    j as int,
                ),
                None => same_backend(self.routes@, n as int, backend) is None,
            },
    {
        let mut j: usize = n;
        while j > 0
            invariant
                j <= n <= self.routes@.len(),
                same_backend(self.routes@, n as int, backend) == same_backend(
                    self.routes@,
                    j as int,
                    backend,
                ),
            decreases j,
        {
            if self.routes.entry(j - 1).1.backend == backend {
                return Some(j - 1);
            }
            j = j - 1;
        }
        None
    }

    /// Check one route against the proxy and the routes before it.
    fn validate_route(&self, i: usize, names: &Vec<String>, normal: &String) -> (outcome: Result<
        (),
        ConfigError,
    >)
        requires
            i < self.routes@.len(),
            names@.len() == i,
            normal_names(names@, self.routes@),
            normal@ == routes::normal(self.routes@[i as int].0),
        ensures
            match outcome {
                Ok(()) => self@.route_fault(i as int) is None,
                Err(e) => self@.route_fault(i as int) == Some(e@),
            },
    {
        let (name, route) = self.routes.entry(i);
        let len = name.as_bytes().len();
        if !(1 <= len && len <= MAX_SERVER_NAME) {
            return Err(ConfigError::RouteName { name: name.to_string(), len });
        }
        if route.backend == self.listen {
            return Err(ConfigError::RouteIsListen { name: name.to_string(), listen: self.listen });
        }
        if route.backend.port() == 0 {
            return Err(ConfigError::RoutePort { name: name.to_string() });
        }
        if let Some(j) = find_name(names, normal, Ghost(self.routes@), Ghost(name@)) {
            return Err(
                ConfigError::SameName {
                    other: self.routes.entry(j).0.to_string(),
                    name: name.to_string(),
                },
            );
        }
        let backend = route.backend;
        if backend == self.backend {
            return Err(ConfigError::SameBackend { other: None, name: name.to_string(), backend });
        }
        if let Some(j) = self.find_backend(i, backend) {
            let other = self.routes.entry(j).0.to_string();
            return Err(
                ConfigError::SameBackend { other: Some(other), name: name.to_string(), backend },
            );
        }
        if route.server.command.as_str().is_empty() {
            return Err(ConfigError::RouteCommand { name: name.to_string() });
        }
        Ok(())
    }

    /// Refuse a configuration that cannot work.
    pub fn validate(&self) -> (outcome: Result<(), ConfigError>)
        ensures
            match outcome {
                Ok(()) => self@.fault() is None,
                Err(e) => self@.fault() == Some(e@),
            },
            outcome is Ok <==> self@.valid(),
    {
        proof {
            lemma_valid(self@);
        }
        if self.listen == self.backend {
            return Err(ConfigError::SharedAddress { listen: self.listen });
        }
        if self.listen.port() == 0 {
            return Err(ConfigError::ListenPort);
        }
        if self.backend.port() == 0 {
            return Err(ConfigError::BackendPort);
        }
        if self.server.command.as_str().is_empty() {
            return Err(ConfigError::Command);
        }
        let mut names: Vec<String> = Vec::new();
        let mut i: usize = 0;
        while i < self.routes.len()
            invariant
                i <= self.routes@.len(),
                names@.len() == i,
                normal_names(names@, self.routes@),
                self@.fault() == self@.routes_fault(i as int),
                self@.valid() == (self@.fault() is None),
            decreases self.routes@.len() - i,
        {
            let normal = normalize(self.routes.entry(i).0);
            match self.validate_route(i, &names, &normal) {
                Ok(()) => {},
                Err(e) => {
                    return Err(e);
                },
            }
            names.push(normal);
            i = i + 1;
        }
        Ok(())
    }

    /// The backend for clients that name no route.
    pub fn default_backend(&self) -> (backend: BackendConfig)
        ensures
            backend@ == self@.default_backend(),
    {
        BackendConfig { backend: self.backend, server: self.server.clone() }
    }

    /// The routes, by the names they are matched under.
    pub fn routes(&self) -> (table: Routes)
        ensures
            routed(self@, table@),
    {
        let mut table = RouteTable::new();
        let mut i: usize = 0;
        proof {
            assert(normal_entries(self.routes@).take(0) =~= Seq::<Entry>::empty());
        }
        while i < self.routes.len()
            invariant
                i <= self.routes@.len(),
                routes::sorted(table@),
                forall|n: Seq<char>|
                    #![trigger routes::lookup(table@, n)]
                    routes::lookup(table@, n) == routes::lookup(
                        normal_entries(self.routes@).take(i as int),
                        n,
                    ),
            decreases self.routes@.len() - i,
        {
            let (name, backend) = self.routes.entry(i);
            let ghost before = table@;
            table.insert(normalize(name), backend.clone());
            proof {
                let all = normal_entries(self.routes@);
                assert(all.take(i + 1).drop_last() =~= all.take(i as int));
                assert(all.take(i + 1).last() == (routes::normal(name@), backend@));
                assert forall|n: Seq<char>|
                    #![trigger routes::lookup(table@, n)]
                    routes::lookup(table@, n) == routes::lookup(all.take(i + 1), n) by {
                    assert(routes::lookup(before, n) == routes::lookup(all.take(i as int), n));
                    routes::lemma_lookup_index(all.take(i as int), n);
                }
            }
            i = i + 1;
        }
        proof {
            assert(normal_entries(self.routes@).take(i as int) =~= normal_entries(self.routes@));
        }
        Routes { default: self.default_backend(), table }
    }
}

/// Routes under the names they are matched by.
pub open spec fn normal_entries(entries: Seq<Entry>) -> Seq<Entry> {
    entries.map_values(|e: Entry| (routes::normal(e.0), e.1))
}

/// `table` is what a configuration routes by: each name in its normal form, in name order, and
/// under it the last route with that form.
pub open spec fn routed(config: ConfigModel, table: routes::RoutesModel) -> bool {
    &&& table.default == config.default_backend()
    &&& routes::sorted(table.table)
    &&& forall|n: Seq<char>|
        #![trigger routes::lookup(table.table, n)]
        routes::lookup(table.table, n) == routes::lookup(normal_entries(config.routes), n)
}

proof fn lemma_same_name(entries: Seq<Entry>, n: int, name: Seq<char>)
    ensures
        same_name(entries, n, name) is None <==> forall|k: int|
            0 <= k < n ==> routes::normal((#[trigger] entries[k]).0) != routes::normal(name),
        same_name(entries, n, name) matches Some(k) ==> 0 <= k < n,
    decreases n,
{
    if n > 0 {
        lemma_same_name(entries, n - 1, name);
        assert(same_name(entries, n, name) is None ==> routes::normal(entries[n - 1].0)
            != routes::normal(name));
    }
}

proof fn lemma_same_backend(entries: Seq<Entry>, n: int, backend: SocketAddr)
    ensures
        same_backend(entries, n, backend) is None <==> forall|k: int|
            0 <= k < n ==> (#[trigger] entries[k]).1.backend != backend,
        same_backend(entries, n, backend) matches Some(k) ==> 0 <= k < n,
    decreases n,
{
    if n > 0 {
        lemma_same_backend(entries, n - 1, backend);
        assert(same_backend(entries, n, backend) is None ==> entries[n - 1].1.backend != backend);
    }
}

/// Route `k` is usable and apart from those before it.
spec fn in_order(c: ConfigModel, k: int) -> bool {
    c.usable(k) && forall|j: int| 0 <= j < k ==> #[trigger] c.apart(j, k)
}

proof fn lemma_route_valid(c: ConfigModel, i: int)
    requires
        0 <= i < c.routes.len(),
    ensures
        c.route_fault(i) is None <==> in_order(c, i),
{
    let name = c.routes[i].0;
    let backend = c.routes[i].1.backend;
    lemma_same_name(c.routes, i, name);
    lemma_same_backend(c.routes, i, backend);
    if c.route_fault(i) is None {
        assert forall|j: int| 0 <= j < i implies #[trigger] c.apart(j, i) by {
            assert(routes::normal(c.routes[j].0) != routes::normal(name));
            assert(c.routes[j].1.backend != backend);
        }
    }
    if in_order(c, i) {
        assert forall|k: int| 0 <= k < i implies routes::normal((#[trigger] c.routes[k]).0)
            != routes::normal(name) && c.routes[k].1.backend != backend by {
            assert(c.apart(k, i));
        }
    }
}

/// The routes from `i` on are without fault exactly when each is in order.
proof fn lemma_routes_valid(c: ConfigModel, i: int)
    requires
        0 <= i <= c.routes.len(),
    ensures
        c.routes_fault(i) is None <==> forall|k: int|
            i <= k < c.routes.len() ==> #[trigger] in_order(c, k),
    decreases c.routes.len() - i,
{
    if i < c.routes.len() {
        lemma_routes_valid(c, i + 1);
        lemma_route_valid(c, i);
    }
}

/// Nothing is found wrong with a configuration exactly when it is one the proxy can run with.
pub proof fn lemma_valid(c: ConfigModel)
    ensures
        c.fault() is None <==> c.valid(),
{
    lemma_routes_valid(c, 0);
    if c.fault() is None {
        assert forall|i: int| 0 <= i < c.routes.len() implies #[trigger] c.usable(i) by {
            assert(in_order(c, i));
        }
        assert forall|i: int, j: int| 0 <= i < j < c.routes.len() implies #[trigger] c.apart(
            i,
            j,
        ) by {
            assert(in_order(c, j));
        }
    }
}

/// How `{:?}` writes a string: in quotes, with what could mislead a reader escaped.
pub uninterp spec fn quoted(s: Seq<char>) -> Seq<char>;

/// Calls `format!` with `{:?}` on a string.
///
/// Claimed: the outcome depends on the text alone. How it is escaped is left unsaid.
#[verifier::external_body]
fn quote(s: &str) -> (out: String)
    ensures
        out@ == quoted(s@),
{
    format!("{s:?}")
}

impl Fault {
    /// The route at fault, where there is one.
    pub open spec fn name(self) -> Seq<char> {
        match self {
            Fault::RouteName { name, .. } => name,
            Fault::RouteIsListen { name, .. } => name,
            Fault::RoutePort { name } => name,
            Fault::SameName { name, .. } => name,
            Fault::SameBackend { name, .. } => name,
            Fault::RouteCommand { name } => name,
            _ => Seq::empty(),
        }
    }

    /// The other route involved, where there is one.
    pub open spec fn other(self) -> Seq<char> {
        match self {
            Fault::SameName { other, .. } => other,
            Fault::SameBackend { other: Some(other), .. } => other,
            _ => Seq::empty(),
        }
    }

    /// The message for a fault, given its route and the other one as they are to be shown.
    pub open spec fn message(self, name: Seq<char>, other: Seq<char>) -> Seq<char> {
        match self {
            Fault::SharedAddress { listen } =>
                "listen and backend must differ; the proxy and the server cannot share "@
                + listen.text(),
            Fault::ListenPort =>
                "listen port must be fixed, not 0 — players need a stable port to reconnect to"@,
            Fault::BackendPort =>
                "backend port must be fixed, not 0 — the proxy must know where to forward to"@,
            Fault::Command => "server.command must not be empty"@,
            Fault::RouteName { len, .. } => "route names must be 1 to 253 characters; "@ + name
                + " is "@ + text::digits(len, 10),
            Fault::RouteIsListen { listen, .. } => "route "@ + name + " points at "@
                + listen.text() + ", which is the proxy's own listen address"@,
            Fault::RoutePort { .. } => "route "@ + name
                + " must have a fixed backend port, not 0"@,
            Fault::SameName { .. } => "routes "@ + other + " and "@ + name
                + " are the same server name"@,
            Fault::SameBackend { other: None, backend, .. } => "default backend and route "@ + name
                + " use the same backend address "@ + backend.text(),
            Fault::SameBackend { other: Some(_), backend, .. } => "route "@ + other
                + " and route "@ + name + " use the same backend address "@ + backend.text(),
            Fault::RouteCommand { .. } => "route "@ + name + ".command must not be empty"@,
        }
    }
}

impl ConfigError {
    /// Say what is wrong.
    pub fn message(&self) -> (out: String)
        ensures
            out@ == self@.message(quoted(self@.name()), quoted(self@.other())),
    {
        let name = match self {
            ConfigError::RouteName { name, .. } => quote(name.as_str()),
            ConfigError::RouteIsListen { name, .. } => quote(name.as_str()),
            ConfigError::RoutePort { name } => quote(name.as_str()),
            ConfigError::SameName { name, .. } => quote(name.as_str()),
            ConfigError::SameBackend { name, .. } => quote(name.as_str()),
            ConfigError::RouteCommand { name } => quote(name.as_str()),
            _ => quote(String::new().as_str()),
        };
        let other = match self {
            ConfigError::SameName { other, .. } => quote(other.as_str()),
            ConfigError::SameBackend { other: Some(other), .. } => quote(other.as_str()),
            _ => quote(String::new().as_str()),
        };
        self.message_about(name.as_str(), other.as_str())
    }

    /// Say what is wrong, calling the routes involved by the given names.
    pub fn message_about(&self, name: &str, other: &str) -> (out: String)
        ensures
            out@ == self@.message(name@, other@),
    {
        match self {
            ConfigError::SharedAddress { listen } => {
                "listen and backend must differ; the proxy and the server cannot share ".to_string(
                ).concat(listen.to_text().as_str())
            },
            ConfigError::ListenPort =>
                "listen port must be fixed, not 0 — players need a stable port to reconnect to".to_string(),
            ConfigError::BackendPort =>
                "backend port must be fixed, not 0 — the proxy must know where to forward to".to_string(),
            ConfigError::Command => "server.command must not be empty".to_string(),
            ConfigError::RouteName { len, .. } => {
                let mut out = "route names must be 1 to 253 characters; ".to_string().concat(
                    name,
                ).concat(" is ");
                push_number(&mut out, *len as u64, 10);
                out
            },
            ConfigError::RouteIsListen { listen, .. } => "route ".to_string().concat(name).concat(
                " points at ",
            ).concat(listen.to_text().as_str()).concat(
                ", which is the proxy's own listen address",
            ),
            ConfigError::RoutePort { .. } => "route ".to_string().concat(name).concat(
                " must have a fixed backend port, not 0",
            ),
            ConfigError::SameName { .. } => "routes ".to_string().concat(other).concat(
                " and ",
            ).concat(name).concat(" are the same server name"),
            ConfigError::SameBackend { other: None, backend, .. } =>
                "default backend and route ".to_string().concat(name).concat(
                " use the same backend address ",
            ).concat(backend.to_text().as_str()),
            ConfigError::SameBackend { other: Some(_), backend, .. } =>
                "route ".to_string().concat(other).concat(" and route ").concat(name).concat(
                " use the same backend address ",
            ).concat(backend.to_text().as_str()),
            ConfigError::RouteCommand { .. } => "route ".to_string().concat(name).concat(
                ".command must not be empty",
            ),
        }
    }
}

/// Law: route names are matched without regard to ASCII case or to one trailing dot.
pub proof fn law_names_match_loosely(a: Seq<char>, b: Seq<char>)
    requires
        text::lowercase(a) == text::lowercase(b),
    ensures
        routes::normal(a) == routes::normal(b),
        a.len() == 0 || a.last() != '.' ==> routes::normal(a.push('.')) == routes::normal(b),
{
    assert(text::lowercase(a).len() == a.len() && text::lowercase(b).len() == b.len());
    assert forall|i: int| 0 <= i < a.len() implies text::lower(#[trigger] a[i]) == text::lower(
        b[i],
    ) by {
        assert(text::lowercase(a)[i] == text::lower(a[i]));
        assert(text::lowercase(b)[i] == text::lower(b[i]));
    }
    assert(a.push('.').drop_last() =~= a);
    assert(routes::normal(a) =~= routes::normal(b));
}

/// Law: the built-in configuration is one the proxy can run with.
pub proof fn law_the_default_is_valid()
    ensures
        default_config().valid(),
{
    reveal_strlit("java");
}

/// Law: in a valid configuration every route is reached under its own name and every name that
/// matches it.
pub proof fn law_every_route_is_reached(
    config: ConfigModel,
    table: routes::RoutesModel,
    i: int,
    name: Seq<char>,
)
    requires
        config.valid(),
        routed(config, table),
        0 <= i < config.routes.len(),
        routes::normal(name) == routes::normal(config.routes[i].0),
    ensures
        table.resolved(Some(name)) == config.routes[i].1,
{
    let all = normal_entries(config.routes);
    let n = routes::normal(name);
    lemma_place(config, i);
    routes::lemma_lookup_index(table.table, n);
    assert(routes::lookup(table.table, n) == routes::lookup(all, n));
    assert(all[i] == (n, config.routes[i].1));
    assert(table.backends()[table.slot(Some(name))] == config.routes[i].1);
}

/// Each route of a valid configuration is the only one with its normal form.
proof fn lemma_place(config: ConfigModel, i: int)
    requires
        config.valid(),
        0 <= i < config.routes.len(),
    ensures
        routes::place(normal_entries(config.routes), routes::normal(config.routes[i].0)) == Some(i),
{
    let all = normal_entries(config.routes);
    let n = routes::normal(config.routes[i].0);
    assert(all[i].0 == n);
    routes::lemma_lookup_none(all.take(0), n);
    lemma_place_from(config, i, all.len() as int);
    assert(all.take(all.len() as int) =~= all);
}

proof fn lemma_place_from(config: ConfigModel, i: int, len: int)
    requires
        config.valid(),
        0 <= i < len <= config.routes.len(),
    ensures
        routes::place(normal_entries(config.routes).take(len), routes::normal(config.routes[i].0))
            == Some(i),
    decreases len,
{
    let all = normal_entries(config.routes);
    assert(all.take(len).drop_last() =~= all.take(len - 1));
    assert(all.take(len).last() == (
        routes::normal(config.routes[len - 1].0),
        config.routes[len - 1].1,
    ));
    if i < len - 1 {
        assert(config.apart(i, len - 1));
        lemma_place_from(config, i, len - 1);
    }
}

/// Law: a client that names nothing, or nothing known, is served by the default backend.
pub proof fn law_unknown_names_reach_the_default(
    config: ConfigModel,
    table: routes::RoutesModel,
    name: Seq<char>,
)
    requires
        routed(config, table),
        forall|i: int|
            0 <= i < config.routes.len() ==> routes::normal((#[trigger] config.routes[i]).0)
                != routes::normal(name),
    ensures
        table.resolved(Some(name)) == config.default_backend(),
        table.resolved(None) == config.default_backend(),
{
    let all = normal_entries(config.routes);
    let n = routes::normal(name);
    assert forall|i: int| 0 <= i < all.len() implies (#[trigger] all[i]).0 != n by {
        assert(routes::normal(config.routes[i].0) != n);
    }
    routes::lemma_lookup_none(all, n);
    assert(routes::lookup(table.table, n) == routes::lookup(all, n));
}

/// Law: in a valid configuration no two backends share an address, and none has the proxy's.
pub proof fn law_backends_are_apart(config: ConfigModel, table: routes::RoutesModel, i: int, j: int)
    requires
        config.valid(),
        routed(config, table),
        0 <= i < j < table.backends().len(),
    ensures
        table.backends()[i].backend != table.backends()[j].backend,
        table.backends()[i].backend != config.listen,
        table.backends()[j].backend != config.listen,
{
    let b = lemma_source(config, table, j - 1);
    assert(config.usable(b));
    assert(table.backends()[j] == table.table[j - 1].1);
    if i > 0 {
        let a = lemma_source(config, table, i - 1);
        assert(table.backends()[i] == table.table[i - 1].1);
        assert(config.usable(a));
        text::lemma_before_irreflexive(utf8::encode_utf8(table.table[i - 1].0));
        assert(table.table[i - 1].0 != table.table[j - 1].0);
        assert(a != b);
        assert(config.apart(a, b) || config.apart(b, a));
    }
}

/// The route that an entry of the table came from.
proof fn lemma_source(config: ConfigModel, table: routes::RoutesModel, i: int) -> (a: int)
    requires
        routed(config, table),
        0 <= i < table.table.len(),
    ensures
        0 <= a < config.routes.len(),
        routes::normal(config.routes[a].0) == table.table[i].0,
        config.routes[a].1 == table.table[i].1,
{
    let all = normal_entries(config.routes);
    let n = table.table[i].0;
    routes::lemma_lookup(table.table, i);
    assert(routes::lookup(table.table, n) == routes::lookup(all, n));
    routes::lemma_lookup_index(all, n);
    routes::place(all, n).unwrap()
}

/// Route `i` is the last whose name is the same server's.
pub open spec fn is_last_route(config: ConfigModel, name: Seq<char>, i: int) -> bool {
    &&& 0 <= i < config.routes.len()
    &&& routes::same_server(name, config.routes[i].0)
    &&& forall|j: int|
        i < j < config.routes.len() ==> !routes::same_server(name, (#[trigger] config.routes[j]).0)
}

/// Law: a name leads to the last route whose name is the same up to ASCII case and one trailing dot,
/// and to the default backend if there is none, or no name.
pub proof fn law_a_name_reaches_its_route(
    config: ConfigModel,
    table: routes::RoutesModel,
    name: Seq<char>,
    i: int,
)
    requires
        routed(config, table),
    ensures
        is_last_route(config, name, i) ==> table.slot(Some(name)) > 0 && table.resolved(Some(name))
            == config.routes[i].1,
        (forall|j: int|
            0 <= j < config.routes.len() ==> !routes::same_server(
                name,
                (#[trigger] config.routes[j]).0,
            )) ==> table.slot(Some(name)) == 0 && table.resolved(Some(name)).backend
            == config.backend && table.resolved(Some(name)).server == config.server,
        table.slot(None) == 0,
        table.resolved(None).backend == config.backend,
        table.resolved(None).server == config.server,
        0 <= table.slot(Some(name)) < table.backends().len(),
{
    let all = normal_entries(config.routes);
    let n = routes::normal(name);
    assert forall|j: int| 0 <= j < all.len() implies ((#[trigger] all[j]).0 == n
        <==> routes::same_server(name, config.routes[j].0)) by {
        routes::law_only_the_same_names_match(name, config.routes[j].0);
    }
    routes::lemma_lookup_index(table.table, n);
    assert(routes::lookup(table.table, n) == routes::lookup(all, n));
    if is_last_route(config, name, i) {
        assert(all[i].0 == n && all[i].1 == config.routes[i].1);
        assert forall|j: int| i < j < all.len() implies (#[trigger] all[j]).0 != n by {
            assert(!routes::same_server(name, config.routes[j].0));
        }
        routes::law_the_last_entry_counts(all, n, i);
    }
    if forall|j: int|
        0 <= j < config.routes.len() ==> !routes::same_server(
            name,
            (#[trigger] config.routes[j]).0,
        ) {
        assert forall|j: int| 0 <= j < all.len() implies (#[trigger] all[j]).0 != n by {
            assert(!routes::same_server(name, config.routes[j].0));
        }
        routes::law_the_last_entry_counts(all, n, i);
    }
}

/// The first four requirements: an address for the proxy and another for the default backend, both
/// with a fixed port, and a program.
pub open spec fn sound_defaults(c: ConfigModel) -> bool {
    &&& c.listen != c.backend
    &&& fixed_port(c.listen)
    &&& fixed_port(c.backend)
    &&& c.server.command.len() >= 1
}

/// The port is not left to chance.
pub open spec fn fixed_port(addr: SocketAddr) -> bool {
    match addr {
        SocketAddr::V4 { port, .. } => port >= 1,
        SocketAddr::V6 { port, .. } => port >= 1,
    }
}

/// Route `i` by itself is one that a client can be sent to.
pub open spec fn sound_route(c: ConfigModel, i: int) -> bool {
    let (name, route) = c.routes[i];
    &&& 1 <= utf8::encode_utf8(name).len() <= 253
    &&& route.backend != c.listen
    &&& route.backend != c.backend
    &&& fixed_port(route.backend)
    &&& route.server.command.len() >= 1
}

/// Neither the name nor the address of one route is another's.
pub open spec fn distinct_routes(c: ConfigModel, i: int, j: int) -> bool {
    &&& !routes::same_server(c.routes[i].0, c.routes[j].0)
    &&& c.routes[i].1.backend != c.routes[j].1.backend
}

/// Route `i` is sound, and distinct from those before it.
pub open spec fn sound_so_far(c: ConfigModel, i: int) -> bool {
    sound_route(c, i) && forall|j: int| 0 <= j < i ==> #[trigger] distinct_routes(c, j, i)
}

proof fn lemma_sound_so_far(c: ConfigModel, i: int)
    requires
        0 <= i < c.routes.len(),
    ensures
        c.route_fault(i) is None <==> sound_so_far(c, i),
{
    lemma_route_valid(c, i);
    assert forall|j: int| 0 <= j < i implies #[trigger] c.apart(j, i) == distinct_routes(
        c,
        j,
        i,
    ) by {
        routes::law_only_the_same_names_match(c.routes[j].0, c.routes[i].0);
    }
    if in_order(c, i) {
        assert forall|j: int| 0 <= j < i implies #[trigger] distinct_routes(c, j, i) by {
            assert(c.apart(j, i));
        }
    }
    if sound_so_far(c, i) {
        assert forall|j: int| 0 <= j < i implies #[trigger] c.apart(j, i) by {
            assert(distinct_routes(c, j, i));
        }
    }
}

/// Law: a configuration is accepted exactly when the proxy and every backend have an address of
/// their own with a fixed port, every backend has a program, every route a name of 1 to 253 bytes,
/// and no two routes have the same name up to ASCII case and a trailing dot.
pub proof fn law_what_is_accepted(c: ConfigModel)
    ensures
        c.fault() is None <==> sound_defaults(c) && (forall|i: int|
            0 <= i < c.routes.len() ==> #[trigger] sound_route(c, i)) && (forall|i: int, j: int|
            0 <= i < j < c.routes.len() ==> #[trigger] distinct_routes(c, i, j)),
        c.valid() <==> c.fault() is None,
{
    lemma_valid(c);
    lemma_routes_valid(c, 0);
    assert forall|i: int| 0 <= i < c.routes.len() implies #[trigger] in_order(c, i)
        == sound_so_far(c, i) by {
        lemma_route_valid(c, i);
        lemma_sound_so_far(c, i);
    }
    if c.fault() is None {
        assert forall|i: int| 0 <= i < c.routes.len() implies #[trigger] sound_route(c, i) by {
            assert(in_order(c, i));
        }
        assert forall|i: int, j: int|
            0 <= i < j < c.routes.len() implies #[trigger] distinct_routes(c, i, j) by {
            assert(in_order(c, j));
        }
    }
    if sound_defaults(c) && (forall|i: int|
        0 <= i < c.routes.len() ==> #[trigger] sound_route(c, i)) && (forall|i: int, j: int|
        0 <= i < j < c.routes.len() ==> #[trigger] distinct_routes(c, i, j)) {
        assert forall|i: int| 0 <= i < c.routes.len() implies #[trigger] in_order(c, i) by {
            assert(sound_route(c, i));
            assert(sound_so_far(c, i));
        }
    }
}

/// The routes from `k` on have the same first fault as those from `i` on, if those between are
/// sound.
proof fn lemma_first_unsound(c: ConfigModel, k: int, i: int)
    requires
        0 <= k <= i < c.routes.len(),
        forall|j: int| k <= j < i ==> #[trigger] sound_so_far(c, j),
    ensures
        c.routes_fault(k) == c.routes_fault(i),
    decreases i - k,
{
    if k < i {
        assert(sound_so_far(c, k));
        lemma_sound_so_far(c, k);
        lemma_first_unsound(c, k + 1, i);
    }
}

/// The last route before `i` that has the same name, or the same address, if there is one.
proof fn lemma_last_alike(c: ConfigModel, i: int, j: int)
    requires
        0 <= j < i < c.routes.len(),
    ensures
        routes::same_server(c.routes[j].0, c.routes[i].0) && (forall|k: int|
            j < k < i ==> !routes::same_server((#[trigger] c.routes[k]).0, c.routes[i].0))
            ==> same_name(c.routes, i, c.routes[i].0) == Some(j),
        c.routes[j].1.backend == c.routes[i].1.backend && (forall|k: int|
            j < k < i ==> (#[trigger] c.routes[k]).1.backend != c.routes[i].1.backend)
            ==> same_backend(c.routes, i, c.routes[i].1.backend) == Some(j),
{
    lemma_last_alike_from(c, i, j, i);
}

proof fn lemma_last_alike_from(c: ConfigModel, i: int, j: int, n: int)
    requires
        0 <= j < n <= i < c.routes.len(),
    ensures
        routes::same_server(c.routes[j].0, c.routes[i].0) && (forall|k: int|
            j < k < n ==> !routes::same_server((#[trigger] c.routes[k]).0, c.routes[i].0))
            ==> same_name(c.routes, n, c.routes[i].0) == Some(j),
        c.routes[j].1.backend == c.routes[i].1.backend && (forall|k: int|
            j < k < n ==> (#[trigger] c.routes[k]).1.backend != c.routes[i].1.backend)
            ==> same_backend(c.routes, n, c.routes[i].1.backend) == Some(j),
    decreases n,
{
    routes::law_only_the_same_names_match(c.routes[n - 1].0, c.routes[i].0);
    if j < n - 1 {
        lemma_last_alike_from(c, i, j, n - 1);
    }
}

/// Law: the first thing wrong is the one reported. First come the proxy and the default backend.
pub proof fn law_the_defaults_are_checked_first(c: ConfigModel)
    ensures
        c.listen == c.backend ==> c.fault() == Some(Fault::SharedAddress { listen: c.listen }),
        c.listen != c.backend && !fixed_port(c.listen) ==> c.fault() == Some(Fault::ListenPort),
        c.listen != c.backend && fixed_port(c.listen) && !fixed_port(c.backend) ==> c.fault()
            == Some(Fault::BackendPort),
        c.listen != c.backend && fixed_port(c.listen) && fixed_port(c.backend)
            && c.server.command.len() == 0 ==> c.fault() == Some(Fault::Command),
{
}

/// Law: of the routes, the first one that is wrong is reported, by its name, with what is wrong
/// with it: its name, its address, its port, a name or an address it shares with `j`, the last
/// route before it that has the same, or its program.
pub proof fn law_the_first_wrong_route_is_reported(c: ConfigModel, i: int, j: int)
    requires
        sound_defaults(c),
        0 <= i < c.routes.len(),
        forall|k: int| 0 <= k < i ==> #[trigger] sound_so_far(c, k),
    ensures
        ({
            let (name, route) = c.routes[i];
            let named = 1 <= utf8::encode_utf8(name).len() <= 253;
            let placed = named && route.backend != c.listen && fixed_port(route.backend);
            let apart = placed && (forall|k: int|
                0 <= k < i ==> !routes::same_server((#[trigger] c.routes[k]).0, name));
            let alone = apart && route.backend != c.backend && (forall|k: int|
                0 <= k < i ==> (#[trigger] c.routes[k]).1.backend != route.backend);
            &&& !named ==> c.fault() == Some(
                Fault::RouteName { name, len: utf8::encode_utf8(name).len() },
            )
            &&& named && route.backend == c.listen ==> c.fault() == Some(
                Fault::RouteIsListen { name, listen: c.listen },
            )
            &&& named && route.backend != c.listen && !fixed_port(route.backend) ==> c.fault()
                == Some(Fault::RoutePort { name })
            &&& placed && 0 <= j < i && routes::same_server(c.routes[j].0, name) && (forall|k: int|
                j < k < i ==> !routes::same_server((#[trigger] c.routes[k]).0, name)) ==> c.fault()
                == Some(Fault::SameName { other: c.routes[j].0, name })
            &&& apart && route.backend == c.backend ==> c.fault() == Some(
                Fault::SameBackend { other: None, name, backend: route.backend },
            )
            &&& apart && route.backend != c.backend && 0 <= j < i && c.routes[j].1.backend
                == route.backend && (forall|k: int|
                j < k < i ==> (#[trigger] c.routes[k]).1.backend != route.backend) ==> c.fault()
                == Some(
                Fault::SameBackend {
                    other: Some(c.routes[j].0),
                    name,
                    backend: route.backend,
                },
            )
            &&& alone && route.server.command.len() == 0 ==> c.fault() == Some(
                Fault::RouteCommand { name },
            )
        }),
{
    let (name, route) = c.routes[i];
    lemma_first_unsound(c, 0, i);
    lemma_same_name(c.routes, i, name);
    lemma_same_backend(c.routes, i, route.backend);
    assert forall|k: int| 0 <= k < i implies (routes::normal((#[trigger] c.routes[k]).0)
        == routes::normal(name)) == routes::same_server(c.routes[k].0, name) by {
        routes::law_only_the_same_names_match(c.routes[k].0, name);
    }
    if 0 <= j < i {
        lemma_last_alike(c, i, j);
    }
}

/// Some part of a text.
pub open spec fn mentions(whole: Seq<char>, part: Seq<char>) -> bool {
    exists|before: Seq<char>, after: Seq<char>| whole == #[trigger] (before + part + after)
}

proof fn lemma_mentions(whole: Seq<char>, before: Seq<char>, part: Seq<char>, after: Seq<char>)
    requires
        whole =~= before + part + after,
    ensures
        mentions(whole, part),
{
    assert(whole == before + part + after);
}

/// Law: a message gives in full whatever names the fault has to do with, however long they are,
/// and every address and number that it is about.
pub proof fn law_messages_give_names_in_full(fault: Fault, name: Seq<char>, other: Seq<char>)
    ensures
        fault matches Fault::SharedAddress { listen } ==> mentions(
            fault.message(name, other),
            listen.text(),
        ),
        fault matches Fault::RouteName { len, .. } ==> mentions(fault.message(name, other), name)
            && mentions(fault.message(name, other), text::digits(len, 10)),
        fault matches Fault::RouteIsListen { listen, .. } ==> mentions(
            fault.message(name, other),
            name,
        ) && mentions(fault.message(name, other), listen.text()),
        fault is RoutePort || fault is RouteCommand ==> mentions(fault.message(name, other), name),
        fault is SameName ==> mentions(fault.message(name, other), name) && mentions(
            fault.message(name, other),
            other,
        ),
        fault matches Fault::SameBackend { other: clash, backend, .. } ==> mentions(
            fault.message(name, other),
            name,
        ) && mentions(fault.message(name, other), backend.text()) && (clash is Some ==> mentions(
            fault.message(name, other),
            other,
        )),
{
    let whole = fault.message(name, other);
    let none = Seq::<char>::empty();
    match fault {
        Fault::SharedAddress { listen } => {
            lemma_mentions(
                whole,
                "listen and backend must differ; the proxy and the server cannot share "@,
                listen.text(),
                none,
            );
        },
        Fault::RouteName { len, .. } => {
            let before = "route names must be 1 to 253 characters; "@;
            let digits = text::digits(len, 10);
            lemma_mentions(whole, before, name, " is "@ + digits);
            lemma_mentions(whole, before + name + " is "@, digits, none);
        },
        Fault::RouteIsListen { listen, .. } => {
            let after = ", which is the proxy's own listen address"@;
            lemma_mentions(whole, "route "@, name, " points at "@ + listen.text() + after);
            lemma_mentions(whole, "route "@ + name + " points at "@, listen.text(), after);
        },
        Fault::RoutePort { .. } => {
            lemma_mentions(whole, "route "@, name, " must have a fixed backend port, not 0"@);
        },
        Fault::SameName { .. } => {
            let after = " are the same server name"@;
            lemma_mentions(whole, "routes "@, other, " and "@ + name + after);
            lemma_mentions(whole, "routes "@ + other + " and "@, name, after);
        },
        Fault::SameBackend { other: None, backend, .. } => {
            let before = "default backend and route "@;
            let middle = " use the same backend address "@;
            lemma_mentions(whole, before, name, middle + backend.text());
            lemma_mentions(whole, before + name + middle, backend.text(), none);
        },
        Fault::SameBackend { other: Some(_), backend, .. } => {
            let middle = " use the same backend address "@;
            let both = "route "@ + other + " and route "@;
            lemma_mentions(
                whole,
                "route "@,
                other,
                " and route "@ + name + middle + backend.text(),
            );
            lemma_mentions(whole, both, name, middle + backend.text());
            lemma_mentions(whole, both + name + middle, backend.text(), none);
        },
        Fault::RouteCommand { .. } => {
            lemma_mentions(whole, "route "@, name, ".command must not be empty"@);
        },
        _ => {},
    }
}

/// Law: what a fault has to do with is what it was reported with.
pub proof fn law_a_fault_keeps_its_names(fault: Fault)
    ensures
        fault matches Fault::RouteName { name, .. } ==> fault.name() == name,
        fault matches Fault::RouteIsListen { name, .. } ==> fault.name() == name,
        fault matches Fault::RoutePort { name } ==> fault.name() == name,
        fault matches Fault::RouteCommand { name } ==> fault.name() == name,
        fault matches Fault::SameName { other, name } ==> fault.name() == name && fault.other()
            == other,
        fault matches Fault::SameBackend { other, name, .. } ==> fault.name() == name && (
        other matches Some(other) ==> fault.other() == other),
{
}

/// Law: a valid configuration has one backend for itself and one for each route: none is dropped,
/// none appears twice, and the named ones come in the order of their normal forms.
pub proof fn law_every_route_has_one_backend(
    config: ConfigModel,
    table: routes::RoutesModel,
    i: int,
    j: int,
)
    requires
        config.valid(),
        routed(config, table),
    ensures
        table.backends().len() == config.routes.len() + 1,
        table.backends()[0].backend == config.backend,
        table.backends()[0].server == config.server,
        0 <= i < config.routes.len() ==> exists|k: int|
            1 <= k < table.backends().len() && #[trigger] table.backends()[k]
                == config.routes[i].1,
        0 <= i < j < table.table.len() ==> text::text_before(table.table[i].0, table.table[j].0),
{
    let all = normal_entries(config.routes);
    let listed = table.table.map_values(|e: Entry| e.0);
    let names = all.map_values(|e: Entry| e.0);
    assert forall|a: int, b: int| 0 <= a < b < listed.len() implies listed[a] != listed[b] by {
        text::lemma_before_irreflexive(utf8::encode_utf8(listed[a]));
        assert(text::text_before(table.table[a].0, table.table[b].0));
    }
    assert forall|a: int, b: int| 0 <= a < b < names.len() implies names[a] != names[b] by {
        assert(config.apart(a, b));
    }
    assert forall|n: Seq<char>| listed.to_set().contains(n) implies names.to_set().contains(n) by {
        let k = choose|k: int| 0 <= k < listed.len() && listed[k] == n;
        let a = lemma_source(config, table, k);
        assert(names[a] == n);
    }
    assert forall|n: Seq<char>| names.to_set().contains(n) implies listed.to_set().contains(n) by {
        let k = choose|k: int| 0 <= k < names.len() && names[k] == n;
        lemma_place(config, k);
        routes::lemma_lookup_index(table.table, n);
        assert(routes::lookup(table.table, n) == routes::lookup(all, n));
        assert(listed[routes::place(table.table, n).unwrap()] == n);
    }
    assert(listed.to_set() =~= names.to_set());
    listed.unique_seq_to_set();
    names.unique_seq_to_set();
    if 0 <= i < config.routes.len() {
        let name = config.routes[i].0;
        law_every_route_is_reached(config, table, i, name);
        let n = routes::normal(name);
        lemma_place(config, i);
        routes::lemma_lookup_index(table.table, n);
        assert(routes::lookup(table.table, n) == routes::lookup(all, n));
        assert(table.backends()[table.slot(Some(name))] == config.routes[i].1);
    }
}

/// Two faults of one kind.
pub open spec fn alike(f: Fault, g: Fault) -> bool {
    match f {
        Fault::SharedAddress { .. } => g is SharedAddress,
        Fault::ListenPort => g is ListenPort,
        Fault::BackendPort => g is BackendPort,
        Fault::Command => g is Command,
        Fault::RouteName { .. } => g is RouteName,
        Fault::RouteIsListen { .. } => g is RouteIsListen,
        Fault::RoutePort { .. } => g is RoutePort,
        Fault::SameName { .. } => g is SameName,
        Fault::SameBackend { other, .. } => g matches Fault::SameBackend { other: another, .. } && (
        other is Some <==> another is Some),
        Fault::RouteCommand { .. } => g is RouteCommand,
    }
}

/// A message with its blanks filled in: what a fault is about, between the parts of a sentence.
pub open spec fn filled(
    fault: Fault,
    name: Seq<char>,
    other: Seq<char>,
    parts: Seq<Seq<char>>,
) -> Seq<char> {
    match fault {
        Fault::SharedAddress { listen } => parts[0] + listen.text(),
        Fault::ListenPort => parts[0],
        Fault::BackendPort => parts[0],
        Fault::Command => parts[0],
        Fault::RouteName { len, .. } => parts[0] + name + parts[1] + text::digits(len, 10),
        Fault::RouteIsListen { listen, .. } => parts[0] + name + parts[1] + listen.text()
            + parts[2],
        Fault::RoutePort { .. } => parts[0] + name + parts[1],
        Fault::SameName { .. } => parts[0] + other + parts[1] + name + parts[2],
        Fault::SameBackend { other: None, backend, .. } => parts[0] + name + parts[1]
            + backend.text(),
        Fault::SameBackend { other: Some(_), backend, .. } => parts[0] + other + parts[1] + name
            + parts[2] + backend.text(),
        Fault::RouteCommand { .. } => parts[0] + name + parts[1],
    }
}

/// Law: faults of one kind are reported in the same words. Two messages differ in the names, the
/// addresses and the numbers that they are about, and in nothing else.
pub proof fn law_a_kind_of_fault_has_its_words(
    f: Fault,
    name: Seq<char>,
    other: Seq<char>,
    g: Fault,
    second_name: Seq<char>,
    second_other: Seq<char>,
)
    requires
        alike(f, g),
    ensures
        exists|parts: Seq<Seq<char>>|
            #![trigger filled(f, name, other, parts)]
            f.message(name, other) == filled(f, name, other, parts) && g.message(
                second_name,
                second_other,
            ) == filled(g, second_name, second_other, parts),
{
    let parts = match f {
        Fault::SharedAddress { .. } => seq![
            "listen and backend must differ; the proxy and the server cannot share "@,
        ],
        Fault::ListenPort => seq![
            "listen port must be fixed, not 0 — players need a stable port to reconnect to"@,
        ],
        Fault::BackendPort => seq![
            "backend port must be fixed, not 0 — the proxy must know where to forward to"@,
        ],
        Fault::Command => seq!["server.command must not be empty"@],
        Fault::RouteName { .. } => seq!["route names must be 1 to 253 characters; "@, " is "@],
        Fault::RouteIsListen { .. } => seq![
            "route "@,
            " points at "@,
            ", which is the proxy's own listen address"@,
        ],
        Fault::RoutePort { .. } => seq!["route "@, " must have a fixed backend port, not 0"@],
        Fault::SameName { .. } => seq!["routes "@, " and "@, " are the same server name"@],
        Fault::SameBackend { other: None, .. } => seq![
            "default backend and route "@,
            " use the same backend address "@,
        ],
        Fault::SameBackend { other: Some(_), .. } => seq![
            "route "@,
            " and route "@,
            " use the same backend address "@,
        ],
        Fault::RouteCommand { .. } => seq!["route "@, ".command must not be empty"@],
    };
    assert(f.message(name, other) == filled(f, name, other, parts));
    assert(g.message(second_name, second_other) == filled(g, second_name, second_other, parts));
}

} // verus!
