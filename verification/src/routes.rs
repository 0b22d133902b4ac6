//! Backends, and the names that lead to them.

use crate::address::SocketAddr;
use crate::text::{self, characters, compare, Order};
use vstd::prelude::*;
use vstd::utf8;

verus! {

/// Which infrastructure runs a backend.
#[derive(Debug, Clone, Copy, PartialEq, Eq, Structural)]
pub enum BackendProvider {
    /// Run the server as a local child process.
    Process,
}

impl Default for BackendProvider {
    fn default() -> (provider: BackendProvider)
        ensures
            provider == BackendProvider::Process,
    {
        BackendProvider::Process
    }
}

/// How a server is run.
#[derive(Debug)]
pub struct ServerConfig {
    /// Infrastructure provider that runs the backend.
    pub provider: BackendProvider,
    /// Program to run, usually `java`.
    pub command: String,
    /// Arguments before `-b <backend>` is appended.
    pub args: Vec<String>,
    /// Working directory for the child process.
    pub working_dir: String,
    /// Forward the proxy's standard input to the server console.
    pub forward_stdin: bool,
}

/// What a [`ServerConfig`] says.
pub struct ServerModel {
    pub provider: BackendProvider,
    pub command: Seq<char>,
    pub args: Seq<Seq<char>>,
    pub working_dir: Seq<char>,
    pub forward_stdin: bool,
}

/// The texts of a list of strings.
pub open spec fn texts(strings: Seq<String>) -> Seq<Seq<char>> {
    strings.map_values(|s: String| s@)
}

impl View for ServerConfig {
    type V = ServerModel;

    open spec fn view(&self) -> ServerModel {
        ServerModel {
            provider: self.provider,
            command: self.command@,
            args: texts(self.args@),
            working_dir: self.working_dir@,
            forward_stdin: self.forward_stdin,
        }
    }
}

impl Clone for ServerConfig {
    fn clone(&self) -> (copy: ServerConfig)
        ensures
            copy@ == self@,
    {
        let args = self.args.clone();
        proof {
            assert(texts(args@) =~= texts(self.args@));
        }
        ServerConfig {
            provider: self.provider,
            command: self.command.clone(),
            args,
            working_dir: self.working_dir.clone(),
            forward_stdin: self.forward_stdin,
        }
    }
}

impl Default for ServerConfig {
    fn default() -> (server: ServerConfig)
        ensures
            server@ == (ServerModel {
                provider: BackendProvider::Process,
                command: "java"@,
                args: seq!["-jar"@, "HytaleServer.jar"@],
                working_dir: "."@,
                forward_stdin: true,
            }),
    {
        let args = vec!["-jar".to_string(), "HytaleServer.jar".to_string()];
        proof {
            assert(texts(args@) =~= seq!["-jar"@, "HytaleServer.jar"@]);
        }
        ServerConfig {
            provider: BackendProvider::Process,
            command: "java".to_string(),
            args,
            working_dir: ".".to_string(),
            forward_stdin: true,
        }
    }
}

/// One private server endpoint and how it is run.
#[derive(Debug)]
pub struct BackendConfig {
    pub backend: SocketAddr,
    pub server: ServerConfig,
}

/// What a [`BackendConfig`] says.
pub struct BackendModel {
    pub backend: SocketAddr,
    pub server: ServerModel,
}

impl View for BackendConfig {
    type V = BackendModel;

    open spec fn view(&self) -> BackendModel {
        BackendModel { backend: self.backend, server: self.server@ }
    }
}

impl Clone for BackendConfig {
    fn clone(&self) -> (copy: BackendConfig)
        ensures
            copy@ == self@,
    {
        BackendConfig { backend: self.backend, server: self.server.clone() }
    }
}

/// The arguments a server is started with: its own, then the address it must bind.
pub open spec fn bind_args(b: BackendModel) -> Seq<Seq<char>> {
    b.server.args + seq!["-b"@, b.backend.text()]
}

impl BackendConfig {
    /// Full arguments for this server, with its private bind address appended.
    pub fn server_args(&self) -> (args: Vec<String>)
        ensures
            texts(args@) == bind_args(self@),
            args@.len() == self.server.args@.len() + 2,
            forall|i: int|
                0 <= i < self.server.args@.len() ==> (#[trigger] args@[i])@
                    == self.server.args@[i]@,
            args@[args@.len() - 2]@ == seq!['-', 'b'],
            args@[args@.len() - 1]@ == self.backend.text(),
    {
        let mut args = self.server.args.clone();
        args.push("-b".to_string());
        args.push(self.backend.to_text());
        proof {
            assert(texts(args@) =~= bind_args(self@));
            reveal_strlit("-b");
            assert("-b"@ =~= seq!['-', 'b']);
        }
        args
    }
}

/// A server name in the form in which names are matched: without one trailing dot, in ASCII
/// lower case.
pub open spec fn normal(name: Seq<char>) -> Seq<char> {
    text::lowercase(
        if name.len() > 0 && name.last() == '.' {
            name.drop_last()
        } else {
            name
        },
    )
}

/// How long a name is without one trailing dot.
pub open spec fn bare_len(name: Seq<char>) -> nat {
    if name.len() > 0 && name[name.len() - 1] == '.' {
        (name.len() - 1) as nat
    } else {
        name.len()
    }
}

/// `d` is the ASCII lower case of `c`.
pub open spec fn lowered(c: char, d: char) -> bool {
    if 'A' <= c && c <= 'Z' {
        d as int == c as int + 32
    } else {
        d == c
    }
}

/// The same letter, whatever its ASCII case.
pub open spec fn same_letter(c: char, d: char) -> bool {
    ||| c == d
    ||| 'A' <= c <= 'Z' && d as int == c as int + 32
    ||| 'A' <= d <= 'Z' && c as int == d as int + 32
}

/// One server under two spellings: the same letters in the same places, with or without a
/// trailing dot.
pub open spec fn same_server(a: Seq<char>, b: Seq<char>) -> bool {
    &&& bare_len(a) == bare_len(b)
    &&& forall|i: int| 0 <= i < bare_len(a) ==> #[trigger] same_letter(a[i], b[i])
}

/// Bring a server name into the form in which names are matched.
pub fn normalize(name: &str) -> (out: String)
    ensures
        out@ == normal(name@),
        out@.len() == bare_len(name@),
        forall|i: int| 0 <= i < out@.len() ==> #[trigger] lowered(name@[i], out@[i]),
{
    let chars = characters(name);
    let mut n: usize = chars.len();
    if n > 0 && chars[n - 1] == '.' {
        n = n - 1;
    }
    let mut out = String::new();
    let mut i: usize = 0;
    while i < n
        invariant
            i <= n <= chars@.len(),
            out@ == text::lowercase(chars@.take(i as int)),
        decreases n - i,
    {
        let c = chars[i];
        if 'A' <= c && c <= 'Z' {
            out.push((c as u8 + 32) as char);
        } else {
            out.push(c);
        }
        i = i + 1;
        proof {
            assert(out@ =~= text::lowercase(chars@.take(i as int)));
        }
    }
    proof {
        if n < chars@.len() {
            assert(chars@.take(n as int) =~= name@.drop_last());
        } else {
            assert(chars@.take(n as int) =~= name@);
        }
    }
    out
}

/// A named backend.
pub type Entry = (Seq<char>, BackendModel);

/// Names in strictly increasing text order.
pub open spec fn sorted(entries: Seq<Entry>) -> bool {
    forall|i: int, j: int|
        0 <= i < j < entries.len() ==> text::text_before(
            (#[trigger] entries[i]).0,
            (#[trigger] entries[j]).0,
        )
}

/// The place of the last entry under a name.
pub open spec fn place(entries: Seq<Entry>, name: Seq<char>) -> Option<int>
    decreases entries.len(),
{
    if entries.len() == 0 {
        None
    } else if entries.last().0 == name {
        Some(entries.len() - 1)
    } else {
        place(entries.drop_last(), name)
    }
}

/// The backend of the last entry under a name.
pub open spec fn lookup(entries: Seq<Entry>, name: Seq<char>) -> Option<BackendModel> {
    match place(entries, name) {
        Some(i) => Some(entries[i].1),
        None => None,
    }
}

/// Backends keyed by name, in name order, each name once.
#[derive(Debug)]
pub struct RouteTable {
    entries: Vec<(String, BackendConfig)>,
}

/// What a list of entries says.
pub closed spec fn entry_models(entries: Seq<(String, BackendConfig)>) -> Seq<Entry> {
    entries.map_values(|e: (String, BackendConfig)| (e.0@, e.1@))
}

impl View for RouteTable {
    type V = Seq<Entry>;

    closed spec fn view(&self) -> Seq<Entry> {
        entry_models(self.entries@)
    }
}

/// In a sorted table every entry is the one found under its name.
pub proof fn lemma_lookup(entries: Seq<Entry>, i: int)
    requires
        sorted(entries),
        0 <= i < entries.len(),
    ensures
        place(entries, entries[i].0) == Some(i),
    decreases entries.len(),
{
    let last = entries.len() - 1;
    if i < last {
        text::lemma_before_irreflexive(utf8::encode_utf8(entries[i].0));
        assert(entries[i].0 != entries[last].0);
        assert(entries.drop_last()[i] == entries[i]);
        lemma_lookup(entries.drop_last(), i);
    }
}

/// A name that no entry has is not found.
pub proof fn lemma_lookup_none(entries: Seq<Entry>, name: Seq<char>)
    requires
        forall|i: int| 0 <= i < entries.len() ==> (#[trigger] entries[i]).0 != name,
    ensures
        place(entries, name) is None,
    decreases entries.len(),
{
    if entries.len() > 0 {
        assert(entries[entries.len() - 1].0 != name);
        assert forall|i: int| 0 <= i < entries.drop_last().len() implies (
        #[trigger] entries.drop_last()[i]).0 != name by {
            assert(entries[i].0 != name);
        }
        lemma_lookup_none(entries.drop_last(), name);
    }
}

/// What is found under a name has that name.
pub proof fn lemma_lookup_index(entries: Seq<Entry>, name: Seq<char>)
    ensures
        place(entries, name) matches Some(i) ==> 0 <= i < entries.len() && entries[i].0 == name,
    decreases entries.len(),
{
    if entries.len() > 0 && entries.last().0 != name {
        lemma_lookup_index(entries.drop_last(), name);
    }
}

impl RouteTable {
    #[verifier::type_invariant]
    closed spec fn ordered(self) -> bool {
        sorted(entry_models(self.entries@))
    }

    pub fn new() -> (table: RouteTable)
        ensures
            table@ == Seq::<Entry>::empty(),
    {
        let entries: Vec<(String, BackendConfig)> = Vec::new();
        proof {
            assert(entry_models(entries@) =~= Seq::<Entry>::empty());
        }
        RouteTable { entries }
    }

    pub fn len(&self) -> (n: usize)
        ensures
            n == self@.len(),
    {
        self.entries.len()
    }

    /// The entry at a place in name order.
    pub fn entry(&self, i: usize) -> (entry: (&str, &BackendConfig))
        requires
            i < self@.len(),
        ensures
            entry.0@ == self@[i as int].0,
            entry.1@ == self@[i as int].1,
    {
        (self.entries[i].0.as_str(), &self.entries[i].1)
    }

    /// Where a name stands, or where it belongs.
    fn search(&self, name: &str) -> (found: (bool, usize))
        ensures
            found.1 <= self@.len(),
            found.0 ==> found.1 < self@.len() && self@[found.1 as int].0 == name@,
            forall|i: int|
                0 <= i < found.1 ==> text::text_before((#[trigger] self@[i]).0, name@),
            forall|i: int|
                found.1 <= i < self@.len() ==> (found.0 && i == found.1) || text::text_before(
                    name@,
                    (#[trigger] self@[i]).0,
                ),
    {
        proof {
            use_type_invariant(self);
        }
        let mut i: usize = 0;
        while i < self.entries.len()
            invariant
                i <= self.entries@.len(),
                sorted(self@),
                forall|k: int| 0 <= k < i ==> text::text_before((#[trigger] self@[k]).0, name@),
            decreases self.entries@.len() - i,
        {
            match compare(self.entries[i].0.as_str(), name) {
                Order::Before => {},
                Order::Same => {
                    proof {
                        assert(self@[i as int].0 == name@);
                    }
                    return (true, i);
                },
                Order::After => {
                    proof {
                        assert(text::text_before(name@, self@[i as int].0));
                        assert forall|k: int| i <= k < self@.len() implies text::text_before(
                            name@,
                            (#[trigger] self@[k]).0,
                        ) by {
                            if k > i {
                                text::lemma_before_transitive(
                                    utf8::encode_utf8(name@),
                                    utf8::encode_utf8(self@[i as int].0),
                                    utf8::encode_utf8(self@[k].0),
                                );
                            }
                        }
                    }
                    return (false, i);
                },
            }
            i = i + 1;
        }
        (false, i)
    }

    /// The backend under exactly this name.
    pub fn get(&self, name: &str) -> (backend: Option<&BackendConfig>)
        ensures
            match backend {
                Some(b) => lookup(self@, name@) == Some(b@),
                None => lookup(self@, name@) is None,
            },
    {
        match self.find(name) {
            Some(i) => Some(&self.entries[i].1),
            None => None,
        }
    }

    /// The place of a name in name order.
    pub fn find(&self, name: &str) -> (found: Option<usize>)
        ensures
            match found {
                Some(i) => i < self@.len() <= usize::MAX && place(self@, name@) == Some(i as int),
                None => place(self@, name@) is None,
            },
    {
        let (found, i) = self.search(name);
        proof {
            use_type_invariant(self);
            assert(self@.len() == self.entries.len());
        }
        if found {
            proof {
                lemma_lookup(self@, i as int);
            }
            Some(i)
        } else {
            proof {
                assert forall|k: int| 0 <= k < self@.len() implies (#[trigger] self@[k]).0
                    != name@ by {
                    text::lemma_before_irreflexive(utf8::encode_utf8(name@));
                }
                lemma_lookup_none(self@, name@);
            }
            None
        }
    }

    /// Put a backend under a name, in place of the one that was there.
    pub fn insert(&mut self, name: String, backend: BackendConfig)
        ensures
            sorted(final(self)@),
            forall|n: Seq<char>|
                #![trigger lookup(final(self)@, n)]
                lookup(final(self)@, n) == (if n == name@ {
                    Some(backend@)
                } else {
                    lookup(old(self)@, n)
                }),
    {
        let ghost before = self@;
        let ghost entry = (name@, backend@);
        let (found, i) = self.search(name.as_str());
        proof {
            use_type_invariant(&*self);
        }
        let mut entries: Vec<(String, BackendConfig)> = Vec::new();
        std::mem::swap(&mut entries, &mut self.entries);
        let ghost after = if found {
            before.update(i as int, entry)
        } else {
            before.insert(i as int, entry)
        };
        if found {
            entries.set(i, (name, backend));
        } else {
            entries.insert(i, (name, backend));
        }
        proof {
            assert(entry_models(entries@) =~= after);
            lemma_inserted(before, entry_models(entries@), entry, i as int, found);
        }
        self.entries = entries;
    }
}

/// Resolves the name in a ClientHello to a backend.
#[derive(Debug)]
pub struct Routes {
    pub default: BackendConfig,
    pub table: RouteTable,
}

/// What a [`Routes`] says.
pub struct RoutesModel {
    pub default: BackendModel,
    pub table: Seq<Entry>,
}

impl View for Routes {
    type V = RoutesModel;

    open spec fn view(&self) -> RoutesModel {
        RoutesModel { default: self.default@, table: self.table@ }
    }
}

impl RoutesModel {
    /// Every backend: the default one, then the named ones in name order.
    pub open spec fn backends(self) -> Seq<BackendModel> {
        seq![self.default] + self.table.map_values(|e: Entry| e.1)
    }

    /// The place in `backends` of the backend for a name; the default one where the name is
    /// absent or unknown.
    pub open spec fn slot(self, name: Option<Seq<char>>) -> int {
        match name {
            Some(name) => match place(self.table, normal(name)) {
                Some(i) => 1 + i,
                None => 0,
            },
            None => 0,
        }
    }

    /// The backend for a name.
    pub open spec fn resolved(self, name: Option<Seq<char>>) -> BackendModel {
        self.backends()[self.slot(name)]
    }
}

/// The text inside an optional string.
pub open spec fn text_of(name: Option<&str>) -> Option<Seq<char>> {
    match name {
        Some(name) => Some(name@),
        None => None,
    }
}

impl Routes {
    /// The backend for the name a client asked for.
    pub fn resolve(&self, server_name: Option<&str>) -> (backend: BackendConfig)
        ensures
            backend@ == self@.resolved(text_of(server_name)),
    {
        self.backend(self.slot(server_name)).clone()
    }

    /// The place, in [`Routes::all`], of the backend for the name a client asked for.
    pub fn slot(&self, server_name: Option<&str>) -> (i: usize)
        ensures
            i == self@.slot(text_of(server_name)),
            i < self@.backends().len(),
    {
        match server_name {
            Some(name) => {
                let name = normalize(name);
                match self.table.find(name.as_str()) {
                    Some(i) => 1 + i,
                    None => 0,
                }
            },
            None => 0,
        }
    }

    /// The backend at a place in [`Routes::all`].
    pub fn backend(&self, i: usize) -> (backend: &BackendConfig)
        requires
            i < self@.backends().len(),
        ensures
            backend@ == self@.backends()[i as int],
    {
        if i == 0 {
            &self.default
        } else {
            self.table.entry(i - 1).1
        }
    }

    /// Every backend: the default one, then the named ones in name order.
    pub fn all(&self) -> (backends: Vec<BackendConfig>)
        ensures
            backend_models(backends@) == self@.backends(),
    {
        let mut all: Vec<BackendConfig> = Vec::new();
        all.push(self.default.clone());
        let mut i: usize = 0;
        proof {
            assert(backend_models(all@) =~= self@.backends().take(1));
        }
        while i < self.table.len()
            invariant
                i <= self@.table.len(),
                backend_models(all@) == self@.backends().take(1 + i),
            decreases self@.table.len() - i,
        {
            let ghost earlier = all@;
            let backend = self.table.entry(i).1.clone();
            all.push(backend);
            proof {
                assert(backend_models(all@) =~= backend_models(earlier).push(backend@));
                assert(self@.backends().take(2 + i) =~= self@.backends().take(1 + i).push(
                    self@.table[i as int].1,
                ));
            }
            i = i + 1;
        }
        proof {
            assert(self@.backends().take(1 + i) =~= self@.backends());
        }
        all
    }
}

/// What a list of backends says.
pub open spec fn backend_models(backends: Seq<BackendConfig>) -> Seq<BackendModel> {
    backends.map_values(|b: BackendConfig| b@)
}

/// A sorted table stays sorted when an entry goes where it belongs, and only that name changes.
proof fn lemma_inserted(before: Seq<Entry>, after: Seq<Entry>, entry: Entry, i: int, found: bool)
    requires
        sorted(before),
        0 <= i <= before.len(),
        found ==> i < before.len() && before[i].0 == entry.0 && after == before.update(i, entry),
        !found ==> after == before.insert(i, entry),
        forall|k: int| 0 <= k < i ==> text::text_before((#[trigger] before[k]).0, entry.0),
        forall|k: int|
            i <= k < before.len() ==> (found && k == i) || text::text_before(
                entry.0,
                (#[trigger] before[k]).0,
            ),
    ensures
        sorted(after),
        forall|n: Seq<char>|
            #![trigger lookup(after, n)]
            lookup(after, n) == (if n == entry.0 {
                Some(entry.1)
            } else {
                lookup(before, n)
            }),
{
    assert(sorted(after));
    assert forall|n: Seq<char>|
        #![trigger lookup(after, n)]
        lookup(after, n) == (if n == entry.0 {
            Some(entry.1)
        } else {
            lookup(before, n)
        }) by {
        if n == entry.0 {
            lemma_lookup(after, i);
        } else if lookup(before, n) is Some {
            lemma_lookup_index(before, n);
            let k = place(before, n).unwrap();
            let at = if found || k < i {
                k
            } else {
                k + 1
            };
            assert(after[at] == before[k]);
            lemma_lookup(after, at);
        } else {
            assert forall|k: int| 0 <= k < after.len() implies (#[trigger] after[k]).0 != n by {
                if after[k].0 == n {
                    let at = if found || k < i {
                        k
                    } else {
                        k - 1
                    };
                    assert(before[at] == after[k]);
                    lemma_lookup(before, at);
                }
            }
            lemma_lookup_none(after, n);
        }
    }
}

/// Law: a server is started with its own arguments, each in its place whatever their number, and
/// with two more behind them: `-b` and the address it must bind.
pub proof fn law_arguments_stay_in_place(b: BackendModel, i: int)
    ensures
        bind_args(b).len() == b.server.args.len() + 2,
        0 <= i < b.server.args.len() ==> bind_args(b)[i] == b.server.args[i],
        bind_args(b)[b.server.args.len() as int] == seq!['-', 'b'],
        bind_args(b)[b.server.args.len() as int + 1] == b.backend.text(),
{
    reveal_strlit("-b");
    assert("-b"@ =~= seq!['-', 'b']);
}

/// Law: a name in its normal form has lost one trailing dot, if it had any, and nothing else; each
/// character is the ASCII lower case of the one in its place.
pub proof fn law_the_normal_form_keeps_every_character(name: Seq<char>)
    ensures
        normal(name).len() == bare_len(name),
        forall|i: int| 0 <= i < bare_len(name) ==> lowered(name[i], #[trigger] normal(name)[i]),
{
}

/// Law: names match exactly when they are the same up to ASCII case once one trailing dot is taken
/// off each.
pub proof fn law_only_the_same_names_match(a: Seq<char>, b: Seq<char>)
    ensures
        normal(a) == normal(b) <==> same_server(a, b),
{
    law_the_normal_form_keeps_every_character(a);
    law_the_normal_form_keeps_every_character(b);
    if normal(a) == normal(b) {
        assert forall|i: int| 0 <= i < bare_len(a) implies #[trigger] same_letter(a[i], b[i]) by {
            assert(lowered(a[i], normal(a)[i]));
            assert(lowered(b[i], normal(b)[i]));
        }
    }
    if same_server(a, b) {
        assert forall|i: int| 0 <= i < bare_len(a) implies normal(a)[i] == normal(b)[i] by {
            assert(same_letter(a[i], b[i]));
            assert(lowered(a[i], normal(a)[i]));
            assert(lowered(b[i], normal(b)[i]));
        }
        assert(normal(a) =~= normal(b));
    }
}

/// Law: a normal form is its own normal form, unless it ends in a dot still.
pub proof fn law_a_normal_form_stays(name: Seq<char>)
    ensures
        bare_len(normal(name)) == normal(name).len() ==> normal(normal(name)) == normal(name),
{
    if bare_len(normal(name)) == normal(name).len() {
        assert(normal(normal(name)) =~= normal(name));
    }
}

/// Law: under a name stands the last entry that has it, and nothing where none has.
pub proof fn law_the_last_entry_counts(entries: Seq<Entry>, name: Seq<char>, i: int)
    ensures
        0 <= i < entries.len() && entries[i].0 == name && (forall|j: int|
            i < j < entries.len() ==> (#[trigger] entries[j]).0 != name) ==> place(entries, name)
            == Some(i) && lookup(entries, name) == Some(entries[i].1),
        (forall|j: int| 0 <= j < entries.len() ==> (#[trigger] entries[j]).0 != name) ==> place(
            entries,
            name,
        ) is None && lookup(entries, name) is None,
    decreases entries.len(),
{
    if entries.len() > 0 {
        let front = entries.drop_last();
        law_the_last_entry_counts(front, name, i);
        assert(entries.last() == entries[entries.len() - 1]);
        if 0 <= i < front.len() {
            assert(front[i] == entries[i]);
        }
        assert(forall|j: int| 0 <= j < front.len() ==> #[trigger] front[j] == entries[j]);
    }
}

/// Law: the default backend comes first, and then the named ones as they stand in the table.
pub proof fn law_the_default_comes_first(r: RoutesModel, i: int)
    ensures
        r.backends().len() == r.table.len() + 1,
        r.backends()[0] == r.default,
        0 <= i < r.table.len() ==> r.backends()[i + 1] == r.table[i].1,
{
}

} // verus!
