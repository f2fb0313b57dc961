//! The configuration model: hosts, host groups and commands, plus the
//! association-list tables that hold them.
//!
//! Each table is an ordered list of `(name, value)` entries; the first entry
//! with a given name is the binding that counts.  `add_*` keeps names unique
//! by replacing the entry in place when the name is already bound.

use vstd::prelude::*;
use vstd::pervasive::VecAdditionalExecFns;

verus! {

/// Default configuration filename.
pub const CONFIG_FILE_NAME: &'static str = "mussh.toml";

/// Default dot directory for the configuration.
pub const DOT_DIR: &'static str = ".mussh";

/// The views of a sequence of strings.
pub open spec fn str_views(s: Seq<String>) -> Seq<Seq<char>> {
    s.map_values(|x: String| x@)
}

/// The first value bound to `key`, scanning the entries left to right.
pub open spec fn lookup<V>(entries: Seq<(String, V)>, key: Seq<char>) -> Option<V>
    decreases entries.len(),
{
    if entries.len() == 0 {
        None
    } else if entries[0].0@ == key {
        Some(entries[0].1)
    } else {
        lookup(entries.drop_first(), key)
    }
}

/// Whether some entry binds `key`.
pub open spec fn has_key<V>(entries: Seq<(String, V)>, key: Seq<char>) -> bool {
    lookup(entries, key) is Some
}

/// The index of the first entry binding `key`; `entries.len()` when none does.
pub open spec fn index_of_key<V>(entries: Seq<(String, V)>, key: Seq<char>) -> int
    decreases entries.len(),
{
    if entries.len() == 0 {
        0
    } else if entries[0].0@ == key {
        0
    } else {
        1 + index_of_key(entries.drop_first(), key)
    }
}

/// `index_of_key` points at the first binding of `key` and `lookup` returns
/// its value; when `key` is unbound both report so consistently.
pub proof fn lemma_index_of_key<V>(entries: Seq<(String, V)>, key: Seq<char>)
    ensures
        has_key(entries, key) ==> {
            let i = index_of_key(entries, key);
            &&& 0 <= i < entries.len()
            &&& entries[i].0@ == key
            &&& lookup(entries, key) == Some(entries[i].1)
            &&& forall|j: int| 0 <= j < i ==> entries[j].0@ != key
        },
        !has_key(entries, key) ==> {
            &&& index_of_key(entries, key) == entries.len()
            &&& forall|j: int| 0 <= j < entries.len() ==> entries[j].0@ != key
        },
    decreases entries.len(),
{
    if entries.len() == 0 {
    } else if entries[0].0@ == key {
    } else {
        let tail = entries.drop_first();
        lemma_index_of_key(tail, key);
        assert(forall|j: int| 1 <= j < entries.len() ==> entries[j] == tail[j - 1]);
    }
}

/// Looking a key up inspects nothing past the first binding: the tail after
/// any non-binding prefix gives the same answer.
pub proof fn lemma_lookup_skip<V>(entries: Seq<(String, V)>, key: Seq<char>, i: int)
    requires
        0 <= i < entries.len(),
        entries[i].0@ != key,
    ensures
        lookup(entries.skip(i), key) == lookup(entries.skip(i + 1), key),
{
    assert(entries.skip(i).drop_first() =~= entries.skip(i + 1));
    assert(entries.skip(i)[0] == entries[i]);
}

/// The first value bound to `key`, or `None` when no entry binds it.
pub fn assoc_get<'a, V>(entries: &'a Vec<(String, V)>, key: &String) -> (r: Option<&'a V>)
    ensures
        match r {
            Some(v) => lookup(entries@, key@) == Some(*v),
            None => !has_key(entries@, key@),
        },
{
    let n = entries.len();
    let mut i: usize = 0;
    assert(entries@.skip(0) =~= entries@);
    while i < n
        invariant
            n == entries@.len(),
            i <= n,
            lookup(entries@, key@) == lookup(entries@.skip(i as int), key@),
        decreases n - i,
    {
        if entries[i].0 == *key {
            assert(entries@.skip(i as int)[0] == entries@[i as int]);
            return Some(&entries[i].1);
        }
        proof {
            lemma_lookup_skip(entries@, key@, i as int);
        }
        i += 1;
    }
    assert(entries@.skip(n as int) =~= Seq::<(String, V)>::empty());
    None
}

/// Bind `key` to `value`: replace the first entry with that name in place, or
/// append a new entry when the name is not yet bound.
pub fn assoc_set<V>(entries: &mut Vec<(String, V)>, key: &str, value: V)
    ensures
        has_key(old(entries)@, key@) ==> {
            let i = index_of_key(old(entries)@, key@);
            &&& final(entries)@.len() == old(entries)@.len()
            &&& forall|j: int|
                0 <= j < old(entries)@.len() && j != i ==> final(entries)@[j] == old(entries)@[j]
            &&& final(entries)@[i].0@ == key@
            &&& final(entries)@[i].1 == value
        },
        !has_key(old(entries)@, key@) ==> {
            &&& final(entries)@.len() == old(entries)@.len() + 1
            &&& forall|j: int|
                0 <= j < old(entries)@.len() ==> final(entries)@[j] == old(entries)@[j]
            &&& final(entries)@[old(entries)@.len() as int].0@ == key@
            &&& final(entries)@[old(entries)@.len() as int].1 == value
        },
{
    let k = String::from_str(key);
    let n = entries.len();
    let mut i: usize = 0;
    while i < n
        invariant
            n == entries@.len(),
            i <= n,
            entries@ == old(entries)@,
            k@ == key@,
            forall|j: int| 0 <= j < i ==> entries@[j].0@ != key@,
        decreases n - i,
    {
        if entries[i].0 == k {
            proof {
                lemma_index_of_key(entries@, key@);
                assert(lookup(entries@, key@) == lookup(entries@.skip(i as int), key@)) by {
                    lemma_lookup_prefix_misses(entries@, key@, i as int);
                }
                assert(entries@.skip(i as int)[0] == entries@[i as int]);
                assert(has_key(entries@, key@));
                assert(index_of_key(entries@, key@) == i);
            }
            entries.set(i, (k, value));
            return ;
        }
        i += 1;
    }
    proof {
        lemma_index_of_key(entries@, key@);
        if has_key(entries@, key@) {
            let idx = index_of_key(entries@, key@);
            assert(entries@[idx].0@ != key@);
            assert(false);
        }
    }
    entries.push((k, value));
}

/// When no entry before `i` binds `key`, looking up in the whole list equals
/// looking up in the tail from `i`.
pub proof fn lemma_lookup_prefix_misses<V>(entries: Seq<(String, V)>, key: Seq<char>, i: int)
    requires
        0 <= i <= entries.len(),
        forall|j: int| 0 <= j < i ==> entries[j].0@ != key,
    ensures
        lookup(entries, key) == lookup(entries.skip(i), key),
    decreases i,
{
    if i == 0 {
        assert(entries.skip(0) =~= entries);
    } else {
        lemma_lookup_prefix_misses(entries, key, i - 1);
        lemma_lookup_skip(entries, key, i - 1);
    }
}

/// A named group of hosts.
#[derive(Clone, Debug, PartialEq, Eq)]
pub struct Hosts {
    /// The member host names, in declaration order.
    pub hostnames: Vec<String>,
}

/// A per-host command alias: on this host, the command named `aliasfor` is
/// replaced by the command named `command`.
#[derive(Clone, Debug, PartialEq, Eq)]
pub struct Alias {
    /// The command whose string is substituted in.
    pub command: String,
    /// The command being overridden on this host.
    pub aliasfor: String,
}

/// A single target.
#[derive(Clone, Debug, PartialEq, Eq)]
pub struct Host {
    /// A DNS name, an IP address, or the literal `localhost`.
    pub hostname: String,
    /// An optional path to a private key file; agent auth is used when absent.
    pub pem: Option<String>,
    /// An optional port; 22 when absent.
    pub port: Option<u16>,
    /// The user to authenticate as.
    pub username: String,
    /// The command aliases declared on this host, in declaration order.
    pub alias: Vec<Alias>,
}

/// A named shell command line.
#[derive(Clone, Debug, PartialEq, Eq)]
pub struct Command {
    /// The shell-interpretable command string.
    pub command: String,
}

/// The base configuration: host groups, hosts and commands.
#[derive(Clone, Debug, PartialEq, Eq)]
pub struct MusshToml {
    /// The named host groups.
    pub hostlist: Vec<(String, Hosts)>,
    /// The named hosts.
    pub hosts: Vec<(String, Host)>,
    /// The named commands.
    pub cmd: Vec<(String, Command)>,
}

impl Default for Hosts {
    /// An empty group.
    fn default() -> (r: Self)
        ensures
            r.hostnames@.len() == 0,
    {
        Hosts { hostnames: Vec::new() }
    }
}

impl Default for Alias {
    /// An alias with empty names.
    fn default() -> (r: Self)
        ensures
            r.command@.len() == 0,
            r.aliasfor@.len() == 0,
    {
        Alias { command: String::new(), aliasfor: String::new() }
    }
}

impl Default for Host {
    /// A host with empty names, no key, no port and no aliases.
    fn default() -> (r: Self)
        ensures
            r.hostname@.len() == 0,
            r.pem is None,
            r.port is None,
            r.username@.len() == 0,
            r.alias@.len() == 0,
    {
        Host {
            hostname: String::new(),
            pem: None,
            port: None,
            username: String::new(),
            alias: Vec::new(),
        }
    }
}

impl Default for Command {
    /// A command with an empty string.
    fn default() -> (r: Self)
        ensures
            r.command@.len() == 0,
    {
        Command { command: String::new() }
    }
}

impl Default for MusshToml {
    /// A configuration with no groups, no hosts and no commands.
    fn default() -> (r: Self)
        ensures
            r.hostlist@.len() == 0,
            r.hosts@.len() == 0,
            r.cmd@.len() == 0,
    {
        MusshToml { hostlist: Vec::new(), hosts: Vec::new(), cmd: Vec::new() }
    }
}

impl MusshToml {
    /// Get the `hostlist` value.
    pub fn hostlist(&self) -> (r: &Vec<(String, Hosts)>)
        ensures
            r == &self.hostlist,
    {
        &self.hostlist
    }

    /// Set the `hostlist` value.
    pub fn set_hostlist(&mut self, hostlist: Vec<(String, Hosts)>)
        ensures
            *final(self) == (MusshToml { hostlist, ..*old(self) }),
    {
        self.hostlist = hostlist;
    }

    /// Add a `hostlist` value, replacing any group already bound to `k`.
    pub fn add_hostlist(&mut self, k: &str, v: Hosts)
        ensures
            has_key(old(self).hostlist@, k@) ==> {
                let i = index_of_key(old(self).hostlist@, k@);
                &&& final(self).hostlist@.len() == old(self).hostlist@.len()
                &&& forall|j: int|
                    0 <= j < old(self).hostlist@.len() && j != i ==> final(self).hostlist@[j]
                        == old(self).hostlist@[j]
                &&& final(self).hostlist@[i].0@ == k@
                &&& final(self).hostlist@[i].1 == v
            },
            !has_key(old(self).hostlist@, k@) ==> {
                &&& final(self).hostlist@.len() == old(self).hostlist@.len() + 1
                &&& forall|j: int|
                    0 <= j < old(self).hostlist@.len() ==> final(self).hostlist@[j] == old(
                        self,
                    ).hostlist@[j]
                &&& final(self).hostlist@[old(self).hostlist@.len() as int].0@ == k@
                &&& final(self).hostlist@[old(self).hostlist@.len() as int].1 == v
            },
            final(self).hosts == old(self).hosts,
            final(self).cmd == old(self).cmd,
    {
        assoc_set(&mut self.hostlist, k, v);
    }

    /// Get the `hosts` value.
    pub fn hosts(&self) -> (r: &Vec<(String, Host)>)
        ensures
            r == &self.hosts,
    {
        &self.hosts
    }

    /// Set the `hosts` value.
    pub fn set_hosts(&mut self, hosts: Vec<(String, Host)>)
        ensures
            *final(self) == (MusshToml { hosts, ..*old(self) }),
    {
        self.hosts = hosts;
    }

    /// Add a `hosts` value, replacing any host already bound to `k`.
    pub fn add_host(&mut self, k: &str, v: Host)
        ensures
            has_key(old(self).hosts@, k@) ==> {
                let i = index_of_key(old(self).hosts@, k@);
                &&& final(self).hosts@.len() == old(self).hosts@.len()
                &&& forall|j: int|
                    0 <= j < old(self).hosts@.len() && j != i ==> final(self).hosts@[j] == old(
                        self,
                    ).hosts@[j]
                &&& final(self).hosts@[i].0@ == k@
                &&& final(self).hosts@[i].1 == v
            },
            !has_key(old(self).hosts@, k@) ==> {
                &&& final(self).hosts@.len() == old(self).hosts@.len() + 1
                &&& forall|j: int|
                    0 <= j < old(self).hosts@.len() ==> final(self).hosts@[j] == old(self).hosts@[j]
                &&& final(self).hosts@[old(self).hosts@.len() as int].0@ == k@
                &&& final(self).hosts@[old(self).hosts@.len() as int].1 == v
            },
            final(self).hostlist == old(self).hostlist,
            final(self).cmd == old(self).cmd,
    {
        assoc_set(&mut self.hosts, k, v);
    }

    /// Get the `cmd` value.
    pub fn cmd(&self) -> (r: &Vec<(String, Command)>)
        ensures
            r == &self.cmd,
    {
        &self.cmd
    }

    /// Set the `cmd` value.
    pub fn set_cmd(&mut self, cmd: Vec<(String, Command)>)
        ensures
            *final(self) == (MusshToml { cmd, ..*old(self) }),
    {
        self.cmd = cmd;
    }

    /// Remove the command bound to `k`: the first entry with that name is
    /// dropped, and the answer says whether one was bound at all.
    pub fn remove_cmd(&mut self, k: &str) -> (r: bool)
        ensures
            has_key(old(self).cmd@, k@) ==> r && final(self).cmd@ == old(self).cmd@.remove(
                index_of_key(old(self).cmd@, k@),
            ),
            !has_key(old(self).cmd@, k@) ==> !r && final(self).cmd == old(self).cmd,
            final(self).hostlist == old(self).hostlist,
            final(self).hosts == old(self).hosts,
    {
        let key = String::from_str(k);
        let n = self.cmd.len();
        let mut i: usize = 0;
        while i < n
            invariant
                n == self.cmd@.len(),
                i <= n,
                *self == *old(self),
                key@ == k@,
                forall|j: int| 0 <= j < i ==> self.cmd@[j].0@ != k@,
            decreases n - i,
        {
            if self.cmd[i].0 == key {
                proof {
                    lemma_index_of_key(self.cmd@, k@);
                    assert(lookup(self.cmd@, k@) == lookup(self.cmd@.skip(i as int), k@)) by {
                        lemma_lookup_prefix_misses(self.cmd@, k@, i as int);
                    }
                    assert(self.cmd@.skip(i as int)[0] == self.cmd@[i as int]);
                    assert(has_key(self.cmd@, k@));
                    assert(index_of_key(self.cmd@, k@) == i);
                }
                let _ = self.cmd.remove(i);
                return true;
            }
            i += 1;
        }
        proof {
            lemma_index_of_key(self.cmd@, k@);
            if has_key(self.cmd@, k@) {
                let idx = index_of_key(self.cmd@, k@);
                assert(self.cmd@[idx].0@ != k@);
                assert(false);
            }
        }
        false
    }

    /// Add a `cmd` value, replacing any command already bound to `k`.
    pub fn add_cmd(&mut self, k: &str, v: Command)
        ensures
            has_key(old(self).cmd@, k@) ==> {
                let i = index_of_key(old(self).cmd@, k@);
                &&& final(self).cmd@.len() == old(self).cmd@.len()
                &&& forall|j: int|
                    0 <= j < old(self).cmd@.len() && j != i ==> final(self).cmd@[j] == old(
                        self,
                    ).cmd@[j]
                &&& final(self).cmd@[i].0@ == k@
                &&& final(self).cmd@[i].1 == v
            },
            !has_key(old(self).cmd@, k@) ==> {
                &&& final(self).cmd@.len() == old(self).cmd@.len() + 1
                &&& forall|j: int|
                    0 <= j < old(self).cmd@.len() ==> final(self).cmd@[j] == old(self).cmd@[j]
                &&& final(self).cmd@[old(self).cmd@.len() as int].0@ == k@
                &&& final(self).cmd@[old(self).cmd@.len() as int].1 == v
            },
            final(self).hostlist == old(self).hostlist,
            final(self).hosts == old(self).hosts,
    {
        assoc_set(&mut self.cmd, k, v);
    }
}

impl Hosts {
    /// Get the `hostnames` value.
    pub fn hostnames(&self) -> (r: &Vec<String>)
        ensures
            r == &self.hostnames,
    {
        &self.hostnames
    }

    /// Set the `hostnames` value.
    pub fn set_hostnames(&mut self, hostnames: Vec<String>)
        ensures
            *final(self) == (Hosts { hostnames }),
    {
        self.hostnames = hostnames;
    }
}

impl Host {
    /// Get the `hostname` value.
    pub fn hostname(&self) -> (r: &String)
        ensures
            r == &self.hostname,
    {
        &self.hostname
    }

    /// Set the `hostname` value.
    pub fn set_hostname(&mut self, hostname: &str)
        ensures
            final(self).hostname@ == hostname@,
            final(self).pem == old(self).pem,
            final(self).port == old(self).port,
            final(self).username == old(self).username,
            final(self).alias == old(self).alias,
    {
        self.hostname = String::from_str(hostname);
    }

    /// Get the `port` value.
    pub fn port(&self) -> (r: Option<u16>)
        ensures
            r == self.port,
    {
        self.port
    }

    /// Set the `port` value.
    pub fn set_port(&mut self, port: u16)
        ensures
            *final(self) == (Host { port: Some(port), ..*old(self) }),
    {
        self.port = Some(port);
    }

    /// Get the `username` value.
    pub fn username(&self) -> (r: &String)
        ensures
            r == &self.username,
    {
        &self.username
    }

    /// Set the `username` value.
    pub fn set_username(&mut self, username: &str)
        ensures
            final(self).username@ == username@,
            final(self).hostname == old(self).hostname,
            final(self).pem == old(self).pem,
            final(self).port == old(self).port,
            final(self).alias == old(self).alias,
    {
        self.username = String::from_str(username);
    }

    /// Get the `pem` value.
    pub fn pem(&self) -> (r: Option<&String>)
        ensures
            match r {
                Some(p) => self.pem == Some(*p),
                None => self.pem is None,
            },
    {
        match self.pem {
            Some(ref p) => Some(p),
            None => None,
        }
    }

    /// Set the `pem` value.
    pub fn set_pem(&mut self, pem: &str)
        ensures
            final(self).pem matches Some(p) && p@ == pem@,
            final(self).hostname == old(self).hostname,
            final(self).port == old(self).port,
            final(self).username == old(self).username,
            final(self).alias == old(self).alias,
    {
        self.pem = Some(String::from_str(pem));
    }

    /// Get the `alias` value: the `(aliasfor, command)` pairs in declaration
    /// order, or `None` when the host declares no alias.
    pub fn alias(&self) -> (r: Option<Vec<(String, String)>>)
        ensures
            self.alias@.len() == 0 ==> r is None,
            self.alias@.len() > 0 ==> (r matches Some(m) && m@.len() == self.alias@.len()
                && (forall|i: int|
                0 <= i < m@.len() ==> m@[i].0 == self.alias@[i].aliasfor && m@[i].1
                    == self.alias@[i].command)),
    {
        if self.alias.len() == 0 {
            return None;
        }
        let mut m: Vec<(String, String)> = Vec::new();
        let n = self.alias.len();
        let mut i: usize = 0;
        while i < n
            invariant
                n == self.alias@.len(),
                i <= n,
                m@.len() == i,
                forall|j: int|
                    0 <= j < i ==> m@[j].0 == self.alias@[j].aliasfor && m@[j].1
                        == self.alias@[j].command,
            decreases n - i,
        {
            m.push((self.alias[i].aliasfor.clone(), self.alias[i].command.clone()));
            i += 1;
        }
        Some(m)
    }
}

impl Command {
    /// Get the `command` value.
    pub fn command(&self) -> (r: &String)
        ensures
            r == &self.command,
    {
        &self.command
    }

    /// Set the `command` value.
    pub fn set_command(&mut self, command: &str)
        ensures
            final(self).command@ == command@,
    {
        self.command = String::from_str(command);
    }
}

/// The view of an optional string.
pub open spec fn opt_view(o: Option<String>) -> Option<Seq<char>> {
    match o {
        Some(s) => Some(s@),
        None => None,
    }
}

/// The configuration files to try, in discovery order: the path the
/// operator named; the dot directory under the working directory; the dot
/// directory under the home directory, with the machine's hostname as a
/// subdirectory when it is known; and the system path.
pub open spec fn search_paths_spec(
    arg: Option<Seq<char>>,
    cwd: Option<Seq<char>>,
    home: Option<Seq<char>>,
    hostname: Option<Seq<char>>,
) -> Seq<Seq<char>> {
    (match arg {
        Some(a) => seq![a],
        None => Seq::empty(),
    }) + (match cwd {
        Some(c) => seq![c + "/.mussh/mussh.toml"@],
        None => Seq::empty(),
    }) + (match home {
        Some(h) => seq![
            h + "/.mussh/"@ + (match hostname {
                Some(n) => n + "/"@,
                None => Seq::<char>::empty(),
            }) + "mussh.toml"@,
        ],
        None => Seq::empty(),
    }) + seq!["/etc/mussh/mussh.toml"@]
}

/// Append the system configuration path.
pub fn add_system_path(paths: &mut Vec<String>)
    ensures
        final(paths)@.len() == old(paths)@.len() + 1,
        forall|i: int| 0 <= i < old(paths)@.len() ==> final(paths)@[i] == old(paths)@[i],
        final(paths)@[old(paths)@.len() as int]@ == "/etc/mussh/mussh.toml"@,
{
    paths.push(String::from_str("/etc/mussh/mussh.toml"));
}

/// The candidate configuration paths, built from what the environment
/// offered: the operator's path, the working directory, the home directory
/// and the machine's hostname, each only if known.
pub fn search_paths(
    arg: &Option<String>,
    cwd: &Option<String>,
    home: &Option<String>,
    hostname: &Option<String>,
) -> (r: Vec<String>)
    ensures
        str_views(r@) == search_paths_spec(
            opt_view(*arg),
            opt_view(*cwd),
            opt_view(*home),
            opt_view(*hostname),
        ),
{
    let mut paths: Vec<String> = Vec::new();
    match arg {
        Some(a) => {
            paths.push(a.clone());
        },
        None => {},
    }
    match cwd {
        Some(c) => {
            let mut p = c.clone();
            p.append("/.mussh/mussh.toml");
            paths.push(p);
        },
        None => {},
    }
    match home {
        Some(h) => {
            let mut p = h.clone();
            p.append("/.mussh/");
            match hostname {
                Some(n) => {
                    p.append(n.as_str());
                    p.append("/");
                },
                None => {},
            }
            p.append("mussh.toml");
            paths.push(p);
        },
        None => {},
    }
    add_system_path(&mut paths);
    proof {
        assert(str_views(paths@) =~~= search_paths_spec(
            opt_view(*arg),
            opt_view(*cwd),
            opt_view(*home),
            opt_view(*hostname),
        ));
    }
    paths
}

/// The names joined with a comma and a space.
pub open spec fn joined_names(names: Seq<Seq<char>>) -> Seq<char>
    decreases names.len(),
{
    if names.len() == 0 {
        Seq::empty()
    } else if names.len() == 1 {
        names[0]
    } else {
        joined_names(names.drop_last()) + ", "@ + names.last()
    }
}

impl Hosts {
    /// The members of the group, joined with a comma and a space.
    pub fn display_string(&self) -> (r: String)
        ensures
            r@ == joined_names(str_views(self.hostnames@)),
    {
        let ghost names = str_views(self.hostnames@);
        let mut s = String::new();
        let n = self.hostnames.len();
        let mut i: usize = 0;
        while i < n
            invariant
                n == self.hostnames@.len(),
                i <= n,
                names == str_views(self.hostnames@),
                s@ == joined_names(names.take(i as int)),
            decreases n - i,
        {
            proof {
                assert(names.take(i + 1).drop_last() =~= names.take(i as int));
                assert(names.take(i + 1).last() == names[i as int]);
                if i == 0 {
                    assert(names.take(1) =~= seq![names[0]]);
                }
            }
            if i > 0 {
                s.append(", ");
            }
            s.append(self.hostnames[i].as_str());
            i += 1;
        }
        proof {
            assert(names.take(n as int) =~= names);
        }
        s
    }
}

/// One alias rendered as `aliasfor: command`.
pub open spec fn alias_pair_text(a: Alias) -> Seq<char> {
    a.aliasfor@ + ": "@ + a.command@
}

/// The alias pairs joined with a comma and a space.
pub open spec fn joined_aliases(aliases: Seq<Alias>) -> Seq<char>
    decreases aliases.len(),
{
    if aliases.len() == 0 {
        Seq::empty()
    } else if aliases.len() == 1 {
        alias_pair_text(aliases[0])
    } else {
        joined_aliases(aliases.drop_last()) + ", "@ + alias_pair_text(aliases.last())
    }
}

/// How a host renders: `user@host:port`, the key path after a space when
/// one is set, and the alias pairs in braces when any are declared.
pub open spec fn host_display_spec(h: Host) -> Seq<char> {
    h.username@ + "@"@ + h.hostname@ + ":"@ + crate::util::dec_str(
        (match h.port {
            Some(p) => p,
            None => 22u16,
        }) as nat,
    ) + (match h.pem {
        Some(p) => " "@ + p@,
        None => Seq::<char>::empty(),
    }) + (if h.alias@.len() == 0 {
        Seq::<char>::empty()
    } else {
        " { "@ + joined_aliases(h.alias@) + " }"@
    })
}

impl Host {
    /// The host rendered for a listing.
    pub fn display_string(&self) -> (r: String)
        ensures
            r@ == host_display_spec(*self),
    {
        let mut s = self.username.clone();
        s.append("@");
        s.append(self.hostname.as_str());
        s.append(":");
        let port: u16 = match self.port {
            Some(p) => p,
            None => 22,
        };
        let port_text = crate::util::u64_to_string(port as u64);
        s.append(port_text.as_str());
        match &self.pem {
            Some(p) => {
                s.append(" ");
                s.append(p.as_str());
            },
            None => {},
        }
        if self.alias.len() > 0 {
            s.append(" { ");
            let ghost aliases = self.alias@;
            let n = self.alias.len();
            let mut i: usize = 0;
            let mut t = String::new();
            while i < n
                invariant
                    n == self.alias@.len(),
                    i <= n,
                    aliases == self.alias@,
                    t@ == joined_aliases(aliases.take(i as int)),
                decreases n - i,
            {
                proof {
                    assert(aliases.take(i + 1).drop_last() =~= aliases.take(i as int));
                    assert(aliases.take(i + 1).last() == aliases[i as int]);
                    if i == 0 {
                        assert(aliases.take(1) =~= seq![aliases[0]]);
                    }
                }
                if i > 0 {
                    t.append(", ");
                }
                t.append(self.alias[i].aliasfor.as_str());
                t.append(": ");
                t.append(self.alias[i].command.as_str());
                i += 1;
            }
            proof {
                assert(aliases.take(n as int) =~= aliases);
            }
            s.append(t.as_str());
            s.append(" }");
        }
        s
    }
}

impl Command {
    /// The command rendered for a listing: its shell string.
    pub fn display_string(&self) -> (r: String)
        ensures
            r@ == self.command@,
    {
        self.command.clone()
    }
}

impl Alias {
    /// Get the `command` value.
    pub fn command(&self) -> (r: &String)
        ensures
            r == &self.command,
    {
        &self.command
    }

    /// Get the `aliasfor` value.
    pub fn aliasfor(&self) -> (r: &String)
        ensures
            r == &self.aliasfor,
    {
        &self.aliasfor
    }
}

} // verus!
