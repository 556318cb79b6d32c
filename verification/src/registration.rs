//! Whether DiskScour's MCP server is wired into an agent, and who is on it.
//!
//! The server is stdio: the client spawns `diskscour mcp` as a child process and
//! talks over pipes, so there is no URL or port to show. What the user needs
//! instead is whether it is registered and the registered binary matches this
//! build, and how many agent sessions are talking to it right now.

use serde_json::Value;
use vstd::prelude::*;

use crate::index;
use crate::json;
use crate::json::{member, members, parse, Fields, Json, Values};
use crate::path;
use crate::path::{file_name, same_path};
use crate::sessions;
use crate::text;
use crate::text::{
    chars_of, comes_before, decimal_string, ends_with, find, join_by, starts_with, str_eq, string_of,
    trim,
};

pub use crate::sessions::{client_name, session_parents, sessions_from_ps, Session};

verus! {

/// The version of this build.
pub const VERSION: &'static str = "0.5.0";

/// An agent that can be told to launch the server.
#[derive(Debug, PartialEq, Eq)]
pub struct Agent {
    /// The product, as people know it.
    pub label: String,
    /// The command by which servers are added to it.
    pub command: String,
}

/// Everything the status line, `diskscour status` and `ds_status` show.
#[derive(Debug)]
pub struct Status {
    /// The binary answering this question: what a fresh registration should point
    /// at.
    pub this_binary: String,
    pub this_version: &'static str,
    /// The agent whose configuration was looked at.
    pub agent: Agent,
    pub registrations: Vec<Registration>,
    /// Live `diskscour mcp` processes, i.e. connected agent sessions.
    pub sessions: Vec<Session>,
}

/// One entry in an agent's MCP config that points at a diskscour binary.
#[derive(Debug, PartialEq, Eq)]
pub struct Registration {
    pub client: String,
    /// Where the entry lives: `user`, or `local · <project>` for a per-project
    /// entry.
    pub scope: String,
    pub name: String,
    pub command: String,
    pub args: Vec<String>,
    pub health: Health,
}

/// What has become of a registration.
#[derive(Debug, PartialEq, Eq)]
pub enum Health {
    /// Points at a diskscour of this version.
    Healthy,
    /// The registered path no longer exists.
    Missing,
    /// The entry doesn't launch the server (`mcp` is not among its args).
    NotServer,
    /// A different diskscour build; carries its version string.
    Version(String),
}

/// What has become of a registration, with characters for strings.
#[verifier::ext_equal]
pub enum HealthView {
    Healthy,
    Missing,
    NotServer,
    Version(Seq<char>),
}

impl View for Health {
    type V = HealthView;

    open spec fn view(&self) -> HealthView {
        match self {
            Health::Healthy => HealthView::Healthy,
            Health::Missing => HealthView::Missing,
            Health::NotServer => HealthView::NotServer,
            Health::Version(v) => HealthView::Version(v@),
        }
    }
}

/// An entry with characters for strings.
#[verifier::ext_equal]
pub struct RegistrationView {
    pub client: Seq<char>,
    pub scope: Seq<char>,
    pub name: Seq<char>,
    pub command: Seq<char>,
    pub args: Seq<Seq<char>>,
    pub health: HealthView,
}

impl View for Registration {
    type V = RegistrationView;

    open spec fn view(&self) -> RegistrationView {
        RegistrationView {
            client: self.client@,
            scope: self.scope@,
            name: self.name@,
            command: self.command@,
            args: text::strs(self.args@),
            health: self.health@,
        }
    }
}

/// The entries, each as what it says.
pub open spec fn registrations_view(v: Seq<Registration>) -> Seq<RegistrationView> {
    v.map_values(|r: Registration| r@)
}

/// Traffic-light summary for a status line.
#[derive(Clone, Copy, PartialEq, Eq, Debug, Structural)]
pub enum Level {
    Healthy,
    Warn,
    Off,
}

/// A health in words.
pub open spec fn health_text(h: HealthView, this_version: Seq<char>) -> Seq<char> {
    match h {
        HealthView::Healthy => "ok"@,
        HealthView::Missing => "binary not found"@,
        HealthView::NotServer => "entry does not run `diskscour mcp`"@,
        HealthView::Version(v) => "registered v"@ + v + ", this is v"@ + this_version,
    }
}

/// A health in one word.
pub open spec fn health_word(h: HealthView) -> Seq<char> {
    match h {
        HealthView::Healthy => "ok"@,
        HealthView::Missing => "missing"@,
        HealthView::NotServer => "not_server"@,
        HealthView::Version(_) => "version_mismatch"@,
    }
}

impl Health {
    /// The health in words.
    pub fn describe(&self, this_version: &str) -> (r: String)
        ensures
            r@ == health_text(self@, this_version@),
    {
        match self {
            Health::Healthy => "ok".to_owned(),
            Health::Missing => "binary not found".to_owned(),
            Health::NotServer => "entry does not run `diskscour mcp`".to_owned(),
            Health::Version(v) => {
                let mut s = "registered v".to_owned();
                s.append(v.as_str());
                s.append(", this is v");
                s.append(this_version);
                s
            },
        }
    }

    fn word(&self) -> (r: &'static str)
        ensures
            r@ == health_word(self@),
    {
        match self {
            Health::Healthy => "ok",
            Health::Missing => "missing",
            Health::NotServer => "not_server",
            Health::Version(_) => "version_mismatch",
        }
    }

    fn is_ok(&self) -> (r: bool)
        ensures
            r == (self@ is Healthy),
    {
        match self {
            Health::Healthy => true,
            _ => false,
        }
    }
}

// ---- registrations ----------------------------------------------------------------

/// The texts among the first `k` elements.
pub open spec fn texts_upto(v: Seq<Json>, k: nat) -> Seq<Seq<char>>
    decreases k,
{
    if k == 0 {
        Seq::empty()
    } else {
        match v[k - 1] {
            Json::Str(s) => texts_upto(v, (k - 1) as nat).push(s),
            _ => texts_upto(v, (k - 1) as nat),
        }
    }
}

/// The texts in an array; none where it is no array.
pub open spec fn texts_in(j: Option<Json>) -> Seq<Seq<char>> {
    match j {
        Some(Json::Arr(v)) => texts_upto(v, v.len()),
        _ => Seq::empty(),
    }
}

/// The texts in an array; none where it is no array.
pub(crate) fn texts(v: &Vec<Value>) -> (r: Vec<String>)
    ensures
        text::strs(r@) == texts_upto(json::jsons(v@), v@.len()),
{
    let ghost all = json::jsons(v@);
    let mut out: Vec<String> = Vec::new();
    let mut i: usize = 0;
    assert(text::strs(out@) =~= Seq::<Seq<char>>::empty());
    while i < v.len()
        invariant
            all == json::jsons(v@),
            i <= v@.len(),
            text::strs(out@) == texts_upto(all, i as nat),
        decreases v@.len() - i,
    {
        assert(all[i as int] == json::json(v@[i as int]));
        let ghost before = out@;
        if let Some(s) = v[i].as_str() {
            out.push(s.to_owned());
            assert(text::strs(out@) =~= text::strs(before).push(s@));
        }
        i += 1;
    }
    out
}

/// The entry that a member of `mcpServers` makes, where its command is a diskscour
/// binary.
pub open spec fn entry_of(
    name: Seq<char>,
    s: Json,
    client: Seq<char>,
    scope: Seq<char>,
) -> Option<RegistrationView> {
    match json::field(s, "command"@) {
        Some(Json::Str(command)) => match path::name_of(command) {
            Some(f) => if "diskscour"@.is_prefix_of(f) {
                Some(
                    RegistrationView {
                        client,
                        scope,
                        name,
                        command,
                        args: texts_in(json::field(s, "args"@)),
                        health: HealthView::Healthy,
                    },
                )
            } else {
                None
            },
            None => None,
        },
        _ => None,
    }
}

/// The entries that the first `k` members of `mcpServers` make.
pub open spec fn entries_upto(
    es: Seq<(Seq<char>, Json)>,
    client: Seq<char>,
    scope: Seq<char>,
    k: nat,
) -> Seq<RegistrationView>
    decreases k,
{
    if k == 0 {
        Seq::empty()
    } else {
        match entry_of(es[k - 1].0, es[k - 1].1, client, scope) {
            Some(r) => entries_upto(es, client, scope, (k - 1) as nat).push(r),
            None => entries_upto(es, client, scope, (k - 1) as nat),
        }
    }
}

/// Whether `rs` are the entries under `mcpServers` whose command is a diskscour
/// binary, in the order of their names.
pub open spec fn entries_in(
    j: Json,
    client: Seq<char>,
    scope: Seq<char>,
    rs: Seq<RegistrationView>,
) -> bool {
    match json::field(j, "mcpServers"@) {
        Some(Json::Obj(m)) => exists|es: Seq<(Seq<char>, Json)>| #[trigger]
            json::listing(m, es) && rs == entries_upto(es, client, scope, es.len()),
        _ => rs == Seq::<RegistrationView>::empty(),
    }
}

fn entry(name: &String, s: &Value, client: &str, scope: &str) -> (r: Option<Registration>)
    ensures
        match r {
            Some(e) => entry_of(name@, json::json(*s), client@, scope@) == Some(e@),
            None => entry_of(name@, json::json(*s), client@, scope@) is None,
        },
{
    let command = match member(s, "command") {
        Some(c) => match c.as_str() {
            Some(c) => c,
            None => {
                return None;
            },
        },
        None => {
            return None;
        },
    };
    match file_name(command) {
        Some(f) => if !starts_with(f.as_str(), "diskscour") {
            return None;
        },
        None => {
            return None;
        },
    }
    let args = match member(s, "args") {
        Some(a) => match a.as_array() {
            Some(v) => texts(v),
            None => Vec::new(),
        },
        None => Vec::new(),
    };
    assert(text::strs(args@) =~= texts_in(json::field(json::json(*s), "args"@)));
    Some(
        Registration {
            client: client.to_owned(),
            scope: scope.to_owned(),
            name: name.clone(),
            command: command.to_owned(),
            args,
            health: Health::Healthy,
        },
    )
}

/// Entries under `mcpServers` in `v`, a config of `client`, whose command is a
/// diskscour binary.
pub fn registrations_in(v: &Value, client: &str, scope: &str) -> (r: Vec<Registration>)
    ensures
        entries_in(json::json(*v), client@, scope@, registrations_view(r@)),
{
    let mut out: Vec<Registration> = Vec::new();
    assert(registrations_view(out@) =~= Seq::<RegistrationView>::empty());
    let servers = match member(v, "mcpServers") {
        Some(s) => match members(s) {
            Some(es) => es,
            None => {
                return out;
            },
        },
        None => {
            return out;
        },
    };
    let ghost es = json::members_view(servers@);
    let mut i: usize = 0;
    while i < servers.len()
        invariant
            es == json::members_view(servers@),
            i <= servers@.len(),
            registrations_view(out@) == entries_upto(es, client@, scope@, i as nat),
        decreases servers@.len() - i,
    {
        assert(es[i as int] == (servers@[i as int].0@, json::json(*servers@[i as int].1)));
        let ghost before = out@;
        if let Some(e) = entry(&servers[i].0, servers[i].1, client, scope) {
            out.push(e);
            assert(registrations_view(out@) =~= registrations_view(before).push(e@));
        }
        i += 1;
    }
    out
}

/// The value that a config file holds, if it is JSON.
pub fn read_json(s: &str) -> (r: Option<Value>)
    ensures
        match r {
            Some(v) => json::parsed(s@) == Ok::<Json, Seq<char>>(json::json(v)),
            None => json::parsed(s@) is Err,
        },
{
    match parse(s) {
        Ok(v) => Some(v),
        Err(_) => None,
    }
}

// ---- which agent ----------------------------------------------------------------------

/// The command that a user-wide configuration file is named after: `.NAME.json`.
pub open spec fn config_command(file: Seq<char>) -> Option<Seq<char>> {
    if file.len() > 6 && "."@.is_prefix_of(file) && ".json"@.is_suffix_of(file) {
        Some(file.subrange(1, file.len() - 5))
    } else {
        None
    }
}

/// Whether a configuration is one that keeps servers: those of the user, or those of
/// single projects.
pub open spec fn keeps_servers(j: Json) -> bool {
    json::field(j, "mcpServers"@) is Some || json::field(j, "projects"@) is Some
}

/// The command of the agent that the configuration `v` in the file `file` belongs to.
pub fn agent_command(file: &str, v: &Value) -> (r: Option<String>)
    ensures
        index::opt_string(r) == (if keeps_servers(json::json(*v)) {
            config_command(file@)
        } else {
            None
        }),
{
    let cs = chars_of(file);
    if cs.len() <= 6 || !starts_with(file, ".") || !ends_with(file, ".json") {
        return None;
    }
    if member(v, "mcpServers").is_none() && member(v, "projects").is_none() {
        return None;
    }
    Some(string_of(vstd::slice::slice_subrange(cs.as_slice(), 1, cs.len() - 5)))
}

/// The product in what a command tells of its version: `VERSION (PRODUCT)`.
pub open spec fn product_text(out: Seq<char>) -> Option<Seq<char>> {
    let t = text::trimmed(out);
    match text::first_at(t, "("@, 0) {
        Some(i) => if i + 2 < t.len() && t.last() == ')' {
            Some(t.subrange(i as int + 1, t.len() - 1))
        } else {
            None
        },
        None => None,
    }
}

/// The product in what a command tells of its version.
pub fn product_in(out: &str) -> (r: Option<String>)
    ensures
        index::opt_string(r) == product_text(out@),
{
    let t = chars_of(trim(out).as_str());
    let open = chars_of("(");
    match find(t.as_slice(), open.as_slice()) {
        Some(i) => {
            if t.len() - i > 2 && t[t.len() - 1] == ')' {
                Some(string_of(vstd::slice::slice_subrange(t.as_slice(), i + 1, t.len() - 1)))
            } else {
                None
            }
        },
        None => None,
    }
}

/// The agent with the given command. It is known as the product that the command
/// tells, or else by the command itself.
pub fn agent_with(command: String, told: Option<&str>) -> (r: Agent)
    ensures
        r.command == command,
        r.label@ == (match index::opt_str(told) {
            Some(out) => match product_text(out) {
                Some(name) => name,
                None => command@,
            },
            None => command@,
        }),
{
    let product = match told {
        Some(out) => product_in(out),
        None => None,
    };
    let label = match product {
        Some(name) => name,
        None => command.clone(),
    };
    Agent { label, command }
}

/// Which agent's command is meant: the one that the user named, else the one that has a
/// configuration, else the one that is connected.
pub fn choose_command(named: Option<String>, configured: Option<String>, sessions: &Vec<Session>) -> (r:
    Option<String>)
    ensures
        index::opt_string(r) == (match (named, configured) {
            (Some(c), _) => Some(c@),
            (None, Some(c)) => Some(c@),
            (None, None) => if sessions@.len() > 0 {
                Some(sessions@[0].client@)
            } else {
                None
            },
        }),
{
    match (named, configured) {
        (Some(c), _) => Some(c),
        (None, Some(c)) => Some(c),
        (None, None) => if sessions.len() > 0 {
            Some(sessions[0].client.clone())
        } else {
            None
        },
    }
}

/// The parts among the first `k`, one after the other.
pub open spec fn strung(parts: Seq<Seq<RegistrationView>>, k: nat) -> Seq<RegistrationView>
    decreases k,
{
    if k == 0 {
        Seq::empty()
    } else {
        strung(parts, (k - 1) as nat) + parts[k - 1]
    }
}

/// Whether the parts are the entries of the first projects of `ps`.
pub open spec fn project_parts(
    ps: Seq<(Seq<char>, Json)>,
    client: Seq<char>,
    parts: Seq<Seq<RegistrationView>>,
) -> bool {
    &&& parts.len() <= ps.len()
    &&& forall|i: int|
        0 <= i < parts.len() ==> entries_in(
            ps[i].1,
            client,
            "local · "@ + ps[i].0,
            #[trigger] parts[i],
        )
}

/// Whether `rs` are the entries of the projects in a user's config.
pub open spec fn projects_in(j: Json, client: Seq<char>, rs: Seq<RegistrationView>) -> bool {
    match json::field(j, "projects"@) {
        Some(Json::Obj(m)) => exists|ps: Seq<(Seq<char>, Json)>, parts: Seq<Seq<RegistrationView>>|
            #[trigger] json::listing(m, ps) && #[trigger] project_parts(ps, client, parts) && parts.len()
                == ps.len() && rs == strung(parts, parts.len()),
        _ => rs == Seq::<RegistrationView>::empty(),
    }
}

/// Whether `a` are the entries of a user's config itself and `b` those of its
/// projects.
pub open spec fn user_entries(
    user: Option<Json>,
    client: Seq<char>,
    a: Seq<RegistrationView>,
    b: Seq<RegistrationView>,
) -> bool {
    match user {
        Some(j) => entries_in(j, client, "user"@, a) && projects_in(j, client, b),
        None => a == Seq::<RegistrationView>::empty() && b == Seq::<RegistrationView>::empty(),
    }
}

/// Whether `c` are the entries of the config of the directory `cwd`.
pub open spec fn directory_entries(
    project: Option<Json>,
    client: Seq<char>,
    cwd: Seq<char>,
    c: Seq<RegistrationView>,
) -> bool {
    match project {
        Some(j) => entries_in(j, client, "project · "@ + cwd, c),
        None => c == Seq::<RegistrationView>::empty(),
    }
}

/// What an optional value holds.
pub open spec fn opt_json(v: Option<&Value>) -> Option<Json> {
    match v {
        Some(v) => Some(json::json(*v)),
        None => None,
    }
}

fn add_all(out: &mut Vec<Registration>, more: Vec<Registration>)
    ensures
        registrations_view(final(out)@) == registrations_view(old(out)@) + registrations_view(
            more@,
        ),
{
    let mut more = more;
    let ghost a = registrations_view(out@);
    let ghost b = registrations_view(more@);
    out.append(&mut more);
    assert(registrations_view(out@) =~= a + b);
}

fn local_registrations(user: &Value, client: &str) -> (r: Vec<Registration>)
    ensures
        projects_in(json::json(*user), client@, registrations_view(r@)),
{
    let mut out: Vec<Registration> = Vec::new();
    assert(registrations_view(out@) =~= Seq::<RegistrationView>::empty());
    let projects = match member(user, "projects") {
        Some(p) => match members(p) {
            Some(ps) => ps,
            None => {
                return out;
            },
        },
        None => {
            return out;
        },
    };
    let ghost ps = json::members_view(projects@);
    let ghost mut parts = Seq::<Seq<RegistrationView>>::empty();
    let mut i: usize = 0;
    while i < projects.len()
        invariant
            ps == json::members_view(projects@),
            i <= projects@.len(),
            parts.len() == i,
            project_parts(ps, client@, parts),
            registrations_view(out@) == strung(parts, i as nat),
        decreases projects@.len() - i,
    {
        assert(ps[i as int] == (projects@[i as int].0@, json::json(*projects@[i as int].1)));
        let mut scope = "local · ".to_owned();
        scope.append(projects[i].0.as_str());
        let more = registrations_in(projects[i].1, client, scope.as_str());
        let ghost part = registrations_view(more@);
        let ghost before = parts;
        add_all(&mut out, more);
        proof {
            parts = parts.push(part);
            lemma_strung_same(before, parts, i as nat);
            assert forall|k: int| 0 <= k < parts.len() implies entries_in(
                ps[k].1,
                client@,
                "local · "@ + ps[k].0,
                #[trigger] parts[k],
            ) by {
                if k < before.len() {
                    assert(parts[k] == before[k]);
                }
            }
        }
        i += 1;
    }
    out
}

proof fn lemma_strung_same(a: Seq<Seq<RegistrationView>>, b: Seq<Seq<RegistrationView>>, k: nat)
    requires
        k <= a.len(),
        k <= b.len(),
        forall|i: int| 0 <= i < k ==> a[i] == b[i],
    ensures
        strung(a, k) == strung(b, k),
    decreases k,
{
    if k > 0 {
        lemma_strung_same(a, b, (k - 1) as nat);
    }
}

/// The registrations with an agent. It keeps user-scope servers under `mcpServers`
/// and per-project ones under `projects.<path>.mcpServers`, both in the user's
/// config (`user`). Project scope is a `.mcp.json` next to the code (`project`);
/// only that of the current directory is looked at, since the rest can't be
/// enumerated.
pub fn agent_registrations(
    client: &str,
    user: Option<&Value>,
    project: Option<&Value>,
    cwd: &str,
) -> (r: Vec<Registration>)
    ensures
        exists|
            a: Seq<RegistrationView>,
            b: Seq<RegistrationView>,
            c: Seq<RegistrationView>,
        | #[trigger]
            user_entries(opt_json(user), client@, a, b) && #[trigger] directory_entries(
                opt_json(project),
                client@,
                cwd@,
                c,
            ) && registrations_view(r@) == a + b + c,
{
    let mut out: Vec<Registration> = Vec::new();
    let ghost mut a = Seq::<RegistrationView>::empty();
    let ghost mut b = Seq::<RegistrationView>::empty();
    let ghost mut c = Seq::<RegistrationView>::empty();
    assert(registrations_view(out@) =~= Seq::<RegistrationView>::empty());
    if let Some(v) = user {
        let own = registrations_in(v, client, "user");
        let local = local_registrations(v, client);
        proof {
            a = registrations_view(own@);
            b = registrations_view(local@);
        }
        add_all(&mut out, own);
        add_all(&mut out, local);
    }
    assert(user_entries(opt_json(user), client@, a, b));
    assert(registrations_view(out@) =~= a + b);
    if let Some(v) = project {
        let mut scope = "project · ".to_owned();
        scope.append(cwd);
        let here = registrations_in(v, client, scope.as_str());
        proof {
            c = registrations_view(here@);
        }
        add_all(&mut out, here);
    }
    assert(directory_entries(opt_json(project), client@, cwd@, c));
    assert(registrations_view(out@) =~= a + b + c);
    out
}

/// The health of an entry, by where its command leads (`canon`, without links) and
/// what the binary there says its version is.
pub open spec fn health(
    args: Seq<Seq<char>>,
    this_binary: Seq<char>,
    canon: Option<Seq<char>>,
    version: Option<Seq<char>>,
) -> HealthView {
    if !args.contains("mcp"@) {
        HealthView::NotServer
    } else {
        match canon {
            None => HealthView::Missing,
            Some(c) => if path::same(c, this_binary) {
                HealthView::Healthy
            } else {
                match version {
                    Some(v) => if v == VERSION@ {
                        HealthView::Healthy
                    } else {
                        HealthView::Version(v)
                    },
                    None => HealthView::Missing,
                }
            },
        }
    }
}

fn has_arg(args: &Vec<String>, a: &str) -> (r: bool)
    ensures
        r == text::strs(args@).contains(a@),
{
    let mut i: usize = 0;
    while i < args.len()
        invariant
            i <= args@.len(),
            forall|k: int| 0 <= k < i ==> (#[trigger] text::strs(args@)[k]) != a@,
        decreases args@.len() - i,
    {
        if str_eq(args[i].as_str(), a) {
            assert(text::strs(args@)[i as int] == a@);
            return true;
        }
        i += 1;
    }
    false
}

/// The health of an entry. `canon` is where its command leads, without links, and
/// `version` what the binary there says its version is.
pub fn health_of(
    r: &Registration,
    this_binary: &str,
    canon: Option<&str>,
    version: Option<&str>,
) -> (h: Health)
    ensures
        h@ == health(
            text::strs(r.args@),
            this_binary@,
            index::opt_str(canon),
            index::opt_str(version),
        ),
{
    if !has_arg(&r.args, "mcp") {
        return Health::NotServer;
    }
    match canon {
        None => Health::Missing,
        Some(c) => if same_path(c, this_binary) {
            Health::Healthy
        } else {
            match version {
                Some(v) => if str_eq(v, VERSION) {
                    Health::Healthy
                } else {
                    Health::Version(v.to_owned())
                },
                None => Health::Missing,
            }
        },
    }
}

/// The version in the output of `diskscour --version`.
pub open spec fn version_text(out: Seq<char>) -> Option<Seq<char>> {
    let t = text::trimmed(out);
    if "diskscour "@.is_prefix_of(t) {
        Some(t.skip("diskscour "@.len() as int))
    } else {
        None
    }
}

/// The version in the output of `diskscour --version`.
pub fn version_in(out: &str) -> (r: Option<String>)
    ensures
        index::opt_string(r) == version_text(out@),
{
    let t = trim(out);
    let prefix = "diskscour ";
    if !starts_with(t.as_str(), prefix) {
        return None;
    }
    let cs = chars_of(t.as_str());
    let n: usize = chars_of(prefix).len();
    let rest = string_of(&cs.as_slice()[n..cs.len()]);
    assert(rest@ =~= t@.skip(n as int));
    Some(rest)
}

// ---- the status ---------------------------------------------------------------------

/// Whether a shell takes the character as it stands.
pub open spec fn shell_safe(c: char) -> bool {
    ||| 'a' <= c <= 'z'
    ||| 'A' <= c <= 'Z'
    ||| '0' <= c <= '9'
    ||| c == '/'
    ||| c == '.'
    ||| c == '_'
    ||| c == '-'
    ||| c == '+'
    ||| c == '~'
}

/// The text with each single quote closed, escaped and opened again.
pub open spec fn quotes_escaped(s: Seq<char>) -> Seq<char>
    decreases s.len(),
{
    if s.len() == 0 {
        Seq::empty()
    } else if s.last() == '\'' {
        quotes_escaped(s.drop_last()) + "'\\''"@
    } else {
        quotes_escaped(s.drop_last()).push(s.last())
    }
}

/// The text as one word of a shell command.
pub open spec fn quoted(s: Seq<char>) -> Seq<char> {
    if forall|i: int| 0 <= i < s.len() ==> shell_safe(#[trigger] s[i]) {
        s
    } else {
        "'"@ + quotes_escaped(s) + "'"@
    }
}

fn is_shell_safe(c: char) -> (r: bool)
    ensures
        r == shell_safe(c),
{
    ('a' <= c && c <= 'z') || ('A' <= c && c <= 'Z') || ('0' <= c && c <= '9') || c == '/' || c
        == '.' || c == '_' || c == '-' || c == '+' || c == '~'
}

/// The text as one word of a shell command.
pub fn shell_quote(s: &str) -> (r: String)
    ensures
        r@ == quoted(s@),
{
    let cs = chars_of(s);
    let mut safe = true;
    let mut i: usize = 0;
    while i < cs.len()
        invariant
            cs@ == s@,
            i <= cs@.len(),
            safe == (forall|k: int| 0 <= k < i ==> shell_safe(#[trigger] s@[k])),
        decreases cs@.len() - i,
    {
        if !is_shell_safe(cs[i]) {
            safe = false;
        }
        i += 1;
    }
    if safe {
        return s.to_owned();
    }
    let mut out = String::new();
    let mut k: usize = 0;
    assert(s@.take(0) =~= Seq::<char>::empty());
    while k < cs.len()
        invariant
            cs@ == s@,
            k <= cs@.len(),
            out@ == quotes_escaped(s@.take(k as int)),
        decreases cs@.len() - k,
    {
        assert(s@.take(k + 1).drop_last() =~= s@.take(k as int));
        assert(s@.take(k + 1).last() == cs@[k as int]);
        if cs[k] == '\'' {
            out.append("'\\''");
        } else {
            out.push(cs[k]);
        }
        k += 1;
    }
    assert(s@.take(s@.len() as int) =~= s@);
    let mut r = "'".to_owned();
    r.append(out.as_str());
    r.append("'");
    r
}

/// The command that registers a binary with an agent.
pub open spec fn add_text(agent: Seq<char>, binary: Seq<char>) -> Seq<char> {
    agent + " mcp add diskscour -- "@ + quoted(binary) + " mcp"@
}

/// Whether all entries are healthy.
pub open spec fn all_healthy(rs: Seq<RegistrationView>) -> bool {
    forall|i: int| 0 <= i < rs.len() ==> (#[trigger] rs[i]).health is Healthy
}

/// The traffic light over the entries.
pub open spec fn level_of(rs: Seq<RegistrationView>) -> Level {
    if rs.len() == 0 {
        Level::Off
    } else if all_healthy(rs) {
        Level::Healthy
    } else {
        Level::Warn
    }
}

/// The health of the first entry that is not healthy.
pub open spec fn first_trouble(rs: Seq<RegistrationView>) -> HealthView
    decreases rs.len(),
{
    if rs.len() == 0 || !(rs[0].health is Healthy) {
        rs[0].health
    } else {
        first_trouble(rs.skip(1))
    }
}

/// One short phrase for the status bar.
pub open spec fn headline_text(rs: Seq<RegistrationView>, sessions: nat, version: Seq<char>) -> Seq<
    char,
> {
    match level_of(rs) {
        Level::Off => "MCP · not registered"@,
        Level::Warn => "MCP · "@ + health_text(first_trouble(rs), version),
        Level::Healthy => if sessions == 0 {
            "MCP · registered · no sessions"@
        } else if sessions == 1 {
            "MCP · 1 session"@
        } else {
            "MCP · "@ + text::decimal(sessions) + " sessions"@
        },
    }
}

/// How many of the first `k` sessions are of a client.
pub open spec fn tally(ss: Seq<(i32, Seq<char>)>, client: Seq<char>, k: nat) -> nat
    decreases k,
{
    if k == 0 {
        0
    } else {
        tally(ss, client, (k - 1) as nat) + (if ss[k - 1].1 == client {
            1nat
        } else {
            0
        })
    }
}

/// Whether `names` are the clients of the first `k` sessions, each once, in order.
pub open spec fn roster(ss: Seq<(i32, Seq<char>)>, names: Seq<Seq<char>>, k: nat) -> bool {
    &&& forall|i: int|
        0 <= i < names.len() ==> exists|j: int| 0 <= j < k && ss[j].1 == #[trigger] names[i]
    &&& forall|j: int| 0 <= j < k ==> names.contains((#[trigger] ss[j]).1)
    &&& forall|i: int, j: int|
        0 <= i < j < names.len() ==> text::text_lt(#[trigger] names[i], #[trigger] names[j])
}

/// Each client with the number of its sessions.
pub open spec fn tallied(ss: Seq<(i32, Seq<char>)>, names: Seq<Seq<char>>) -> Seq<Seq<char>> {
    names.map_values(|c: Seq<char>| c + " ×"@ + text::decimal(tally(ss, c, ss.len())))
}

fn sessions_of(ss: &Vec<Session>, client: &str, k: usize) -> (r: u64)
    requires
        k <= ss@.len(),
    ensures
        r == tally(sessions::sessions_view(ss@), client@, k as nat),
{
    let ghost all = sessions::sessions_view(ss@);
    let mut n: u64 = 0;
    let mut i: usize = 0;
    while i < k
        invariant
            all == sessions::sessions_view(ss@),
            i <= k <= ss@.len(),
            n == tally(all, client@, i as nat),
            n <= i,
        decreases k - i,
    {
        assert(all[i as int] == (ss@[i as int].pid, ss@[i as int].client@));
        if str_eq(ss[i].client.as_str(), client) {
            n = n + 1;
        }
        i += 1;
    }
    n
}

/// Names one more client, unless it is named already.
fn enlist(names: &mut Vec<String>, client: &String, Ghost(ss): Ghost<Seq<(i32, Seq<char>)>>, Ghost(k): Ghost<nat>)
    requires
        k < ss.len(),
        ss[k as int].1 == client@,
        roster(ss, text::strs(old(names)@), k),
    ensures
        roster(ss, text::strs(final(names)@), k + 1),
{
    let ghost before = text::strs(names@);
    let mut at: usize = 0;
    while at < names.len() && comes_before(names[at].as_str(), client.as_str())
        invariant
            at <= names@.len(),
            before == text::strs(names@),
            forall|i: int| 0 <= i < at ==> text::text_lt(#[trigger] before[i], client@),
        decreases names@.len() - at,
    {
        assert(before[at as int] == names@[at as int]@);
        at += 1;
    }
    if at < names.len() && str_eq(names[at].as_str(), client.as_str()) {
        assert(before[at as int] == client@);
        assert(before.contains(client@));
        assert forall|j: int| 0 <= j < k + 1 implies before.contains((#[trigger] ss[j]).1) by {}
        assert forall|i: int| 0 <= i < before.len() implies exists|j: int|
            0 <= j < k + 1 && ss[j].1 == #[trigger] before[i] by {
            let j = choose|j: int| 0 <= j < k && ss[j].1 == before[i];
            assert(0 <= j < k + 1 && ss[j].1 == before[i]);
        }
        return;
    }
    proof {
        if at < names@.len() {
            assert(before[at as int] == names@[at as int]@);
            text::lemma_text_total(before[at as int], client@);
        }
        assert forall|i: int| at <= i < before.len() implies text::text_lt(
            client@,
            #[trigger] before[i],
        ) by {
            if i > at {
                text::lemma_text_trans(client@, before[at as int], before[i]);
            }
        }
    }
    names.insert(at, client.clone());
    let ghost after = text::strs(names@);
    assert(after =~= before.insert(at as int, client@));
    proof {
        assert(after[at as int] == client@);
        assert forall|j: int| 0 <= j < k + 1 implies after.contains((#[trigger] ss[j]).1) by {
            if j < k {
                assert(before.contains(ss[j].1));
                let i = choose|i: int| 0 <= i < before.len() && before[i] == ss[j].1;
                if i < at {
                    assert(after[i] == before[i]);
                } else {
                    assert(after[i + 1] == before[i]);
                }
            }
        }
        assert forall|i: int| 0 <= i < after.len() implies exists|j: int|
            0 <= j < k + 1 && ss[j].1 == #[trigger] after[i] by {
            if i == at {
                assert(ss[k as int].1 == after[i]);
            } else {
                let b = if i < at {
                    i
                } else {
                    i - 1
                };
                assert(after[i] == before[b]);
                let j = choose|j: int| 0 <= j < k && ss[j].1 == before[b];
                assert(0 <= j < k + 1 && ss[j].1 == after[i]);
            }
        }
        assert forall|i: int, j: int| 0 <= i < j < after.len() implies text::text_lt(
            #[trigger] after[i],
            #[trigger] after[j],
        ) by {
            let b = if i < at {
                i
            } else {
                i - 1
            };
            let c = if j < at {
                j
            } else {
                j - 1
            };
            if i != at {
                assert(after[i] == before[b]);
            }
            if j != at {
                assert(after[j] == before[c]);
            }
        }
    }
}

/// A status with characters for strings.
#[verifier::ext_equal]
pub struct StatusView {
    pub binary: Seq<char>,
    pub version: Seq<char>,
    pub agent_label: Seq<char>,
    pub agent_command: Seq<char>,
    pub registrations: Seq<RegistrationView>,
    pub sessions: Seq<(i32, Seq<char>)>,
}

impl View for Status {
    type V = StatusView;

    open spec fn view(&self) -> StatusView {
        StatusView {
            binary: self.this_binary@,
            version: self.this_version@,
            agent_label: self.agent.label@,
            agent_command: self.agent.command@,
            registrations: registrations_view(self.registrations@),
            sessions: sessions::sessions_view(self.sessions@),
        }
    }
}

/// Texts as an array.
pub open spec fn text_array(v: Seq<Seq<char>>) -> Json {
    Json::Arr(v.map_values(|s: Seq<char>| Json::Str(s)))
}

/// An entry as an object.
pub open spec fn registration_json(r: RegistrationView, version: Seq<char>) -> Json {
    Json::Obj(
        map![
            "client"@ => Json::Str(r.client),
            "scope"@ => Json::Str(r.scope),
            "name"@ => Json::Str(r.name),
            "command"@ => Json::Str(r.command),
            "args"@ => text_array(r.args),
            "health"@ => Json::Str(health_word(r.health)),
            "detail"@ => Json::Str(health_text(r.health, version)),
        ],
    )
}

/// The number of sessions of each client among the first `k` sessions.
pub open spec fn tallies(ss: Seq<(i32, Seq<char>)>, k: nat) -> Map<Seq<char>, Json>
    decreases k,
{
    if k == 0 {
        Map::empty()
    } else {
        let c = ss[k - 1].1;
        tallies(ss, (k - 1) as nat).insert(c, Json::Int(tally(ss, c, k) as int))
    }
}

/// A status as an object.
pub open spec fn status_json(s: StatusView) -> Json {
    Json::Obj(
        map![
            "transport"@ => Json::Str("stdio"@),
            "server_version"@ => Json::Str(s.version),
            "server_binary"@ => Json::Str(s.binary),
            "registered"@ => Json::Bool(s.registrations.len() > 0),
            "registrations"@ =>
                Json::Arr(
                    s.registrations.map_values(
                        |r: RegistrationView| registration_json(r, s.version),
                    ),
                ),
            "sessions"@ => Json::Int(s.sessions.len() as int),
            "sessions_by_client"@ => Json::Obj(tallies(s.sessions, s.sessions.len())),
            "session_pids"@ => Json::Arr(
                s.sessions.map_values(|x: (i32, Seq<char>)| Json::Int(x.0 as int)),
            ),
            "add_command"@ => Json::Str(add_text(s.agent_command, s.binary)),
        ],
    )
}

/// Texts as an array.
pub(crate) fn string_array(v: &Vec<String>) -> (r: Value)
    ensures
        json::json(r) == text_array(text::strs(v@)),
{
    let ghost want = text::strs(v@).map_values(|s: Seq<char>| Json::Str(s));
    let mut out = Values::new();
    let mut i: usize = 0;
    while i < v.len()
        invariant
            want == text::strs(v@).map_values(|s: Seq<char>| Json::Str(s)),
            i <= v@.len(),
            out@ == want.take(i as int),
        decreases v@.len() - i,
    {
        out.push(json::string(v[i].as_str()));
        i += 1;
        assert(out@ =~= want.take(i as int));
    }
    assert(want.take(i as int) =~= want);
    out.done()
}

fn registration_value(r: &Registration, version: &str) -> (v: Value)
    ensures
        json::json(v) == registration_json(r@, version@),
{
    let mut o = Fields::new();
    o.put_str("client", r.client.as_str());
    o.put_str("scope", r.scope.as_str());
    o.put_str("name", r.name.as_str());
    o.put_str("command", r.command.as_str());
    o.put("args", string_array(&r.args));
    o.put_str("health", r.health.word());
    o.put_str("detail", r.health.describe(version).as_str());
    o.done()
}

impl Status {
    /// The status, from what was found: the entries, where the command of each
    /// leads and what version is there, and the process listing. `this_binary` is
    /// `None` where the running binary does not know where it is.
    pub fn collect(
        this_binary: Option<&str>,
        agent: Agent,
        registrations: Vec<Registration>,
        found: &Vec<(Option<String>, Option<String>)>,
        ps: &str,
        exes: &Vec<(i32, String)>,
    ) -> (r: Status)
        requires
            found@.len() == registrations@.len(),
        ensures
            r.this_binary@ == (match this_binary {
                Some(p) => p@,
                None => "diskscour"@,
            }),
            r.this_version@ == VERSION@,
            r.agent == agent,
            r.registrations@.len() == registrations@.len(),
            forall|i: int|
                0 <= i < registrations@.len() ==> (#[trigger] r.registrations@[i])@ == (
                RegistrationView {
                    health: health(
                        text::strs(registrations@[i].args@),
                        r.this_binary@,
                        index::opt_string(found@[i].0),
                        index::opt_string(found@[i].1),
                    ),
                    ..registrations@[i]@
                }),
            sessions::sessions_view(r.sessions@) == sessions::sessions_upto(
                sessions::rows_in(ps@),
                sessions::exes_view(exes@),
                sessions::rows_in(ps@).len(),
            ),
    {
        let this_binary = match this_binary {
            Some(p) => p.to_owned(),
            None => "diskscour".to_owned(),
        };
        let ghost all = registrations@;
        let mut regs = registrations;
        let mut i: usize = 0;
        while i < regs.len()
            invariant
                regs@.len() == all.len(),
                found@.len() == all.len(),
                i <= all.len(),
                forall|k: int| i <= k < all.len() ==> #[trigger] regs@[k] == all[k],
                forall|k: int|
                    0 <= k < i ==> (#[trigger] regs@[k])@ == (RegistrationView {
                        health: health(
                            text::strs(all[k].args@),
                            this_binary@,
                            index::opt_string(found@[k].0),
                            index::opt_string(found@[k].1),
                        ),
                        ..all[k]@
                    }),
            decreases all.len() - i,
        {
            let canon = match &found[i].0 {
                Some(p) => Some(p.as_str()),
                None => None,
            };
            let version = match &found[i].1 {
                Some(v) => Some(v.as_str()),
                None => None,
            };
            assert(regs@[i as int] == all[i as int]);
            let h = health_of(&regs[i], this_binary.as_str(), canon, version);
            regs[i].health = h;
            i += 1;
        }
        Status {
            this_binary,
            this_version: VERSION,
            agent,
            registrations: regs,
            sessions: sessions_from_ps(ps, exes),
        }
    }

    /// The command that registers this very binary with the agent.
    pub fn add_command(&self) -> (r: String)
        ensures
            r@ == add_text(self.agent.command@, self.this_binary@),
    {
        let mut s = self.agent.command.clone();
        s.append(" mcp add diskscour -- ");
        s.append(shell_quote(self.this_binary.as_str()).as_str());
        s.append(" mcp");
        s
    }

    /// The traffic light over the entries.
    pub fn level(&self) -> (r: Level)
        ensures
            r == level_of(self@.registrations),
    {
        let ghost rs = self@.registrations;
        if self.registrations.len() == 0 {
            return Level::Off;
        }
        let mut i: usize = 0;
        while i < self.registrations.len()
            invariant
                rs == self@.registrations,
                i <= rs.len(),
                rs.len() > 0,
                forall|k: int| 0 <= k < i ==> (#[trigger] rs[k]).health is Healthy,
            decreases rs.len() - i,
        {
            assert(rs[i as int] == self.registrations@[i as int]@);
            if !self.registrations[i].health.is_ok() {
                return Level::Warn;
            }
            i += 1;
        }
        Level::Healthy
    }

    /// One short phrase for the status bar.
    pub fn headline(&self) -> (r: String)
        ensures
            r@ == headline_text(self@.registrations, self@.sessions.len(), self.this_version@),
    {
        let ghost rs = self@.registrations;
        match self.level() {
            Level::Off => "MCP · not registered".to_owned(),
            Level::Warn => {
                let mut i: usize = 0;
                assert(rs.skip(0) =~= rs);
                while i < self.registrations.len() && self.registrations[i].health.is_ok()
                    invariant
                        rs == self@.registrations,
                        i <= rs.len(),
                        forall|k: int| 0 <= k < i ==> (#[trigger] rs[k]).health is Healthy,
                        first_trouble(rs) == first_trouble(rs.skip(i as int)),
                    decreases rs.len() - i,
                {
                    assert(rs[i as int] == self.registrations@[i as int]@);
                    assert(rs.skip(i as int).skip(1) =~= rs.skip(i + 1));
                    i += 1;
                }
                assert(i < rs.len());
                assert(rs[i as int] == self.registrations@[i as int]@);
                let mut s = "MCP · ".to_owned();
                s.append(self.registrations[i].health.describe(self.this_version).as_str());
                s
            },
            Level::Healthy => {
                let n: usize = self.sessions.len();
                if n == 0 {
                    "MCP · registered · no sessions".to_owned()
                } else if n == 1 {
                    "MCP · 1 session".to_owned()
                } else {
                    let mut s = "MCP · ".to_owned();
                    s.append(decimal_string(n as u64).as_str());
                    s.append(" sessions");
                    s
                }
            },
        }
    }

    /// Sessions grouped by client, e.g. `Cursor ×8`.
    pub fn sessions_by_client(&self) -> (r: String)
        ensures
            exists|names: Seq<Seq<char>>| #[trigger]
                roster(self@.sessions, names, self@.sessions.len()) && r@ == text::joined_by(
                    tallied(self@.sessions, names),
                    ", "@,
                ),
    {
        let ghost ss = self@.sessions;
        let mut names: Vec<String> = Vec::new();
        let mut i: usize = 0;
        while i < self.sessions.len()
            invariant
                ss == self@.sessions,
                i <= ss.len(),
                roster(ss, text::strs(names@), i as nat),
            decreases ss.len() - i,
        {
            assert(ss[i as int].1 == self.sessions@[i as int].client@);
            enlist(&mut names, &self.sessions[i].client, Ghost(ss), Ghost(i as nat));
            i += 1;
        }
        let ghost want = tallied(ss, text::strs(names@));
        let mut parts: Vec<String> = Vec::new();
        let mut k: usize = 0;
        while k < names.len()
            invariant
                ss == self@.sessions,
                want == tallied(ss, text::strs(names@)),
                k <= names@.len(),
                text::strs(parts@) == want.take(k as int),
            decreases names@.len() - k,
        {
            let mut s = names[k].clone();
            s.append(" ×");
            let n: u64 = sessions_of(&self.sessions, names[k].as_str(), self.sessions.len());
            s.append(decimal_string(n).as_str());
            assert(text::strs(names@)[k as int] == names@[k as int]@);
            assert(s@ == want[k as int]);
            let ghost before = parts@;
            parts.push(s);
            assert(text::strs(parts@) =~= text::strs(before).push(s@));
            k += 1;
            assert(text::strs(parts@) =~= want.take(k as int));
        }
        assert(want.take(k as int) =~= want);
        join_by(&parts, ", ")
    }

    /// The status as JSON.
    pub fn to_json(&self) -> (r: Value)
        ensures
            json::json(r) == status_json(self@),
    {
        let ghost rs = self@.registrations;
        let ghost ss = self@.sessions;
        let ghost version = self.this_version@;
        let ghost want = rs.map_values(|r: RegistrationView| registration_json(r, version));
        let mut regs = Values::new();
        let mut i: usize = 0;
        while i < self.registrations.len()
            invariant
                rs == self@.registrations,
                version == self.this_version@,
                want == rs.map_values(|r: RegistrationView| registration_json(r, version)),
                i <= rs.len(),
                regs@ == want.take(i as int),
            decreases rs.len() - i,
        {
            assert(rs[i as int] == self.registrations@[i as int]@);
            regs.push(registration_value(&self.registrations[i], self.this_version));
            i += 1;
            assert(regs@ =~= want.take(i as int));
        }
        assert(want.take(i as int) =~= want);
        let ghost pids = ss.map_values(|x: (i32, Seq<char>)| Json::Int(x.0 as int));
        let mut ids = Values::new();
        let mut by = Fields::new();
        let mut k: usize = 0;
        while k < self.sessions.len()
            invariant
                ss == self@.sessions,
                pids == ss.map_values(|x: (i32, Seq<char>)| Json::Int(x.0 as int)),
                k <= ss.len(),
                ids@ == pids.take(k as int),
                by@ == tallies(ss, k as nat),
            decreases ss.len() - k,
        {
            let s = &self.sessions[k];
            assert(ss[k as int] == (s.pid, s.client@));
            ids.push(json::signed_number(s.pid as i64));
            let n: u64 = sessions_of(&self.sessions, s.client.as_str(), k + 1);
            by.put_num(s.client.as_str(), n);
            k += 1;
            assert(ids@ =~= pids.take(k as int));
        }
        assert(pids.take(k as int) =~= pids);
        let mut o = Fields::new();
        o.put_str("transport", "stdio");
        o.put_str("server_version", self.this_version);
        o.put_str("server_binary", self.this_binary.as_str());
        o.put_bool("registered", self.registrations.len() > 0);
        o.put("registrations", regs.done());
        o.put_num("sessions", self.sessions.len() as u64);
        o.put("sessions_by_client", by.done());
        o.put("session_pids", ids.done());
        o.put_str("add_command", self.add_command().as_str());
        o.done()
    }
}

/// The status bar shows a warning exactly where a registration is in trouble, and
/// then says what the trouble of the first of them is.
pub proof fn law_headline_tells_trouble(s: StatusView)
    ensures
        level_of(s.registrations) == Level::Warn <==> exists|i: int|
            0 <= i < s.registrations.len() && !((#[trigger] s.registrations[i]).health is Healthy),
        level_of(s.registrations) == Level::Warn ==> exists|i: int|
            0 <= i < s.registrations.len() && !((#[trigger] s.registrations[i]).health is Healthy)
                && (forall|j: int|
                0 <= j < i ==> (#[trigger] s.registrations[j]).health is Healthy) && headline_text(
                s.registrations,
                s.sessions.len(),
                s.version,
            ) == "MCP · "@ + health_text(s.registrations[i].health, s.version),
{
    if level_of(s.registrations) == Level::Warn {
        lemma_first_trouble(s.registrations);
    }
}

proof fn lemma_first_trouble(rs: Seq<RegistrationView>)
    requires
        !all_healthy(rs),
    ensures
        exists|i: int|
            0 <= i < rs.len() && !((#[trigger] rs[i]).health is Healthy) && (forall|j: int|
                0 <= j < i ==> (#[trigger] rs[j]).health is Healthy) && first_trouble(rs)
                == rs[i].health,
    decreases rs.len(),
{
    if rs.len() > 0 && rs[0].health is Healthy {
        let rest = rs.skip(1);
        let k = choose|k: int| 0 <= k < rs.len() && !((#[trigger] rs[k]).health is Healthy);
        assert(rest[k - 1] == rs[k]);
        lemma_first_trouble(rest);
        let i = choose|i: int|
            0 <= i < rest.len() && !((#[trigger] rest[i]).health is Healthy) && (forall|j: int|
                0 <= j < i ==> (#[trigger] rest[j]).health is Healthy) && first_trouble(rest)
                == rest[i].health;
        assert(rs[i + 1] == rest[i]);
        assert forall|j: int| 0 <= j < i + 1 implies (#[trigger] rs[j]).health is Healthy by {
            if j > 0 {
                assert(rs[j] == rest[j - 1]);
            }
        }
    } else {
        assert(!(rs[0].health is Healthy));
    }
}

/// The status counts each session once: a client is listed exactly where it has a
/// session, with as many as it has.
pub proof fn law_sessions_are_tallied(ss: Seq<(i32, Seq<char>)>, c: Seq<char>, k: nat)
    requires
        k <= ss.len(),
    ensures
        tallies(ss, k).contains_key(c) <==> tally(ss, c, k) > 0,
        tallies(ss, k).contains_key(c) ==> tallies(ss, k)[c] == Json::Int(tally(ss, c, k) as int),
    decreases k,
{
    if k > 0 {
        law_sessions_are_tallied(ss, c, (k - 1) as nat);
    }
}

} // verus!
