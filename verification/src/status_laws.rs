//! What is told of how the server is wired in.

use vstd::prelude::*;

use crate::cli;
use crate::json;
use crate::json::Json;
use crate::listing_laws;
use crate::registration;
use crate::registration::{HealthView, Level, RegistrationView, StatusView};
use crate::registration_laws;
use crate::text;
use crate::text_laws;

verus! {

// ---- scopes ---------------------------------------------------------------------------------

proof fn lemma_strung(parts: Seq<Seq<RegistrationView>>, k: nat, p: int, i: int)
    requires
        k <= parts.len(),
        0 <= p < k,
        0 <= i < parts[p].len(),
    ensures
        registration::strung(parts, k).contains(parts[p][i]),
    decreases k,
{
    let before = registration::strung(parts, (k - 1) as nat);
    let all = registration::strung(parts, k);
    if p < k - 1 {
        lemma_strung(parts, (k - 1) as nat, p, i);
        let j = choose|j: int| 0 <= j < before.len() && before[j] == parts[p][i];
        assert(all[j] == before[j]);
    } else {
        assert(all[before.len() + i] == parts[p][i]);
    }
}

proof fn lemma_strung_from(parts: Seq<Seq<RegistrationView>>, k: nat, j: int) -> (p: (int, int))
    requires
        k <= parts.len(),
        0 <= j < registration::strung(parts, k).len(),
    ensures
        0 <= p.0 < k,
        0 <= p.1 < parts[p.0].len(),
        registration::strung(parts, k)[j] == parts[p.0][p.1],
    decreases k,
{
    let before = registration::strung(parts, (k - 1) as nat);
    if j < before.len() {
        lemma_strung_from(parts, (k - 1) as nat, j)
    } else {
        (k - 1, j - before.len())
    }
}

/// What a user's configuration registers for everything is told as the user's, and what it
/// registers for a project is told with the project.
pub proof fn law_scopes_say_where_an_entry_is(
    j: Json,
    client: Seq<char>,
    a: Seq<RegistrationView>,
    b: Seq<RegistrationView>,
    i: int,
)
    requires
        registration::user_entries(Some(j), client, a, b),
    ensures
        0 <= i < a.len() ==> a[i].scope == "user"@ && a[i].client == client,
        0 <= i < b.len() ==> (json::field(j, "projects"@) matches Some(Json::Obj(m)) && exists|
            p: Seq<char>,
        | #[trigger]
            m.contains_key(p) && b[i].scope == "local · "@ + p) && b[i].client == client,
{
    if 0 <= i < a.len() {
        registration_laws::law_nothing_else_is_found(j, client, "user"@, a, i);
    }
    if 0 <= i < b.len() {
        match json::field(j, "projects"@) {
            Some(Json::Obj(m)) => {
                let (ps, parts) = choose|
                    ps: Seq<(Seq<char>, Json)>,
                    parts: Seq<Seq<RegistrationView>>,
                |
                    #[trigger] json::listing(m, ps) && #[trigger] registration::project_parts(
                        ps,
                        client,
                        parts,
                    ) && parts.len() == ps.len() && b == registration::strung(parts, parts.len());
                let (p, q) = lemma_strung_from(parts, parts.len(), i);
                let part = parts[p];
                registration_laws::law_nothing_else_is_found(
                    ps[p].1,
                    client,
                    "local · "@ + ps[p].0,
                    part,
                    q,
                );
                assert(m.contains_key(ps[p].0));
            },
            _ => {},
        }
    }
}

/// Every server of every project that runs a diskscour binary is told.
pub proof fn law_every_project_is_read(
    j: Json,
    client: Seq<char>,
    a: Seq<RegistrationView>,
    b: Seq<RegistrationView>,
    projects: Map<Seq<char>, Json>,
    p: Seq<char>,
    servers: Map<Seq<char>, Json>,
    name: Seq<char>,
    command: Seq<char>,
)
    requires
        registration::user_entries(Some(j), client, a, b),
        json::field(j, "projects"@) == Some(Json::Obj(projects)),
        projects.contains_key(p),
        json::field(projects[p], "mcpServers"@) == Some(Json::Obj(servers)),
        servers.contains_key(name),
        registration_laws::runs_diskscour(servers[name], command),
    ensures
        exists|i: int|
            0 <= i < b.len() && registration_laws::is_of(
                #[trigger] b[i],
                name,
                servers[name],
                client,
                "local · "@ + p,
            ),
{
    let (ps, parts) = choose|ps: Seq<(Seq<char>, Json)>, parts: Seq<Seq<RegistrationView>>|
        #[trigger] json::listing(projects, ps) && #[trigger] registration::project_parts(
            ps,
            client,
            parts,
        ) && parts.len() == ps.len() && b == registration::strung(parts, parts.len());
    let k = choose|k: int| 0 <= k < ps.len() && (#[trigger] ps[k]).0 == p;
    assert(projects[ps[k].0] == ps[k].1);
    let part = parts[k];
    registration_laws::law_every_entry_is_found(
        servers,
        ps[k].1,
        client,
        "local · "@ + p,
        part,
        name,
        command,
    );
    let q = choose|q: int|
        0 <= q < part.len() && registration_laws::is_of(
            #[trigger] part[q],
            name,
            servers[name],
            client,
            "local · "@ + p,
        );
    lemma_strung(parts, parts.len(), k, q);
    let i = choose|i: int| 0 <= i < b.len() && b[i] == parts[k][q];
    assert(registration_laws::is_of(b[i], name, servers[name], client, "local · "@ + p));
}

/// What the directory's own configuration registers is told with the directory.
pub proof fn law_directory_entries_name_the_directory(
    j: Json,
    client: Seq<char>,
    cwd: Seq<char>,
    c: Seq<RegistrationView>,
    i: int,
)
    requires
        registration::directory_entries(Some(j), client, cwd, c),
        0 <= i < c.len(),
    ensures
        c[i].scope == "project · "@ + cwd,
        c[i].client == client,
{
    registration_laws::law_nothing_else_is_found(j, client, "project · "@ + cwd, c, i);
}

// ---- texts ----------------------------------------------------------------------------------

/// The health of an entry is told in words that tell the cases apart; of another version both
/// are named.
pub proof fn law_health_is_told_apart(a: HealthView, b: HealthView, version: Seq<char>)
    ensures
        registration::health_word(a) == registration::health_word(b) ==> (a is Healthy
            <==> b is Healthy) && (a is Missing <==> b is Missing) && (a is NotServer
            <==> b is NotServer) && (a is Version <==> b is Version),
        registration::health_text(a, version) == "ok"@ ==> a is Healthy,
        a matches HealthView::Version(v) ==> text::occurs_in(
            registration::health_text(a, version),
            v,
        ) && version.is_suffix_of(registration::health_text(a, version)),
{
    reveal_strlit("ok");
    reveal_strlit("missing");
    reveal_strlit("not_server");
    reveal_strlit("version_mismatch");
    reveal_strlit("binary not found");
    reveal_strlit("entry does not run `diskscour mcp`");
    assert("ok"@.len() == 2 && "missing"@.len() == 7 && "not_server"@.len() == 10
        && "version_mismatch"@.len() == 16 && "binary not found"@.len() == 16
        && "entry does not run `diskscour mcp`"@.len() == 34);
    if let HealthView::Version(v) = a {
        let x = "registered v"@ + v;
        let y = x + ", this is v"@;
        let t = y + version;
        assert("registered v"@.len() > 2) by {
            reveal_strlit("registered v");
        }
        listing_laws::lemma_end("registered v"@, v);
        listing_laws::lemma_more(x, ", this is v"@, v);
        listing_laws::lemma_more(y, version, v);
        assert(t.subrange(t.len() - version.len(), t.len() as int) =~= version);
    }
}

/// The command that registers a binary is the agent's, and runs the binary as a server.
pub proof fn law_adding_runs_the_server(agent: Seq<char>, binary: Seq<char>)
    ensures
        (agent + " mcp add diskscour -- "@ + registration::quoted(binary)).is_prefix_of(
            registration::add_text(agent, binary),
        ),
        " mcp"@.is_suffix_of(registration::add_text(agent, binary)),
{
    let head = agent + " mcp add diskscour -- "@ + registration::quoted(binary);
    text_laws::lemma_front(head, " mcp"@);
    let t = head + " mcp"@;
    assert(t.subrange(t.len() - " mcp"@.len(), t.len() as int) =~= " mcp"@);
}

/// What the row of an entry tells: whose it is, where it is, what it runs and how it is.
pub open spec fn entry_words(r: RegistrationView, version: Seq<char>) -> Seq<char> {
    r.client + " · "@ + r.scope + " · "@ + r.command + " "@ + text::joined_by(r.args, " "@)
        + "  ["@ + registration::health_text(r.health, version)
}

proof fn lemma_entry_row(r: RegistrationView, version: Seq<char>)
    ensures
        text::occurs_in(cli::registration_row(r, version), entry_words(r, version)),
{
    let a = "  registered  "@;
    let x1 = r.client;
    let x2 = x1 + " · "@;
    let x3 = x2 + r.scope;
    let x4 = x3 + " · "@;
    let x5 = x4 + r.command;
    let x6 = x5 + " "@;
    let x7 = x6 + text::joined_by(r.args, " "@);
    let x8 = x7 + "  ["@;
    let x9 = x8 + registration::health_text(r.health, version);
    listing_laws::lemma_add(a, x8, registration::health_text(r.health, version));
    listing_laws::lemma_add(a, x7, "  ["@);
    listing_laws::lemma_add(a, x6, text::joined_by(r.args, " "@));
    listing_laws::lemma_add(a, x5, " "@);
    listing_laws::lemma_add(a, x4, r.command);
    listing_laws::lemma_add(a, x3, " · "@);
    listing_laws::lemma_add(a, x2, r.scope);
    listing_laws::lemma_add(a, x1, " · "@);
    listing_laws::lemma_end(a, x9);
    listing_laws::lemma_more(a + x9, "]\n"@, x9);
}

proof fn lemma_entry_rows(rs: Seq<RegistrationView>, version: Seq<char>, k: nat, i: int)
    requires
        0 <= i < k <= rs.len(),
    ensures
        text::occurs_in(cli::registration_rows(rs, version, k), entry_words(rs[i], version)),
    decreases k,
{
    let before = cli::registration_rows(rs, version, (k - 1) as nat);
    let row = cli::registration_row(rs[k - 1], version);
    if i < k - 1 {
        lemma_entry_rows(rs, version, (k - 1) as nat, i);
        listing_laws::lemma_more(before, row, entry_words(rs[i], version));
    } else {
        lemma_entry_row(rs[i], version);
        listing_laws::lemma_behind(before, row, entry_words(rs[i], version));
    }
}

/// Every registration is told. How to register is told where there is none, or where one is
/// in trouble; where all are well, nothing more is.
pub proof fn law_status_tells_how_to_register(s: StatusView, i: int)
    ensures
        0 <= i < s.registrations.len() ==> text::occurs_in(
            cli::registered_part(s),
            entry_words(s.registrations[i], s.version),
        ),
        s.registrations.len() == 0 || (0 <= i < s.registrations.len()
            && !(s.registrations[i].health is Healthy)) ==> text::occurs_in(
            cli::registered_part(s),
            registration::add_text(s.agent_command, s.binary),
        ),
        s.registrations.len() > 0 && (forall|k: int|
            0 <= k < s.registrations.len() ==> (#[trigger] s.registrations[k]).health is Healthy)
            ==> cli::registered_part(s) == cli::registration_rows(
            s.registrations,
            s.version,
            s.registrations.len(),
        ),
{
    let add = registration::add_text(s.agent_command, s.binary);
    let rs = s.registrations;
    if rs.len() == 0 {
        let a = "  not registered with "@ + s.agent_label + ". To add it:\n    "@;
        listing_laws::lemma_end(a, add);
        listing_laws::lemma_more(a + add, "\n"@, add);
    } else {
        let rows = cli::registration_rows(rs, s.version, rs.len());
        let e = Seq::<char>::empty();
        assert(rows + e =~= rows);
        if registration::level_of(rs) == Level::Warn {
            let a = "  to re-register this build:\n    "@ + s.agent_command
                + " mcp remove diskscour && "@;
            let tail = a + add + "\n"@;
            assert(cli::registered_part(s) == rows + tail);
            listing_laws::lemma_end(a, add);
            listing_laws::lemma_more(a + add, "\n"@, add);
            listing_laws::lemma_behind(rows, tail, add);
            if 0 <= i < rs.len() {
                lemma_entry_rows(rs, s.version, rs.len(), i);
                listing_laws::lemma_more(rows, tail, entry_words(rs[i], s.version));
            }
        } else {
            assert(cli::registered_part(s) == rows + e);
            if 0 <= i < rs.len() {
                lemma_entry_rows(rs, s.version, rs.len(), i);
            }
        }
    }
}

/// How many sessions there are is told, and so are this version and this binary.
pub proof fn law_status_tells_sessions_and_version(s: StatusView, t: Seq<char>, m: Seq<char>)
    requires
        cli::sessions_part(s, t),
        cli::mcp_told(s, m),
    ensures
        s.sessions.len() == 0 ==> t == "  sessions    none connected\n"@,
        s.sessions.len() > 0 ==> text::occurs_in(
            t,
            text::decimal(s.sessions.len()) + " connected"@,
        ),
        text::occurs_in(m, s.version + " · "@ + s.binary),
        text::occurs_in(m, cli::registered_part(s)),
{
    if s.sessions.len() > 0 {
        let names = choose|names: Seq<Seq<char>>| #[trigger]
            registration::roster(s.sessions, names, s.sessions.len()) && t == "  sessions    "@
                + text::decimal(s.sessions.len()) + " connected · "@ + text::joined_by(
                registration::tallied(s.sessions, names),
                ", "@,
            ) + "\n"@;
        let n = text::decimal(s.sessions.len());
        let a = "  sessions    "@ + n;
        let b = a + " connected · "@;
        let c = b + text::joined_by(registration::tallied(s.sessions, names), ", "@);
        let x = n + " connected"@;
        assert(" connected · "@ =~= " connected"@ + " · "@) by {
            reveal_strlit(" connected · ");
            reveal_strlit(" connected");
            reveal_strlit(" · ");
        }
        listing_laws::lemma_add(a, " connected"@, " · "@);
        listing_laws::lemma_add("  sessions    "@, n, " connected"@);
        listing_laws::lemma_end("  sessions    "@, x);
        listing_laws::lemma_more("  sessions    "@ + x, " · "@, x);
        listing_laws::lemma_more(
            b,
            text::joined_by(registration::tallied(s.sessions, names), ", "@),
            x,
        );
        listing_laws::lemma_more(c, "\n"@, x);
    }
    let ss = choose|ss: Seq<char>| #[trigger]
        cli::sessions_part(s, ss) && m == "MCP server  stdio · v"@ + s.version + " · "@ + s.binary
            + "\n"@ + cli::registered_part(s) + ss;
    let a = "MCP server  stdio · v"@;
    let b = s.version + " · "@;
    let x = b + s.binary;
    listing_laws::lemma_add(a, b, s.binary);
    listing_laws::lemma_add(a, s.version, " · "@);
    listing_laws::lemma_end(a, x);
    let c = a + x;
    let d = c + "\n"@;
    let e = d + cli::registered_part(s);
    assert(m == e + ss);
    listing_laws::lemma_more(c, "\n"@, x);
    listing_laws::lemma_more(d, cli::registered_part(s), x);
    listing_laws::lemma_more(e, ss, x);
    listing_laws::lemma_end(d, cli::registered_part(s));
    listing_laws::lemma_more(e, ss, cli::registered_part(s));
}

/// Where all is well the headline counts the sessions.
pub proof fn law_headline_counts_sessions(rs: Seq<RegistrationView>, n: nat, version: Seq<char>)
    requires
        rs.len() > 0,
        forall|k: int| 0 <= k < rs.len() ==> (#[trigger] rs[k]).health is Healthy,
    ensures
        n == 0 ==> "no sessions"@.is_suffix_of(registration::headline_text(rs, n, version)),
        n == 1 ==> "1 session"@.is_suffix_of(registration::headline_text(rs, n, version)),
        n > 1 ==> (text::decimal(n) + " sessions"@).is_suffix_of(
            registration::headline_text(rs, n, version),
        ),
{
    let t = registration::headline_text(rs, n, version);
    if n == 0 {
        reveal_strlit("MCP · registered · no sessions");
        reveal_strlit("no sessions");
        assert(t.subrange(t.len() - 11, t.len() as int) =~= "no sessions"@);
    } else if n == 1 {
        reveal_strlit("MCP · 1 session");
        reveal_strlit("1 session");
        assert(t.subrange(t.len() - 9, t.len() as int) =~= "1 session"@);
    } else {
        let x = text::decimal(n) + " sessions"@;
        listing_laws::lemma_add("MCP · "@, text::decimal(n), " sessions"@);
        assert(t.subrange(t.len() - x.len(), t.len() as int) =~= x);
    }
}

} // verus!
