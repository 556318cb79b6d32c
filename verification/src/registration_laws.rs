//! What is read from the configurations of agents, and what is told of it.

use vstd::prelude::*;

use crate::json;
use crate::json::Json;
use crate::path;
use crate::registration;
use crate::registration::{HealthView, RegistrationView, StatusView};
use crate::text;

verus! {

// ---- entries --------------------------------------------------------------------------------

/// Whether the value is an entry that runs a diskscour binary.
pub open spec fn runs_diskscour(s: Json, command: Seq<char>) -> bool {
    json::field(s, "command"@) == Some(Json::Str(command)) && (path::name_of(command) matches Some(
        f,
    ) && "diskscour"@.is_prefix_of(f))
}

/// Whether the registration is that of a member of `mcpServers`.
pub open spec fn is_of(
    r: RegistrationView,
    name: Seq<char>,
    s: Json,
    client: Seq<char>,
    scope: Seq<char>,
) -> bool {
    &&& r.name == name
    &&& r.client == client
    &&& r.scope == scope
    &&& runs_diskscour(s, r.command)
    &&& match json::field(s, "args"@) {
        Some(Json::Arr(v)) => r.args == texts(v),
        _ => r.args.len() == 0,
    }
}

/// The texts of an array, in order.
pub open spec fn texts(v: Seq<Json>) -> Seq<Seq<char>> {
    v.filter(|j: Json| j is Str).map_values(|j: Json| j->Str_0)
}

pub proof fn lemma_texts(v: Seq<Json>, k: nat)
    requires
        k <= v.len(),
    ensures
        registration::texts_upto(v, k) == texts(v.take(k as int)),
    decreases k,
{
    let f = |j: Json| j is Str;
    let g = |j: Json| j->Str_0;
    if k == 0 {
        reveal_with_fuel(Seq::filter, 1);
        assert(v.take(0) =~= Seq::<Json>::empty());
        assert(v.take(0).filter(f) =~= Seq::<Json>::empty());
        assert(texts(v.take(0)) =~= Seq::<Seq<char>>::empty());
    } else {
        lemma_texts(v, (k - 1) as nat);
        assert(v.take(k as int).drop_last() =~= v.take(k - 1));
        text::lemma_filter_last(v.take(k as int), f);
        let some = v.take(k - 1).filter(f);
        if v[k - 1] is Str {
            assert(some.push(v[k - 1]).map_values(g) =~= some.map_values(g).push(v[k - 1]->Str_0));
        }
    }
}

proof fn lemma_entry(name: Seq<char>, s: Json, client: Seq<char>, scope: Seq<char>)
    ensures
        registration::entry_of(name, s, client, scope) is Some <==> exists|c: Seq<char>| #[trigger]
            runs_diskscour(s, c),
        registration::entry_of(name, s, client, scope) matches Some(r) ==> is_of(
            r,
            name,
            s,
            client,
            scope,
        ) && r.health is Healthy,
{
    if let Some(r) = registration::entry_of(name, s, client, scope) {
        assert(runs_diskscour(s, r.command));
        if let Some(Json::Arr(v)) = json::field(s, "args"@) {
            lemma_texts(v, v.len());
            assert(v.take(v.len() as int) =~= v);
        }
    }
}

/// Whether one of the first `k` members stands behind the registration.
pub open spec fn has_member(
    es: Seq<(Seq<char>, Json)>,
    k: nat,
    r: RegistrationView,
    client: Seq<char>,
    scope: Seq<char>,
) -> bool {
    exists|i: int| 0 <= i < k && is_of(r, (#[trigger] es[i]).0, es[i].1, client, scope)
}

proof fn lemma_entries(es: Seq<(Seq<char>, Json)>, client: Seq<char>, scope: Seq<char>, k: nat)
    requires
        k <= es.len(),
    ensures
        forall|j: int|
            0 <= j < registration::entries_upto(es, client, scope, k).len() ==> has_member(
                es,
                k,
                #[trigger] registration::entries_upto(es, client, scope, k)[j],
                client,
                scope,
            ),
        forall|i: int|
            0 <= i < k && (exists|c: Seq<char>| #[trigger] runs_diskscour(es[i].1, c)) ==> exists|
                j: int,
            |
                0 <= j < registration::entries_upto(es, client, scope, k).len() && is_of(
                    #[trigger] registration::entries_upto(es, client, scope, k)[j],
                    (#[trigger] es[i]).0,
                    es[i].1,
                    client,
                    scope,
                ),
    decreases k,
{
    if k > 0 {
        lemma_entries(es, client, scope, (k - 1) as nat);
        let before = registration::entries_upto(es, client, scope, (k - 1) as nat);
        let now = registration::entries_upto(es, client, scope, k);
        lemma_entry(es[k - 1].0, es[k - 1].1, client, scope);
        assert forall|j: int| 0 <= j < now.len() implies has_member(
            es,
            k,
            #[trigger] now[j],
            client,
            scope,
        ) by {
            if j < before.len() {
                assert(now[j] == before[j]);
                assert(has_member(es, (k - 1) as nat, before[j], client, scope));
                let i = choose|i: int|
                    0 <= i < k - 1
                        && is_of(before[j], (#[trigger] es[i]).0, es[i].1, client, scope);
                assert(is_of(now[j], es[i].0, es[i].1, client, scope));
            } else {
                assert(is_of(now[j], es[k - 1].0, es[k - 1].1, client, scope));
            }
        }
        assert forall|i: int|
            0 <= i < k
                && (exists|c: Seq<char>| #[trigger] runs_diskscour(es[i].1, c)) implies exists|
            j: int,
        |
            0 <= j < now.len() && is_of(
                #[trigger] now[j],
                (#[trigger] es[i]).0,
                es[i].1,
                client,
                scope,
            ) by {
            if i < k - 1 {
                let j = choose|j: int|
                    0 <= j < before.len() && is_of(
                        #[trigger] before[j],
                        es[i].0,
                        es[i].1,
                        client,
                        scope,
                    );
                assert(now[j] == before[j]);
            } else {
                assert(is_of(now[before.len() as int], es[i].0, es[i].1, client, scope));
            }
        }
    }
}

/// Every server in a configuration whose command is a diskscour binary is found, under its
/// name, with its command and its arguments, and no other is.
pub proof fn law_every_entry_is_found(
    m: Map<Seq<char>, Json>,
    j: Json,
    client: Seq<char>,
    scope: Seq<char>,
    rs: Seq<RegistrationView>,
    name: Seq<char>,
    command: Seq<char>,
)
    requires
        registration::entries_in(j, client, scope, rs),
        json::field(j, "mcpServers"@) == Some(Json::Obj(m)),
        m.contains_key(name),
        runs_diskscour(m[name], command),
    ensures
        exists|i: int|
            0 <= i < rs.len() && is_of(#[trigger] rs[i], name, m[name], client, scope)
                && rs[i].command == command,
{
    let es = choose|es: Seq<(Seq<char>, Json)>| #[trigger]
        json::listing(m, es) && rs == registration::entries_upto(es, client, scope, es.len());
    let i = choose|i: int| 0 <= i < es.len() && (#[trigger] es[i]).0 == name;
    assert(m[es[i].0] == es[i].1);
    lemma_entries(es, client, scope, es.len());
    assert(runs_diskscour(es[i].1, command));
    let k = choose|k: int|
        0 <= k < rs.len() && is_of(#[trigger] rs[k], es[i].0, es[i].1, client, scope);
    assert(is_of(rs[k], name, m[name], client, scope));
}

/// What is found is a server of the configuration whose command is a diskscour binary; in
/// one without servers nothing is.
pub proof fn law_nothing_else_is_found(
    j: Json,
    client: Seq<char>,
    scope: Seq<char>,
    rs: Seq<RegistrationView>,
    i: int,
)
    requires
        registration::entries_in(j, client, scope, rs),
        0 <= i < rs.len(),
    ensures
        json::field(j, "mcpServers"@) matches Some(Json::Obj(m)) && m.contains_key(rs[i].name)
            && is_of(rs[i], rs[i].name, m[rs[i].name], client, scope),
{
    match json::field(j, "mcpServers"@) {
        Some(Json::Obj(m)) => {
            let es = choose|es: Seq<(Seq<char>, Json)>| #[trigger]
                json::listing(m, es) && rs == registration::entries_upto(
                    es,
                    client,
                    scope,
                    es.len(),
                );
            lemma_entries(es, client, scope, es.len());
            assert(has_member(es, es.len(), rs[i], client, scope));
            let k = choose|k: int|
                0 <= k < es.len() && is_of(rs[i], (#[trigger] es[k]).0, es[k].1, client, scope);
            assert(m.contains_key(es[k].0) && m[es[k].0] == es[k].1);
        },
        _ => {},
    }
}

/// An entry that does not run the server is told so; one whose binary is not there, or is
/// another one that tells no version, is missing; another version is told, and the rest is
/// healthy.
pub proof fn law_health_goes_by_the_binary(
    args: Seq<Seq<char>>,
    this: Seq<char>,
    canon: Option<Seq<char>>,
    version: Option<Seq<char>>,
)
    ensures
        ({
            let h = registration::health(args, this, canon, version);
            let here = canon matches Some(c) && path::same(c, this);
            &&& h is NotServer <==> !args.contains("mcp"@)
            &&& h is Healthy <==> args.contains("mcp"@) && (here || (canon is Some && version
                == Some(registration::VERSION@)))
            &&& h is Missing <==> args.contains("mcp"@) && (canon is None || (!here && version
                is None))
            &&& h matches HealthView::Version(v) ==> version == Some(v) && v
                != registration::VERSION@ && !here
        }),
{
}

// ---- names and versions -----------------------------------------------------------------------

/// A file is named after a command by a dot before it and `.json` behind it.
pub proof fn law_configurations_are_named_after_commands(name: Seq<char>, file: Seq<char>)
    ensures
        name.len() > 0 ==> registration::config_command("."@ + name + ".json"@) == Some(name),
        registration::config_command(file) matches Some(n) ==> n.len() > 0 && file == "."@ + n
            + ".json"@,
{
    reveal_strlit(".");
    reveal_strlit(".json");
    let t = "."@ + name + ".json"@;
    if name.len() > 0 {
        assert(t.take(1) =~= "."@);
        assert(t.subrange(t.len() - 5, t.len() as int) =~= ".json"@);
        assert(t.subrange(1, t.len() - 5) =~= name);
    }
    if let Some(n) = registration::config_command(file) {
        assert(file.take(1) =~= "."@);
        assert(file =~= file.take(1) + file.subrange(1, file.len() - 5) + file.subrange(
            file.len() - 5,
            file.len() as int,
        ));
    }
}

proof fn lemma_trimmed(s: Seq<char>)
    requires
        s.len() > 0,
        !text::is_white(s[0]),
        !text::is_white(s.last()),
    ensures
        text::trimmed(s) == s,
        text::trimmed(s.push('\n')) == s,
{
    let t = s.push('\n');
    assert(t[0] == s[0]);
    assert(text::trim_start(t) == t);
    assert(t.drop_last() =~= s);
    assert(text::is_white('\n'));
    assert(text::trim_end(t) == text::trim_end(s));
}

/// A version is what follows the name, to the end of the line.
pub proof fn law_versions_follow_the_name(v: Seq<char>)
    requires
        v.len() > 0,
        !text::is_white(v.last()),
    ensures
        registration::version_text("diskscour "@ + v) == Some(v),
        registration::version_text(("diskscour "@ + v).push('\n')) == Some(v),
{
    reveal_strlit("diskscour ");
    let t = "diskscour "@ + v;
    assert(t[0] == 'd');
    lemma_trimmed(t);
    assert(t.take("diskscour "@.len() as int) =~= "diskscour "@);
    assert(t.skip("diskscour "@.len() as int) =~= v);
}

/// A product is what stands in the brackets behind a version.
pub proof fn law_products_stand_in_brackets(v: Seq<char>, p: Seq<char>)
    requires
        v.len() > 0,
        !text::is_white(v[0]),
        forall|i: int| 0 <= i < v.len() ==> #[trigger] v[i] != '(',
        p.len() > 0,
    ensures
        registration::product_text((v.push('(') + p).push(')')) == Some(p),
        registration::product_text((v.push('(') + p).push(')').push('\n')) == Some(p),
        registration::product_text(v) is None,
{
    reveal_strlit("(");
    let t = (v.push('(') + p).push(')');
    assert(t[0] == v[0]);
    lemma_trimmed(t);
    let n = v.len() as int;
    crate::text_laws::law_first_is_found(t, "("@, 0);
    assert(t.subrange(n, n + 1) =~= "("@);
    match text::first_at(t, "("@, 0) {
        Some(i) => {
            assert(t.subrange(i as int, (i + 1) as int)[0] == '(');
            assert(t[i as int] == '(');
            if i < n {
                assert(t[i as int] == v[i as int]);
            }
            if i > n {
                assert(t.subrange(n, n + "("@.len()) =~= "("@);
            }
            assert(i == n);
        },
        None => {
            assert(t.subrange(n, n + "("@.len()) =~= "("@);
        },
    }
    assert(t.subrange(n + 1, t.len() - 1) =~= p);
    // a version alone
    let w = text::trimmed(v);
    crate::text_laws::law_first_is_found(w, "("@, 0);
    crate::text_laws::law_trimming_takes_white_space(v);
    let (a, b) = choose|a: Seq<char>, b: Seq<char>|
        v == #[trigger] (a + w + b) && crate::text_laws::all_white(a)
            && crate::text_laws::all_white(
            b,
        );
    if let Some(i) = text::first_at(w, "("@, 0) {
        assert(w.subrange(i as int, (i + 1) as int)[0] == '(');
        assert(v[(a.len() + i) as int] == '(');
    }
}

// ---- commands ---------------------------------------------------------------------------------

/// A word that a shell takes as it stands is left alone; any other is put in quotes, and
/// where it holds none itself that is all.
pub proof fn law_words_are_quoted_where_needed(s: Seq<char>, k: int)
    requires
        0 <= k < s.len(),
    ensures
        (forall|i: int|
            0 <= i < s.len() ==> 'a' <= #[trigger] s[i] <= 'z' || 'A' <= s[i] <= 'Z' || '0' <= s[i]
                <= '9' || s[i] == '/' || s[i] == '.' || s[i] == '-' || s[i] == '_')
            ==> registration::quoted(s) == s,
        s[k] == ' ' || s[k] == '\'' || s[k] == '"' || s[k] == '$' || s[k] == '`' || s[k] == '\\'
            || s[k] == ';' || s[k] == '&' || s[k] == '|' || s[k] == '<' || s[k] == '>'
                || s[k] == '('
            || s[k] == ')' || s[k] == '*' || s[k] == '?' || s[k] == '!' || s[k] == '\n'
            ==> registration::quoted(s) == "'"@ + registration::quotes_escaped(s) + "'"@,
        (forall|i: int| 0 <= i < s.len() ==> #[trigger] s[i] != '\'')
            ==> registration::quotes_escaped(s) == s,
{
    if forall|i: int| 0 <= i < s.len() ==> #[trigger] s[i] != '\'' {
        lemma_no_quotes(s);
    }
    if forall|i: int|
        0 <= i < s.len() ==> 'a' <= #[trigger] s[i] <= 'z' || 'A' <= s[i] <= 'Z' || '0' <= s[i]
            <= '9' || s[i] == '/' || s[i] == '.' || s[i] == '-' || s[i] == '_' {
        assert forall|i: int| 0 <= i < s.len() implies registration::shell_safe(#[trigger] s[i]) by {
        }
    }
    if s[k] == ' ' || s[k] == '\'' || s[k] == '"' || s[k] == '$' || s[k] == '`' || s[k] == '\\'
        || s[k] == ';' || s[k] == '&' || s[k] == '|' || s[k] == '<' || s[k] == '>' || s[k] == '('
        || s[k] == ')' || s[k] == '*' || s[k] == '?' || s[k] == '!' || s[k] == '\n' {
        assert(!registration::shell_safe(s[k]));
    }
}

proof fn lemma_no_quotes(s: Seq<char>)
    requires
        forall|i: int| 0 <= i < s.len() ==> #[trigger] s[i] != '\'',
    ensures
        registration::quotes_escaped(s) == s,
    decreases s.len(),
{
    if s.len() > 0 {
        let front = s.drop_last();
        assert forall|i: int| 0 <= i < front.len() implies #[trigger] front[i] != '\'' by {
            assert(front[i] == s[i]);
        }
        lemma_no_quotes(front);
        assert(s[s.len() - 1] != '\'');
        assert(front.push(s.last()) =~= s);
    } else {
        assert(s =~= Seq::<char>::empty());
    }
}

/// A quote in a word closes the quotes, stands escaped, and opens them again; what stands
/// before and behind it is kept.
pub proof fn law_quotes_are_escaped_each(a: Seq<char>, b: Seq<char>)
    ensures
        registration::quotes_escaped(a + b) == registration::quotes_escaped(a)
            + registration::quotes_escaped(b),
        registration::quotes_escaped(seq!['\'']) == "'\\''"@,
    decreases b.len(),
{
    let one = seq!['\''];
    assert(one.drop_last() =~= Seq::<char>::empty());
    assert(registration::quotes_escaped(one.drop_last()) =~= Seq::<char>::empty());
    assert(Seq::<char>::empty() + "'\\''"@ =~= "'\\''"@);
    if b.len() == 0 {
        assert(a + b =~= a);
        assert(registration::quotes_escaped(a) + Seq::<char>::empty()
            =~= registration::quotes_escaped(a));
    } else {
        law_quotes_are_escaped_each(a, b.drop_last());
        assert((a + b).drop_last() =~= a + b.drop_last());
        assert((a + b).last() == b.last());
        let x = registration::quotes_escaped(a);
        let y = registration::quotes_escaped(b.drop_last());
        assert((x + y) + "'\\''"@ =~= x + (y + "'\\''"@));
        assert((x + y).push(b.last()) =~= x + y.push(b.last()));
    }
}

// ---- the status -------------------------------------------------------------------------------

/// As many sessions are counted for a client as there are of it.
pub proof fn law_tally_counts_sessions(ss: Seq<(i32, Seq<char>)>, client: Seq<char>, k: nat)
    requires
        k <= ss.len(),
    ensures
        registration::tally(ss, client, k) == ss.take(k as int).filter(
            |s: (i32, Seq<char>)| s.1 == client,
        ).len(),
    decreases k,
{
    let f = |s: (i32, Seq<char>)| s.1 == client;
    if k == 0 {
        reveal_with_fuel(Seq::filter, 1);
        assert(ss.take(0) =~= Seq::<(i32, Seq<char>)>::empty());
        assert(ss.take(0).filter(f).len() == 0);
    } else {
        law_tally_counts_sessions(ss, client, (k - 1) as nat);
        assert(ss.take(k as int).drop_last() =~= ss.take(k - 1));
        text::lemma_filter_last(ss.take(k as int), f);
    }
}

proof fn lemma_keys()
    ensures
        "transport"@.len() == 9 && "transport"@[0] == 't',
        "server_version"@.len() == 14 && "server_version"@[0] == 's',
        "server_binary"@.len() == 13 && "server_binary"@[0] == 's' && "server_binary"@[7] == 'b',
        "registered"@.len() == 10 && "registered"@[0] == 'r',
        "registrations"@.len() == 13 && "registrations"@[0] == 'r',
        "sessions"@.len() == 8 && "sessions"@[0] == 's',
        "sessions_by_client"@.len() == 18,
        "session_pids"@.len() == 12,
        "add_command"@.len() == 11 && "add_command"@[0] == 'a',
        "client"@.len() == 6 && "client"@[1] == 'l',
        "scope"@.len() == 5,
        "name"@.len() == 4 && "name"@[0] == 'n',
        "command"@.len() == 7,
        "args"@.len() == 4 && "args"@[0] == 'a',
        "health"@.len() == 6 && "health"@[1] == 'e' && "health"@[0] == 'h',
        "detail"@.len() == 6 && "detail"@[1] == 'e' && "detail"@[0] == 'd',
{
    reveal_strlit("transport");
    reveal_strlit("server_version");
    reveal_strlit("server_binary");
    reveal_strlit("registered");
    reveal_strlit("registrations");
    reveal_strlit("sessions");
    reveal_strlit("sessions_by_client");
    reveal_strlit("session_pids");
    reveal_strlit("add_command");
    reveal_strlit("client");
    reveal_strlit("scope");
    reveal_strlit("name");
    reveal_strlit("command");
    reveal_strlit("args");
    reveal_strlit("health");
    reveal_strlit("detail");
}

/// A row tells of a registration where it is, what it runs and how it is.
pub open spec fn tells_registration(j: Json, r: RegistrationView, version: Seq<char>) -> bool {
    &&& json::field(j, "client"@) == Some(Json::Str(r.client))
    &&& json::field(j, "scope"@) == Some(Json::Str(r.scope))
    &&& json::field(j, "name"@) == Some(Json::Str(r.name))
    &&& json::field(j, "command"@) == Some(Json::Str(r.command))
    &&& json::field(j, "args"@) matches Some(Json::Arr(v)) && v.len() == r.args.len()
        && forall|i: int| 0 <= i < v.len() ==> #[trigger] v[i] == Json::Str(r.args[i])
    &&& json::field(j, "health"@) == Some(Json::Str(registration::health_word(r.health)))
    &&& json::field(j, "detail"@) == Some(Json::Str(registration::health_text(r.health, version)))
}

/// The status tells this binary and its version, each registration, how many sessions there
/// are and of which processes, and how to register.
pub proof fn law_status_tells_registrations_and_sessions(s: StatusView)
    ensures
        ({
            let j = registration::status_json(s);
            &&& json::field(j, "server_version"@) == Some(Json::Str(s.version))
            &&& json::field(j, "server_binary"@) == Some(Json::Str(s.binary))
            &&& json::field(j, "registered"@) == Some(Json::Bool(s.registrations.len() > 0))
            &&& json::field(j, "sessions"@) == Some(Json::Int(s.sessions.len() as int))
            &&& json::field(j, "registrations"@) matches Some(Json::Arr(rows)) && rows.len()
                == s.registrations.len() && forall|i: int|
                0 <= i < rows.len() ==> tells_registration(
                    #[trigger] rows[i],
                    s.registrations[i],
                    s.version,
                )
        }),
        ({
            let j = registration::status_json(s);
            &&& json::field(j, "session_pids"@) matches Some(Json::Arr(v)) && v.len()
                == s.sessions.len() && forall|i: int|
                0 <= i < v.len() ==> #[trigger] v[i] == Json::Int(s.sessions[i].0 as int)
        }),
{
    lemma_keys();
    let rows = s.registrations.map_values(
        |r: RegistrationView| registration::registration_json(r, s.version),
    );
    assert forall|i: int| 0 <= i < rows.len() implies tells_registration(
        #[trigger] rows[i],
        s.registrations[i],
        s.version,
    ) by {
        lemma_registration(s.registrations[i], s.version);
    }
}

proof fn lemma_registration(r: RegistrationView, version: Seq<char>)
    ensures
        tells_registration(registration::registration_json(r, version), r, version),
{
    lemma_keys();
}

} // verus!
