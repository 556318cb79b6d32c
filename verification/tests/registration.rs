//! Registrations with an agent, and its sessions.

use diskscour::registration::{
    agent_command, agent_registrations, agent_with, choose_command, client_name, health_of, product_in,
    read_json, registrations_in, session_parents,
    sessions_from_ps, shell_quote, version_in, Agent, Health, Level, Registration, Session, Status,
    VERSION,
};

fn agent() -> Agent {
    Agent {
        label: "Some Agent".into(),
        command: "agent".into(),
    }
}

fn entry(args: Vec<String>, health: Health) -> Registration {
    Registration {
        client: "Some Agent".into(),
        scope: "user".into(),
        name: "diskscour".into(),
        command: "/x/diskscour".into(),
        args,
        health,
    }
}

#[test]
fn an_agent_is_known_by_its_configuration() {
    let v = read_json(r#"{"mcpServers": {}}"#).unwrap();
    assert_eq!(agent_command(".helper.json", &v).as_deref(), Some("helper"));
    let v = read_json(r#"{"projects": {"/w": {}}}"#).unwrap();
    assert_eq!(agent_command(".x.json", &v).as_deref(), Some("x"));
    for other in [".json", "..json", "helper.json", ".helper", ".helper.jsonc", ""] {
        assert_eq!(agent_command(other, &v), None, "{other}");
    }
    let v = read_json(r#"{"theme": "dark"}"#).unwrap();
    assert_eq!(agent_command(".helper.json", &v), None);
}

#[test]
fn an_agent_is_shown_under_the_name_of_its_product() {
    assert_eq!(product_in("2.1.259 (Helper Code)\n").as_deref(), Some("Helper Code"));
    for other in ["", "2.1.259", "2.1 ()", "2.1 (", "2.1 (x) y", "x)"] {
        assert_eq!(product_in(other), None, "{other}");
    }
    let a = agent_with("helper".into(), Some("2.1.259 (Helper Code)\n"));
    assert_eq!((a.label.as_str(), a.command.as_str()), ("Helper Code", "helper"));
    assert_eq!(agent_with("helper".into(), Some("2.1.259\n")).label, "helper");
    assert_eq!(agent_with("helper".into(), None).label, "helper");
}

#[test]
fn the_named_agent_comes_before_the_configured_and_the_connected_one() {
    let s = |c: &str| Some(c.to_string());
    let connected = vec![Session { pid: 1, client: "c".into() }, Session { pid: 2, client: "d".into() }];
    assert_eq!(choose_command(s("a"), s("b"), &connected), s("a"));
    assert_eq!(choose_command(None, s("b"), &connected), s("b"));
    assert_eq!(choose_command(None, None, &connected), s("c"));
    assert_eq!(choose_command(None, None, &vec![]), None);
}

#[test]
fn finds_diskscour_entries_and_ignores_others() {
    let v = read_json(
        r#"{
            "mcpServers": {
                "diskscour": {"type": "stdio", "command": "/opt/bin/diskscour", "args": ["mcp"]},
                "other": {"command": "/usr/bin/node", "args": ["server.js"]}
            }
        }"#,
    )
    .unwrap();
    let regs = registrations_in(&v, "Some Agent", "user");
    assert_eq!(regs.len(), 1);
    assert_eq!(regs[0].name, "diskscour");
    assert_eq!(regs[0].command, "/opt/bin/diskscour");
    assert_eq!(regs[0].args, vec!["mcp".to_string()]);
    assert_eq!(regs[0].scope, "user");
}

#[test]
fn missing_mcp_arg_is_not_a_server() {
    let r = Registration {
        client: "Some Agent".into(),
        scope: "user".into(),
        name: "diskscour".into(),
        command: "/nonexistent/diskscour".into(),
        args: vec![],
        health: Health::Healthy,
    };
    assert_eq!(health_of(&r, "/x", None, None), Health::NotServer);
    let r = Registration {
        args: vec!["mcp".into()],
        ..r
    };
    assert_eq!(health_of(&r, "/x", None, None), Health::Missing);
}

#[test]
fn health_follows_from_what_the_command_leads_to() {
    let r = entry(vec!["mcp".into()], Health::Healthy);
    assert_eq!(health_of(&r, "/x", Some("/x/"), None), Health::Healthy);
    assert_eq!(health_of(&r, "/x", Some("/y"), None), Health::Missing);
    assert_eq!(health_of(&r, "/x", Some("/y"), Some(VERSION)), Health::Healthy);
    assert_eq!(
        health_of(&r, "/x", Some("/y"), Some("0.1.0")),
        Health::Version("0.1.0".into())
    );
    assert_eq!(version_in("diskscour 0.4.2\n"), Some("0.4.2".to_string()));
    assert_eq!(version_in("other 0.4.2\n"), None);
}

#[test]
fn counts_mcp_processes_and_names_their_parent() {
    let ps = "\
    1     0 /sbin/launchd
  500     1 /Users/me/.local/bin/agent
  501   500 /Users/me/.local/bin/diskscour mcp
  502   500 /Applications/Disk Scour.app/Contents/MacOS/diskscour mcp
  503     1 /Users/me/.local/bin/diskscour
  504     1 /Users/me/.local/bin/diskscour scan /tmp
";
    let s = sessions_from_ps(ps, &vec![]);
    assert_eq!(s.len(), 2);
    assert_eq!(
        s[0],
        Session {
            pid: 501,
            client: "agent".into()
        }
    );
    assert_eq!(s[1].pid, 502);
    assert_eq!(s[1].client, "agent");
    assert_eq!(session_parents(ps), vec![500, 500]);
}

#[test]
fn the_kernel_knows_the_parent_best() {
    let ps = "501 500 /bin/diskscour mcp\n502 77 diskscour mcp\nx 1 diskscour mcp\n503 -4 diskscour mcp\n";
    let s = sessions_from_ps(ps, &vec![(500, "/Applications/My Tool.app/Contents/MacOS/t".into())]);
    assert_eq!(s.len(), 3);
    assert_eq!(s[0].client, "t");
    assert_eq!(s[1].client, "pid 77");
    assert_eq!(s[2].client, "pid -4");
}

#[test]
fn headline_reflects_level() {
    let mut st = Status {
        this_binary: "/x/diskscour".into(),
        this_version: VERSION,
        agent: agent(),
        registrations: vec![],
        sessions: vec![],
    };
    assert_eq!(st.level(), Level::Off);
    assert_eq!(st.headline(), "MCP · not registered");
    st.registrations.push(entry(vec!["mcp".into()], Health::Healthy));
    assert_eq!(st.headline(), "MCP · registered · no sessions");
    st.sessions.push(Session {
        pid: 1,
        client: "agent".into(),
    });
    assert_eq!(st.headline(), "MCP · 1 session");
    st.sessions.push(Session {
        pid: 2,
        client: "agent".into(),
    });
    assert_eq!(st.headline(), "MCP · 2 sessions");
    assert_eq!(st.sessions_by_client(), "agent ×2");
    assert_eq!(st.level(), Level::Healthy);
    st.registrations[0].health = Health::Version("0.1.0".into());
    assert_eq!(st.level(), Level::Warn);
    assert!(st.headline().contains("registered v0.1.0"));
}

#[test]
fn sessions_are_grouped_in_the_order_of_names() {
    let mut st = Status {
        this_binary: "/x/diskscour".into(),
        this_version: VERSION,
        agent: agent(),
        registrations: vec![],
        sessions: vec![],
    };
    for (pid, c) in [(1, "zed"), (2, "cursor"), (3, "zed"), (4, "code")] {
        st.sessions.push(Session {
            pid,
            client: c.into(),
        });
    }
    assert_eq!(st.sessions_by_client(), "code ×1, cursor ×1, zed ×2");
    let j = st.to_json();
    assert_eq!(j["sessions"], 4);
    assert_eq!(j["sessions_by_client"]["zed"], 2);
    assert_eq!(j["sessions_by_client"]["code"], 1);
    assert_eq!(j["session_pids"][3], 4);
    assert_eq!(j["registered"], false);
    assert_eq!(j["transport"], "stdio");
    assert_eq!(j["server_version"], VERSION);
    assert_eq!(j["server_binary"], "/x/diskscour");
    assert_eq!(j["add_command"], "agent mcp add diskscour -- /x/diskscour mcp");
}

#[test]
fn client_names_see_through_bundles_and_version_dirs() {
    let n = |p: &str| client_name(p);
    assert_eq!(n("/Users/me/.local/share/agent/versions/2.1.259"), "agent");
    assert_eq!(
        n("/Users/me/Library/Application Support/Agent/agent-code/2.1.258/agent.app/Contents/MacOS/agent"),
        "agent"
    );
    assert_eq!(n("/Users/me/agent.app/Contents/MacOS/2.1"), "agent");
    assert_eq!(
        n("/Applications/Cursor.app/Contents/MacOS/Cursor"),
        "Cursor"
    );
    assert_eq!(n("/usr/local/bin/node"), "node");
    assert_eq!(n("bin"), "bin");
}

#[test]
fn add_command_quotes_spaces() {
    let st = Status {
        this_binary: "/Applications/Disk Scour.app/Contents/MacOS/diskscour".into(),
        this_version: VERSION,
        agent: agent(),
        registrations: vec![],
        sessions: vec![],
    };
    assert_eq!(
        st.add_command(),
        "agent mcp add diskscour -- '/Applications/Disk Scour.app/Contents/MacOS/diskscour' mcp"
    );
    assert_eq!(shell_quote("/a/b-c_d.e+f~g9"), "/a/b-c_d.e+f~g9");
    assert_eq!(shell_quote("it's"), "'it'\\''s'");
    assert_eq!(shell_quote("é"), "'é'");
}

#[test]
fn projects_are_looked_through_in_the_order_of_their_paths() {
    let user = read_json(
        r#"{
            "mcpServers": {"b": {"command": "diskscour-dev"}, "a": {"command": "/o/diskscour", "args": ["mcp", 3, "x"]}},
            "projects": {
                "/z": {"mcpServers": {"d": {"command": "/p/diskscour", "args": ["mcp"]}}},
                "/m": {"mcpServers": {"d": {"command": "/q/diskscour"}}},
                "/e": {}
            }
        }"#,
    )
    .unwrap();
    let here = read_json(r#"{"mcpServers": {"d": {"command": "./diskscour"}}}"#).unwrap();
    let regs = agent_registrations("Some Agent", Some(&user), Some(&here), "/w");
    let scopes: Vec<&str> = regs.iter().map(|r| r.scope.as_str()).collect();
    assert_eq!(scopes, vec!["user", "user", "local · /m", "local · /z", "project · /w"]);
    assert_eq!(regs[0].name, "a");
    assert_eq!(regs[0].args, vec!["mcp", "x"]);
    assert_eq!(regs[1].name, "b");
    assert!(regs.iter().all(|r| r.health == Health::Healthy));
    assert!(agent_registrations("Some Agent", None, None, "/w").is_empty());
    assert!(read_json("{").is_none());
}

#[test]
fn a_status_is_collected_from_what_was_found() {
    let regs = vec![
        entry(vec!["mcp".into()], Health::Healthy),
        entry(vec![], Health::Healthy),
    ];
    let found = vec![(Some("/x/diskscour".to_string()), None), (None, None)];
    let st = Status::collect(None, agent(), regs, &found, "", &vec![]);
    assert_eq!(st.this_binary, "diskscour");
    assert_eq!(st.this_version, VERSION);
    assert_eq!(st.registrations[0].health, Health::Missing);
    assert_eq!(st.registrations[1].health, Health::NotServer);
    let regs = vec![entry(vec!["mcp".into()], Health::Missing)];
    let found = vec![(Some("/x/diskscour".to_string()), None)];
    let st = Status::collect(Some("/x/diskscour"), agent(), regs, &found, "", &vec![]);
    assert_eq!(st.level(), Level::Healthy);
}

#[test]
fn health_reads_as_an_explanation() {
    assert_eq!(Health::Healthy.describe("1"), "ok");
    assert_eq!(Health::Missing.describe("1"), "binary not found");
    assert_eq!(
        Health::NotServer.describe("1"),
        "entry does not run `diskscour mcp`"
    );
    assert_eq!(
        Health::Version("2".into()).describe("1"),
        "registered v2, this is v1"
    );
}
