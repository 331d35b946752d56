use holo_cli::cli::{Cli, CliError, Step};
use holo_cli::parser::{arg_valid_exec, parse_command, split_words, ParseError};
use holo_cli::schema::{SchemaKind, SchemaNode};
use holo_cli::session::{CommandMode, EditError};
use holo_cli::text::normalize_input_line;
use holo_cli::token::{match_word, Commands, NodeKind, ParamType, WordMatch};

fn cs(s: &str) -> Vec<char> {
    s.chars().collect()
}

fn key(words: &[&str]) -> Vec<Vec<char>> {
    words.iter().map(|w| cs(w)).collect()
}

fn schema() -> Vec<SchemaNode> {
    vec![
        SchemaNode { name: cs("interface"), kind: SchemaKind::List, parent: None },
        SchemaNode {
            name: cs("mtu"),
            kind: SchemaKind::Leaf(ParamType::Number { min: 68, max: 65535 }),
            parent: Some(0),
        },
        SchemaNode { name: cs("description"), kind: SchemaKind::Leaf(ParamType::Text), parent: Some(0) },
        SchemaNode { name: cs("enabled"), kind: SchemaKind::Leaf(ParamType::Boolean), parent: Some(0) },
        SchemaNode { name: cs("shutdown"), kind: SchemaKind::Container, parent: None },
        SchemaNode { name: cs("hostname"), kind: SchemaKind::Leaf(ParamType::Text), parent: None },
    ]
}

fn new_cli() -> Cli {
    let mut cli = Cli::new();
    cli.load_schema(&schema());
    cli
}

fn run(cli: &mut Cli, line: &str) -> Result<Step, CliError> {
    cli.enter_command(&cs(line))
}

fn is_operational(cli: &Cli) -> bool {
    matches!(cli.session.mode, CommandMode::Operational)
}

fn path_len(cli: &Cli) -> Option<usize> {
    match &cli.session.mode {
        CommandMode::Operational => None,
        CommandMode::Configure { nodes } => Some(nodes.len()),
    }
}

#[test]
fn normalize_strips_comment_and_space() {
    assert_eq!(normalize_input_line(&cs("  configure  ! enter")), Some(cs("configure")));
    assert_eq!(normalize_input_line(&cs("\tshow running # x\t")), Some(cs("show running")));
}

#[test]
fn normalize_blank_and_comment_lines() {
    assert_eq!(normalize_input_line(&cs("")), None);
    assert_eq!(normalize_input_line(&cs("   \t ")), None);
    assert_eq!(normalize_input_line(&cs("! a comment")), None);
    assert_eq!(normalize_input_line(&cs("   # another")), None);
}

#[test]
fn normalize_is_idempotent() {
    for l in ["  interface eth0 ! c", "mtu 1500", "  x  y  ", "a#b"] {
        let once = normalize_input_line(&cs(l)).unwrap();
        assert_eq!(normalize_input_line(&once), Some(once.clone()));
    }
}

#[test]
fn blank_line_is_no_command() {
    let mut cli = new_cli();
    assert_eq!(run(&mut cli, "   ").unwrap(), Step::Continue);
    assert_eq!(run(&mut cli, "! only a comment").unwrap(), Step::Continue);
    assert!(is_operational(&cli));
}

#[test]
fn split_words_keeps_quoted_text() {
    let w = split_words(&cs("description \"uplink to core\"  x"));
    assert_eq!(w, key(&["description", "uplink to core", "x"]));
    assert_eq!(split_words(&cs("a \"\" b")), key(&["a", "", "b"]));
    assert_eq!(split_words(&cs("   ")), key(&[]));
}

#[test]
fn abbreviation_selects_unique_keyword() {
    let mut a = new_cli();
    let mut b = new_cli();
    run(&mut a, "configure").unwrap();
    run(&mut b, "conf").unwrap();
    assert_eq!(path_len(&b), Some(0));
    run(&mut a, "interface eth0").unwrap();
    run(&mut b, "int eth0").unwrap();
    assert_eq!(
        a.session.candidate.get(&key(&["interface", "eth0"])),
        b.session.candidate.get(&key(&["interface", "eth0"]))
    );
    assert!(b.session.candidate.get(&key(&["interface", "eth0"])).is_some());
    assert_eq!(path_len(&a), Some(1));
    assert_eq!(path_len(&b), Some(1));
}

#[test]
fn ambiguous_abbreviation_names_all_completions() {
    let mut cli = new_cli();
    run(&mut cli, "configure").unwrap();
    match run(&mut cli, "sh") {
        Err(CliError::Parser(ParseError::AmbiguousToken(w, cands))) => {
            assert_eq!(w, cs("sh"));
            let mut names: Vec<String> = cands
                .iter()
                .map(|c| cli.commands.nodes[*c].name.iter().collect())
                .collect();
            names.sort();
            assert_eq!(names, vec!["show".to_string(), "shutdown".to_string()]);
        }
        other => panic!("unexpected {:?}", other),
    }
}

#[test]
fn exact_keyword_wins_over_abbreviation() {
    let mut t = Commands::new();
    t.gen_cmds();
    let a = t.add_node(0, cs("set"), NodeKind::Keyword, None, false).unwrap();
    let _b = t.add_node(0, cs("settings"), NodeKind::Keyword, None, false).unwrap();
    match match_word(&t, 0, &cs("set")) {
        WordMatch::Keyword(c) => assert_eq!(c, a),
        other => panic!("unexpected {:?}", other),
    }
    assert!(matches!(match_word(&t, 0, &cs("se")), WordMatch::Ambiguous(_)));
    assert!(matches!(match_word(&t, 0, &cs("zzz")), WordMatch::NoMatch));
}

#[test]
fn duplicate_sibling_keyword_is_refused() {
    let mut t = Commands::new();
    assert!(t.add_node(0, cs("show"), NodeKind::Keyword, None, false).is_some());
    assert!(t.add_node(0, cs("show"), NodeKind::Keyword, None, false).is_none());
    assert_eq!(t.nodes.len(), 2);
}

#[test]
fn negating_a_callback_fails() {
    let mut cli = new_cli();
    assert!(matches!(
        run(&mut cli, "no configure"),
        Err(CliError::Parser(ParseError::IllegalNegation(_)))
    ));
    run(&mut cli, "configure").unwrap();
    for l in ["no commit", "no discard", "no exit", "no end", "no show running"] {
        assert!(matches!(
            run(&mut cli, l),
            Err(CliError::Parser(ParseError::IllegalNegation(_)))
        ));
    }
    assert_eq!(path_len(&cli), Some(0));
}

#[test]
fn negated_delete_of_absent_key_then_commit() {
    let mut cli = new_cli();
    run(&mut cli, "configure").unwrap();
    assert_eq!(run(&mut cli, "no interface eth0").unwrap(), Step::Continue);
    assert_eq!(path_len(&cli), Some(0));
    assert!(cli.session.candidate.entries.is_empty());
    assert_eq!(run(&mut cli, "commit").unwrap(), Step::Commit);
    assert!(cli.session.candidate_changes().is_empty());
    assert!(cli.session.candidate_commit(Ok(())).is_ok());
    assert!(cli.session.running.entries.is_empty());
}

#[test]
fn negation_removes_subtree() {
    let mut cli = new_cli();
    run(&mut cli, "configure").unwrap();
    run(&mut cli, "interface eth0").unwrap();
    run(&mut cli, "mtu 1500").unwrap();
    run(&mut cli, "exit").unwrap();
    run(&mut cli, "hostname r1").unwrap();
    assert_eq!(cli.session.candidate.entries.len(), 3);
    run(&mut cli, "no interface eth0").unwrap();
    assert_eq!(cli.session.candidate.entries.len(), 1);
    assert_eq!(cli.session.candidate.get(&key(&["hostname"])), Some(key(&["r1"])));
}

#[test]
fn parse_errors_are_precise() {
    let mut cli = new_cli();
    assert!(matches!(
        run(&mut cli, "show"),
        Err(CliError::Parser(ParseError::IncompleteCommand))
    ));
    match run(&mut cli, "frobnicate") {
        Err(CliError::Parser(ParseError::UnknownToken(w))) => assert_eq!(w, cs("frobnicate")),
        other => panic!("unexpected {:?}", other),
    }
    match run(&mut cli, "configure now") {
        Err(CliError::Parser(ParseError::TrailingInput(w))) => assert_eq!(w, cs("now")),
        other => panic!("unexpected {:?}", other),
    }
    assert!(is_operational(&cli));
}

#[test]
fn invalid_arguments_name_parameter_and_text() {
    let mut cli = new_cli();
    run(&mut cli, "configure").unwrap();
    run(&mut cli, "interface eth0").unwrap();
    for bad in ["70000", "67", "15x", "99999999999999999999999"] {
        match run(&mut cli, &format!("mtu {}", bad)) {
            Err(CliError::Parser(ParseError::InvalidArgument(p, w))) => {
                assert_eq!(cli.commands.nodes[p].name, cs("mtu"));
                assert_eq!(w, cs(bad));
            }
            other => panic!("unexpected {:?}", other),
        }
    }
    assert!(matches!(
        run(&mut cli, "enabled yes"),
        Err(CliError::Parser(ParseError::InvalidArgument(_, _)))
    ));
    run(&mut cli, "mtu 68").unwrap();
    run(&mut cli, "enabled true").unwrap();
    assert_eq!(cli.session.candidate.get(&key(&["interface", "eth0", "mtu"])), Some(key(&["68"])));
    assert_eq!(
        cli.session.candidate.get(&key(&["interface", "eth0", "enabled"])),
        Some(key(&["true"]))
    );
}

#[test]
fn leaf_without_value_is_an_edit_error() {
    let mut cli = new_cli();
    run(&mut cli, "configure").unwrap();
    run(&mut cli, "interface eth0").unwrap();
    let before = cli.session.candidate.entries.len();
    assert!(matches!(
        run(&mut cli, "mtu"),
        Err(CliError::EditConfig(EditError::MissingValue))
    ));
    assert_eq!(cli.session.candidate.entries.len(), before);
}

#[test]
fn quoted_argument_is_one_value() {
    let mut cli = new_cli();
    run(&mut cli, "configure").unwrap();
    run(&mut cli, "interface eth0").unwrap();
    run(&mut cli, "description \"to core router\"").unwrap();
    assert_eq!(
        cli.session.candidate.get(&key(&["interface", "eth0", "description"])),
        Some(key(&["to core router"]))
    );
}

#[test]
fn failed_commit_keeps_running() {
    let mut cli = new_cli();
    run(&mut cli, "configure").unwrap();
    run(&mut cli, "hostname r1").unwrap();
    cli.session.candidate_commit(Ok(())).unwrap();
    run(&mut cli, "hostname r2").unwrap();
    run(&mut cli, "interface eth1").unwrap();
    let err = cli.session.candidate_commit(Err(cs("validation failed")));
    match err {
        Err(holo_cli::session::CommitError::Rejected(m)) => assert_eq!(m, cs("validation failed")),
        Ok(()) => panic!("commit should fail"),
    }
    assert_eq!(cli.session.running.entries.len(), 1);
    assert_eq!(cli.session.running.get(&key(&["hostname"])), Some(key(&["r1"])));
    assert_eq!(cli.session.candidate.get(&key(&["hostname"])), Some(key(&["r2"])));
}

#[test]
fn successful_commit_applies_whole_diff() {
    let mut cli = new_cli();
    run(&mut cli, "configure").unwrap();
    run(&mut cli, "hostname r1").unwrap();
    run(&mut cli, "interface eth0").unwrap();
    run(&mut cli, "mtu 9000").unwrap();
    let changes = cli.session.candidate_changes();
    assert_eq!(changes.len(), 3);
    assert!(changes.iter().all(|c| c.value.is_some()));
    cli.session.candidate_commit(Ok(())).unwrap();
    assert_eq!(cli.session.running.entries.len(), 3);
    assert_eq!(cli.session.running.get(&key(&["interface", "eth0", "mtu"])), Some(key(&["9000"])));
    assert!(cli.session.candidate_changes().is_empty());
    run(&mut cli, "end").unwrap();
    run(&mut cli, "configure").unwrap();
    run(&mut cli, "no hostname").unwrap();
    let changes = cli.session.candidate_changes();
    assert_eq!(changes.len(), 1);
    assert_eq!(changes[0].key, key(&["hostname"]));
    assert!(changes[0].value.is_none());
}

#[test]
fn discard_resets_candidate() {
    let mut cli = new_cli();
    run(&mut cli, "configure").unwrap();
    run(&mut cli, "hostname r1").unwrap();
    cli.session.candidate_commit(Ok(())).unwrap();
    run(&mut cli, "hostname r9").unwrap();
    run(&mut cli, "discard").unwrap();
    assert_eq!(cli.session.candidate.get(&key(&["hostname"])), Some(key(&["r1"])));
}

#[test]
fn nested_contexts_exit_symmetrically() {
    let mut cli = new_cli();
    run(&mut cli, "configure").unwrap();
    run(&mut cli, "shutdown").unwrap();
    assert_eq!(path_len(&cli), Some(1));
    run(&mut cli, "exit").unwrap();
    run(&mut cli, "interface eth0").unwrap();
    assert_eq!(path_len(&cli), Some(1));
    run(&mut cli, "exit").unwrap();
    assert_eq!(path_len(&cli), Some(0));
    run(&mut cli, "exit").unwrap();
    assert!(is_operational(&cli));
    assert_eq!(run(&mut cli, "exit").unwrap(), Step::Exit);
}

#[test]
fn end_returns_to_operational() {
    let mut cli = new_cli();
    run(&mut cli, "configure").unwrap();
    run(&mut cli, "interface eth0").unwrap();
    assert_eq!(run(&mut cli, "end").unwrap(), Step::Continue);
    assert!(is_operational(&cli));
}

#[test]
fn prompt_follows_mode() {
    let mut cli = new_cli();
    cli.session.update_hostname(Some(cs("r1")));
    assert_eq!(cli.session.prompt(), cs("r1# "));
    run(&mut cli, "configure").unwrap();
    assert_eq!(cli.session.prompt(), cs("r1(config)# "));
    run(&mut cli, "interface eth0").unwrap();
    assert_eq!(cli.session.prompt(), cs("r1(config-eth0)# "));
    cli.session.update_hostname(None);
    assert_eq!(cli.session.prompt(), cs("r1(config-eth0)# "));
}

#[test]
fn show_steps_are_handed_back() {
    let mut cli = new_cli();
    assert_eq!(run(&mut cli, "show running").unwrap(), Step::ShowRunning);
    assert_eq!(run(&mut cli, "sh cand").unwrap(), Step::ShowCandidate);
    assert_eq!(run(&mut cli, "show ch").unwrap(), Step::ShowChanges);
}

fn replay(lines: &[&str]) -> (Vec<String>, Vec<(Vec<Vec<char>>, Vec<Vec<char>>)>) {
    let mut cli = new_cli();
    cli.session.mode_set(CommandMode::Configure { nodes: vec![] });
    let mut errors = Vec::new();
    for l in lines {
        if let Err(e) = cli.enter_command(&cs(l)) {
            errors.push(format!("{:?}", e));
        }
    }
    cli.session.candidate_commit(Ok(())).unwrap();
    let running = cli
        .session
        .running
        .entries
        .iter()
        .map(|e| (e.key.clone(), e.value.clone()))
        .collect();
    (errors, running)
}

#[test]
fn replay_gives_same_result_each_time() {
    let lines = ["hostname r1", "int eth0", "mtu 1", "mtu 1500", "exit", "bogus", "no interface eth7"];
    let a = replay(&lines);
    let b = replay(&lines);
    assert_eq!(a, b);
    assert_eq!(a.0.len(), 2);
    assert_eq!(a.1.len(), 3);
}

#[test]
fn parse_command_reports_matched_node_and_args() {
    let cli = new_cli();
    let root = cli.commands.config_root;
    let pc = parse_command(&cli.commands, root, &cs("no hostname")).unwrap();
    assert!(pc.negate);
    assert_eq!(cli.commands.nodes[pc.token_id].name, cs("hostname"));
    let pc = parse_command(&cli.commands, root, &cs("host r2")).unwrap();
    assert!(!pc.negate);
    assert_eq!(pc.args, key(&["r2"]));
}

#[test]
fn batch_and_line_by_line_agree() {
    let lines = ["configure", "hostname r1", "int eth0", "mtu 9", "mtu 1500", "exit", "sh", "no commit"];
    let mut one = new_cli();
    let mut errors_one = Vec::new();
    for l in lines {
        match one.enter_command(&cs(l)) {
            Ok(st) => errors_one.push(format!("{:?}", st)),
            Err(e) => errors_one.push(format!("{:?}", e)),
        }
    }
    let mut batch = new_cli();
    let results = batch.enter_lines(&lines.iter().map(|l| cs(l)).collect());
    let errors_batch: Vec<String> = results
        .iter()
        .map(|r| match r {
            Ok(st) => format!("{:?}", st),
            Err(e) => format!("{:?}", e),
        })
        .collect();
    assert_eq!(errors_one, errors_batch);
    assert_eq!(format!("{:?}", one.session.candidate), format!("{:?}", batch.session.candidate));
    assert_eq!(path_len(&one), path_len(&batch));
    assert_eq!(path_len(&one), Some(0));
    assert_eq!(errors_batch.iter().filter(|e| e.starts_with("Parser")).count(), 3);
}

#[test]
fn builtin_tree_has_expected_commands() {
    let cli = Cli::new();
    let t = &cli.commands;
    assert_eq!(t.nodes.len(), 16);
    assert_eq!(t.config_root, 1);
    let names: Vec<(String, usize)> = t.nodes[2..]
        .iter()
        .map(|n| (n.name.iter().collect(), n.parent))
        .collect();
    let expected = [
        ("configure", 0), ("exit", 0), ("show", 0), ("running", 4), ("candidate", 4), ("changes", 4),
        ("exit", 1), ("end", 1), ("commit", 1), ("discard", 1), ("show", 1), ("running", 12),
        ("candidate", 12), ("changes", 12),
    ];
    let expected: Vec<(String, usize)> = expected.iter().map(|(n, p)| (n.to_string(), *p)).collect();
    assert_eq!(names, expected);
}

#[test]
fn schema_commands_are_recorded() {
    let mut cli = Cli::new();
    let mut s = schema();
    s.push(SchemaNode { name: cs("mtu"), kind: SchemaKind::Leaf(ParamType::Text), parent: Some(1) });
    s.push(SchemaNode { name: cs("interface"), kind: SchemaKind::Container, parent: None });
    let got = cli.load_schema(&s);
    assert_eq!(got.len(), s.len());
    let list = got[0].unwrap();
    assert_eq!(cli.commands.nodes[list.keyword].name, cs("interface"));
    assert!(!cli.commands.nodes[list.keyword].enters_mode);
    let key = list.param.unwrap();
    assert!(cli.commands.nodes[key].enters_mode);
    assert_eq!(cli.commands.nodes[key].kind, NodeKind::Param(ParamType::Text));
    let mtu = got[1].unwrap();
    assert_eq!(cli.commands.nodes[mtu.keyword].parent, key);
    assert!(got[4].unwrap().param.is_none());
    assert!(cli.commands.nodes[got[4].unwrap().keyword].enters_mode);
    // A child of a leaf and a duplicate top-level name are left out.
    assert!(got[6].is_none());
    assert!(got[7].is_none());
}

#[test]
fn empty_commit_succeeds_without_daemon() {
    let mut cli = new_cli();
    assert!(!cli.session.commit_needed());
    assert!(cli.session.candidate_commit(Err(cs("unreachable"))).is_ok());
    run(&mut cli, "configure").unwrap();
    run(&mut cli, "hostname r1").unwrap();
    assert!(cli.session.commit_needed());
    assert!(cli.session.candidate_commit(Err(cs("unreachable"))).is_err());
}

#[test]
fn signed_arguments_are_range_checked() {
    let pt = ParamType::Signed { min: -10, max: 5 };
    assert!(arg_valid_exec(pt, &cs("-10")));
    assert!(arg_valid_exec(pt, &cs("5")));
    assert!(arg_valid_exec(pt, &cs("-0")));
    assert!(!arg_valid_exec(pt, &cs("-11")));
    assert!(!arg_valid_exec(pt, &cs("6")));
    assert!(!arg_valid_exec(pt, &cs("-")));
    assert!(!arg_valid_exec(pt, &cs("1-")));
    let full = ParamType::Signed { min: i64::MIN, max: i64::MAX };
    assert!(arg_valid_exec(full, &cs("-9223372036854775808")));
    assert!(!arg_valid_exec(full, &cs("-9223372036854775809")));
    assert!(arg_valid_exec(full, &cs("9223372036854775807")));
    assert!(!arg_valid_exec(full, &cs("9223372036854775808")));
    let neg = ParamType::Signed { min: -5, max: -2 };
    assert!(arg_valid_exec(neg, &cs("-3")));
    assert!(!arg_valid_exec(neg, &cs("3")));
    assert!(!arg_valid_exec(neg, &cs("-1")));
}

#[test]
fn ipv4_arguments_are_checked() {
    let pt = ParamType::Ipv4Address;
    assert!(arg_valid_exec(pt, &cs("10.0.0.1")));
    assert!(arg_valid_exec(pt, &cs("255.255.255.255")));
    assert!(!arg_valid_exec(pt, &cs("256.0.0.1")));
    assert!(!arg_valid_exec(pt, &cs("10.0.0")));
    assert!(!arg_valid_exec(pt, &cs("10.0.0.1.2")));
    assert!(!arg_valid_exec(pt, &cs("10..0.1")));
    assert!(!arg_valid_exec(pt, &cs("1000.0.0.1")));
    assert!(!arg_valid_exec(pt, &cs("a.b.c.d")));
}
