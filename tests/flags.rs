use bazel_flags::flag_info::FlagInfo;
use bazel_flags::index::{BazelFlags, FlagLookupType};
use bazel_flags::merge::{combine_key_value_flags, merge_line, Flag, Line, Span};

fn flag(name: &str, commands: &[&str], versions: &[&str]) -> FlagInfo {
    FlagInfo {
        name: name.to_string(),
        old_name: None,
        abbreviation: None,
        commands: commands.iter().map(|c| c.to_string()).collect(),
        requires_value: false,
        has_negative_flag: false,
        bazel_versions: versions.iter().map(|v| v.to_string()).collect(),
        metadata_tags: vec![],
        effect_tags: vec![],
        documentation: None,
        documentation_category: None,
    }
}

fn catalog() -> Vec<FlagInfo> {
    let mut jobs = flag("jobs", &["build", "test"], &["7.0.0", "8.0.0"]);
    jobs.requires_value = true;
    jobs.abbreviation = Some("j".to_string());
    let mut keep_going = flag("keep_going", &["build"], &["7.0.0", "8.0.0"]);
    keep_going.abbreviation = Some("k".to_string());
    keep_going.has_negative_flag = true;
    let mut renamed = flag("new_style", &["query"], &["8.0.0"]);
    renamed.old_name = Some("old_style".to_string());
    let python = flag("python3_path", &["run"], &["7.0.0"]);
    let startup_only = flag("preemptible", &["startup"], &["7.0.0", "8.0.0"]);
    let orphan = flag("no_commands_here", &[], &["7.0.0", "8.0.0"]);
    vec![jobs, keep_going, renamed, python, startup_only, orphan]
}

fn tok(text: &str, start: usize) -> (String, Span) {
    (text.to_string(), Span { start, end: start + text.len() })
}

fn occ(name: Option<(String, Span)>, value: Option<(String, Span)>) -> Flag {
    Flag { name, value }
}

fn texts(flags: &[Flag]) -> Vec<(Option<String>, Option<String>)> {
    flags
        .iter()
        .map(|f| (f.name.as_ref().map(|n| n.0.clone()), f.value.as_ref().map(|v| v.0.clone())))
        .collect()
}

#[test]
fn canonical_name_resolves_as_normal() {
    let bf = BazelFlags::from_flags(catalog(), None);
    for (slot, f) in bf.flags().iter().enumerate() {
        if f.name.starts_with("no") {
            continue;
        }
        let token = format!("--{}", f.name);
        assert_eq!(bf.resolve_slot(&token), Some((FlagLookupType::Normal, slot)));
    }
    let (kind, info) = bf.get_by_invocation("--preemptible").unwrap();
    assert_eq!(kind, FlagLookupType::Normal);
    assert_eq!(info.commands, vec!["startup".to_string()]);
}

#[test]
fn abbreviation_resolves_to_same_flag() {
    let bf = BazelFlags::from_flags(catalog(), None);
    assert_eq!(bf.get_by_invocation("-k").unwrap().0, FlagLookupType::Abbreviation);
    assert_eq!(bf.get_by_invocation("--keep_going").unwrap().0, FlagLookupType::Normal);
    assert_eq!(bf.resolve_slot("-k").unwrap().1, bf.resolve_slot("--keep_going").unwrap().1);
    assert_eq!(bf.resolve_slot("-j"), Some((FlagLookupType::Abbreviation, 0)));
    assert_eq!(bf.resolve_slot("-x"), None);
    // Abbreviations live in their own namespace.
    assert_eq!(bf.resolve_slot("--k"), None);
    assert_eq!(bf.resolve_slot("-keep_going"), None);
}

#[test]
fn malformed_tokens_do_not_resolve() {
    let bf = BazelFlags::from_flags(catalog(), None);
    assert_eq!(bf.resolve_slot("---x"), None);
    assert_eq!(bf.resolve_slot("---keep_going"), None);
    assert_eq!(bf.resolve_slot("--"), None);
    assert_eq!(bf.resolve_slot("plain"), None);
    assert_eq!(bf.resolve_slot("keep_going"), None);
    assert_eq!(bf.resolve_slot(""), None);
}

#[test]
fn old_name_negation_and_trailing_assign() {
    let bf = BazelFlags::from_flags(catalog(), None);
    assert_eq!(bf.resolve_slot("--old_style"), Some((FlagLookupType::OldName, 2)));
    assert_eq!(bf.resolve_slot("--new_style"), Some((FlagLookupType::Normal, 2)));
    assert_eq!(bf.resolve_slot("--nokeep_going"), Some((FlagLookupType::Normal, 1)));
    assert_eq!(bf.resolve_slot("--noold_style"), Some((FlagLookupType::OldName, 2)));
    assert_eq!(bf.resolve_slot("--jobs="), Some((FlagLookupType::Normal, 0)));
    assert_eq!(bf.resolve_slot("-k="), Some((FlagLookupType::Abbreviation, 1)));
    // A name that itself starts with `no` loses the prefix first.
    assert_eq!(bf.resolve_slot("--no_commands_here"), None);
}

#[test]
fn common_is_union_and_always_equals_common() {
    let bf = BazelFlags::from_flags(catalog(), None);
    let commands = bf.commands();
    for c in ["build", "test", "query", "run", "startup", "common", "always", "import", "try-import"] {
        assert!(commands.contains(&c.to_string()), "{c}");
    }
    assert_eq!(commands.len(), 9);
    assert_eq!(bf.flags_for_command("build"), Some(&vec![0, 1]));
    assert_eq!(bf.flags_for_command("test"), Some(&vec![0]));
    assert_eq!(bf.flags_for_command("common"), Some(&vec![0, 1, 2, 3, 4]));
    assert_eq!(bf.flags_for_command("always"), bf.flags_for_command("common"));
    assert_eq!(bf.flags_for_command("import"), None);
    assert_eq!(bf.flags_for_command("clean"), None);
}

#[test]
fn version_filter_excludes_flags() {
    let v7 = BazelFlags::from_flags(catalog(), Some("7.0.0"));
    let v8 = BazelFlags::from_flags(catalog(), Some("8.0.0"));
    let v9 = BazelFlags::from_flags(catalog(), Some("9.0.0"));
    let all = BazelFlags::from_flags(catalog(), None);
    assert_eq!(v7.slot_by_name("python3_path"), Some(3));
    assert_eq!(v8.slot_by_name("python3_path"), None);
    assert_eq!(v9.slot_by_name("python3_path"), None);
    assert_eq!(all.slot_by_name("python3_path"), Some(3));
    // Slots stay stable: the filtered flag keeps its place in the list.
    assert_eq!(v8.flags().len(), 6);
    assert_eq!(v8.flags_for_command("run"), None);
    assert_eq!(v8.flags_for_command("common"), Some(&vec![0, 1, 2, 4]));
    assert_eq!(v7.slot_by_name("old_style"), None);
    assert_eq!(v8.slot_by_name("old_style"), Some(2));
    assert_eq!(v9.flags_for_command("common"), Some(&vec![]));
    assert_eq!(v9.resolve_slot("-k"), None);
    assert_eq!(v8.slot_by_abbreviation("k"), Some(1));
}

#[test]
fn later_flag_overwrites_name() {
    let mut second = flag("second", &["build"], &[]);
    second.old_name = Some("first".to_string());
    let bf = BazelFlags::from_flags(vec![flag("first", &["build"], &[]), second], None);
    assert_eq!(bf.slot_by_name("first"), Some(1));
    assert_eq!(bf.resolve_slot("--first"), Some((FlagLookupType::OldName, 1)));
}

#[test]
fn empty_catalog() {
    let bf = BazelFlags::from_flags(vec![], None);
    assert_eq!(bf.flags_for_command("common"), Some(&vec![]));
    assert_eq!(bf.commands().len(), 4);
    assert_eq!(bf.resolve_slot("--jobs"), None);
}

#[test]
fn merge_example_line() {
    let bf = BazelFlags::from_flags(catalog(), None);
    let mut lines = vec![Line {
        flags: vec![
            occ(Some(tok("--jobs", 0)), None),
            occ(Some(tok("200", 7)), None),
            occ(Some(tok("--keep_going", 11)), None),
        ],
    }];
    combine_key_value_flags(&mut lines, &bf);
    assert_eq!(
        texts(&lines[0].flags),
        vec![
            (Some("--jobs".to_string()), Some("200".to_string())),
            (Some("--keep_going".to_string()), None),
        ]
    );
    assert_eq!(lines[0].flags[0].value.as_ref().unwrap().1, Span { start: 7, end: 10 });
}

#[test]
fn merge_joins_name_and_value_of_next() {
    let bf = BazelFlags::from_flags(catalog(), None);
    let line = vec![occ(Some(tok("--jobs", 0)), None), occ(Some(tok("--x", 7)), Some(tok("y", 11)))];
    let out = merge_line(&line, &bf);
    assert_eq!(texts(&out), vec![(Some("--jobs".to_string()), Some("--x=y".to_string()))]);
    assert_eq!(out[0].value.as_ref().unwrap().1, Span { start: 7, end: 12 });
    let line = vec![occ(Some(tok("--jobs", 0)), None), occ(None, Some(tok("4", 7)))];
    let out = merge_line(&line, &bf);
    assert_eq!(texts(&out), vec![(Some("--jobs".to_string()), Some("4".to_string()))]);
}

#[test]
fn merge_edge_cases() {
    let bf = BazelFlags::from_flags(catalog(), None);
    // Last on the line: nothing to take.
    let out = merge_line(&vec![occ(Some(tok("--jobs", 0)), None)], &bf);
    assert_eq!(texts(&out), vec![(Some("--jobs".to_string()), None)]);
    // An empty following occurrence is consumed and no value attached.
    let line = vec![occ(Some(tok("--jobs", 0)), None), occ(None, None), occ(Some(tok("--keep_going", 9)), None)];
    let out = merge_line(&line, &bf);
    assert_eq!(
        texts(&out),
        vec![(Some("--jobs".to_string()), None), (Some("--keep_going".to_string()), None)]
    );
    // Inline values and unknown flags pass through.
    let line = vec![
        occ(Some(tok("--jobs", 0)), Some(tok("3", 7))),
        occ(Some(tok("--unknown", 9)), None),
        occ(Some(tok("5", 19)), None),
    ];
    assert_eq!(texts(&merge_line(&line, &bf)), texts(&line));
    assert!(merge_line(&vec![], &bf).is_empty());
}

#[test]
fn merge_leaves_abbreviation_alone() {
    let bf = BazelFlags::from_flags(catalog(), None);
    let line = vec![occ(Some(tok("-j", 0)), None), occ(Some(tok("8", 3)), None)];
    assert_eq!(texts(&merge_line(&line, &bf)), texts(&line));
    let line = vec![occ(Some(tok("-j", 0)), Some(tok("8", 3))), occ(Some(tok("opt", 5)), None)];
    assert_eq!(texts(&merge_line(&line, &bf)), texts(&line));
}

#[test]
fn merge_twice_is_merge_once() {
    let bf = BazelFlags::from_flags(catalog(), None);
    let line = vec![
        occ(Some(tok("--jobs", 0)), None),
        occ(Some(tok("--jobs", 7)), None),
        occ(Some(tok("--jobs", 14)), None),
        occ(Some(tok("-k", 21)), None),
        occ(Some(tok("--jobs", 24)), None),
    ];
    let once = merge_line(&line, &bf);
    let twice = merge_line(&once, &bf);
    assert_eq!(texts(&once), texts(&twice));
    assert_eq!(texts(&once).len(), 3);
}

#[test]
fn flag_predicates() {
    let mut f = flag("keep_going", &["build"], &[]);
    assert!(!f.is_deprecated());
    assert!(!f.is_noop());
    f.metadata_tags = vec!["EXPERIMENTAL".to_string(), "DEPRECATED".to_string()];
    f.effect_tags = vec!["NO_OP".to_string()];
    assert!(f.is_deprecated());
    assert!(f.is_noop());
    assert!(f.supports_command("build"));
    assert!(f.supports_command("common"));
    assert!(f.supports_command("always"));
    assert!(!f.supports_command("test"));
    assert!(!f.supports_command("import"));
}

fn packaged_like(version: &str) -> BazelFlags {
    let mut keep_going = flag("keep_going", &["build", "test", "clean"], &["7.0.0", "7.1.0", "8.0.0", "9.0.0"]);
    keep_going.abbreviation = Some("k".to_string());
    let flags = vec![
        flag("preemptible", &["startup"], &["7.0.0", "7.1.0", "8.0.0", "9.0.0"]),
        keep_going,
        flag("remote_cache", &["build", "test"], &["7.0.0", "7.1.0", "8.0.0", "9.0.0"]),
        flag("python3_path", &["build", "test"], &["7.0.0", "7.1.0"]),
    ];
    BazelFlags::from_flags(flags, Some(version))
}

#[test]
fn test_flags() {
    let flags = packaged_like("7.1.0");
    let commands = flags.commands();
    assert!(commands.contains(&"build".to_string()));
    assert!(commands.contains(&"clean".to_string()));
    assert!(commands.contains(&"test".to_string()));
    assert!(commands.contains(&"common".to_string()));

    // Can lookup a flag by its invocation
    let preemptible_info = flags.get_by_invocation("--preemptible");
    assert_eq!(
        preemptible_info.unwrap().1.commands.iter().map(|n| n.to_string()).collect::<Vec<_>>(),
        vec!("startup")
    );

    // Supports both short and long forms
    assert_eq!(flags.get_by_invocation("-k").unwrap().0, FlagLookupType::Abbreviation);
    assert_eq!(flags.get_by_invocation("--keep_going").unwrap().0, FlagLookupType::Normal);
    assert_eq!(flags.resolve_slot("-k").unwrap().1, flags.resolve_slot("--keep_going").unwrap().1);

    // `remote_cache` is valid for at least one command, hence it is in `common` and `always`.
    assert!(flags.flags_for_command("common").unwrap().iter().any(|id| flags.flags()[*id].name == "remote_cache"));
    assert!(flags.flags_for_command("always").unwrap().iter().any(|id| flags.flags()[*id].name == "remote_cache"));
}

#[test]
fn test_flag_versions() {
    let bazel7_flags = packaged_like("7.0.0");
    let bazel8_flags = packaged_like("8.0.0");
    let bazel9_flags = packaged_like("9.0.0");

    // `python3_path` was removed in Bazel 8
    assert!(bazel7_flags.slot_by_name("python3_path").is_some());
    assert!(bazel8_flags.slot_by_name("python3_path").is_none());
    assert!(bazel9_flags.slot_by_name("python3_path").is_none());
}
