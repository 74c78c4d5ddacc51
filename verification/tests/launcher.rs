use zlelaunch::assign::{assign_keys, try_assign_keys};
use zlelaunch::config::{parse_config, ConfigValue, ParseError};
use zlelaunch::entry::LauncherEntry;
use zlelaunch::launch::{edit_entry, parse_args};
use zlelaunch::present::{bulk_output, erase_text, render_menu, selected_output};

fn text(s: &str) -> ConfigValue {
    ConfigValue::Text(String::from(s))
}

fn mapping(cmd: Option<&str>, key: Option<&str>) -> ConfigValue {
    ConfigValue::Mapping {
        command: cmd.map(|c| Box::new(ConfigValue::Text(String::from(c)))),
        key: key.map(|k| Box::new(ConfigValue::Text(String::from(k)))),
    }
}

fn doc(elems: Vec<ConfigValue>) -> Vec<ConfigValue> {
    vec![ConfigValue::List(elems)]
}

fn sample_docs() -> Vec<ConfigValue> {
    doc(vec![
        text("python test.py"),
        mapping(Some("pytest -s"), Some("a")),
        mapping(Some("echo hej"), Some("h")),
    ])
}

#[test]
fn test_string_entry() {
    let docs = sample_docs();
    let out = parse_config(&docs).unwrap();
    assert_eq!(out.entries[0].command, "python test.py");
    assert_eq!(out.entries[0].character, None);
}

#[test]
fn test_hash_entry() {
    let docs = sample_docs();
    let out = parse_config(&docs).unwrap();
    assert_eq!(out.entries[1].command, "pytest -s");
    assert_eq!(out.entries[1].character, Some('a'));
}

#[test]
fn test_reserved_key() {
    let docs = sample_docs();
    let out = parse_config(&docs).unwrap();
    assert!(out.reserved.contains(&'a'));
    assert!(!out.reserved.contains(&'b'));
}

#[test]
fn test_reserve_keys() {
    let docs = sample_docs();
    let out = parse_config(&docs).unwrap();
    let mut entries = out.entries;
    assign_keys(&mut entries, &out.reserved);
    assert_eq!(entries[0].character, Some('o'));
    assert_eq!(entries[1].character, Some('a'));
}

#[test]
fn empty_configuration_yields_seed_only() {
    let docs: Vec<ConfigValue> = Vec::new();
    let out = parse_config(&docs).unwrap();
    assert_eq!(out.entries.len(), 0);
    assert_eq!(out.reserved, vec!['z']);
    assert_eq!(out.skipped.len(), 0);
}

#[test]
fn empty_list_yields_seed_only() {
    let docs = doc(vec![]);
    let out = parse_config(&docs).unwrap();
    assert_eq!(out.entries.len(), 0);
    assert_eq!(out.reserved, vec!['z']);
}

#[test]
fn explicit_key_reserves_it() {
    let docs = doc(vec![mapping(Some("run"), Some("qx"))]);
    let out = parse_config(&docs).unwrap();
    assert_eq!(out.entries[0].character, Some('q'));
    assert_eq!(out.reserved, vec!['z', 'q']);
}

#[test]
fn duplicate_explicit_key_is_dropped() {
    let docs = doc(vec![
        mapping(Some("first"), Some("a")),
        mapping(Some("second"), Some("a")),
    ]);
    let out = parse_config(&docs).unwrap();
    assert_eq!(out.entries[0].character, Some('a'));
    assert_eq!(out.entries[1].character, None);
    assert_eq!(out.reserved, vec!['z', 'a']);
    let mut entries = out.entries;
    assign_keys(&mut entries, &out.reserved);
    assert_eq!(entries[1].character, Some('o'));
}

#[test]
fn edit_key_collision_is_dropped() {
    let docs = doc(vec![mapping(Some("zed"), Some("z"))]);
    let out = parse_config(&docs).unwrap();
    assert_eq!(out.entries[0].character, None);
    assert_eq!(out.reserved, vec!['z']);
}

#[test]
fn missing_command_is_skipped() {
    let docs = doc(vec![
        text("ls"),
        mapping(None, Some("a")),
        text("pwd"),
    ]);
    let out = parse_config(&docs).unwrap();
    assert_eq!(out.entries.len(), 2);
    assert_eq!(out.entries[0].command, "ls");
    assert_eq!(out.entries[1].command, "pwd");
    assert_eq!(out.skipped, vec![(0, 1)]);
    assert_eq!(out.reserved, vec!['z']);
}

#[test]
fn bad_element_aborts() {
    let docs = doc(vec![text("ls"), ConfigValue::Other, text("pwd")]);
    let r = parse_config(&docs);
    assert!(matches!(r, Err(ParseError::BadElement { doc: 0, index: 1 })));
}

#[test]
fn nested_list_element_aborts() {
    let docs = doc(vec![ConfigValue::List(vec![])]);
    let r = parse_config(&docs);
    assert!(matches!(r, Err(ParseError::BadElement { doc: 0, index: 0 })));
}

#[test]
fn non_list_document_aborts() {
    let docs = vec![text("ls")];
    let r = parse_config(&docs);
    assert!(matches!(r, Err(ParseError::NotAList { doc: 0 })));
}

#[test]
fn new_entry_has_no_key() {
    let e = LauncherEntry::new(String::from("make"));
    assert_eq!(e.command, "make");
    assert_eq!(e.character, None);
}

#[test]
fn assignment_follows_alphabet_order() {
    let mut entries = vec![
        LauncherEntry::new(String::from("one")),
        LauncherEntry::new(String::from("two")),
        LauncherEntry::new(String::from("three")),
    ];
    let reserved = vec!['z'];
    assign_keys(&mut entries, &reserved);
    assert_eq!(entries[0].character, Some('a'));
    assert_eq!(entries[1].character, Some('o'));
    assert_eq!(entries[2].character, Some('e'));
}

#[test]
fn assignment_skips_reserved_letters() {
    let mut entries = vec![
        LauncherEntry::new(String::from("one")),
        LauncherEntry::new(String::from("two")),
    ];
    let reserved = vec!['z', 'a', 'e', 'o'];
    assign_keys(&mut entries, &reserved);
    assert_eq!(entries[0].character, Some('u'));
    assert_eq!(entries[1].character, Some('h'));
}

#[test]
fn assignment_keeps_explicit_keys_and_commands() {
    let mut entries = vec![
        LauncherEntry { character: Some('x'), command: String::from("one") },
        LauncherEntry::new(String::from("two")),
    ];
    let reserved = vec!['z', 'x'];
    assign_keys(&mut entries, &reserved);
    assert_eq!(entries[0].character, Some('x'));
    assert_eq!(entries[0].command, "one");
    assert_eq!(entries[1].character, Some('a'));
    assert_eq!(entries[1].command, "two");
}

#[test]
fn assignment_never_repeats_a_letter() {
    let mut entries = Vec::new();
    for i in 0..25 {
        entries.push(LauncherEntry::new(format!("cmd {}", i)));
    }
    let reserved = vec!['z'];
    let ok = try_assign_keys(&mut entries, &reserved);
    assert!(ok);
    for i in 0..25 {
        let ki = entries[i].character.unwrap();
        assert!(ki != 'z');
        for j in 0..i {
            assert!(entries[j].character.unwrap() != ki);
        }
    }
}

#[test]
fn exhausted_alphabet_is_refused() {
    let mut entries = Vec::new();
    for i in 0..26 {
        entries.push(LauncherEntry::new(format!("cmd {}", i)));
    }
    let reserved = vec!['z'];
    let ok = try_assign_keys(&mut entries, &reserved);
    assert!(!ok);
    for i in 0..26 {
        assert_eq!(entries[i].character, None);
    }
}

#[test]
fn final_list_keys_are_unique() {
    let docs = doc(vec![
        text("make"),
        mapping(Some("pytest -s"), Some("a")),
        text("cargo build"),
        mapping(Some("echo hej"), Some("h")),
        mapping(Some("dup"), Some("a")),
    ]);
    let out = parse_config(&docs).unwrap();
    let mut entries = out.entries;
    entries.push(edit_entry(&String::from("vim"), &String::from("cfg.yml")));
    assert!(try_assign_keys(&mut entries, &out.reserved));
    for i in 0..entries.len() {
        let ki = entries[i].character.unwrap();
        for j in 0..i {
            assert!(entries[j].character.unwrap() != ki);
        }
    }
}

#[test]
fn bulk_output_null_separates_all_commands() {
    let docs = doc(vec![text("ls"), mapping(Some("pwd"), Some("p"))]);
    let out = parse_config(&docs).unwrap();
    let mut entries = out.entries;
    entries.push(edit_entry(
        &String::from("vim"),
        &String::from(".ctrl_e.yml"),
    ));
    let s = bulk_output(&entries);
    assert_eq!(s, "ls\0pwd\0vim .ctrl_e.yml\0");
}

#[test]
fn bulk_output_of_nothing_is_empty() {
    let entries: Vec<LauncherEntry> = Vec::new();
    assert_eq!(bulk_output(&entries), "");
}

#[test]
fn edit_entry_uses_reserved_key() {
    let e = edit_entry(&String::from("nano"), &String::from("cfg.yml"));
    assert_eq!(e.character, Some('z'));
    assert_eq!(e.command, "nano cfg.yml");
}

#[test]
fn unmatched_key_selects_nothing() {
    let entries = vec![
        LauncherEntry { character: Some('a'), command: String::from("ls") },
        LauncherEntry { character: Some('o'), command: String::from("pwd") },
    ];
    let s = selected_output(&entries, 'q');
    assert_eq!(s, "");
}

#[test]
fn matched_key_selects_the_command() {
    let entries = vec![
        LauncherEntry { character: Some('a'), command: String::from("ls") },
        LauncherEntry { character: Some('o'), command: String::from("pwd") },
    ];
    let s = selected_output(&entries, 'o');
    assert_eq!(s, "pwd\n");
}

#[test]
fn menu_renders_keys_and_commands() {
    let entries = vec![
        LauncherEntry { character: Some('a'), command: String::from("echo hi") },
    ];
    let (menu, lines) = render_menu(&entries);
    assert_eq!(menu, "\x1b[?25l\n \x1b[33m\x1b[1ma\x1b[0m echo hi");
    assert_eq!(lines, 1);
}

#[test]
fn menu_indents_continuation_lines() {
    let entries = vec![
        LauncherEntry { character: Some('a'), command: String::from("one\ntwo") },
        LauncherEntry { character: Some('o'), command: String::from("pwd") },
    ];
    let (menu, lines) = render_menu(&entries);
    assert_eq!(
        menu,
        "\x1b[?25l\n \x1b[33m\x1b[1ma\x1b[0m one\n    two\n \x1b[33m\x1b[1mo\x1b[0m pwd"
    );
    assert_eq!(lines, 3);
}

#[test]
fn erase_clears_one_line() {
    assert_eq!(erase_text(1), "\x1b[2K\x1b[G\x1b[?25h");
}

#[test]
fn erase_clears_every_line() {
    assert_eq!(erase_text(3), "\x1b[2K\x1b[F\x1b[2K\x1b[F\x1b[2K\x1b[G\x1b[?25h");
}

#[test]
fn args_take_last_filename_and_flag() {
    let args = vec![
        String::from("launcher"),
        String::from("--print0"),
        String::from("cfg.yml"),
    ];
    let la = parse_args(&args).unwrap();
    assert_eq!(la.filename, "cfg.yml");
    assert!(la.print0);
}

#[test]
fn args_without_flag_are_interactive() {
    let args = vec![String::from("launcher"), String::from("cfg.yml")];
    let la = parse_args(&args).unwrap();
    assert_eq!(la.filename, "cfg.yml");
    assert!(!la.print0);
}

#[test]
fn args_of_only_flags_have_no_filename() {
    let args = vec![String::from("--print0")];
    assert!(parse_args(&args).is_none());
    let none: Vec<String> = Vec::new();
    assert!(parse_args(&none).is_none());
}
