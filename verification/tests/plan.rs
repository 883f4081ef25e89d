use filenamefix::{
    decide, fix_ext, fix_number, fix_space, is_hidden, make_plan, parse_width, run,
    starts_with_number, Config, Decision, Entry, Fault, NumberError, Plan, Rename, Rule,
};

fn file(name: &str) -> Entry {
    Entry { name: name.to_string(), is_dir: false }
}

fn dir(name: &str) -> Entry {
    Entry { name: name.to_string(), is_dir: true }
}

fn rename(index: usize, new_name: &str) -> Rename {
    Rename { index, new_name: new_name.to_string() }
}

fn some(s: &str) -> Option<String> {
    Some(s.to_string())
}

fn config(cmd: &str, params: Option<&str>) -> Config {
    Config { cmd: cmd.to_string(), params: params.map(|p| p.to_string()), dirname: ".".to_string() }
}

/// A small tree, flattened: files to rename, a hidden file, directories.
fn testdir() -> Vec<Entry> {
    vec![
        dir("testdir"),
        file("1-first file.TXT"),
        file("02 second  file.Txt"),
        file(".hidden 3.TXT"),
        dir("4 sub dir.D"),
        file("notes for me.MD"),
        file("README"),
        file("10.last.txt"),
    ]
}

#[test]
fn fix_filename_number() {
    let plan = fix_number(&testdir(), &Some("2".to_string()));
    assert_eq!(None, plan.fault);
    assert_eq!(
        plan.renames,
        vec![
            rename(1, "01.first file.TXT"),
            rename(2, "02.second  file.Txt"),
            rename(7, "10.last.txt"),
        ]
    );
}

#[test]
fn fix_filename_space() {
    let plan = fix_space(&testdir(), &Some("-".to_string()));
    assert_eq!(None, plan.fault);
    assert_eq!(
        plan.renames,
        vec![
            rename(1, "1-first-file.TXT"),
            rename(2, "02-second-file.Txt"),
            rename(5, "notes-for-me.MD"),
            rename(6, "README"),
            rename(7, "10.last.txt"),
        ]
    );
}

#[test]
fn fix_filename_ext() {
    let plan = fix_ext(&testdir(), &Some("lower".to_string()));
    assert_eq!(None, plan.fault);
    assert_eq!(
        plan.renames,
        vec![
            rename(1, "1-first file.txt"),
            rename(2, "02 second  file.txt"),
            rename(5, "notes for me.md"),
            rename(7, "10.last.txt"),
        ]
    );
}

#[test]
fn fix_ext_upper_only_for_the_word_upper() {
    let entries = vec![file("a.Txt")];
    assert_eq!(fix_ext(&entries, &some("upper")).renames, vec![rename(0, "a.TXT")]);
    assert_eq!(fix_ext(&entries, &some("Upper")).renames, vec![rename(0, "a.txt")]);
    assert_eq!(fix_ext(&entries, &some("upper ")).renames, vec![rename(0, "a.txt")]);
    assert_eq!(fix_ext(&entries, &some("")).renames, vec![rename(0, "a.txt")]);
    assert_eq!(fix_ext(&entries, &None).renames, vec![rename(0, "a.txt")]);
}

#[test]
fn fix_space_default_divider_is_an_underscore() {
    let entries = vec![file("a b.txt")];
    assert_eq!(fix_space(&entries, &None).renames, vec![rename(0, "a_b.txt")]);
    assert_eq!(fix_space(&entries, &some("")).renames, vec![rename(0, "ab.txt")]);
}

#[test]
fn fix_number_default_width_is_two() {
    let entries = vec![file("7 a"), file("123 b")];
    let expected = vec![rename(0, "07.a"), rename(1, "123.b")];
    assert_eq!(fix_number(&entries, &None).renames, expected);
    assert_eq!(fix_number(&entries, &some("wide")).renames, expected);
    assert_eq!(fix_number(&entries, &some("4")).renames, vec![rename(0, "0007.a"), rename(1, "0123.b")]);
}

#[test]
fn width_is_read_as_an_unsigned_number() {
    assert_eq!(parse_width(&None), 2);
    assert_eq!(parse_width(&some("5")), 5);
    assert_eq!(parse_width(&some(" 7 ")), 7);
    assert_eq!(parse_width(&some("\t12\n")), 12);
    assert_eq!(parse_width(&some("+3")), 3);
    assert_eq!(parse_width(&some("007")), 7);
    assert_eq!(parse_width(&some("0")), 0);
    assert_eq!(parse_width(&some("")), 2);
    assert_eq!(parse_width(&some("  ")), 2);
    assert_eq!(parse_width(&some("+")), 2);
    assert_eq!(parse_width(&some("++3")), 2);
    assert_eq!(parse_width(&some("-1")), 2);
    assert_eq!(parse_width(&some("abc")), 2);
    assert_eq!(parse_width(&some("3x")), 2);
    assert_eq!(parse_width(&some("3 4")), 2);
    assert_eq!(parse_width(&some("1.5")), 2);
    assert_eq!(parse_width(&some("\u{663}")), 2);
    assert_eq!(parse_width(&some("99999999999999999999999999")), 2);
    assert_eq!(parse_width(&some("65536")), 65536);
}

#[test]
fn width_is_what_std_parses() {
    for p in ["5", " 7 ", "+3", "007", "", "+", "-1", "abc", "3x", "+ 3", "18446744073709551615",
        "18446744073709551616", "4294967295", "4294967296", "0000000000000000000000001"]
    {
        let expected: usize = p.trim().parse().unwrap_or(2);
        assert_eq!(parse_width(&some(p)), expected, "{:?}", p);
    }
}

#[test]
fn hidden_is_a_leading_dot() {
    assert!(is_hidden(&file(".bashrc")));
    assert!(is_hidden(&file(".")));
    assert!(is_hidden(&dir(".git")));
    assert!(!is_hidden(&file("a.b")));
    assert!(!is_hidden(&file("")));
    assert!(!is_hidden(&file(" .a")));
}

#[test]
fn starts_with_number_is_a_leading_digit() {
    assert!(starts_with_number(&file("7")));
    assert!(starts_with_number(&file("0a")));
    assert!(!starts_with_number(&file("a7")));
    assert!(!starts_with_number(&file("")));
    assert!(!starts_with_number(&file("-7")));
    assert!(!starts_with_number(&file("\u{663}a")));
}

#[test]
fn hidden_entries_are_never_renamed() {
    let entries = vec![file(".1 a.TXT"), file(".b c.TXT"), file(".9")];
    for plan in [
        fix_number(&entries, &None),
        fix_space(&entries, &None),
        fix_ext(&entries, &None),
        fix_ext(&entries, &some("upper")),
    ] {
        assert_eq!(plan, Plan { renames: vec![], fault: None });
    }
}

#[test]
fn directories_are_never_renamed() {
    let entries = vec![dir("1 a.TXT"), dir("b c.TXT"), dir("9")];
    for plan in [
        fix_number(&entries, &None),
        fix_space(&entries, &None),
        fix_ext(&entries, &None),
        fix_ext(&entries, &some("upper")),
    ] {
        assert_eq!(plan, Plan { renames: vec![], fault: None });
    }
}

#[test]
fn a_fault_ends_the_plan() {
    let entries = vec![file("1-a"), file("b"), file("7"), file("3-c"), file("99999999999-d")];
    let plan = fix_number(&entries, &None);
    assert_eq!(plan.renames, vec![rename(0, "01.a")]);
    assert_eq!(plan.fault, Some(Fault { index: 2, error: NumberError::PatternMismatch }));
}

#[test]
fn a_number_too_large_is_a_fault() {
    let entries = vec![file("1-a"), file("99999999999-d"), file("7")];
    let plan = fix_number(&entries, &None);
    assert_eq!(plan.renames, vec![rename(0, "01.a")]);
    assert_eq!(plan.fault, Some(Fault { index: 1, error: NumberError::NumberTooLarge }));
}

#[test]
fn decide_tells_skip_rename_and_fault_apart() {
    let number = Rule::Number { width: 3 };
    assert_eq!(decide(&number, &file("1 a")), Decision::Rename("001.a".to_string()));
    assert_eq!(decide(&number, &file("a 1")), Decision::Skip);
    assert_eq!(decide(&number, &dir("1 a")), Decision::Skip);
    assert_eq!(decide(&number, &file("1")), Decision::Fault(NumberError::PatternMismatch));
    let space = Rule::Space { divider: "+".to_string() };
    assert_eq!(decide(&space, &file("1 a")), Decision::Rename("1+a".to_string()));
    assert_eq!(decide(&space, &file(".1 a")), Decision::Skip);
    let ext = Rule::Ext { upper: true };
    assert_eq!(decide(&ext, &file("a.b")), Decision::Rename("a.B".to_string()));
    assert_eq!(decide(&ext, &file("ab")), Decision::Skip);
}

#[test]
fn make_plan_of_no_entries_is_empty() {
    let plan = make_plan(&Rule::Ext { upper: false }, &vec![]);
    assert_eq!(plan, Plan { renames: vec![], fault: None });
}

#[test]
fn rule_for_command_reads_the_parameter() {
    assert_eq!(Rule::for_command("number", &some("3")), Some(Rule::Number { width: 3 }));
    assert_eq!(Rule::for_command("number", &None), Some(Rule::Number { width: 2 }));
    assert_eq!(Rule::for_command("space", &some("-")), Some(Rule::Space { divider: "-".to_string() }));
    assert_eq!(Rule::for_command("space", &None), Some(Rule::Space { divider: "_".to_string() }));
    assert_eq!(Rule::for_command("ext", &some("upper")), Some(Rule::Ext { upper: true }));
    assert_eq!(Rule::for_command("ext", &some("lower")), Some(Rule::Ext { upper: false }));
    assert_eq!(Rule::for_command("ext", &None), Some(Rule::Ext { upper: false }));
    assert_eq!(Rule::for_command("Number", &None), None);
    assert_eq!(Rule::for_command("", &None), None);
    assert_eq!(Rule::for_command("exts", &None), None);
}

#[test]
fn run_dispatches_on_the_command() {
    let entries = testdir();
    assert_eq!(run(config("number", Some("2")), &entries), Ok(fix_number(&entries, &some("2"))));
    assert_eq!(run(config("space", Some("-")), &entries), Ok(fix_space(&entries, &some("-"))));
    assert_eq!(run(config("ext", None), &entries), Ok(fix_ext(&entries, &None)));
    assert_eq!(
        run(config("ext", Some("upper")), &vec![file("a.b")]),
        Ok(Plan { renames: vec![rename(0, "a.B")], fault: None })
    );
}

#[test]
fn run_refuses_an_unknown_command() {
    assert_eq!(run(config("rename", None), &testdir()), Err("Unknown CMD"));
    assert_eq!(run(config("", Some("2")), &testdir()), Err("Unknown CMD"));
    assert_eq!(run(config("NUMBER", None), &vec![]), Err("Unknown CMD"));
}

#[test]
fn config_needs_a_command_and_a_directory() {
    let args = |list: &[&str]| list.iter().map(|s| s.to_string()).collect::<Vec<String>>();
    assert_eq!(Config::new(args(&[])), Err("Not enough arguments"));
    assert_eq!(Config::new(args(&["prog"])), Err("Not enough arguments"));
    assert_eq!(Config::new(args(&["prog", "ext"])), Err("Not enough arguments"));
}

#[test]
fn config_takes_two_or_three_arguments() {
    let args = |list: &[&str]| list.iter().map(|s| s.to_string()).collect::<Vec<String>>();
    assert_eq!(
        Config::new(args(&["prog", "ext", "some/dir"])),
        Ok(Config { cmd: "ext".to_string(), params: None, dirname: "some/dir".to_string() })
    );
    assert_eq!(
        Config::new(args(&["prog", "number", "3", "some/dir"])),
        Ok(Config { cmd: "number".to_string(), params: some("3"), dirname: "some/dir".to_string() })
    );
    assert_eq!(
        Config::new(args(&["prog", "number", "3", "some/dir", "more"])),
        Ok(Config { cmd: "number".to_string(), params: some("3"), dirname: "some/dir".to_string() })
    );
}
