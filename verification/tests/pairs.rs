use envit::assemble::assemble;
use envit::de::{lines_of, EnvPair, Envs};
use envit::error::AssembleError;
use envit::order::{common_prefix, compare_paths, compare_text, Relation};
use envit::value::Value;

fn strings(segments: &[&str]) -> Vec<String> {
    segments.iter().map(|s| s.to_string()).collect()
}

fn read(line: &str) -> Option<EnvPair> {
    EnvPair::from_str(line, '#', '=', "__")
}

fn fields_of(line: &str) -> Vec<String> {
    read(line).expect("a pair").fields().clone()
}

#[test]
fn a_line_is_a_key_of_fields_and_a_value() {
    let pair = read("A__B__C=value").expect("a pair");
    assert_eq!(pair.fields(), &strings(&["A", "B", "C"]));
    assert_eq!(pair.value(), "value");
}

#[test]
fn the_first_separator_ends_the_key() {
    let pair = read("A=1=2").expect("a pair");
    assert_eq!(pair.fields(), &strings(&["A"]));
    assert_eq!(pair.value(), "1=2");
    let pair = read("A=").expect("a pair");
    assert_eq!(pair.value(), "");
}

#[test]
fn comments_and_lines_without_separator_write_no_pair() {
    assert!(read("# A=1").is_none());
    assert!(read("   # A=1").is_none());
    assert!(read("novalue").is_none());
    assert!(read("").is_none());
    assert!(read("   ").is_none());
    assert!(EnvPair::from_str("; A=1", ';', '=', "__").is_none());
    assert!(EnvPair::from_str("# A=1", ';', '=', "__").is_some());
}

#[test]
fn the_line_is_trimmed_and_its_parts_are_not() {
    let pair = read("  A__B = 1  ").expect("a pair");
    assert_eq!(pair.fields(), &strings(&["A", "B "]));
    assert_eq!(pair.value(), " 1");
}

#[test]
fn keys_split_from_the_left_without_overlap() {
    assert_eq!(fields_of("=x"), strings(&[""]));
    assert_eq!(fields_of("A__=1"), strings(&["A", ""]));
    assert_eq!(fields_of("__A=1"), strings(&["", "A"]));
    assert_eq!(fields_of("A___B=1"), strings(&["A", "_B"]));
    assert_eq!(fields_of("A____B=1"), strings(&["A", "", "B"]));
    assert_eq!(fields_of("A_B=1"), strings(&["A_B"]));
}

#[test]
fn other_separators_and_none() {
    let pair = EnvPair::from_str("a.b.c: 1", '#', ':', ".").expect("a pair");
    assert_eq!(pair.fields(), &strings(&["a", "b", "c"]));
    assert_eq!(pair.value(), " 1");
    let pair = EnvPair::from_str("A__B=1", '#', '=', "").expect("a pair");
    assert_eq!(pair.fields(), &strings(&["A__B"]));
    let pair = EnvPair::from_str("A__B=1", '#', '=', "A__B=1x").expect("a pair");
    assert_eq!(pair.fields(), &strings(&["A__B"]));
}

#[test]
fn a_pair_needs_a_path() {
    assert!(EnvPair::new(Vec::new(), "1".to_string()).is_none());
    let pair = EnvPair::new(strings(&["A"]), "1".to_string()).expect("a pair");
    assert_eq!(pair.fields(), &strings(&["A"]));
    assert_eq!(pair.value(), "1");
}

#[test]
fn texts_are_ordered_by_their_characters() {
    assert_eq!(compare_text("a", "b"), Relation::Before);
    assert_eq!(compare_text("b", "a"), Relation::After);
    assert_eq!(compare_text("abc", "abc"), Relation::Same);
    assert_eq!(compare_text("ab", "abc"), Relation::Before);
    assert_eq!(compare_text("abc", "ab"), Relation::After);
    assert_eq!(compare_text("", ""), Relation::Same);
    assert_eq!(compare_text("", "a"), Relation::Before);
    assert_eq!(compare_text("B", "a"), Relation::Before);
    assert_eq!(compare_text("z", "\u{00e9}"), Relation::Before);
    assert_eq!(compare_text("\u{ffff}", "\u{10000}"), Relation::Before);
}

#[test]
fn text_order_is_the_order_of_strings() {
    let samples = ["", "a", "A", "ab", "b", "_", "__", "a_", "\u{00e9}", "\u{10000}", "z"];
    for a in samples.iter() {
        for b in samples.iter() {
            let expected = match a.cmp(b) {
                std::cmp::Ordering::Less => Relation::Before,
                std::cmp::Ordering::Equal => Relation::Same,
                std::cmp::Ordering::Greater => Relation::After,
            };
            assert_eq!(compare_text(a, b), expected);
        }
    }
}

#[test]
fn paths_are_ordered_by_their_segments() {
    let a = strings(&["A", "B"]);
    let b = strings(&["A", "C"]);
    let c = strings(&["A"]);
    let d = strings(&["AB"]);
    assert_eq!(compare_paths(&a, &b), Relation::Before);
    assert_eq!(compare_paths(&b, &a), Relation::After);
    assert_eq!(compare_paths(&a, &a), Relation::Same);
    assert_eq!(compare_paths(&c, &a), Relation::Before);
    assert_eq!(compare_paths(&a, &c), Relation::After);
    assert_eq!(compare_paths(&a, &d), Relation::Before);
    assert_eq!(common_prefix(&a, &b), 1);
    assert_eq!(common_prefix(&a, &a), 2);
    assert_eq!(common_prefix(&a, &d), 0);
    assert_eq!(common_prefix(&c, &a), 1);
}

#[test]
fn path_order_is_the_order_of_vectors() {
    let samples = vec![
        strings(&["A"]),
        strings(&["A", "B"]),
        strings(&["A", "B", "C"]),
        strings(&["A", "C"]),
        strings(&["AB"]),
        strings(&["B"]),
        strings(&[""]),
        strings(&["", ""]),
    ];
    for a in samples.iter() {
        for b in samples.iter() {
            let expected = match a.cmp(b) {
                std::cmp::Ordering::Less => Relation::Before,
                std::cmp::Ordering::Equal => Relation::Same,
                std::cmp::Ordering::Greater => Relation::After,
            };
            assert_eq!(compare_paths(a, b), expected);
            let x = EnvPair::new(a.clone(), "1".to_string()).unwrap();
            let y = EnvPair::new(b.clone(), "2".to_string()).unwrap();
            assert_eq!(x.compare(&y), expected);
        }
    }
}

#[test]
fn envs_hold_their_pairs_sorted() {
    let mut envs = Envs::default();
    assert!(envs.pairs().is_empty());
    for line in ["B__Y=2", "A__X=1", "C=3", "A__B=0", "A=9"].iter() {
        envs.insert(read(line).unwrap());
    }
    let paths: Vec<Vec<String>> = envs.pairs().iter().map(|p| p.fields().clone()).collect();
    assert_eq!(
        paths,
        vec![
            strings(&["A"]),
            strings(&["A", "B"]),
            strings(&["A", "X"]),
            strings(&["B", "Y"]),
            strings(&["C"]),
        ]
    );
}

#[test]
fn pairs_of_one_path_keep_the_order_they_came_in() {
    let lines = vec!["A=1".to_string(), "B=0".to_string(), "A=2".to_string(), "A=3".to_string()];
    let envs = Envs::from_lines(&lines, '#', '=', "__");
    let values: Vec<&str> = envs.pairs().iter().map(|p| p.value()).collect();
    assert_eq!(values, vec!["1", "2", "3", "0"]);
    assert_eq!(envs.assemble(), Err(AssembleError::DuplicateKey(strings(&["A"]))));
}

#[test]
fn a_text_is_read_line_by_line() {
    assert_eq!(lines_of(&['a', '\n', 'b']), strings(&["a", "b"]));
    assert_eq!(lines_of(&['a', '\n']), strings(&["a", ""]));
    assert_eq!(lines_of(&[]), strings(&[""]));
    assert_eq!(lines_of(&['\n', '\n']), strings(&["", "", ""]));
}

#[test]
fn a_configuration_text_becomes_a_tree() {
    let raw = r#"CONFIG__DATABASE__NAME=name
CONFIG__DATABASE__USERNAME=username
CONFIG__DATABASE__CREDENTIAL__TYPE=password
CONFIG__DATABASE__CREDENTIAL__PASSWORD=some_password
CONFIG__DATABASE__CONNECTION__POOL=10
CONFIG__DATABASE__CONNECTION__TIMEOUT=10
CONFIG__DATABASE__CONNECTION__RETRIES=10,20,30
# CONFIG__APPLICATION__ENV=development
CONFIG__APPLICATION__LOGGER__LEVEL=info"#;
    let envs = Envs::from_str(raw, '#', '=', "__").expect("pairs");
    assert_eq!(envs.pairs().len(), 8);
    assert_eq!(
        envs.pairs()[0].fields(),
        &strings(&["CONFIG", "APPLICATION", "LOGGER", "LEVEL"])
    );
    let tree = envs.assemble().expect("a tree");
    assert_eq!(assemble(envs.pairs()).as_ref(), Ok(&tree));
    for pair in envs.pairs().iter() {
        let expected = Value::parse(pair.value()).expect("a value");
        assert_eq!(tree.at(pair.fields()), Some(&expected));
    }
    assert_eq!(
        tree.at(&strings(&["CONFIG", "DATABASE", "CONNECTION", "POOL"])),
        Some(&Value::integer(10))
    );
    assert_eq!(
        tree.at(&strings(&["CONFIG", "DATABASE", "CONNECTION", "RETRIES"])),
        Some(&Value::string("10,20,30"))
    );
    assert!(tree.at(&strings(&["CONFIG", "APPLICATION", "ENV"])).is_none());
    assert!(tree.at(&strings(&["CONFIG", "DATABASE", "NAME", "X"])).is_none());
    assert_eq!(tree.at(&Vec::new()), Some(&tree));
}

#[test]
fn windows_line_ends_and_blank_lines_are_passed_over() {
    let envs = Envs::from_str("A=1\r\n\r\n  \nB=[1, 2]\r\n", '#', '=', "__").expect("pairs");
    assert_eq!(envs.pairs().len(), 2);
    assert_eq!(envs.pairs()[0].value(), "1");
    let tree = envs.assemble().expect("a tree");
    assert_eq!(tree.at(&strings(&["B"])), Value::parse("[1,2]").ok().as_ref());
}

#[test]
fn a_text_without_pairs_is_the_empty_object() {
    let envs = Envs::from_str("", '#', '=', "__").expect("pairs");
    assert!(envs.pairs().is_empty());
    assert_eq!(envs.assemble(), Ok(Value::empty_object()));
}

#[test]
fn sorted_envs_find_the_conflict_that_the_lines_hide() {
    let envs = Envs::from_str("A__B=2\nC=3\nA=1", '#', '=', "__").expect("pairs");
    assert_eq!(envs.assemble(), Err(AssembleError::TypeConflict(strings(&["A"]))));
}

#[test]
fn lines_read_as_the_standard_library_splits_them() {
    let lines = [
        "A__B__C=value",
        "  A = 1 ",
        "A",
        "",
        "=",
        "==",
        "__=__",
        "A____B=",
        "_A_=x",
        "#A=1",
        " #A=1",
        "A#B=1",
        "A__B=1=2=3",
        "ä__ö=ü",
        "\tKEY__SUB\t=\tv\t",
    ];
    for line in lines.iter() {
        for key_sep in ["__", "_", "=", "___", "B"].iter() {
            let trimmed = line.trim();
            let parts: Vec<&str> = trimmed.splitn(2, '=').collect();
            let expected = if trimmed.starts_with('#') || parts.len() != 2 {
                None
            } else {
                Some((
                    parts[0].split(key_sep).map(|s| s.to_string()).collect::<Vec<String>>(),
                    parts[1].to_string(),
                ))
            };
            let found = EnvPair::from_str(line, '#', '=', key_sep)
                .map(|pair| (pair.fields().clone(), pair.value().to_string()));
            assert_eq!(found, expected, "{:?} split on {:?}", line, key_sep);
        }
    }
}

#[test]
fn pairs_sort_as_the_standard_library_sorts_paths() {
    let lines: Vec<String> = [
        "B__A=1", "A__B=2", "A=3", "A__A__A=4", "AA=5", "A__=6", "__A=7", "B=8", "a=9", "A__B__C=10",
    ]
    .iter()
    .map(|s| s.to_string())
    .collect();
    let envs = Envs::from_lines(&lines, '#', '=', "__");
    let found: Vec<(Vec<String>, String)> =
        envs.pairs().iter().map(|p| (p.fields().clone(), p.value().to_string())).collect();
    let mut expected: Vec<(Vec<String>, String)> = lines
        .iter()
        .map(|line| {
            let pair = read(line).unwrap();
            (pair.fields().clone(), pair.value().to_string())
        })
        .collect();
    expected.sort_by(|a, b| a.0.cmp(&b.0));
    assert_eq!(found, expected);
}
