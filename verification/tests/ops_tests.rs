use vidirr::editor::ParsedLine;
use vidirr::idmap::IdMap;
use vidirr::memfs::MemFs;
use vidirr::ops::{get_unique_tmp_name, OpsError, Operation, Operator};

fn s(x: &str) -> String {
    x.to_string()
}

#[test]
fn test_apply_changes_unknown_number() {
    let mut fs = MemFs::new();
    let mut items = IdMap::new();
    items.insert(2, s("file_2"));

    let mut operator = Operator::new(items);

    // Operate on item that does not exist in the operator's pending set.
    let res = operator.apply_changes(
        ParsedLine {
            num: 1,
            filename: s("file_one"),
        },
        &mut fs,
    );

    assert_eq!(res.unwrap_err().message(), "unknown item number 1");
    assert_eq!(operator.items().len(), 1);
    assert_eq!(operator.items().get(2), Some(&s("file_2")));
    assert!(operator.dones().is_empty());
}

#[test]
fn test_apply_changes_empty_filename() {
    let mut fs = MemFs::new();
    let mut items = IdMap::new();
    items.insert(1, s("file_1"));

    let mut operator = Operator::new(items);

    let res = operator.apply_changes(
        ParsedLine {
            num: 1,
            filename: s(""),
        },
        &mut fs,
    );

    assert!(res.is_ok());
    assert_eq!(operator.items().len(), 1);
    assert_eq!(operator.items().get(1), Some(&s("file_1")));
    assert!(operator.dones().is_empty());
}

#[test]
fn test_apply_changes_src_not_exists() {
    let mut fs = MemFs::new();
    let mut items = IdMap::new();
    items.insert(1, s("file_1"));

    let mut operator = Operator::new(items);

    // File we want to rename from does not exist.
    let res = operator.apply_changes(
        ParsedLine {
            num: 1,
            filename: s("file_one"),
        },
        &mut fs,
    );

    assert_eq!(res.unwrap_err().message(), "file_1 does not exist");
    assert!(operator.items().is_empty());
    assert!(operator.dones().is_empty());
}

#[test]
fn test_apply_changes_src_exists() {
    let temp_str = "/t";
    let mut fs = MemFs::new();
    fs.add_dir(&s(temp_str));
    fs.add_file(&(temp_str.to_owned() + "/file_1"));

    let mut items = IdMap::new();
    items.insert(1, temp_str.to_owned() + "/file_1");

    let mut operator = Operator::new(items);

    let res = operator.apply_changes(
        ParsedLine {
            num: 1,
            filename: temp_str.to_owned() + "/file_one",
        },
        &mut fs,
    );

    assert!(res.is_ok());
    assert!(operator.items().is_empty());
    assert_eq!(operator.dones().len(), 1);
    assert_eq!(
        operator.dones().get(1),
        Some(&(temp_str.to_owned() + "/file_one"))
    );

    assert!(!fs.has_path(&(temp_str.to_owned() + "/file_1")));
    assert!(fs.has_path(&(temp_str.to_owned() + "/file_one")));
}

#[test]
fn test_apply_changes_swap() {
    let temp_str = "/t";
    let mut fs = MemFs::new();
    fs.add_dir(&s(temp_str));
    fs.add_file(&(temp_str.to_owned() + "/file_1"));
    fs.add_file(&(temp_str.to_owned() + "/file_2"));

    let mut items = IdMap::new();
    items.insert(1, temp_str.to_owned() + "/file_1");
    items.insert(2, temp_str.to_owned() + "/file_2");

    let mut operator = Operator::new(items);

    // Rename item 1 to the same name as item 2.
    // Therefore, item 2 has to be renamed to item 2~.
    let res = operator.apply_changes(
        ParsedLine {
            num: 1,
            filename: temp_str.to_owned() + "/file_2",
        },
        &mut fs,
    );

    assert!(res.is_ok());
    assert_eq!(operator.items().len(), 1);
    assert_eq!(
        operator.items().get(2),
        Some(&(temp_str.to_owned() + "/file_2~"))
    );
    assert_eq!(operator.dones().len(), 1);
    assert_eq!(
        operator.dones().get(1),
        Some(&(temp_str.to_owned() + "/file_2"))
    );

    assert!(!fs.has_path(&(temp_str.to_owned() + "/file_1")));
    assert!(fs.has_path(&(temp_str.to_owned() + "/file_2")));
    assert!(fs.has_path(&(temp_str.to_owned() + "/file_2~")));
}

#[test]
fn test_apply_changes_copy() {
    let temp_str = "/t";
    let mut fs = MemFs::new();
    fs.add_dir(&s(temp_str));
    fs.add_file(&(temp_str.to_owned() + "/file_1"));

    let mut items = IdMap::new();
    items.insert(1, temp_str.to_owned() + "/file_1");

    let mut operator = Operator::new(items);

    // First call changes nothing because the name is the same as in items.
    {
        let res = operator.apply_changes(
            ParsedLine {
                num: 1,
                filename: temp_str.to_owned() + "/file_1",
            },
            &mut fs,
        );

        assert!(res.is_ok());
        assert!(operator.items().is_empty());
        assert_eq!(operator.dones().len(), 1);
        assert_eq!(
            operator.dones().get(1),
            Some(&(temp_str.to_owned() + "/file_1"))
        );
    }

    // Second call is a copy because it has the same number.
    {
        let res = operator.apply_changes(
            ParsedLine {
                num: 1,
                filename: temp_str.to_owned() + "/file_1_copy",
            },
            &mut fs,
        );

        assert!(res.is_ok());
        assert!(operator.items().is_empty());
        assert_eq!(operator.dones().len(), 1);
        assert_eq!(
            operator.dones().get(1),
            Some(&(temp_str.to_owned() + "/file_1_copy"))
        );
    }

    assert!(fs.has_path(&(temp_str.to_owned() + "/file_1")));
    assert!(fs.has_path(&(temp_str.to_owned() + "/file_1_copy")));
}

#[test]
fn test_apply_changes_rename_directory() {
    let temp_str = "/t";
    let mut fs = MemFs::new();
    fs.add_dir(&s(temp_str));
    fs.add_dir(&(temp_str.to_owned() + "/dir_1"));
    fs.add_file(&(temp_str.to_owned() + "/dir_1/file_1"));

    let mut items = IdMap::new();
    items.insert(1, temp_str.to_owned() + "/dir_1");
    items.insert(2, temp_str.to_owned() + "/dir_1/file_1");

    let mut operator = Operator::new(items);

    let res = operator.apply_changes(
        ParsedLine {
            num: 1,
            filename: temp_str.to_owned() + "/dir_one",
        },
        &mut fs,
    );

    assert!(res.is_ok());
    assert_eq!(operator.items().len(), 1);
    assert_eq!(
        operator.items().get(2),
        Some(&(temp_str.to_owned() + "/dir_one/file_1"))
    );
    assert_eq!(operator.dones().len(), 1);
    assert_eq!(
        operator.dones().get(1),
        Some(&(temp_str.to_owned() + "/dir_one"))
    );

    assert!(!fs.has_path(&(temp_str.to_owned() + "/dir_1")));
    assert!(fs.has_path(&(temp_str.to_owned() + "/dir_one/file_1")));
}

#[test]
fn test_apply_changes_subdirectory() {
    let temp_str = "/t";
    let mut fs = MemFs::new();
    fs.add_dir(&s(temp_str));
    fs.add_file(&(temp_str.to_owned() + "/file_1"));

    let mut items = IdMap::new();
    items.insert(2, temp_str.to_owned() + "/file_1");

    let mut operator = Operator::new(items);

    let res = operator.apply_changes(
        ParsedLine {
            num: 2,
            filename: temp_str.to_owned() + "/subdir/file_one",
        },
        &mut fs,
    );

    assert!(res.is_ok());
    assert!(operator.items().is_empty());
    assert_eq!(operator.dones().len(), 1);
    assert_eq!(
        operator.dones().get(2),
        Some(&(temp_str.to_owned() + "/subdir/file_one"))
    );

    assert!(fs.has_path(&(temp_str.to_owned() + "/subdir/file_one")));
}

#[test]
fn test_update_dir() {
    let mut items = IdMap::new();
    items.insert(1, s("./src/testdata/file2"));
    items.insert(2, s("./src/testdata/file1"));

    let mut operator = Operator::new(items);

    operator.update_dir(&s("./src/testdata/"), &s("./src/test/"));

    assert_eq!(operator.items().len(), 2);
    assert_eq!(operator.items().get(1), Some(&s("./src/test/file2")));
    assert_eq!(operator.items().get(2), Some(&s("./src/test/file1")));
}

#[test]
fn test_update_dir_odd_case() {
    let mut items = IdMap::new();
    items.insert(1, s("./src/testdata/file2"));
    items.insert(2, s("./src/testdata/file1"));

    let mut operator = Operator::new(items);

    operator.update_dir(&s("./src/testdata/"), &s("./src/test"));

    assert_eq!(operator.items().len(), 2);
    assert_eq!(operator.items().get(1), Some(&s("./src/testfile2")));
    assert_eq!(operator.items().get(2), Some(&s("./src/testfile1")));
}

#[test]
fn test_get_unique_tmp_name_first_try() {
    let temp_str = "/t";
    let mut fs = MemFs::new();
    fs.add_dir(&s(temp_str));
    fs.add_file(&(temp_str.to_owned() + "/file_1"));

    let got = get_unique_tmp_name(&fs, &(temp_str.to_owned() + "/file_1")).unwrap();
    assert_eq!(temp_str.to_owned() + "/file_1~", got);
}

#[test]
fn test_get_unique_tmp_name_1() {
    let temp_str = "/t";
    let mut fs = MemFs::new();
    fs.add_dir(&s(temp_str));
    fs.add_file(&(temp_str.to_owned() + "/file_1"));
    fs.add_file(&(temp_str.to_owned() + "/file_1~"));

    let got = get_unique_tmp_name(&fs, &(temp_str.to_owned() + "/file_1")).unwrap();
    assert_eq!(temp_str.to_owned() + "/file_1~1", got);
}

#[test]
fn test_get_unique_tmp_name_successive_integers() {
    // The candidates are the name with a tilde, then the tilde followed by
    // the successive integers: x~, x~1, x~2, …
    let mut fs = MemFs::new();
    fs.add_file(&s("x"));
    fs.add_file(&s("x~"));
    fs.add_file(&s("x~1"));

    let got = get_unique_tmp_name(&fs, &s("x")).unwrap();
    assert_eq!(got, "x~2");
}

#[test]
fn test_copy_onto_same_resolved_path_fails() {
    // A second edit for a resolved identifier whose target equals the
    // resolved path displaces the file, then fails the copy: the source
    // was just displaced.
    let mut fs = MemFs::new();
    fs.add_file(&s("a"));

    let mut items = IdMap::new();
    items.insert(1, s("a"));
    let mut operator = Operator::new(items);

    let res = operator.apply_changes(
        ParsedLine {
            num: 1,
            filename: s("a"),
        },
        &mut fs,
    );
    assert!(res.is_ok());

    let res = operator.apply_changes(
        ParsedLine {
            num: 1,
            filename: s("a"),
        },
        &mut fs,
    );
    let err = res.unwrap_err();
    assert!(matches!(err, OpsError::FailCopy { .. }));
    // The displaced file is still on disk under its temporary name.
    assert!(fs.has_path(&s("a~")));
}

#[test]
fn test_rename_into_own_subtree_fails() {
    let mut fs = MemFs::new();
    fs.add_dir(&s("a"));

    let res = fs.rename(&s("a"), &s("a/b"));
    assert!(matches!(res.unwrap_err(), OpsError::FailRename { .. }));
    assert!(fs.has_path(&s("a")));
}

#[test]
fn test_three_way_cycle() {
    // A three-way cyclic swap resolves through iterated single
    // displacements.
    let mut fs = MemFs::new();
    fs.add_file(&s("a"));
    fs.add_file(&s("b"));
    fs.add_file(&s("c"));

    let mut items = IdMap::new();
    items.insert(1, s("a"));
    items.insert(2, s("b"));
    items.insert(3, s("c"));
    let mut operator = Operator::new(items);

    assert!(operator
        .apply_changes(
            ParsedLine {
                num: 1,
                filename: s("b"),
            },
            &mut fs,
        )
        .is_ok());
    // b was displaced to b~ and item 2 follows it.
    assert_eq!(operator.items().get(2), Some(&s("b~")));

    assert!(operator
        .apply_changes(
            ParsedLine {
                num: 2,
                filename: s("c"),
            },
            &mut fs,
        )
        .is_ok());
    assert_eq!(operator.items().get(3), Some(&s("c~")));

    assert!(operator
        .apply_changes(
            ParsedLine {
                num: 3,
                filename: s("a"),
            },
            &mut fs,
        )
        .is_ok());

    assert!(operator.items().is_empty());
    assert_eq!(operator.dones().get(1), Some(&s("b")));
    assert_eq!(operator.dones().get(2), Some(&s("c")));
    assert_eq!(operator.dones().get(3), Some(&s("a")));
    assert!(fs.has_path(&s("a")));
    assert!(fs.has_path(&s("b")));
    assert!(fs.has_path(&s("c")));
}

#[test]
fn test_create_dir_over_file_fails() {
    let mut fs = MemFs::new();
    fs.add_file(&s("a"));

    let res = fs.create_dir_all(&s("a"));
    assert!(matches!(res.unwrap_err(), OpsError::Io(_)));

    // Creating a directory that already is one changes nothing and is fine.
    let mut fs = MemFs::new();
    fs.add_dir(&s("d"));
    assert!(fs.create_dir_all(&s("d")).is_ok());
}

#[test]
fn test_error_messages() {
    let err = OpsError::FailRename {
        from: s("a"),
        to: s("b"),
        msg: s("boom"),
    };
    assert_eq!(err.message(), "failed to rename a to b: boom");
    let err = OpsError::FailCopy {
        from: s("a"),
        to: s("b"),
        msg: s("boom"),
    };
    assert_eq!(err.message(), "failed to copy a to b: boom");
    let err = OpsError::Io(s("something else"));
    assert_eq!(err.message(), "something else");
    assert_eq!(OpsError::UnknownNumber(42).message(), "unknown item number 42");
    assert_eq!(OpsError::NotFound(s("gone")).message(), "gone does not exist");
}
