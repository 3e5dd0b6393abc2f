use dupfinder::{
    calculate_hash, is_affirmative, is_yes_token, same_hash, Action, FingerprintIndex,
    Reconciler, DIGEST_LEN,
};

fn hex(bytes: &[u8]) -> String {
    bytes.iter().map(|b| format!("{:02x}", b)).collect()
}

/// Index over files given in discovery order; `None` is a file that could
/// not be read.
fn index_of(contents: &[Option<&str>]) -> FingerprintIndex {
    let mut index = FingerprintIndex::new();
    for (id, content) in contents.iter().enumerate() {
        assert_eq!(index.add_read_result(content.map(|c| c.as_bytes())), id);
    }
    assert_eq!(index.file_count(), contents.len());
    index
}

#[test]
fn hash_of_hello_is_sha256() {
    let h = calculate_hash(b"hello");
    assert_eq!(h.len(), DIGEST_LEN);
    assert_eq!(
        hex(&h),
        "2cf24dba5fb0a30e26e83b2ac5b9e29e1b161e5c1fa7425e73043362938b9824"
    );
}

#[test]
fn hash_of_empty_content() {
    assert_eq!(
        hex(&calculate_hash(b"")),
        "e3b0c44298fc1c149afbf4c8996fb92427ae41e4649b934ca495991b7852b855"
    );
}

#[test]
fn equal_contents_equal_hashes() {
    let a = calculate_hash(b"hello");
    let b = calculate_hash(b"hello");
    let c = calculate_hash(b"world");
    assert!(same_hash(&a, &b));
    assert!(!same_hash(&a, &c));
    assert!(!same_hash(&a, &a[..31]));
}

#[test]
fn affirmative_answers() {
    assert!(is_affirmative("y"));
    assert!(is_affirmative("y\n"));
    assert!(is_affirmative("  Y \r\n"));
    assert!(!is_affirmative("yes"));
    assert!(!is_affirmative("n"));
    assert!(!is_affirmative(""));
    assert!(!is_affirmative("y y"));
}

#[test]
fn yes_token_is_exact() {
    assert!(is_yes_token("y"));
    assert!(!is_yes_token("Y"));
    assert!(!is_yes_token(" y"));
    assert!(!is_yes_token("yy"));
}

#[test]
fn scenario_hello_world_groups() {
    let index = index_of(&[Some("hello"), Some("hello"), Some("world")]);
    assert_eq!(index.len(), 2);
    assert_eq!(index.bucket(0).files(), &vec![0, 1]);
    assert_eq!(index.bucket(1).files(), &vec![2]);
    assert_eq!(hex(index.bucket(1).hash()), hex(&calculate_hash(b"world")));
    assert_eq!(index.duplicate_groups(), vec![vec![0, 1]]);
}

#[test]
fn scenario_confirm_keeps_first() {
    let index = index_of(&[Some("hello"), Some("hello"), Some("world")]);
    let mut r = Reconciler::from_index(&index);
    assert_eq!(r.group_count(), 1);
    assert_eq!(r.next_action(), Action::Confirm(0));
    assert_eq!(r.group(0), &vec![0, 1]);
    r.answer(is_affirmative("y\n"));
    assert_eq!(r.next_action(), Action::Delete(1));
    r.record_deletion(true);
    assert_eq!(r.next_action(), Action::Finish);
    assert!(r.failed().is_empty());
}

#[test]
fn scenario_decline_deletes_nothing() {
    let index = index_of(&[Some("hello"), Some("hello"), Some("world")]);
    let mut r = Reconciler::from_index(&index);
    assert_eq!(r.next_action(), Action::Confirm(0));
    r.answer(is_affirmative("n\n"));
    assert_eq!(r.next_action(), Action::Finish);
}

#[test]
fn yes_in_full_is_negative() {
    let index = index_of(&[Some("x"), Some("x")]);
    let mut r = Reconciler::from_index(&index);
    r.answer(is_affirmative("yes"));
    assert_eq!(r.next_action(), Action::Finish);
}

#[test]
fn unreadable_file_is_left_out() {
    let index = index_of(&[Some("hello"), None, Some("hello"), Some("world")]);
    assert_eq!(index.file_count(), 4);
    assert_eq!(index.duplicate_groups(), vec![vec![0, 2]]);
    let mut total = 0;
    for i in 0..index.len() {
        assert!(!index.bucket(i).files().contains(&1));
        total += index.bucket(i).files().len();
    }
    assert_eq!(total, 3);
}

#[test]
fn empty_tree_has_no_duplicates() {
    let index = FingerprintIndex::new();
    assert_eq!(index.len(), 0);
    assert!(index.duplicate_groups().is_empty());
    let r = Reconciler::from_index(&index);
    assert_eq!(r.next_action(), Action::NoDuplicates);
}

#[test]
fn distinct_contents_have_no_duplicates() {
    let index = index_of(&[Some("a"), Some("b"), Some(""), Some("c")]);
    assert_eq!(index.len(), 4);
    assert!(index.duplicate_groups().is_empty());
    assert_eq!(Reconciler::from_index(&index).next_action(), Action::NoDuplicates);
}

#[test]
fn unreadable_only_has_no_duplicates() {
    let index = index_of(&[None, None]);
    assert_eq!(index.len(), 0);
    assert_eq!(Reconciler::from_index(&index).next_action(), Action::NoDuplicates);
}

#[test]
fn identical_files_share_one_group() {
    let index = index_of(&[
        Some("a"),
        Some("b"),
        Some("a"),
        Some("c"),
        Some("b"),
        Some("a"),
        Some(""),
    ]);
    assert_eq!(index.duplicate_groups(), vec![vec![0, 2, 5], vec![1, 4]]);
}

#[test]
fn rescan_gives_same_buckets() {
    let contents = [Some("a"), Some("b"), None, Some("a"), Some("c"), Some("b")];
    let first = index_of(&contents);
    let second = index_of(&contents);
    assert_eq!(first.len(), second.len());
    for i in 0..first.len() {
        assert_eq!(first.bucket(i).hash(), second.bucket(i).hash());
        assert_eq!(first.bucket(i).files(), second.bucket(i).files());
    }
    assert_eq!(first.duplicate_groups(), second.duplicate_groups());
}

#[test]
fn insert_appends_in_discovery_order() {
    let mut index = FingerprintIndex::new();
    let h = calculate_hash(b"same");
    assert_eq!(index.insert(h.clone()), 0);
    assert_eq!(index.insert(calculate_hash(b"other")), 1);
    assert_eq!(index.insert(h.clone()), 2);
    assert_eq!(index.len(), 2);
    assert_eq!(index.bucket(0).hash(), &h);
    assert_eq!(index.bucket(0).files(), &vec![0, 2]);
    assert_eq!(index.bucket(1).files(), &vec![1]);
    assert_eq!(index.file_count(), 3);
}

#[test]
fn add_file_hashes_content() {
    let mut index = FingerprintIndex::new();
    assert_eq!(index.add_file(b"hello"), 0);
    assert_eq!(index.bucket(0).hash(), &calculate_hash(b"hello"));
    assert_ne!(index.bucket(0).hash(), &b"hello".to_vec());
}

#[test]
fn deletion_failure_is_isolated() {
    let index = index_of(&[
        Some("a"),
        Some("a"),
        Some("a"),
        Some("b"),
        Some("b"),
    ]);
    let mut r = Reconciler::from_index(&index);
    assert_eq!(r.next_action(), Action::Confirm(0));
    r.answer(true);
    assert_eq!(r.next_action(), Action::Delete(1));
    r.record_deletion(false);
    assert_eq!(r.next_action(), Action::Delete(2));
    r.record_deletion(true);
    assert_eq!(r.next_action(), Action::Confirm(1));
    assert_eq!(r.group(1), &vec![3, 4]);
    r.answer(true);
    assert_eq!(r.next_action(), Action::Delete(4));
    r.record_deletion(false);
    assert_eq!(r.next_action(), Action::Finish);
    assert_eq!(r.failed(), &vec![1, 4]);
}

#[test]
fn mixed_answers_per_group() {
    let index = index_of(&[Some("a"), Some("b"), Some("a"), Some("b"), Some("b")]);
    let mut r = Reconciler::from_index(&index);
    let mut deleted = Vec::new();
    let answers = ["n", "Y"];
    let mut asked = 0;
    loop {
        match r.next_action() {
            Action::NoDuplicates | Action::Finish => break,
            Action::Confirm(g) => {
                assert_eq!(g, asked);
                r.answer(is_affirmative(answers[asked]));
                asked += 1;
            }
            Action::Delete(f) => {
                deleted.push(f);
                r.record_deletion(true);
            }
        }
    }
    assert_eq!(asked, 2);
    assert_eq!(deleted, vec![3, 4]);
}
