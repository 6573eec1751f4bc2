use dogrun::{Args, Dog, DogError, PathStatus, TastingError};

fn foods() -> Vec<String> {
    vec!["a".into(), "b".into(), "c".into()]
}

fn present_file() -> PathStatus {
    PathStatus::Present { is_dir: false, readonly: false }
}

fn present_dir() -> PathStatus {
    PathStatus::Present { is_dir: true, readonly: false }
}

fn dog_for(targets: Vec<String>) -> Dog {
    let mut argv: Vec<String> = vec!["dog".into()];
    argv.extend(targets);
    Dog::foods(Args::new(argv)).unwrap()
}

#[test]
fn test_args() {
    let args = Args::new(foods());
    let foods = vec!["b".to_string(), "c".to_string()];

    assert_eq!(args.args(), foods);
}

#[test]
fn test_empty_food() {
    let args = Args::new(vec![]);
    let dog = Dog::foods(args);

    assert!(dog.is_err());
}

#[test]
fn test_uneatable() {
    let args = Args::new(foods());
    let dog = Dog::foods(args).unwrap();
    let statuses = vec![PathStatus::Missing, PathStatus::Missing];

    assert!(dog.run(&statuses).is_err());
}

#[test]
fn test_single_file() {
    let dog = dog_for(vec!["test.txt".into()]);
    let statuses = vec![present_file()];

    assert!(dog.run(&statuses).is_ok());
    assert!(dog.wait(&statuses).is_empty());
}

#[test]
fn test_multi_files() {
    let dog = dog_for(vec!["test1.txt".into(), "test2.txt".into()]);
    let statuses = vec![present_file(), present_file()];

    assert!(dog.run(&statuses).is_ok());
    assert!(dog.wait(&statuses).is_empty());
}

#[test]
fn test_dir() {
    let dog = dog_for(vec!["test_dir".into()]);
    let statuses = vec![present_dir()];

    assert!(dog.run(&statuses).is_err());
}

#[test]
fn test_include_dir() {
    let dog = dog_for(vec!["test3.txt".into(), "test_dir2".into()]);
    let statuses = vec![present_file(), present_dir()];

    assert!(dog.run(&statuses).is_err());
}

#[test]
fn test_all_eligible_batch_succeeds() {
    let dog = dog_for(vec!["one.txt".into(), "two.txt".into(), "three.txt".into()]);
    let statuses = vec![present_file(), present_file(), present_file()];

    assert!(dog.run(&statuses).is_ok());
}

#[test]
fn test_run_twice_still_succeeds() {
    let dog = dog_for(vec!["a.txt".into(), "b.txt".into()]);
    let statuses = vec![present_file(), present_file()];

    assert!(dog.run(&statuses).is_ok());
    assert!(dog.run(&statuses).is_ok());
}

#[test]
fn test_single_eligible_scenario() {
    let dog = dog_for(vec!["a.txt".into()]);
    let statuses = vec![present_file()];

    assert!(dog.run(&statuses).is_ok());
}

#[test]
fn test_missing_scenario() {
    let dog = dog_for(vec!["missing.txt".into()]);
    let statuses = vec![PathStatus::Missing];

    match dog.run(&statuses) {
        Err(DogError::Uneatable(bad)) => {
            assert_eq!(bad.entries.len(), 1);
            assert_eq!(bad.entries[0].0, "missing.txt".to_string());
            assert_eq!(bad.entries[0].1, TastingError::NotExist);
        }
        other => panic!("expected an Uneatable failure, got {:?}", other),
    }
}

#[test]
fn test_dir_blocks_valid_sibling() {
    let dog = dog_for(vec!["a.txt".into(), "some_dir".into()]);
    let statuses = vec![present_file(), present_dir()];

    match dog.run(&statuses) {
        Err(DogError::Uneatable(bad)) => {
            assert_eq!(bad.entries.len(), 1);
            assert_eq!(bad.entries[0].0, "some_dir".to_string());
            assert_eq!(bad.entries[0].1, TastingError::NotFood);
        }
        other => panic!("expected an Uneatable failure, got {:?}", other),
    }
}

#[test]
fn test_empty_input_message() {
    let err = Dog::foods(Args::new(vec![])).err().unwrap();

    assert!(matches!(err, DogError::EmptyFood));
    assert_eq!(err.message(), "No targets specified".to_string());
}

#[test]
fn test_rejection_order_is_sorted() {
    let dog = dog_for(vec!["zeta".into(), "alpha".into(), "mid".into()]);
    let statuses = vec![PathStatus::Missing, PathStatus::Missing, PathStatus::Missing];

    let bad = dog.wait(&statuses);
    assert_eq!(bad.len(), 3);
    assert_eq!(bad.entries[0].0, "alpha".to_string());
    assert_eq!(bad.entries[1].0, "mid".to_string());
    assert_eq!(bad.entries[2].0, "zeta".to_string());
}

#[test]
fn test_rejection_order_independent_of_input_order() {
    let first = dog_for(vec!["zeta".into(), "alpha".into()]);
    let second = dog_for(vec!["alpha".into(), "zeta".into()]);
    let statuses = vec![PathStatus::Missing, PathStatus::Missing];

    let bad_first = first.wait(&statuses);
    let bad_second = second.wait(&statuses);
    assert_eq!(bad_first.entries, bad_second.entries);
}

#[test]
fn test_duplicate_path_keeps_one_entry() {
    let dog = dog_for(vec!["a".into(), "a".into()]);
    let statuses = vec![PathStatus::Undetermined, PathStatus::Missing];

    let bad = dog.wait(&statuses);
    assert_eq!(bad.entries.len(), 1);
    assert_eq!(bad.entries[0].0, "a".to_string());
    assert_eq!(bad.entries[0].1, TastingError::NotExist);
}

#[test]
fn test_taste_each_status() {
    let dog = dog_for(vec!["x".into()]);

    assert_eq!(dog.taste(&PathStatus::AccessDenied), Err(TastingError::NotAllowed));
    assert_eq!(dog.taste(&PathStatus::Missing), Err(TastingError::NotExist));
    assert_eq!(dog.taste(&PathStatus::Undetermined), Err(TastingError::Confused));
    assert_eq!(dog.taste(&present_dir()), Err(TastingError::NotFood));
    assert_eq!(
        dog.taste(&PathStatus::Present { is_dir: false, readonly: true }),
        Err(TastingError::NotAllowed)
    );
    assert_eq!(dog.taste(&present_file()), Ok(()));
}

#[test]
fn test_directory_outranks_readonly() {
    let dog = dog_for(vec!["x".into()]);
    let status = PathStatus::Present { is_dir: true, readonly: true };

    assert_eq!(dog.taste(&status), Err(TastingError::NotFood));
}

#[test]
fn test_report_message_lines() {
    let dog = dog_for(vec!["some_dir".into(), "a.txt".into()]);
    let statuses = vec![present_dir(), PathStatus::Missing];

    match dog.run(&statuses) {
        Err(err) => {
            let expected = "a.txt: does not exist.\nsome_dir: is not legurar-file";
            assert_eq!(err.message(), expected.to_string());
        }
        Ok(_) => panic!("expected a failure"),
    }
}

#[test]
fn test_reason_text_each_variant() {
    assert_eq!(TastingError::Confused.message(), "dog is confused".to_string());
    assert_eq!(TastingError::NotAllowed.message(), "permission denied.".to_string());
    assert_eq!(TastingError::NotExist.message(), "does not exist.".to_string());
    assert_eq!(TastingError::NotFood.message(), "is not legurar-file".to_string());
}

#[test]
fn test_str_lt_order() {
    assert!(dogrun::str_lt("a", "b"));
    assert!(!dogrun::str_lt("b", "a"));
    assert!(!dogrun::str_lt("a", "a"));
    assert!(dogrun::str_lt("a", "ab"));
    assert!(!dogrun::str_lt("ab", "a"));
    assert!(dogrun::str_lt("", "a"));
}

#[test]
fn test_args_keeps_order() {
    let args = Args::new(vec!["dog".into(), "z".into(), "a".into(), "m".into()]);

    assert_eq!(args.args(), vec!["z".to_string(), "a".to_string(), "m".to_string()]);
}
