use lakach::browse::{filter_folders, sort_folders};

#[test]
fn empty_query_keeps_the_whole_list() {
    let names = vec!["zeta".to_string(), "alpha".to_string(), "mid".to_string()];
    let out = filter_folders(&names, "");
    assert_eq!(out, names);
}

#[test]
fn query_drops_names_that_do_not_match() {
    let names = vec![
        "holiday_photos".to_string(),
        "music".to_string(),
        "old_photos".to_string(),
    ];
    let out = filter_folders(&names, "photo");
    assert_eq!(out.len(), 2);
    assert!(out.contains(&"holiday_photos".to_string()));
    assert!(out.contains(&"old_photos".to_string()));
    assert!(!out.contains(&"music".to_string()));
}

#[test]
fn exact_name_ranks_before_a_looser_match() {
    let names = vec!["xabcx".to_string(), "abc".to_string()];
    let out = filter_folders(&names, "abc");
    assert_eq!(out[0], "abc");
    assert_eq!(out[1], "xabcx");
}

#[test]
fn no_match_empties_the_list() {
    let names = vec!["one".to_string(), "two".to_string()];
    let out = filter_folders(&names, "qqq");
    assert!(out.is_empty());
}

#[test]
fn equal_names_score_equally_whatever_was_scored_before() {
    // the same name must get the same score on every call, so the two
    // exact copies tie, stay in original order, and both rank above the
    // weaker match that was scored between them
    let names = vec!["ab".to_string(), "zzzzzab".to_string(), "ab".to_string()];
    let out = filter_folders(&names, "ab");
    assert_eq!(
        out,
        vec!["ab".to_string(), "ab".to_string(), "zzzzzab".to_string()]
    );
}

#[test]
fn folders_sort_case_insensitively() {
    let names = vec![
        "banana".to_string(),
        "Apple".to_string(),
        "cherry".to_string(),
        "B1".to_string(),
    ];
    let out = sort_folders(&names);
    assert_eq!(
        out,
        vec![
            "Apple".to_string(),
            "B1".to_string(),
            "banana".to_string(),
            "cherry".to_string()
        ]
    );
}

#[test]
fn case_only_differences_keep_original_order() {
    let names = vec!["BETA".to_string(), "beta".to_string(), "Beta".to_string()];
    let out = sort_folders(&names);
    assert_eq!(
        out,
        vec!["BETA".to_string(), "beta".to_string(), "Beta".to_string()]
    );
}

#[test]
fn uppercase_sorts_by_its_lowercase_key() {
    // code-point order would put "B" before "a"; the lowercase key must not
    let names = vec!["B".to_string(), "a".to_string()];
    let out = sort_folders(&names);
    assert_eq!(out, vec!["a".to_string(), "B".to_string()]);
}
