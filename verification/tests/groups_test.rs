use tabnas_hoover::{groups_enabled, listed};

#[test]
fn groups_enabled_mirrors_the_engine_filter() {
    assert!(groups_enabled("", "", ""));
    assert!(groups_enabled("mini", "mini", ""));
    assert!(!groups_enabled("", "mini", ""));
    assert!(!groups_enabled("mini", "mini", "mini"));
    assert!(groups_enabled("a,mini", "mini,json", "other"));
}

#[test]
fn listed_splits_trims_and_drops_empty_entries() {
    assert_eq!(listed(" a , ,b,, \u{0085}c\t"), vec!["a", "b", "c"]);
    assert_eq!(listed(""), Vec::<String>::new());
    assert_eq!(listed(" , "), Vec::<String>::new());
    assert_eq!(listed("json"), vec!["json"]);
}

#[test]
fn an_include_list_of_only_separators_constrains_nothing() {
    // A non-empty list that names no group: every alt passes the include
    // side, and the exclude side still applies.
    assert!(groups_enabled("", " , ", ""));
    assert!(!groups_enabled("x", " , ", "x"));
}
