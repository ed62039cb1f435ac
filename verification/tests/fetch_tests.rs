use bottlecache::fetch::{is_result_artifact, new_runs};

#[test]
fn result_artifact_plain() {
    assert!(is_result_artifact("results.json"));
}

#[test]
fn result_artifact_case_insensitive() {
    assert!(is_result_artifact("RESULTS.JSON"));
    assert!(is_result_artifact("nightly.Json"));
}

#[test]
fn result_artifact_double_extension() {
    assert!(is_result_artifact("runs.tar.json"));
}

#[test]
fn result_artifact_rejects_others() {
    assert!(!is_result_artifact("results.zip"));
    assert!(!is_result_artifact("resultsjson"));
    assert!(!is_result_artifact("results.jsonx"));
    assert!(!is_result_artifact("json"));
    assert!(!is_result_artifact(""));
}

#[test]
fn result_artifact_rejects_bare_dotfile() {
    // a name that is nothing but the extension has no stem
    assert!(!is_result_artifact(".json"));
}

#[test]
fn new_runs_filters_known() {
    let listed = vec![1u64, 2, 3, 4];
    let known = vec![2u64, 4];
    assert_eq!(new_runs(&listed, &known), vec![1u64, 3]);
}

#[test]
fn new_runs_keeps_order() {
    let listed = vec![9u64, 5, 7];
    let known = Vec::new();
    assert_eq!(new_runs(&listed, &known), vec![9u64, 5, 7]);
}

#[test]
fn new_runs_all_known() {
    let listed = vec![1u64, 2];
    let known = vec![1u64, 2];
    assert_eq!(new_runs(&listed, &known), Vec::<u64>::new());
}
