use rust_analyzer_project::aquery::{
    classify_decode_failure, collect_output_files, decode_failure, path_from_fragments, Action,
    AqueryError, AqueryOutput, Artifact, PathFragment, Target,
};
use rust_analyzer_project::build_files::{build_file_candidates, file_targets_pattern, package_of_label};

fn fragment(id: u32, label: &str, parent_id: Option<u32>) -> PathFragment {
    PathFragment { id, label: label.into(), parent_id }
}

fn chain() -> Vec<PathFragment> {
    vec![fragment(1, "a", None), fragment(2, "b", Some(1)), fragment(3, "c", Some(2))]
}

#[test]
fn a_fragment_chain_resolves_to_its_path() {
    assert_eq!(path_from_fragments(3, &chain()), Ok("a/b/c".to_string()));
    assert_eq!(path_from_fragments(1, &chain()), Ok("a".to_string()));
}

#[test]
fn fragment_order_does_not_matter() {
    let mut f = chain();
    f.reverse();
    assert_eq!(path_from_fragments(3, &f), Ok("a/b/c".to_string()));
}

#[test]
fn an_unknown_fragment_is_a_fault() {
    assert_eq!(path_from_fragments(9, &chain()), Err(AqueryError::MissingPathFragment(9)));
    let broken = vec![fragment(2, "b", Some(7))];
    assert_eq!(path_from_fragments(2, &broken), Err(AqueryError::MissingPathFragment(7)));
}

#[test]
fn a_fragment_cycle_is_a_fault() {
    let cyclic = vec![fragment(1, "a", Some(2)), fragment(2, "b", Some(1))];
    assert!(matches!(path_from_fragments(1, &cyclic), Err(AqueryError::PathFragmentCycle(_))));
}

fn query() -> AqueryOutput {
    AqueryOutput {
        artifacts: vec![
            Artifact { id: 10, path_fragment_id: 3 },
            Artifact { id: 11, path_fragment_id: 4 },
            Artifact { id: 12, path_fragment_id: 5 },
        ],
        actions: vec![
            Action { output_ids: vec![10], target_id: 100 },
            Action { output_ids: vec![12], target_id: 200 },
            Action { output_ids: vec![11], target_id: 100 },
        ],
        path_fragments: vec![
            fragment(1, "bazel-out", None),
            fragment(2, "bin", Some(1)),
            fragment(3, "x.json", Some(2)),
            fragment(4, "y.json", Some(2)),
            fragment(5, "z.json", Some(2)),
        ],
        targets: vec![Target { id: 100, label: "//pkg:x".into() }, Target { id: 200, label: "//pkg:z".into() }],
    }
}

#[test]
fn outputs_are_grouped_by_target_label() {
    let groups = collect_output_files("/exec", &query()).unwrap();
    assert_eq!(
        groups,
        vec![
            (
                "//pkg:x".to_string(),
                vec!["/exec/bazel-out/bin/x.json".to_string(), "/exec/bazel-out/bin/y.json".to_string()]
            ),
            ("//pkg:z".to_string(), vec!["/exec/bazel-out/bin/z.json".to_string()]),
        ]
    );
}

#[test]
fn an_action_of_an_unknown_target_is_a_fault() {
    let mut q = query();
    q.actions.push(Action { output_ids: vec![], target_id: 300 });
    assert_eq!(collect_output_files("/exec", &q), Err(AqueryError::MissingTarget(300)));
}

#[test]
fn an_unknown_artifact_is_a_fault() {
    let mut q = query();
    q.actions[1].output_ids.push(99);
    assert_eq!(collect_output_files("/exec", &q), Err(AqueryError::MissingArtifact(99)));
}

#[test]
fn a_target_without_outputs_has_an_empty_group() {
    let mut q = query();
    q.actions = vec![Action { output_ids: vec![], target_id: 200 }];
    assert_eq!(collect_output_files("/exec", &q), Ok(vec![("//pkg:z".to_string(), Vec::new())]));
}

#[test]
fn decode_failures_are_told_apart() {
    assert_eq!(classify_decode_failure("{}"), AqueryError::EmptyResult);
    assert_eq!(classify_decode_failure("{\"unexpected\": 1}"), AqueryError::EmptyResult);
    assert_eq!(classify_decode_failure("[1, 2]"), AqueryError::Malformed);
    assert_eq!(classify_decode_failure("not json"), AqueryError::Malformed);
    assert_eq!(decode_failure(true), AqueryError::EmptyResult);
    assert_eq!(decode_failure(false), AqueryError::Malformed);
}

#[test]
fn build_files_of_a_local_label() {
    assert_eq!(
        build_file_candidates("//foo/bar:baz", "/ws"),
        vec!["/ws/foo/bar/BUILD.bazel".to_string(), "/ws/foo/bar/BUILD".to_string()]
    );
    assert_eq!(build_file_candidates("//foo", "/ws"), vec!["/ws/foo/BUILD.bazel".to_string(), "/ws/foo/BUILD".to_string()]);
}

#[test]
fn external_labels_have_no_build_file() {
    assert!(build_file_candidates("@repo//foo:bar", "/ws").is_empty());
    assert!(build_file_candidates(":bar", "/ws").is_empty());
    assert_eq!(package_of_label("@@rules_rust//x:y"), None);
    assert_eq!(package_of_label("//a/b:c"), Some("a/b".to_string()));
    assert_eq!(package_of_label("//:c"), Some("".to_string()));
}

#[test]
fn file_query_output_becomes_a_package_pattern() {
    assert_eq!(file_targets_pattern("//pkg/sub:lib.rs\n"), "//pkg/sub:*");
    assert_eq!(file_targets_pattern("//pkg"), "//pkg:*");
}

#[test]
fn groups_come_in_ascending_label_order() {
    let mut q = query();
    q.actions.reverse();
    let groups = collect_output_files("/exec", &q).unwrap();
    let labels: Vec<&str> = groups.iter().map(|(l, _)| l.as_str()).collect();
    assert_eq!(labels, vec!["//pkg:x", "//pkg:z"]);
    assert_eq!(
        groups[0].1,
        vec!["/exec/bazel-out/bin/y.json".to_string(), "/exec/bazel-out/bin/x.json".to_string()]
    );
}
