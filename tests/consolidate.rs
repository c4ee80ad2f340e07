use itertools::Itertools;
use rust_analyzer_project::consolidate::{consolidate_crate_specs, merge_crate_spec};
use rust_analyzer_project::crate_spec::{CrateSpec, CrateType};

fn spec(
    crate_id: &str,
    display_name: &str,
    root_module: &str,
    deps: &[&str],
    crate_type: CrateType,
    bazel_target: &str,
) -> CrateSpec {
    CrateSpec {
        aliases: Vec::new(),
        crate_id: crate_id.into(),
        display_name: display_name.into(),
        edition: "2018".into(),
        root_module: root_module.into(),
        is_workspace_member: true,
        deps: deps.iter().map(|d| d.to_string()).collect(),
        proc_macro_dylib_path: None,
        source: None,
        cfg: vec!["test".into(), "debug_assertions".into()],
        env: Vec::new(),
        target: "x86_64-unknown-linux-gnu".into(),
        crate_type,
        build_file: None,
        bazel_target: bazel_target.to_owned(),
    }
}

/// The records sorted by id: the result is a set of records.
fn normalized(mut specs: Vec<CrateSpec>) -> Vec<CrateSpec> {
    specs.sort_by(|a, b| a.crate_id.cmp(&b.crate_id));
    specs
}

#[test]
fn consolidate_lib_then_test_specs() {
    let crate_specs = vec![
        spec("ID-mylib.rs", "mylib", "mylib.rs", &["ID-lib_dep.rs"], CrateType::Rlib, "//tools/rust_analyzer:gen_rust_project_lib"),
        spec("ID-extra_test_dep.rs", "extra_test_dep", "extra_test_dep.rs", &[], CrateType::Rlib, "//tools/rust_analyzer:gen_rust_project_lib"),
        spec("ID-lib_dep.rs", "lib_dep", "lib_dep.rs", &[], CrateType::Rlib, "//tools/rust_analyzer:gen_rust_project_lib"),
        spec("ID-mylib.rs", "mylib_test", "mylib.rs", &["ID-extra_test_dep.rs"], CrateType::Bin, "//tools/rust_analyzer:gen_rust_project"),
    ];

    assert_eq!(
        normalized(consolidate_crate_specs(crate_specs)),
        normalized(vec![
            spec("ID-mylib.rs", "mylib", "mylib.rs", &["ID-extra_test_dep.rs", "ID-lib_dep.rs"], CrateType::Rlib, "//tools/rust_analyzer:gen_rust_project_lib"),
            spec("ID-extra_test_dep.rs", "extra_test_dep", "extra_test_dep.rs", &[], CrateType::Rlib, "//tools/rust_analyzer:gen_rust_project_lib"),
            spec("ID-lib_dep.rs", "lib_dep", "lib_dep.rs", &[], CrateType::Rlib, "//tools/rust_analyzer:gen_rust_project_lib"),
        ])
    );
}

#[test]
fn consolidate_test_then_lib_specs() {
    let crate_specs = vec![
        spec("ID-mylib.rs", "mylib_test", "mylib.rs", &["ID-extra_test_dep.rs"], CrateType::Bin, "//tools/rust_analyzer:gen_rust_project"),
        spec("ID-mylib.rs", "mylib", "mylib.rs", &["ID-lib_dep.rs"], CrateType::Rlib, "//tools/rust_analyzer:gen_rust_project_lib"),
        spec("ID-extra_test_dep.rs", "extra_test_dep", "extra_test_dep.rs", &[], CrateType::Rlib, "//tools/rust_analyzer:gen_rust_project_lib"),
        spec("ID-lib_dep.rs", "lib_dep", "lib_dep.rs", &[], CrateType::Rlib, "//tools/rust_analyzer:gen_rust_project_lib"),
    ];

    assert_eq!(
        normalized(consolidate_crate_specs(crate_specs)),
        normalized(vec![
            spec("ID-mylib.rs", "mylib", "mylib.rs", &["ID-extra_test_dep.rs", "ID-lib_dep.rs"], CrateType::Rlib, "//tools/rust_analyzer:gen_rust_project_lib"),
            spec("ID-extra_test_dep.rs", "extra_test_dep", "extra_test_dep.rs", &[], CrateType::Rlib, "//tools/rust_analyzer:gen_rust_project_lib"),
            spec("ID-lib_dep.rs", "lib_dep", "lib_dep.rs", &[], CrateType::Rlib, "//tools/rust_analyzer:gen_rust_project_lib"),
        ])
    );
}

#[test]
fn consolidate_lib_test_main_specs() {
    // mylib.rs is a library but has tests and an entry point, and mylib2.rs
    // depends on mylib.rs. The display_name of the library target mylib.rs
    // should be "mylib" no matter what order the crate specs is in.
    let crate_specs = vec![
        spec("ID-mylib.rs", "mylib", "mylib.rs", &[], CrateType::Rlib, "//tools/rust_analyzer:gen_rust_project_lib"),
        spec("ID-mylib.rs", "mylib_test", "mylib.rs", &[], CrateType::Bin, "//tools/rust_analyzer:gen_rust_project"),
        spec("ID-mylib.rs", "mylib_main", "mylib.rs", &[], CrateType::Bin, "//tools/rust_analyzer:gen_rust_project"),
        spec("ID-mylib2.rs", "mylib2", "mylib2.rs", &["ID-mylib.rs"], CrateType::Rlib, "//tools/rust_analyzer:gen_rust_project_lib"),
    ];

    for perm in crate_specs.into_iter().permutations(4) {
        assert_eq!(
            normalized(consolidate_crate_specs(perm)),
            normalized(vec![
                spec("ID-mylib.rs", "mylib", "mylib.rs", &[], CrateType::Rlib, "//tools/rust_analyzer:gen_rust_project_lib"),
                spec("ID-mylib2.rs", "mylib2", "mylib2.rs", &["ID-mylib.rs"], CrateType::Rlib, "//tools/rust_analyzer:gen_rust_project_lib"),
            ])
        );
    }
}

#[test]
fn consolidate_proc_macro_prefer_exec() {
    // proc macro crates should prefer the -opt-exec- path which is always generated
    // during builds where it is used, while the fastbuild version would only be built
    // when explicitly building that target.
    let mut exec = spec("ID-myproc_macro.rs", "myproc_macro", "myproc_macro.rs", &[], CrateType::ProcMacro, "//tools/rust_analyzer:gen_rust_project_proc_macro");
    exec.proc_macro_dylib_path =
        Some("bazel-out/k8-opt-exec-F005BA11/bin/myproc_macro/libmyproc_macro-12345.so".into());
    let mut fastbuild = exec.clone();
    fastbuild.proc_macro_dylib_path =
        Some("bazel-out/k8-fastbuild/bin/myproc_macro/libmyproc_macro-12345.so".into());

    for perm in vec![exec.clone(), fastbuild].into_iter().permutations(2) {
        assert_eq!(consolidate_crate_specs(perm), vec![exec.clone()]);
    }
}

#[test]
fn consolidate_orders_records_by_id() {
    let specs = vec![
        spec("ID-b", "b", "b.rs", &[], CrateType::Rlib, "//:b"),
        spec("ID-a", "a", "a.rs", &[], CrateType::Rlib, "//:a"),
        spec("ID-b", "b_test", "b.rs", &[], CrateType::Bin, "//:b_test"),
    ];
    let out = consolidate_crate_specs(specs);
    let ids: Vec<&str> = out.iter().map(|c| c.crate_id.as_str()).collect();
    assert_eq!(ids, vec!["ID-a", "ID-b"]);
    assert_eq!(out[1].display_name, "b");
}

#[test]
fn consolidate_empty_input() {
    assert!(consolidate_crate_specs(Vec::new()).is_empty());
}

#[test]
fn library_name_wins_in_either_order() {
    let mut lib = spec("ID-x", "x", "x.rs", &[], CrateType::Rlib, "//:x");
    lib.build_file = Some("/ws/x/BUILD.bazel".into());
    let bin = spec("ID-x", "x_bin", "x.rs", &[], CrateType::Bin, "//:x_bin");
    for perm in vec![lib.clone(), bin.clone()].into_iter().permutations(2) {
        let first_build_file = perm[0].build_file.clone();
        let out = consolidate_crate_specs(perm);
        assert_eq!(out.len(), 1);
        assert_eq!(out[0].display_name, "x");
        assert_eq!(out[0].crate_type, CrateType::Rlib);
        assert_eq!(out[0].bazel_target, "//:x");
        // The build file stays that of the first record.
        assert_eq!(out[0].build_file, first_build_file);
    }
}

#[test]
fn only_an_rlib_takes_over_the_name() {
    let rlib = spec("ID-y", "y", "y.rs", &[], CrateType::Rlib, "//:y");
    let dylib = spec("ID-y", "y_dylib", "y.rs", &[], CrateType::Dylib, "//:y_dylib");
    for perm in vec![rlib.clone(), dylib.clone()].into_iter().permutations(2) {
        let out = consolidate_crate_specs(perm);
        assert_eq!(out[0].display_name, "y");
        assert_eq!(out[0].crate_type, CrateType::Rlib);
    }
    let out = consolidate_crate_specs(vec![dylib.clone(), spec("ID-y", "y_bin", "y.rs", &[], CrateType::Bin, "//:y_bin")]);
    assert_eq!(out[0].display_name, "y_dylib");
}

#[test]
fn dependencies_come_out_in_ascending_order() {
    let out = consolidate_crate_specs(vec![
        spec("ID-u", "u", "u.rs", &["c", "a", "c"], CrateType::Bin, "//:u"),
        spec("ID-u", "u", "u.rs", &["b", "a"], CrateType::Rlib, "//:u"),
    ]);
    assert_eq!(out[0].deps, vec!["a".to_string(), "b".to_string(), "c".to_string()]);
}

#[test]
fn proc_macro_path_without_marker_does_not_replace() {
    let mut a = spec("ID-m", "m", "m.rs", &[], CrateType::ProcMacro, "//:m");
    a.proc_macro_dylib_path = None;
    let mut b = a.clone();
    b.proc_macro_dylib_path = Some("bazel-out/k8-opt-exec-1/bin/libm.so".into());
    for perm in vec![a.clone(), b.clone()].into_iter().permutations(2) {
        let out = consolidate_crate_specs(perm);
        assert_eq!(out[0].proc_macro_dylib_path, b.proc_macro_dylib_path);
    }
}

#[test]
fn dependency_sets_are_united() {
    let a = spec("ID-u", "u", "u.rs", &["A"], CrateType::Rlib, "//:u");
    let b = spec("ID-u", "u", "u.rs", &["B"], CrateType::Rlib, "//:u");
    for perm in vec![a.clone(), b.clone()].into_iter().permutations(2) {
        let deps = consolidate_crate_specs(perm)[0].deps.clone();
        assert_eq!(deps, vec!["A".to_string(), "B".to_string()]);
    }
}

#[test]
fn merge_appends_new_cfgs_in_first_seen_order() {
    let mut existing = spec("ID-c", "c", "c.rs", &["A", "B"], CrateType::Rlib, "//:c");
    existing.cfg = vec!["test".into()];
    let mut incoming = spec("ID-c", "c_bin", "c.rs", &["B", "C"], CrateType::Bin, "//:c_bin");
    incoming.cfg = vec!["feature=\"x\"".into(), "test".into(), "unix".into(), "unix".into()];
    merge_crate_spec(&mut existing, &incoming);
    assert_eq!(existing.cfg, vec!["test".to_string(), "feature=\"x\"".to_string(), "unix".to_string()]);
    assert_eq!(existing.deps, vec!["A".to_string(), "B".to_string(), "C".to_string()]);
    assert_eq!(existing.display_name, "c");
    assert_eq!(existing.crate_type, CrateType::Rlib);
}

#[test]
fn any_input_order_gives_the_same_records_in_the_same_order() {
    let specs = vec![
        spec("ID-c", "c", "c.rs", &["ID-a"], CrateType::Rlib, "//:c"),
        spec("ID-a", "a", "a.rs", &[], CrateType::Rlib, "//:a"),
        spec("ID-b", "b_test", "b.rs", &["ID-c"], CrateType::Bin, "//:b_test"),
        spec("ID-b", "b", "b.rs", &["ID-a"], CrateType::Rlib, "//:b"),
    ];
    let expected = consolidate_crate_specs(specs.clone());
    for perm in specs.into_iter().permutations(4) {
        assert_eq!(consolidate_crate_specs(perm), expected);
    }
}
