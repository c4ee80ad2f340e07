use rust_analyzer_project::consolidate::consolidate_crate_specs;
use rust_analyzer_project::crate_spec::{CrateSpec, CrateSpecSource, CrateType, TargetKind};
use rust_analyzer_project::graph::Diagnostic;
use rust_analyzer_project::rust_project::{generate_rust_project, RunnableKind, Source};

fn spec(crate_id: &str, display_name: &str, root_module: &str, deps: &[&str], member: bool) -> CrateSpec {
    CrateSpec {
        aliases: Vec::new(),
        crate_id: crate_id.into(),
        display_name: display_name.into(),
        edition: "2018".into(),
        root_module: root_module.into(),
        is_workspace_member: member,
        deps: deps.iter().map(|d| d.to_string()).collect(),
        proc_macro_dylib_path: None,
        source: None,
        cfg: vec!["test".into(), "debug_assertions".into()],
        env: Vec::new(),
        target: "x86_64-unknown-linux-gnu".into(),
        crate_type: CrateType::Rlib,
        build_file: None,
        bazel_target: "//tools/rust_analyzer:gen_rust_project_lib".to_owned(),
    }
}

/// A simple example with a single crate and no dependencies.
#[test]
fn generate_rust_project_single() {
    let mut diagnostics = Vec::new();
    let project = generate_rust_project(
        "",
        "sysroot",
        "sysroot_src",
        &vec![spec("ID-example", "example", "example/lib.rs", &[], true)],
        &mut diagnostics,
    )
    .ok()
    .expect("expect success");

    assert_eq!(project.crates.len(), 1);
    let c = &project.crates[0];
    assert_eq!(c.display_name, Some("example".into()));
    assert_eq!(c.root_module, "example/lib.rs");
    assert_eq!(c.deps.len(), 0);
}

/// An example with a one crate having two dependencies.
#[test]
fn generate_rust_project_with_deps() {
    let mut diagnostics = Vec::new();
    let project = generate_rust_project(
        "",
        "sysroot",
        "sysroot_src",
        &vec![
            spec("ID-example", "example", "example/lib.rs", &["ID-dep_a", "ID-dep_b"], true),
            spec("ID-dep_a", "dep_a", "dep_a/lib.rs", &[], false),
            spec("ID-dep_b", "dep_b", "dep_b/lib.rs", &[], false),
        ],
        &mut diagnostics,
    )
    .ok()
    .expect("expect success");

    assert_eq!(project.crates.len(), 3);
    // Both dep_a and dep_b should be one of the first two crates.
    assert!(
        Some("dep_a".into()) == project.crates[0].display_name
            || Some("dep_a".into()) == project.crates[1].display_name
    );
    assert!(
        Some("dep_b".into()) == project.crates[0].display_name
            || Some("dep_b".into()) == project.crates[1].display_name
    );
    let c = &project.crates[2];
    assert_eq!(c.display_name, Some("example".into()));
}

fn position(names: &[Option<String>], name: &str) -> usize {
    names.iter().position(|n| n.as_deref() == Some(name)).unwrap()
}

#[test]
fn dependencies_come_first_in_any_input_order() {
    let a = spec("a", "a", "a.rs", &[], true);
    let b = spec("b", "b", "b.rs", &["a"], true);
    let c = spec("c", "c", "c.rs", &["a", "b"], true);
    let orders = vec![
        vec![a.clone(), b.clone(), c.clone()],
        vec![c.clone(), b.clone(), a.clone()],
        vec![b.clone(), c.clone(), a.clone()],
        vec![c.clone(), a.clone(), b.clone()],
    ];
    for input in orders {
        let mut diagnostics = Vec::new();
        let project = generate_rust_project("/ws", "s", "src", &input, &mut diagnostics).ok().unwrap();
        let names: Vec<Option<String>> = project.crates.iter().map(|c| c.display_name.clone()).collect();
        let (pa, pb, pc) = (position(&names, "a"), position(&names, "b"), position(&names, "c"));
        assert!(pa < pb && pb < pc);
        let c_deps: Vec<(usize, String)> =
            project.crates[pc].deps.iter().map(|d| (d.crate_index, d.name.clone())).collect();
        assert_eq!(c_deps, vec![(pa, "a".to_string()), (pb, "b".to_string())]);
        assert!(diagnostics.is_empty());
    }
}

#[test]
fn a_two_crate_cycle_fails_and_is_reported() {
    let mut diagnostics = Vec::new();
    let result = generate_rust_project(
        "",
        "sysroot",
        "sysroot_src",
        &vec![spec("x", "x", "x.rs", &["y"], true), spec("y", "y", "y.rs", &["x"], true)],
        &mut diagnostics,
    );
    let err = match result {
        Ok(_) => panic!("a cycle must fail"),
        Err(e) => e,
    };
    let mut unresolved = err.unresolved.clone();
    unresolved.sort();
    assert_eq!(unresolved, vec!["x".to_string(), "y".to_string()]);
    let cycles: Vec<&Vec<String>> = diagnostics
        .iter()
        .filter_map(|d| match d {
            Diagnostic::Cycle { crate_ids } => Some(crate_ids),
            _ => None,
        })
        .collect();
    assert!(!cycles.is_empty());
    for c in cycles {
        assert!(c.contains(&"x".to_string()) && c.contains(&"y".to_string()));
        assert_eq!(c.first(), c.last());
    }
}

#[test]
fn a_self_dependency_is_a_cycle() {
    let mut diagnostics = Vec::new();
    let result = generate_rust_project("", "s", "src", &vec![spec("z", "z", "z.rs", &["z"], true)], &mut diagnostics);
    assert!(result.is_err());
    assert!(diagnostics.iter().any(|d| matches!(d, Diagnostic::Cycle { crate_ids } if crate_ids == &vec!["z".to_string(), "z".to_string()])));
}

#[test]
fn a_dangling_dependency_is_reported_and_left_out() {
    let mut diagnostics = Vec::new();
    let project = generate_rust_project(
        "",
        "sysroot",
        "sysroot_src",
        &vec![spec("lonely", "lonely", "lonely.rs", &["elsewhere"], true)],
        &mut diagnostics,
    )
    .ok()
    .expect("a dangling dependency is no error");
    assert_eq!(project.crates.len(), 1);
    assert!(project.crates[0].deps.is_empty());
    assert_eq!(diagnostics.len(), 1);
    assert!(matches!(&diagnostics[0], Diagnostic::MissingDependency { crate_id, dep }
        if crate_id == "lonely" && dep == "elsewhere"));
}

#[test]
fn an_alias_names_the_dependency() {
    let mut user = spec("user", "user", "user.rs", &["lib"], true);
    user.aliases = vec![("lib".into(), "renamed".into())];
    let lib = spec("lib", "lib_name", "lib.rs", &[], true);
    let mut diagnostics = Vec::new();
    let project = generate_rust_project("", "s", "src", &vec![user, lib], &mut diagnostics).ok().unwrap();
    assert_eq!(project.crates[1].display_name, Some("user".into()));
    assert_eq!(project.crates[1].deps[0].crate_index, 0);
    assert_eq!(project.crates[1].deps[0].name, "renamed");
}

#[test]
fn project_fields_come_from_the_records() {
    let mut pm = spec("pm", "pm", "pm/lib.rs", &[], false);
    pm.proc_macro_dylib_path = Some("out/libpm.so".into());
    pm.build_file = Some("/ws/pm/BUILD.bazel".into());
    pm.crate_type = CrateType::ProcMacro;
    pm.source = Some(CrateSpecSource { exclude_dirs: vec!["gen".into()], include_dirs: vec!["pm".into()] });
    pm.env = vec![("KEY".into(), "value".into())];
    let mut diagnostics = Vec::new();
    let project = generate_rust_project("/ws", "/sysroot", "/sysroot/src", &vec![pm], &mut diagnostics).ok().unwrap();
    assert_eq!(project.sysroot, Some("/sysroot".into()));
    assert_eq!(project.sysroot_src, Some("/sysroot/src".into()));
    assert_eq!(project.runnables.len(), 2);
    assert_eq!(project.runnables[0].program, "bazel");
    assert_eq!(project.runnables[0].args, vec!["build".to_string(), "{label}".to_string()]);
    assert_eq!(project.runnables[0].kind, RunnableKind::Check);
    assert_eq!(project.runnables[1].args, vec!["test", "{label}", "--", "{test_id}"]);
    assert_eq!(project.runnables[1].kind, RunnableKind::TestOne);
    assert_eq!(project.runnables[1].cwd, "/ws");
    let c = &project.crates[0];
    assert!(c.is_proc_macro);
    assert_eq!(c.proc_macro_dylib_path, Some("out/libpm.so".into()));
    assert_eq!(c.is_workspace_member, Some(false));
    assert_eq!(c.target, Some("x86_64-unknown-linux-gnu".into()));
    assert_eq!(c.env, vec![("KEY".to_string(), "value".to_string())]);
    assert_eq!(c.source.exclude_dirs, vec!["gen".to_string()]);
    assert_eq!(c.source.include_dirs, vec!["pm".to_string()]);
    assert!(!c.source.is_empty());
    let build = c.build.as_ref().unwrap();
    assert_eq!(build.label, "//tools/rust_analyzer:gen_rust_project_lib");
    assert_eq!(build.build_file, "/ws/pm/BUILD.bazel");
    assert_eq!(build.target_kind, TargetKind::Lib);
}

#[test]
fn an_empty_source_filter_is_empty() {
    let s = Source { include_dirs: Vec::new(), exclude_dirs: Vec::new() };
    assert!(s.is_empty());
    let s = Source { include_dirs: Vec::new(), exclude_dirs: vec!["x".into()] };
    assert!(!s.is_empty());
}

#[test]
fn no_crates_give_an_empty_project() {
    let mut diagnostics = Vec::new();
    let project = generate_rust_project("", "s", "src", &Vec::new(), &mut diagnostics).ok().unwrap();
    assert!(project.crates.is_empty());
}

#[test]
fn crate_types_map_to_target_kinds() {
    assert_eq!(TargetKind::from(CrateType::Bin), TargetKind::Bin);
    for t in [CrateType::Rlib, CrateType::Lib, CrateType::Dylib, CrateType::Cdylib, CrateType::Staticlib, CrateType::ProcMacro] {
        assert_eq!(TargetKind::from(t), TargetKind::Lib);
    }
}

#[test]
fn crates_are_placed_pass_by_pass_in_input_order() {
    let input = vec![
        spec("b", "b", "b.rs", &["a"], true),
        spec("a", "a", "a.rs", &[], true),
        spec("c", "c", "c.rs", &["a", "b"], true),
        spec("d", "d", "d.rs", &[], true),
    ];
    let mut diagnostics = Vec::new();
    let project = generate_rust_project("", "s", "src", &input, &mut diagnostics).ok().unwrap();
    let names: Vec<String> = project.crates.iter().map(|c| c.display_name.clone().unwrap()).collect();
    // The first pass places a and d; the second places b, and then c, whose
    // dependencies are placed by the time the pass reaches it.
    assert_eq!(names, vec!["a", "d", "b", "c"]);
}

#[test]
fn consolidated_dependencies_resolve_in_ascending_order() {
    let crates = consolidate_crate_specs(vec![
        spec("c", "c", "c.rs", &["b", "a"], true),
        spec("a", "a", "a.rs", &[], true),
        spec("b", "b", "b.rs", &[], true),
    ]);
    let mut diagnostics = Vec::new();
    let project = generate_rust_project("", "s", "src", &crates, &mut diagnostics).ok().unwrap();
    let names: Vec<String> = project.crates.iter().map(|c| c.display_name.clone().unwrap()).collect();
    let c = names.iter().position(|n| n == "c").unwrap();
    let deps: Vec<String> = project.crates[c].deps.iter().map(|d| d.name.clone()).collect();
    assert_eq!(deps, vec!["a".to_string(), "b".to_string()]);
}
