//! The `rust-project.json` model that rust-analyzer reads, and its assembly
//! from consolidated crate records.
use vstd::prelude::*;

use crate::consolidate::well_formed;
use crate::crate_spec::{specs_view, strs_view, CrateSpec, TargetKind};
use crate::graph::{
    build_crate_graph, ids_at, is_acyclic, is_placement, is_stuck_set, layered_places, left_unplaced,
    new_diagnostics_ok, reports_cycle,
    node_matches, Diagnostic, GraphError,
};

verus! {

/// The reply that rust-analyzer expects from a project discovery command.
pub enum DiscoverProject {
    Finished { buildfile: String, project: RustProject },
    Error { error: String, source: Option<String> },
    Progress { message: String },
}

/// A `rust-project.json` workspace.
pub struct RustProject {
    /// Path to the sysroot directory, where rustc finds the crates built into
    /// Rust, such as std.
    pub sysroot: Option<String>,
    /// Path to the directory with the source code of the sysroot crates.
    pub sysroot_src: Option<String>,
    /// The crates of the project, each after the crates it depends on.
    pub crates: Vec<Crate>,
    pub runnables: Vec<Runnable>,
}

/// A `rust-project.json` crate.
pub struct Crate {
    /// A name used in the package's project declaration.
    pub display_name: Option<String>,
    /// Path to the root module of the crate.
    pub root_module: String,
    /// Edition of the crate.
    pub edition: String,
    /// Dependencies, by position in the crate list.
    pub deps: Vec<Dependency>,
    /// The set of cfgs activated for the crate.
    pub cfg: Vec<String>,
    /// Target triple for the crate.
    pub target: Option<String>,
    /// Environment variables, used for the `env!` macro.
    pub env: Vec<(String, String)>,
    /// For proc-macro crates, path to the compiled proc-macro library.
    pub proc_macro_dylib_path: Option<String>,
    /// Whether the crate is a member of the current workspace.
    pub is_workspace_member: Option<bool>,
    /// The (super)set of `.rs` files comprising the crate.
    pub source: Source,
    /// Whether the crate is a proc-macro crate.
    pub is_proc_macro: bool,
    pub build: Option<Build>,
}

/// A template for running or checking targets, filled in by rust-analyzer.
pub struct Runnable {
    /// The program invoked by the runnable.
    pub program: String,
    /// The arguments; `{label}` and `{test_id}` are filled in.
    pub args: Vec<String>,
    /// The working directory of the runnable.
    pub cwd: String,
    pub kind: RunnableKind,
}

/// The kind of runnable.
#[derive(Clone, Copy, Debug, PartialEq, Eq, Structural)]
pub enum RunnableKind {
    Check,
    /// Run a single test.
    TestOne,
}

/// Where a crate comes from in the build system.
pub struct Build {
    /// The build system's label of the target.
    pub label: String,
    /// The build file that defines the target.
    pub build_file: String,
    /// The kind of target.
    pub target_kind: TargetKind,
}

/// The directories to include in, and exclude from, a crate's sources.
pub struct Source {
    pub include_dirs: Vec<String>,
    pub exclude_dirs: Vec<String>,
}

impl Source {
    /// Whether no include information has been added.
    pub fn is_empty(&self) -> (r: bool)
        ensures
            r == (self.include_dirs@.len() == 0 && self.exclude_dirs@.len() == 0),
    {
        self.include_dirs.len() == 0 && self.exclude_dirs.len() == 0
    }
}

/// A dependency of a crate.
pub struct Dependency {
    /// Position of the dependency in the crate list.
    pub crate_index: usize,
    /// The name under which the crate refers to the dependency.
    pub name: String,
}


/// The runnables of a project: `bazel build {label}` to check a target and
/// `bazel test {label} -- {test_id}` to run one test, both from the workspace.
pub open spec fn standard_runnables(rs: Seq<Runnable>, workspace: Seq<char>) -> bool {
    &&& rs.len() == 2
    &&& rs[0].program@ == "bazel"@
    &&& strs_view(rs[0].args@) == seq!["build"@, "{label}"@]
    &&& rs[0].cwd@ == workspace
    &&& rs[0].kind == RunnableKind::Check
    &&& rs[1].program@ == "bazel"@
    &&& strs_view(rs[1].args@) == seq!["test"@, "{label}"@, "--"@, "{test_id}"@]
    &&& rs[1].cwd@ == workspace
    &&& rs[1].kind == RunnableKind::TestOne
}

/// The check and test runnables for a workspace.
fn standard_runnables_for(workspace: &str) -> (r: Vec<Runnable>)
    ensures
        standard_runnables(r@, workspace@),
{
    let check = Runnable {
        program: "bazel".to_owned(),
        args: vec!["build".to_owned(), "{label}".to_owned()],
        cwd: workspace.to_owned(),
        kind: RunnableKind::Check,
    };
    let test = Runnable {
        program: "bazel".to_owned(),
        args: vec!["test".to_owned(), "{label}".to_owned(), "--".to_owned(), "{test_id}".to_owned()],
        cwd: workspace.to_owned(),
        kind: RunnableKind::TestOne,
    };
    let r = vec![check, test];
    assert(strs_view(r@[0].args@) =~= seq!["build"@, "{label}"@]);
    assert(strs_view(r@[1].args@) =~= seq!["test"@, "{label}"@, "--"@, "{test_id}"@]);
    r
}

/// Builds the `rust-project.json` description of the consolidated crates:
/// the crate graph of `build_crate_graph`, the sysroot paths, and the
/// runnables for the workspace.
pub fn generate_rust_project(
    workspace: &str,
    sysroot: &str,
    sysroot_src: &str,
    crates: &Vec<CrateSpec>,
    diagnostics: &mut Vec<Diagnostic>,
) -> (r: Result<RustProject, GraphError>)
    requires
        well_formed(specs_view(crates@)),
    ensures
        r is Ok <==> is_acyclic(specs_view(crates@)),
        r is Err ==> reports_cycle(old(diagnostics)@, final(diagnostics)@),
        match r {
            Ok(project) => {
                &&& project.sysroot is Some && project.sysroot->0@ == sysroot@
                &&& project.sysroot_src is Some && project.sysroot_src->0@ == sysroot_src@
                &&& standard_runnables(project.runnables@, workspace@)
                &&& project.crates.len() == crates.len()
                &&& layered_places(specs_view(crates@)) is Some
                &&& is_placement(specs_view(crates@), layered_places(specs_view(crates@))->0)
                &&& forall|i: int|
                    0 <= i < crates.len() ==> node_matches(
                        specs_view(crates@),
                        layered_places(specs_view(crates@))->0,
                        i,
                        #[trigger] project.crates@[layered_places(specs_view(crates@))->0[i]],
                    )
            },
            Err(e) => {
                &&& layered_places(specs_view(crates@)) is None
                &&& strs_view(e.unresolved@) == ids_at(specs_view(crates@), left_unplaced(specs_view(crates@)))
                &&& is_stuck_set(specs_view(crates@), left_unplaced(specs_view(crates@)).to_set())
            },
        },
        new_diagnostics_ok(specs_view(crates@), old(diagnostics)@, final(diagnostics)@),
{
    let nodes = build_crate_graph(crates, diagnostics)?;
    Ok(
        RustProject {
            sysroot: Some(sysroot.to_owned()),
            sysroot_src: Some(sysroot_src.to_owned()),
            crates: nodes,
            runnables: standard_runnables_for(workspace),
        },
    )
}

} // verus!
