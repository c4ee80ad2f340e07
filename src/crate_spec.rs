//! The per-crate metadata record written by the rust-analyzer aspect, and the
//! small enums that classify a crate.
use vstd::prelude::*;

verus! {

/// The crate type that rustc builds for a target.
#[derive(Clone, Copy, Debug, PartialEq, Eq, Structural)]
pub enum CrateType {
    Bin,
    Rlib,
    Lib,
    Dylib,
    Cdylib,
    Staticlib,
    ProcMacro,
}

/// The kind of target as rust-analyzer understands it.
#[derive(Clone, Copy, Debug, PartialEq, Eq, Structural)]
pub enum TargetKind {
    Bin,
    /// Any kind of library crate type (dylib, rlib, proc-macro, ...).
    Lib,
}

/// The target kind that a crate type belongs to: only `bin` is a binary.
pub open spec fn target_kind_of(t: CrateType) -> TargetKind {
    match t {
        CrateType::Bin => TargetKind::Bin,
        _ => TargetKind::Lib,
    }
}

impl From<CrateType> for TargetKind {
    fn from(value: CrateType) -> (r: TargetKind)
        ensures
            r == target_kind_of(value),
    {
        match value {
            CrateType::Bin => TargetKind::Bin,
            CrateType::Rlib
            | CrateType::Lib
            | CrateType::Dylib
            | CrateType::Cdylib
            | CrateType::Staticlib
            | CrateType::ProcMacro => TargetKind::Lib,
        }
    }
}

impl vstd::std_specs::convert::FromSpecImpl<CrateType> for TargetKind {
    open spec fn obeys_from_spec() -> bool {
        true
    }

    open spec fn from_spec(v: CrateType) -> TargetKind {
        target_kind_of(v)
    }
}

/// The directories that make up a crate's sources, when the aspect gives them.
#[derive(Clone, Debug, PartialEq, Eq)]
pub struct CrateSpecSource {
    pub exclude_dirs: Vec<String>,
    pub include_dirs: Vec<String>,
}

/// The metadata of one compilation unit, as one build of one target saw it.
///
/// Several records may share a `crate_id` (a library built once on its own
/// and once inside its test binary); `consolidate_crate_specs` merges them.
/// Maps of the metadata file (`aliases`, `env`) are held as lists of pairs in
/// the file's order; `deps` holds each dependency id once.
#[derive(Clone, Debug, PartialEq, Eq)]
pub struct CrateSpec {
    pub aliases: Vec<(String, String)>,
    pub crate_id: String,
    pub display_name: String,
    pub edition: String,
    pub root_module: String,
    pub is_workspace_member: bool,
    pub deps: Vec<String>,
    pub proc_macro_dylib_path: Option<String>,
    pub source: Option<CrateSpecSource>,
    pub cfg: Vec<String>,
    pub env: Vec<(String, String)>,
    pub target: String,
    pub crate_type: CrateType,
    pub build_file: Option<String>,
    pub bazel_target: String,
}

/// A crate record in mathematical terms: every string is a `Seq<char>`.
pub struct CrateSpecView {
    pub aliases: Seq<(Seq<char>, Seq<char>)>,
    pub crate_id: Seq<char>,
    pub display_name: Seq<char>,
    pub edition: Seq<char>,
    pub root_module: Seq<char>,
    pub is_workspace_member: bool,
    pub deps: Seq<Seq<char>>,
    pub proc_macro_dylib_path: Option<Seq<char>>,
    pub source: Option<(Seq<Seq<char>>, Seq<Seq<char>>)>,
    pub cfg: Seq<Seq<char>>,
    pub env: Seq<(Seq<char>, Seq<char>)>,
    pub target: Seq<char>,
    pub crate_type: CrateType,
    pub build_file: Option<Seq<char>>,
    pub bazel_target: Seq<char>,
}

pub open spec fn strs_view(v: Seq<String>) -> Seq<Seq<char>> {
    v.map_values(|s: String| s@)
}

pub open spec fn pairs_view(v: Seq<(String, String)>) -> Seq<(Seq<char>, Seq<char>)> {
    v.map_values(|p: (String, String)| (p.0@, p.1@))
}

pub open spec fn opt_str_view(o: Option<String>) -> Option<Seq<char>> {
    match o {
        Some(s) => Some(s@),
        None => None,
    }
}

pub open spec fn source_view(o: Option<CrateSpecSource>) -> Option<(Seq<Seq<char>>, Seq<Seq<char>>)> {
    match o {
        Some(s) => Some((strs_view(s.exclude_dirs@), strs_view(s.include_dirs@))),
        None => None,
    }
}

impl View for CrateSpec {
    type V = CrateSpecView;

    open spec fn view(&self) -> CrateSpecView {
        CrateSpecView {
            aliases: pairs_view(self.aliases@),
            crate_id: self.crate_id@,
            display_name: self.display_name@,
            edition: self.edition@,
            root_module: self.root_module@,
            is_workspace_member: self.is_workspace_member,
            deps: strs_view(self.deps@),
            proc_macro_dylib_path: opt_str_view(self.proc_macro_dylib_path),
            source: source_view(self.source),
            cfg: strs_view(self.cfg@),
            env: pairs_view(self.env@),
            target: self.target@,
            crate_type: self.crate_type,
            build_file: opt_str_view(self.build_file),
            bazel_target: self.bazel_target@,
        }
    }
}

/// The views of a sequence of crate records.
pub open spec fn specs_view(v: Seq<CrateSpec>) -> Seq<CrateSpecView> {
    v.map_values(|c: CrateSpec| c@)
}

/// A copy of a list of strings.
pub fn copy_strs(v: &Vec<String>) -> (r: Vec<String>)
    ensures
        r@ == v@,
{
    let mut r: Vec<String> = Vec::new();
    let mut i: usize = 0;
    while i < v.len()
        invariant
            i <= v.len(),
            r@ == v@.subrange(0, i as int),
        decreases v.len() - i,
    {
        r.push(v[i].clone());
        i += 1;
        assert(r@ =~= v@.subrange(0, i as int));
    }
    assert(v@.subrange(0, v.len() as int) =~= v@);
    r
}

/// A copy of a list of string pairs.
pub fn copy_pairs(v: &Vec<(String, String)>) -> (r: Vec<(String, String)>)
    ensures
        r@ == v@,
{
    let mut r: Vec<(String, String)> = Vec::new();
    let mut i: usize = 0;
    while i < v.len()
        invariant
            i <= v.len(),
            r@ == v@.subrange(0, i as int),
        decreases v.len() - i,
    {
        let p = (v[i].0.clone(), v[i].1.clone());
        r.push(p);
        i += 1;
        assert(r@ =~= v@.subrange(0, i as int));
    }
    assert(v@.subrange(0, v.len() as int) =~= v@);
    r
}

/// A copy of an optional string.
pub fn copy_opt_str(o: &Option<String>) -> (r: Option<String>)
    ensures
        r == *o,
{
    match o {
        Some(s) => Some(s.clone()),
        None => None,
    }
}

impl CrateSpecSource {
    /// A copy of this source filter.
    pub fn duplicate(&self) -> (r: CrateSpecSource)
        ensures
            r.exclude_dirs@ == self.exclude_dirs@,
            r.include_dirs@ == self.include_dirs@,
    {
        CrateSpecSource {
            exclude_dirs: copy_strs(&self.exclude_dirs),
            include_dirs: copy_strs(&self.include_dirs),
        }
    }
}

impl CrateSpec {
    /// A copy of this record.
    pub fn duplicate(&self) -> (r: CrateSpec)
        ensures
            r@ == self@,
    {
        CrateSpec {
            aliases: copy_pairs(&self.aliases),
            crate_id: self.crate_id.clone(),
            display_name: self.display_name.clone(),
            edition: self.edition.clone(),
            root_module: self.root_module.clone(),
            is_workspace_member: self.is_workspace_member,
            deps: copy_strs(&self.deps),
            proc_macro_dylib_path: copy_opt_str(&self.proc_macro_dylib_path),
            source: match &self.source {
                Some(s) => Some(s.duplicate()),
                None => None,
            },
            cfg: copy_strs(&self.cfg),
            env: copy_pairs(&self.env),
            target: self.target.clone(),
            crate_type: self.crate_type,
            build_file: copy_opt_str(&self.build_file),
            bazel_target: self.bazel_target.clone(),
        }
    }
}

} // verus!
