//! Where a target's build file may lie, and which targets a file query names.
use vstd::prelude::*;

use crate::text::{
    join_path, joined_path, prefix_before, starts_with, strip_prefix, text_before,
};

verus! {

/// The package of a label in the main repository (`//pkg/path:name` or
/// `//pkg/path`): the text between `//` and the first `:`. Labels of other
/// repositories, and relative ones, have none here.
pub open spec fn label_package(label: Seq<char>) -> Option<Seq<char>> {
    if label.len() >= 2 && label[0] == '/' && label[1] == '/' {
        Some(prefix_before(label.subrange(2, label.len() as int), ':'))
    } else {
        None
    }
}

/// The package of a label in the main repository, if it is one.
pub fn package_of_label(label: &str) -> (r: Option<String>)
    ensures
        match r {
            Some(p) => label_package(label@) == Some(p@),
            None => label_package(label@) is None,
        },
{
    proof {
        reveal_strlit("//");
        assert("//"@.len() == 2 && "//"@[0] == '/' && "//"@[1] == '/');
        if label@.len() >= 2 && label@[0] == '/' && label@[1] == '/' {
            assert(label@.subrange(0, 2) =~= "//"@);
        }
        if starts_with(label@, "//"@) {
            assert(label@[0] == label@.subrange(0, 2)[0]);
            assert(label@[1] == label@.subrange(0, 2)[1]);
        }
    }
    match strip_prefix(label, "//") {
        Some(rest) => Some(text_before(rest, ':')),
        None => None,
    }
}

/// The build files that may define a target, in the order to try them:
/// `BUILD.bazel`, then `BUILD`, in the target's package under the workspace.
/// Targets outside the main repository have none.
pub fn build_file_candidates(label: &str, workspace: &str) -> (r: Vec<String>)
    ensures
        match label_package(label@) {
            Some(pkg) => r@.len() == 2 && r@[0]@ == joined_path(joined_path(workspace@, pkg), "BUILD.bazel"@)
                && r@[1]@ == joined_path(joined_path(workspace@, pkg), "BUILD"@),
            None => r@.len() == 0,
        },
{
    match package_of_label(label) {
        Some(pkg) => {
            let dir = join_path(workspace, pkg.as_str());
            let bazel = join_path(dir.as_str(), "BUILD.bazel");
            let plain = join_path(dir.as_str(), "BUILD");
            vec![bazel, plain]
        },
        None => Vec::new(),
    }
}

/// The target pattern for all targets in the package of a file, from the
/// output of `bazel query <file>`: the text before the first `:`, then `:*`.
pub fn file_targets_pattern(query_output: &str) -> (r: String)
    ensures
        r@ == prefix_before(query_output@, ':') + ":*"@,
{
    let mut r = text_before(query_output, ':');
    r.append(":*");
    proof {
        reveal_strlit(":*");
    }
    r
}

} // verus!
