//! Joining the records of a Bazel action-graph query: which target produced
//! which output files.
//!
//! Output paths are not spelled out in the query result: each artifact names
//! a path fragment, and each fragment its label and its parent fragment.
use vstd::prelude::*;

use std::collections::BTreeMap;

use crate::crate_spec::{copy_strs, strs_view};
use crate::order::{lemma_lex_irreflexive, lemma_lex_total, lemma_lex_transitive, lex_lt, str_lt};
use crate::text::{join_path, joined_path};

verus! {

broadcast use vstd::std_specs::btree::group_btree_axioms;

/// One node of the path-fragment forest.
#[derive(Clone, Debug, PartialEq, Eq)]
pub struct PathFragment {
    pub id: u32,
    pub label: String,
    pub parent_id: Option<u32>,
}

/// An output file, named through the fragment that ends its path.
#[derive(Clone, Copy, Debug, PartialEq, Eq)]
pub struct Artifact {
    pub id: u32,
    pub path_fragment_id: u32,
}

/// A build target.
#[derive(Clone, Debug, PartialEq, Eq)]
pub struct Target {
    pub id: u32,
    pub label: String,
}

/// An action: the target it belongs to and the artifacts it produces.
#[derive(Clone, Debug, PartialEq, Eq)]
pub struct Action {
    pub output_ids: Vec<u32>,
    pub target_id: u32,
}

/// The parts of an action-graph query result that the join reads.
#[derive(Clone, Debug, PartialEq, Eq)]
pub struct AqueryOutput {
    pub artifacts: Vec<Artifact>,
    pub actions: Vec<Action>,
    pub path_fragments: Vec<PathFragment>,
    pub targets: Vec<Target>,
}

/// Why a query result could not be joined.
#[derive(Clone, Copy, Debug, PartialEq, Eq, Structural)]
pub enum AqueryError {
    /// An action names a target id that the result does not hold.
    MissingTarget(u32),
    /// An action names an artifact id that the result does not hold.
    MissingArtifact(u32),
    /// A path names a fragment id that the result does not hold.
    MissingPathFragment(u32),
    /// Following parents from this fragment never reaches a root.
    PathFragmentCycle(u32),
    /// The text is a JSON object but not a query result: most likely no
    /// target matched the query.
    EmptyResult,
    /// The text is not JSON.
    Malformed,
}

/// The position of the last element with each id, as a map.
pub open spec fn index_by_id(ids: Seq<u32>) -> Map<u32, usize>
    decreases ids.len(),
{
    if ids.len() == 0 {
        Map::empty()
    } else {
        index_by_id(ids.drop_last()).insert(ids.last(), (ids.len() - 1) as usize)
    }
}

proof fn lemma_index_by_id_in_range(ids: Seq<u32>)
    requires
        ids.len() <= usize::MAX,
    ensures
        forall|k: u32| #[trigger] index_by_id(ids).contains_key(k) ==> index_by_id(ids)[k] < ids.len()
            && ids[index_by_id(ids)[k] as int] == k,
    decreases ids.len(),
{
    if ids.len() > 0 {
        let init = ids.drop_last();
        lemma_index_by_id_in_range(init);
        assert(index_by_id(ids) == index_by_id(init).insert(ids.last(), (ids.len() - 1) as usize));
        assert forall|k: u32| #[trigger] index_by_id(ids).contains_key(k) implies index_by_id(ids)[k] < ids.len()
            && ids[index_by_id(ids)[k] as int] == k by {
            if k != ids.last() {
                assert(index_by_id(init).contains_key(k));
                assert(ids[index_by_id(init)[k] as int] == init[index_by_id(init)[k] as int]);
            }
        }
    }
}

/// A map from each id to the position of its last occurrence.
fn index_ids(ids: &Vec<u32>) -> (m: BTreeMap<u32, usize>)
    ensures
        m@ == index_by_id(ids@),
{
    let mut m: BTreeMap<u32, usize> = BTreeMap::new();
    let mut i: usize = 0;
    while i < ids.len()
        invariant
            i <= ids.len(),
            m@ == index_by_id(ids@.subrange(0, i as int)),
        decreases ids.len() - i,
    {
        assert(ids@.subrange(0, i + 1).drop_last() =~= ids@.subrange(0, i as int));
        m.insert(ids[i], i);
        i += 1;
    }
    assert(ids@.subrange(0, ids.len() as int) =~= ids@);
    m
}

pub open spec fn fragment_ids(f: Seq<PathFragment>) -> Seq<u32> {
    f.map_values(|x: PathFragment| x.id)
}

pub open spec fn artifact_ids(a: Seq<Artifact>) -> Seq<u32> {
    a.map_values(|x: Artifact| x.id)
}

pub open spec fn target_ids(t: Seq<Target>) -> Seq<u32> {
    t.map_values(|x: Target| x.id)
}

/// The path of fragment `id`: the labels from its root down to it, joined.
/// A fragment that is not in the table, or a walk of more than `fuel` parent
/// links, is an error.
pub open spec fn fragment_path(frags: Seq<PathFragment>, id: u32, fuel: nat) -> Result<Seq<char>, AqueryError>
    decreases fuel,
{
    let table = index_by_id(fragment_ids(frags));
    if !table.contains_key(id) {
        Err(AqueryError::MissingPathFragment(id))
    } else if fuel == 0 {
        Err(AqueryError::PathFragmentCycle(id))
    } else {
        let f = frags[table[id] as int];
        match f.parent_id {
            None => Ok(f.label@),
            Some(p) => match fragment_path(frags, p, (fuel - 1) as nat) {
                Ok(base) => Ok(joined_path(base, f.label@)),
                Err(e) => Err(e),
            },
        }
    }
}

fn resolve_path(id: u32, frags: &Vec<PathFragment>, table: &BTreeMap<u32, usize>, fuel: usize) -> (r: Result<String, AqueryError>)
    requires
        table@ == index_by_id(fragment_ids(frags@)),
    ensures
        match r {
            Ok(s) => fragment_path(frags@, id, fuel as nat) == Ok::<Seq<char>, AqueryError>(s@),
            Err(e) => fragment_path(frags@, id, fuel as nat) == Err::<Seq<char>, AqueryError>(e),
        },
    decreases fuel,
{
    proof {
        assert(fragment_ids(frags@).len() == frags.len());
        lemma_index_by_id_in_range(fragment_ids(frags@));
    }
    let idx = match table.get(&id) {
        Some(i) => *i,
        None => {
            return Err(AqueryError::MissingPathFragment(id));
        },
    };
    if fuel == 0 {
        return Err(AqueryError::PathFragmentCycle(id));
    }
    let f = &frags[idx];
    match f.parent_id {
        None => Ok(f.label.clone()),
        Some(p) => {
            let base = resolve_path(p, frags, table, fuel - 1)?;
            Ok(join_path(base.as_str(), f.label.as_str()))
        },
    }
}

/// The path of fragment `id` in the fragment table.
///
/// The walk up the parents is cut off after as many steps as there are
/// fragments, so a table whose parent links form a cycle gives an error.
pub fn path_from_fragments(id: u32, fragments: &Vec<PathFragment>) -> (r: Result<String, AqueryError>)
    ensures
        match r {
            Ok(s) => fragment_path(fragments@, id, fragments.len() as nat) == Ok::<Seq<char>, AqueryError>(s@),
            Err(e) => fragment_path(fragments@, id, fragments.len() as nat) == Err::<Seq<char>, AqueryError>(e),
        },
{
    let table = fragment_table(fragments);
    resolve_path(id, fragments, &table, fragments.len())
}

/// The fragment table keyed by id.
fn fragment_table(fragments: &Vec<PathFragment>) -> (m: BTreeMap<u32, usize>)
    ensures
        m@ == index_by_id(fragment_ids(fragments@)),
{
    let mut ids: Vec<u32> = Vec::new();
    let mut i: usize = 0;
    while i < fragments.len()
        invariant
            i <= fragments.len(),
            ids@ == fragment_ids(fragments@).subrange(0, i as int),
        decreases fragments.len() - i,
    {
        ids.push(fragments[i].id);
        i += 1;
        assert(ids@ =~= fragment_ids(fragments@).subrange(0, i as int));
    }
    assert(fragment_ids(fragments@).subrange(0, i as int) =~= fragment_ids(fragments@));
    index_ids(&ids)
}


/// The paths of the given artifacts, each joined onto the execution root, or
/// the first fault met on the way.
pub open spec fn output_paths(root: Seq<char>, out: AqueryOutput, ids: Seq<u32>) -> Result<Seq<Seq<char>>, AqueryError>
    decreases ids.len(),
{
    if ids.len() == 0 {
        Ok(seq![])
    } else {
        match output_paths(root, out, ids.drop_last()) {
            Err(e) => Err(e),
            Ok(prev) => {
                let oid = ids.last();
                let table = index_by_id(artifact_ids(out.artifacts@));
                if !table.contains_key(oid) {
                    Err(AqueryError::MissingArtifact(oid))
                } else {
                    let a = out.artifacts@[table[oid] as int];
                    match fragment_path(out.path_fragments@, a.path_fragment_id, out.path_fragments@.len() as nat) {
                        Err(e) => Err(e),
                        Ok(p) => Ok(prev.push(joined_path(root, p))),
                    }
                }
            },
        }
    }
}

proof fn lemma_output_paths_err(root: Seq<char>, out: AqueryOutput, ids: Seq<u32>, k: int)
    requires
        0 <= k <= ids.len(),
        output_paths(root, out, ids.subrange(0, k)) is Err,
    ensures
        output_paths(root, out, ids) == output_paths(root, out, ids.subrange(0, k)),
    decreases ids.len() - k,
{
    if k < ids.len() {
        let pre = ids.subrange(0, k + 1);
        assert(pre.drop_last() =~= ids.subrange(0, k));
        lemma_output_paths_err(root, out, ids, k + 1);
    } else {
        assert(ids.subrange(0, k) =~= ids);
    }
}

proof fn lemma_output_files_err(root: Seq<char>, out: AqueryOutput, n: int, k: int)
    requires
        0 <= k <= n,
        output_files(root, out, k) is Err,
    ensures
        output_files(root, out, n) == output_files(root, out, k),
    decreases n - k,
{
    if k < n {
        lemma_output_files_err(root, out, n, k + 1);
    }
}

/// Whether some group has the given label.
pub open spec fn has_label(groups: Seq<(Seq<char>, Seq<Seq<char>>)>, label: Seq<char>) -> bool {
    exists|i: int| 0 <= i < groups.len() && #[trigger] groups[i].0 == label
}

/// Where a group for `label` goes: before the first group whose label comes
/// after it, or at the end.
pub open spec fn label_slot(groups: Seq<(Seq<char>, Seq<Seq<char>>)>, label: Seq<char>) -> int
    decreases groups.len(),
{
    if groups.len() == 0 {
        0
    } else if lex_lt(label, groups[0].0) {
        0
    } else {
        1 + label_slot(groups.drop_first(), label)
    }
}

/// The labels of the groups are in ascending order.
pub open spec fn labels_ascending(groups: Seq<(Seq<char>, Seq<Seq<char>>)>) -> bool {
    forall|i: int, j: int| 0 <= i < j < groups.len() ==> lex_lt(#[trigger] groups[i].0, #[trigger] groups[j].0)
}

proof fn lemma_label_slot(groups: Seq<(Seq<char>, Seq<Seq<char>>)>, label: Seq<char>, p: int)
    requires
        0 <= p <= groups.len(),
        forall|k: int| 0 <= k < p ==> !lex_lt(label, #[trigger] groups[k].0),
        p < groups.len() ==> lex_lt(label, groups[p].0),
    ensures
        label_slot(groups, label) == p,
    decreases p,
{
    if p > 0 {
        assert(!lex_lt(label, groups[0].0));
        let rest = groups.drop_first();
        assert forall|k: int| 0 <= k < p - 1 implies !lex_lt(label, #[trigger] rest[k].0) by {
            assert(rest[k] == groups[k + 1]);
        }
        lemma_label_slot(rest, label, p - 1);
    }
}

/// Inserting a new label at its slot keeps the labels ascending.
proof fn lemma_insert_label(groups: Seq<(Seq<char>, Seq<Seq<char>>)>, label: Seq<char>, paths: Seq<Seq<char>>, p: int)
    requires
        labels_ascending(groups),
        !has_label(groups, label),
        0 <= p <= groups.len(),
        forall|k: int| 0 <= k < p ==> !lex_lt(label, #[trigger] groups[k].0),
        p < groups.len() ==> lex_lt(label, groups[p].0),
    ensures
        labels_ascending(groups.insert(p, (label, paths))),
{
    let c = groups.insert(p, (label, paths));
    assert forall|k: int| 0 <= k < groups.len() implies (k < p ==> lex_lt(#[trigger] groups[k].0, label)) && (k >= p ==> lex_lt(label, groups[k].0)) by {
        if k < p {
            lemma_lex_total(groups[k].0, label);
            assert(groups[k].0 != label);
        } else if k > p {
            lemma_lex_transitive(label, groups[p].0, groups[k].0);
        }
    }
    assert forall|a: int, b: int| 0 <= a < b < c.len() implies lex_lt(#[trigger] c[a].0, #[trigger] c[b].0) by {
        if a < p && b < p {
            assert(c[a] == groups[a] && c[b] == groups[b]);
        } else if a < p && b == p {
            assert(c[a] == groups[a]);
        } else if a < p {
            assert(c[a] == groups[a] && c[b] == groups[b - 1]);
            lemma_lex_transitive(groups[a].0, label, groups[b - 1].0);
        } else if a == p {
            assert(c[b] == groups[b - 1]);
        } else {
            assert(c[a] == groups[a - 1] && c[b] == groups[b - 1]);
        }
    }
}

/// `groups` with `paths` added to the group of `label`, which is created at
/// its place in the order of labels if there is none.
pub open spec fn add_to_group(groups: Seq<(Seq<char>, Seq<Seq<char>>)>, label: Seq<char>, paths: Seq<Seq<char>>) -> Seq<(Seq<char>, Seq<Seq<char>>)> {
    if has_label(groups, label) {
        let i = choose|i: int| 0 <= i < groups.len() && #[trigger] groups[i].0 == label;
        groups.update(i, (label, groups[i].1 + paths))
    } else {
        groups.insert(label_slot(groups, label), (label, paths))
    }
}

/// The output files of the first `n` actions, grouped by the label of their
/// target in ascending order of label, or the first fault
/// met on the way.
pub open spec fn output_files(root: Seq<char>, out: AqueryOutput, n: int) -> Result<Seq<(Seq<char>, Seq<Seq<char>>)>, AqueryError>
    decreases n,
{
    if n <= 0 {
        Ok(seq![])
    } else {
        match output_files(root, out, n - 1) {
            Err(e) => Err(e),
            Ok(groups) => {
                let action = out.actions@[n - 1];
                let table = index_by_id(target_ids(out.targets@));
                if !table.contains_key(action.target_id) {
                    Err(AqueryError::MissingTarget(action.target_id))
                } else {
                    let label = out.targets@[table[action.target_id] as int].label@;
                    match output_paths(root, out, action.output_ids@) {
                        Err(e) => Err(e),
                        Ok(paths) => Ok(add_to_group(groups, label, paths)),
                    }
                }
            },
        }
    }
}

/// The groups as labels and paths.
pub open spec fn groups_view(g: Seq<(String, Vec<String>)>) -> Seq<(Seq<char>, Seq<Seq<char>>)> {
    g.map_values(|p: (String, Vec<String>)| (p.0@, strs_view(p.1@)))
}

/// The artifact table keyed by id.
fn artifact_table(artifacts: &Vec<Artifact>) -> (m: BTreeMap<u32, usize>)
    ensures
        m@ == index_by_id(artifact_ids(artifacts@)),
{
    let mut ids: Vec<u32> = Vec::new();
    let mut i: usize = 0;
    while i < artifacts.len()
        invariant
            i <= artifacts.len(),
            ids@ == artifact_ids(artifacts@).subrange(0, i as int),
        decreases artifacts.len() - i,
    {
        ids.push(artifacts[i].id);
        i += 1;
        assert(ids@ =~= artifact_ids(artifacts@).subrange(0, i as int));
    }
    assert(artifact_ids(artifacts@).subrange(0, i as int) =~= artifact_ids(artifacts@));
    index_ids(&ids)
}

/// The target table keyed by id.
fn target_table(targets: &Vec<Target>) -> (m: BTreeMap<u32, usize>)
    ensures
        m@ == index_by_id(target_ids(targets@)),
{
    let mut ids: Vec<u32> = Vec::new();
    let mut i: usize = 0;
    while i < targets.len()
        invariant
            i <= targets.len(),
            ids@ == target_ids(targets@).subrange(0, i as int),
        decreases targets.len() - i,
    {
        ids.push(targets[i].id);
        i += 1;
        assert(ids@ =~= target_ids(targets@).subrange(0, i as int));
    }
    assert(target_ids(targets@).subrange(0, i as int) =~= target_ids(targets@));
    index_ids(&ids)
}

/// The joined paths of one action's outputs.
fn action_output_paths(
    execution_root: &str,
    out: &AqueryOutput,
    output_ids: &Vec<u32>,
    artifacts: &BTreeMap<u32, usize>,
    fragments: &BTreeMap<u32, usize>,
) -> (r: Result<Vec<String>, AqueryError>)
    requires
        artifacts@ == index_by_id(artifact_ids(out.artifacts@)),
        fragments@ == index_by_id(fragment_ids(out.path_fragments@)),
    ensures
        match r {
            Ok(paths) => output_paths(execution_root@, *out, output_ids@) == Ok::<Seq<Seq<char>>, AqueryError>(strs_view(paths@)),
            Err(e) => output_paths(execution_root@, *out, output_ids@) == Err::<Seq<Seq<char>>, AqueryError>(e),
        },
{
    proof {
        assert(artifact_ids(out.artifacts@).len() == out.artifacts.len());
        lemma_index_by_id_in_range(artifact_ids(out.artifacts@));
    }
    let mut paths: Vec<String> = Vec::new();
    let mut k: usize = 0;
    assert(output_ids@.subrange(0, 0) =~= Seq::<u32>::empty());
    assert(strs_view(paths@) =~= Seq::<Seq<char>>::empty());
    while k < output_ids.len()
        invariant
            k <= output_ids.len(),
            artifacts@ == index_by_id(artifact_ids(out.artifacts@)),
            fragments@ == index_by_id(fragment_ids(out.path_fragments@)),
            forall|x: u32| #[trigger] artifacts@.contains_key(x) ==> artifacts@[x] < out.artifacts.len(),
            output_paths(execution_root@, *out, output_ids@.subrange(0, k as int)) == Ok::<Seq<Seq<char>>, AqueryError>(strs_view(paths@)),
        decreases output_ids.len() - k,
    {
        let ghost pre = output_ids@.subrange(0, k + 1);
        assert(pre.drop_last() =~= output_ids@.subrange(0, k as int));
        assert(pre.last() == output_ids@[k as int]);
        let oid = output_ids[k];
        let ai = match artifacts.get(&oid) {
            Some(i) => *i,
            None => {
                proof {
                    lemma_output_paths_err(execution_root@, *out, output_ids@, k + 1);
                }
                return Err(AqueryError::MissingArtifact(oid));
            },
        };
        let a = out.artifacts[ai];
        let rel = match resolve_path(a.path_fragment_id, &out.path_fragments, fragments, out.path_fragments.len()) {
            Ok(rel) => rel,
            Err(e) => {
                proof {
                    lemma_output_paths_err(execution_root@, *out, output_ids@, k + 1);
                }
                return Err(e);
            },
        };
        let ghost prev = paths@;
        paths.push(join_path(execution_root, rel.as_str()));
        assert(strs_view(paths@) =~= strs_view(prev).push(joined_path(execution_root@, rel@)));
        k += 1;
    }
    assert(output_ids@.subrange(0, output_ids.len() as int) =~= output_ids@);
    Ok(paths)
}

/// Maps each target label to the files its actions produce, each path joined
/// onto the execution root.
///
/// Labels come in ascending order; a
/// target id, artifact id or fragment id that the result does not hold is a
/// fault. Whether each file exists is left to the caller.
pub fn collect_output_files(execution_root: &str, out: &AqueryOutput) -> (r: Result<Vec<(String, Vec<String>)>, AqueryError>)
    ensures
        match r {
            Ok(g) => output_files(execution_root@, *out, out.actions.len() as int) == Ok::<
                Seq<(Seq<char>, Seq<Seq<char>>)>,
                AqueryError,
            >(groups_view(g@)) && labels_ascending(groups_view(g@)),
            Err(e) => output_files(execution_root@, *out, out.actions.len() as int) == Err::<
                Seq<(Seq<char>, Seq<Seq<char>>)>,
                AqueryError,
            >(e),
        },
{
    let artifacts = artifact_table(&out.artifacts);
    let fragments = fragment_table(&out.path_fragments);
    let targets = target_table(&out.targets);
    proof {
        assert(target_ids(out.targets@).len() == out.targets.len());
        lemma_index_by_id_in_range(target_ids(out.targets@));
    }
    let mut groups: Vec<(String, Vec<String>)> = Vec::new();
    let mut n: usize = 0;
    assert(groups_view(groups@) =~= Seq::<(Seq<char>, Seq<Seq<char>>)>::empty());
    while n < out.actions.len()
        invariant
            n <= out.actions.len(),
            artifacts@ == index_by_id(artifact_ids(out.artifacts@)),
            fragments@ == index_by_id(fragment_ids(out.path_fragments@)),
            targets@ == index_by_id(target_ids(out.targets@)),
            forall|x: u32| #[trigger] targets@.contains_key(x) ==> targets@[x] < out.targets.len(),
            output_files(execution_root@, *out, n as int) == Ok::<Seq<(Seq<char>, Seq<Seq<char>>)>, AqueryError>(groups_view(groups@)),
            labels_ascending(groups_view(groups@)),
        decreases out.actions.len() - n,
    {
        let action = &out.actions[n];
        let ti = match targets.get(&action.target_id) {
            Some(i) => *i,
            None => {
                proof {
                    lemma_output_files_err(execution_root@, *out, out.actions.len() as int, n + 1);
                }
                return Err(AqueryError::MissingTarget(action.target_id));
            },
        };
        let label = &out.targets[ti].label;
        let paths = match action_output_paths(execution_root, out, &action.output_ids, &artifacts, &fragments) {
            Ok(paths) => paths,
            Err(e) => {
                proof {
                    lemma_output_files_err(execution_root@, *out, out.actions.len() as int, n + 1);
                }
                return Err(e);
            },
        };
        let ghost gv = groups_view(groups@);
        let mut found: Option<usize> = None;
        let mut i: usize = 0;
        while i < groups.len()
            invariant
                i <= groups.len(),
                gv == groups_view(groups@),
                found is None ==> forall|j: int| 0 <= j < i ==> gv[j].0 != label@,
                found matches Some(f) ==> f < groups.len() && gv[f as int].0 == label@,
            decreases groups.len() - i,
        {
            if found.is_none() && groups[i].0 == *label {
                found = Some(i);
            }
            i += 1;
        }
        match found {
            Some(f) => {
                let mut merged = copy_strs(&groups[f].1);
                let mut x: usize = 0;
                while x < paths.len()
                    invariant
                        x <= paths.len(),
                        f < groups.len(),
                        strs_view(merged@) == strs_view(groups@[f as int].1@) + strs_view(paths@).subrange(0, x as int),
                    decreases paths.len() - x,
                {
                    let ghost prev = merged@;
                    merged.push(paths[x].clone());
                    assert(strs_view(merged@) =~= strs_view(prev).push(paths@[x as int]@));
                    assert(strs_view(paths@).subrange(0, x + 1) =~= strs_view(paths@).subrange(0, x as int).push(paths@[x as int]@));
                    x += 1;
                    assert(strs_view(merged@) =~= strs_view(groups@[f as int].1@) + strs_view(paths@).subrange(0, x as int));
                }
                assert(strs_view(paths@).subrange(0, paths.len() as int) =~= strs_view(paths@));
                assert(has_label(gv, label@));
                let ghost c = choose|i: int| 0 <= i < gv.len() && #[trigger] gv[i].0 == label@;
                proof {
                    lemma_lex_irreflexive(label@);
                    if c < f {
                        assert(lex_lt(gv[c].0, gv[f as int].0));
                    } else if c > f {
                        assert(lex_lt(gv[f as int].0, gv[c].0));
                    }
                }
                assert(c == f);
                groups.set(f, (label.clone(), merged));
                assert(groups_view(groups@) =~= gv.update(f as int, (label@, gv[f as int].1 + strs_view(paths@))));
            },
            None => {
                assert(!has_label(gv, label@));
                let mut p: usize = 0;
                while p < groups.len() && !str_lt(label.as_str(), groups[p].0.as_str())
                    invariant
                        p <= groups.len(),
                        gv == groups_view(groups@),
                        forall|k: int| 0 <= k < p ==> !lex_lt(label@, #[trigger] gv[k].0),
                    decreases groups.len() - p,
                {
                    assert(gv[p as int].0 == groups@[p as int].0@);
                    p += 1;
                }
                proof {
                    if p < groups.len() {
                        assert(gv[p as int].0 == groups@[p as int].0@);
                    }
                    lemma_label_slot(gv, label@, p as int);
                    lemma_insert_label(gv, label@, strs_view(paths@), p as int);
                }
                groups.insert(p, (label.clone(), paths));
                assert(groups_view(groups@) =~= gv.insert(p as int, (label@, strs_view(paths@))));
            },
        }
        n += 1;
    }
    Ok(groups)
}


/// Whether a text is one JSON value that is an object, as serde_json reads it.
pub uninterp spec fn is_json_object(text: Seq<char>) -> bool;

/// Relies on `serde_json::from_str` into a `serde_json::Value`: whether the
/// text parses and the value is an object.
#[verifier::external_body]
fn parses_as_json_object(text: &str) -> (r: bool)
    ensures
        r == is_json_object(text@),
{
    matches!(serde_json::from_str::<serde_json::Value>(text), Ok(serde_json::Value::Object(_)))
}

/// The fault for a query result that failed to decode, given whether the
/// text still parses as a JSON object: then the query most likely matched no
/// target; otherwise the text is not JSON.
pub fn decode_failure(is_object: bool) -> (e: AqueryError)
    ensures
        e == (if is_object {
            AqueryError::EmptyResult
        } else {
            AqueryError::Malformed
        }),
{
    if is_object {
        AqueryError::EmptyResult
    } else {
        AqueryError::Malformed
    }
}

/// The fault for a query result text that failed to decode as a result.
pub fn classify_decode_failure(text: &str) -> (e: AqueryError)
    ensures
        e == (if is_json_object(text@) {
            AqueryError::EmptyResult
        } else {
            AqueryError::Malformed
        }),
{
    decode_failure(parses_as_json_object(text))
}

} // verus!
