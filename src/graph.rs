//! Ordering crates so that each one follows its dependencies.
//!
//! Dependencies are first resolved to positions in the input; the layering
//! then works on those integers. A dependency id that names no crate of the
//! input is dangling: it is reported and otherwise ignored.
use vstd::prelude::*;

use crate::consolidate::{has_id, index_of_id, lemma_index_of_id, unique_ids, well_formed};
use crate::crate_spec::{
    copy_opt_str, copy_pairs, copy_strs, opt_str_view, pairs_view, specs_view, strs_view,
    target_kind_of, CrateSpec, CrateSpecView, TargetKind,
};
use crate::rust_project::{Build, Crate, Dependency, Source};

verus! {

/// A finding that does not stop the graph from being built, or that
/// explains why it could not be.
pub enum Diagnostic {
    /// A crate depends on an id that names no crate of the input.
    MissingDependency { crate_id: String, dep: String },
    /// A chain of dependencies that comes back to its first crate.
    Cycle { crate_ids: Vec<String> },
}

/// The crates could not be ordered: each of them waits, directly or not, for
/// itself.
pub struct GraphError {
    /// The ids of the crates left unplaced.
    pub unresolved: Vec<String>,
}

/// Crate `i` depends on crate `j`.
pub open spec fn is_edge(cv: Seq<CrateSpecView>, i: int, j: int) -> bool {
    0 <= i < cv.len() && 0 <= j < cv.len() && cv[i].deps.contains(cv[j].crate_id)
}

/// A non-empty set of crates each of which depends on a crate of the set:
/// none of them can ever be placed after all of its dependencies.
#[verifier::opaque]
pub open spec fn is_stuck_set(cv: Seq<CrateSpecView>, s: Set<int>) -> bool {
    &&& exists|i: int| s.contains(i)
    &&& forall|i: int| #[trigger] s.contains(i) ==> 0 <= i < cv.len() && exists|j: int|
        #[trigger] is_edge(cv, i, j) && s.contains(j)
}

/// Whether the dependencies among the crates (dangling ones aside) have no
/// cycle, said as: no set of crates is stuck.
pub open spec fn is_acyclic(cv: Seq<CrateSpecView>) -> bool {
    forall|s: Set<int>| !is_stuck_set(cv, s)
}

/// `c` is a path of dependency edges that comes back to where it starts.
pub open spec fn is_cycle(cv: Seq<CrateSpecView>, c: Seq<int>) -> bool {
    &&& c.len() >= 2
    &&& c[0] == c[c.len() - 1]
    &&& forall|m: int| 0 <= m < c.len() - 1 ==> #[trigger] is_edge(cv, c[m], c[m + 1])
}

/// The ids of the crates at the given positions.
pub open spec fn ids_at(cv: Seq<CrateSpecView>, c: Seq<int>) -> Seq<Seq<char>> {
    c.map_values(|i: int| cv[i].crate_id)
}

/// `pos` gives every crate its own place, after the crates it depends on.
pub open spec fn is_placement(cv: Seq<CrateSpecView>, pos: Seq<int>) -> bool {
    &&& pos.len() == cv.len()
    &&& forall|i: int| 0 <= i < pos.len() ==> 0 <= #[trigger] pos[i] < cv.len()
    &&& forall|i: int, j: int| 0 <= i < pos.len() && 0 <= j < pos.len() && i != j ==> #[trigger] pos[i] != #[trigger] pos[j]
    &&& forall|i: int, j: int| #[trigger] is_edge(cv, i, j) ==> pos[j] < pos[i]
}

/// A placement rules out every stuck set: the crate of the set placed first
/// would depend on one placed before it.
pub proof fn lemma_placement_means_acyclic(cv: Seq<CrateSpecView>, pos: Seq<int>)
    requires
        is_placement(cv, pos),
    ensures
        is_acyclic(cv),
{
    reveal(is_stuck_set);
    assert forall|s: Set<int>| !is_stuck_set(cv, s) by {
        if is_stuck_set(cv, s) {
            let i0 = choose|i: int| s.contains(i);
            assert(0 <= i0 < cv.len());
            lemma_no_stuck_from(cv, pos, s, i0);
        }
    }
}

proof fn lemma_no_stuck_from(cv: Seq<CrateSpecView>, pos: Seq<int>, s: Set<int>, i: int)
    requires
        is_placement(cv, pos),
        0 <= i < cv.len(),
        s.contains(i),
    ensures
        !is_stuck_set(cv, s),
    decreases pos[i],
{
    reveal(is_stuck_set);
    if is_stuck_set(cv, s) {
        let j = choose|j: int| #[trigger] is_edge(cv, i, j) && s.contains(j);
        assert(pos[j] < pos[i]);
        assert(0 <= pos[j]);
        lemma_no_stuck_from(cv, pos, s, j);
    }
}

/// Every resolved dependency names a position of the input.
pub open spec fn targets_in_range(t: Seq<Vec<Option<usize>>>) -> bool {
    forall|i: int, k: int|
        0 <= i < t.len() && 0 <= k < t[i]@.len() && (#[trigger] t[i]@[k]) is Some ==> t[i]@[k]->0
            < t.len()
}

/// The number of crates not placed yet.
pub open spec fn count_unplaced(pos: Seq<Option<usize>>) -> nat
    decreases pos.len(),
{
    if pos.len() == 0 {
        0
    } else {
        count_unplaced(pos.drop_last()) + if pos.last() is None {
            1nat
        } else {
            0nat
        }
    }
}

proof fn lemma_count_unplaced_place(pos: Seq<Option<usize>>, i: int, x: usize)
    requires
        0 <= i < pos.len(),
        pos[i] is None,
    ensures
        count_unplaced(pos.update(i, Some(x))) + 1 == count_unplaced(pos),
    decreases pos.len(),
{
    let u = pos.update(i, Some(x));
    if i < pos.len() - 1 {
        assert(u.drop_last() =~= pos.drop_last().update(i, Some(x)));
        lemma_count_unplaced_place(pos.drop_last(), i, x);
    } else {
        assert(u.drop_last() =~= pos.drop_last());
    }
}

proof fn lemma_count_unplaced_zero(pos: Seq<Option<usize>>)
    requires
        count_unplaced(pos) == 0,
    ensures
        forall|i: int| 0 <= i < pos.len() ==> pos[i] is Some,
    decreases pos.len(),
{
    if pos.len() > 0 {
        lemma_count_unplaced_zero(pos.drop_last());
        assert forall|i: int| 0 <= i < pos.len() implies pos[i] is Some by {
            if i < pos.len() - 1 {
                assert(pos[i] == pos.drop_last()[i]);
            }
        }
    }
}

proof fn lemma_count_unplaced_all_none(pos: Seq<Option<usize>>)
    requires
        forall|i: int| 0 <= i < pos.len() ==> pos[i] is None,
    ensures
        count_unplaced(pos) == pos.len(),
    decreases pos.len(),
{
    if pos.len() > 0 {
        lemma_count_unplaced_all_none(pos.drop_last());
    }
}

/// The placement so far: `order` lists placed positions, `pos` gives each
/// placed crate its place, and every placed crate follows its dependencies.
pub open spec fn placement_ok(t: Seq<Vec<Option<usize>>>, order: Seq<usize>, pos: Seq<Option<usize>>) -> bool {
    &&& pos.len() == t.len()
    &&& order.len() + count_unplaced(pos) == t.len()
    &&& forall|p: int| 0 <= p < order.len() ==> (#[trigger] order[p]) < t.len() && pos[order[p] as int] == Some(p as usize)
    &&& forall|i: int| 0 <= i < t.len() && (#[trigger] pos[i]) is Some ==> pos[i]->0 < order.len()
        && order[pos[i]->0 as int] == i
    &&& forall|p: int, k: int|
        0 <= p < order.len() && 0 <= k < t[order[p] as int]@.len() && (#[trigger] t[order[p] as int]@[k]) is Some
            ==> pos[t[order[p] as int]@[k]->0 as int] is Some && pos[t[order[p] as int]@[k]->0 as int]->0 < p
}

/// Whether every dependency of crate `i` is placed.
fn is_ready(deps: &Vec<Option<usize>>, pos: &Vec<Option<usize>>) -> (r: bool)
    requires
        forall|k: int| 0 <= k < deps@.len() && (#[trigger] deps@[k]) is Some ==> deps@[k]->0 < pos@.len(),
    ensures
        r == forall|k: int| 0 <= k < deps@.len() && (#[trigger] deps@[k]) is Some ==> pos@[deps@[k]->0 as int] is Some,
{
    let mut k: usize = 0;
    while k < deps.len()
        invariant
            k <= deps@.len(),
            forall|k: int| 0 <= k < deps@.len() && (#[trigger] deps@[k]) is Some ==> deps@[k]->0 < pos@.len(),
            forall|j: int| 0 <= j < k && (#[trigger] deps@[j]) is Some ==> pos@[deps@[j]->0 as int] is Some,
        decreases deps.len() - k,
    {
        if let Some(j) = deps[k] {
            if pos[j].is_none() {
                return false;
            }
        }
        k += 1;
    }
    true
}

/// The resolved targets as sequences.
pub open spec fn rows(t: Seq<Vec<Option<usize>>>) -> Seq<Seq<Option<usize>>> {
    t.map_values(|v: Vec<Option<usize>>| v@)
}

/// Whether every resolved dependency in `row` is placed.
pub open spec fn row_ready(row: Seq<Option<usize>>, pos: Seq<Option<usize>>) -> bool {
    forall|k: int| 0 <= k < row.len() && (#[trigger] row[k]) is Some ==> pos[row[k]->0 as int] is Some
}

/// One pass from crate `i` on: each unplaced crate whose dependencies are
/// placed by then takes the next place.
pub open spec fn scan(t: Seq<Seq<Option<usize>>>, order: Seq<usize>, pos: Seq<Option<usize>>, i: int) -> (Seq<usize>, Seq<Option<usize>>)
    decreases t.len() - i,
{
    if i < 0 || i >= t.len() {
        (order, pos)
    } else if pos[i] is None && row_ready(t[i], pos) {
        scan(t, order.push(i as usize), pos.update(i, Some(order.len() as usize)), i + 1)
    } else {
        scan(t, order, pos, i + 1)
    }
}

/// Passes until every crate is placed, or until a pass places none; the
/// latter gives the places at that point as the error.
#[verifier::opaque]
pub open spec fn layering(t: Seq<Seq<Option<usize>>>, order: Seq<usize>, pos: Seq<Option<usize>>) -> Result<(Seq<usize>, Seq<Option<usize>>), Seq<Option<usize>>>
    decreases t.len() - order.len(),
{
    if order.len() >= t.len() {
        Ok((order, pos))
    } else {
        let (next_order, next_pos) = scan(t, order, pos, 0);
        if next_order.len() <= order.len() || next_order.len() > t.len() {
            Err(next_pos)
        } else {
            layering(t, next_order, next_pos)
        }
    }
}

/// The layering of `t` from nothing placed.
pub open spec fn layered(t: Seq<Seq<Option<usize>>>) -> Result<(Seq<usize>, Seq<Option<usize>>), Seq<Option<usize>>> {
    layering(t, Seq::empty(), Seq::new(t.len(), |i: int| None::<usize>))
}

/// Whether each unplaced crate waits for an unplaced dependency.
pub open spec fn all_waiting(t: Seq<Vec<Option<usize>>>, pos: Seq<Option<usize>>) -> bool {
    forall|j: int|
        #![trigger pos[j]]
        0 <= j < t.len() && pos[j] is None ==> exists|k: int|
            0 <= k < t[j]@.len() && (#[trigger] t[j]@[k]) is Some && pos[t[j]@[k]->0 as int] is None
}

/// One pass over the input: places, in input order, each unplaced crate
/// whose dependencies are all placed by then.
fn layer_pass(t: &Vec<Vec<Option<usize>>>, order: &mut Vec<usize>, pos: &mut Vec<Option<usize>>)
    requires
        targets_in_range(t@),
        placement_ok(t@, old(order)@, old(pos)@),
    ensures
        placement_ok(t@, final(order)@, final(pos)@),
        old(order).len() <= final(order).len(),
        final(order).len() == old(order).len() ==> all_waiting(t@, final(pos)@),
        (final(order)@, final(pos)@) == scan(rows(t@), old(order)@, old(pos)@, 0),
{
    let n = t.len();
    let placed_before = order.len();
    let ghost start = scan(rows(t@), order@, pos@, 0);
    let mut i: usize = 0;
    while i < n
        invariant
            n == t.len(),
            i <= n,
            scan(rows(t@), order@, pos@, i as int) == start,
            targets_in_range(t@),
            placement_ok(t@, order@, pos@),
            placed_before <= order.len(),
            order.len() == placed_before ==> forall|j: int|
                #![trigger pos@[j]]
                0 <= j < i && pos@[j] is None ==> exists|k: int|
                    0 <= k < t[j]@.len() && (#[trigger] t[j]@[k]) is Some && pos@[t[j]@[k]->0 as int] is None,
        decreases n - i,
    {
        assert(rows(t@)[i as int] == t@[i as int]@);
        if pos[i].is_none() {
            let ready = is_ready(&t[i], &pos);
            if ready {
                let ghost old_pos = pos@;
                let ghost old_order = order@;
                let p = order.len();
                proof {
                    lemma_count_unplaced_place(pos@, i as int, p);
                }
                pos.set(i, Some(p));
                order.push(i);
                assert forall|q: int, k: int|
                    0 <= q < order.len() && 0 <= k < t[order@[q] as int]@.len() && (#[trigger] t[order@[q] as int]@[k]) is Some
                        implies pos@[t[order@[q] as int]@[k]->0 as int] is Some && pos@[t[order@[q] as int]@[k]->0 as int]->0 < q by {
                    if q < p {
                        assert(order@[q] == old_order[q]);
                        let j = t[order@[q] as int]@[k]->0;
                        assert(old_pos[j as int] is Some);
                    } else {
                        assert(order@[q] == i);
                        let j = t[i as int]@[k]->0;
                        assert(old_pos[j as int] is Some);
                        assert(j != i);
                    }
                }
                assert forall|j: int| 0 <= j < t.len() && (#[trigger] pos@[j]) is Some implies pos@[j]->0 < order.len()
                    && order@[pos@[j]->0 as int] == j by {
                    if j != i {
                        assert(old_pos[j] is Some);
                    }
                }
            }
        }
        i += 1;
    }
}

/// The positions below `n` that have no place, in increasing order.
pub open spec fn unplaced(pos: Seq<Option<usize>>, n: int) -> Seq<usize>
    decreases n,
{
    if n <= 0 {
        Seq::empty()
    } else if pos[n - 1] is None {
        unplaced(pos, n - 1).push((n - 1) as usize)
    } else {
        unplaced(pos, n - 1)
    }
}

/// The unplaced positions, in increasing order.
fn collect_unplaced(pos: &Vec<Option<usize>>) -> (stuck: Vec<usize>)
    ensures
        stuck@ == unplaced(pos@, pos.len() as int),
        forall|m: int| 0 <= m < stuck.len() ==> (#[trigger] stuck@[m]) < pos.len() && pos@[stuck@[m] as int] is None,
        forall|x: int| 0 <= x < pos.len() && (#[trigger] pos@[x]) is None ==> stuck@.contains(x as usize),
        stuck@.no_duplicates(),
{
    let n = pos.len();
    let mut stuck: Vec<usize> = Vec::new();
    let mut j: usize = 0;
    while j < n
        invariant
            n == pos.len(),
            j <= n,
            stuck@ == unplaced(pos@, j as int),
            forall|m: int| 0 <= m < stuck.len() ==> (#[trigger] stuck@[m]) < j && pos@[stuck@[m] as int] is None,
            forall|x: int| 0 <= x < j && (#[trigger] pos@[x]) is None ==> stuck@.contains(x as usize),
            forall|a: int, b: int| 0 <= a < b < stuck.len() ==> stuck@[a] < stuck@[b],
        decreases n - j,
    {
        if pos[j].is_none() {
            let ghost old_stuck = stuck@;
            stuck.push(j);
            assert(stuck@[stuck.len() - 1] == j);
            assert forall|x: int| 0 <= x < j && (#[trigger] pos@[x]) is None implies stuck@.contains(x as usize) by {
                let m = choose|m: int| 0 <= m < old_stuck.len() && old_stuck[m] == x;
                assert(stuck@[m] == old_stuck[m]);
            }
        }
        j += 1;
    }
    assert forall|a: int, b: int| 0 <= a < stuck.len() && 0 <= b < stuck.len() && a != b implies stuck@[a] != stuck@[b] by {
        if a < b {
            assert(stuck@[a] < stuck@[b]);
        } else {
            assert(stuck@[b] < stuck@[a]);
        }
    }
    stuck
}

/// What `layer_order` promises of the crates it could not place.
pub open spec fn is_stuck_list(t: Seq<Vec<Option<usize>>>, stuck: Seq<usize>) -> bool {
    &&& stuck.len() > 0
    &&& forall|m: int| 0 <= m < stuck.len() ==> (#[trigger] stuck[m]) < t.len()
    &&& forall|m: int| 0 <= m < stuck.len() ==> waits_within(t, stuck, #[trigger] stuck[m])
    &&& stuck.no_duplicates()
}

/// Crate `i` depends on a crate listed in `stuck`.
pub open spec fn waits_within(t: Seq<Vec<Option<usize>>>, stuck: Seq<usize>, i: usize) -> bool {
    exists|k: int|
        0 <= k < t[i as int]@.len() && (#[trigger] t[i as int]@[k]) is Some && stuck.contains(
            t[i as int]@[k]->0,
        )
}

proof fn lemma_stuck_list(t: Seq<Vec<Option<usize>>>, order: Seq<usize>, pos: Seq<Option<usize>>, stuck: Seq<usize>)
    requires
        targets_in_range(t),
        placement_ok(t, order, pos),
        order.len() < t.len(),
        all_waiting(t, pos),
        forall|m: int| 0 <= m < stuck.len() ==> (#[trigger] stuck[m]) < pos.len() && pos[stuck[m] as int] is None,
        forall|x: int| 0 <= x < pos.len() && (#[trigger] pos[x]) is None ==> stuck.contains(x as usize),
        stuck.no_duplicates(),
    ensures
        is_stuck_list(t, stuck),
{
    if stuck.len() == 0 {
        assert forall|x: int| 0 <= x < pos.len() implies pos[x] is Some by {
            if pos[x] is None {
                assert(stuck.contains(x as usize));
            }
        }
        lemma_count_unplaced_nonzero(pos);
    }
    assert forall|m: int| 0 <= m < stuck.len() implies waits_within(t, stuck, #[trigger] stuck[m]) by {
        let x = stuck[m] as int;
        assert(pos[x] is None);
        let k = choose|k: int| 0 <= k < t[x]@.len() && (#[trigger] t[x]@[k]) is Some && pos[t[x]@[k]->0 as int] is None;
        let y = t[x]@[k]->0 as int;
        assert(0 <= y < pos.len());
        assert(stuck.contains(y as usize));
        assert(stuck.contains(t[stuck[m] as int]@[k]->0));
    }
}

/// Places crates in passes over the input: a crate is placed once every
/// crate it depends on is placed. Gives the order and each crate's place, or,
/// when a pass places nothing, the crates left over.
fn layer_order(t: &Vec<Vec<Option<usize>>>) -> (r: Result<(Vec<usize>, Vec<Option<usize>>), Vec<usize>>)
    requires
        targets_in_range(t@),
    ensures
        match r {
            Ok((order, pos)) => placement_ok(t@, order@, pos@) && order.len() == t.len() && layered(rows(t@))
                == Ok::<(Seq<usize>, Seq<Option<usize>>), Seq<Option<usize>>>((order@, pos@)),
            Err(stuck) => is_stuck_list(t@, stuck@) && layered(rows(t@)) is Err && stuck@ == unplaced(
                layered(rows(t@))->Err_0,
                t.len() as int,
            ),
        },
{
    let n = t.len();
    let mut pos: Vec<Option<usize>> = Vec::new();
    let mut i: usize = 0;
    while i < n
        invariant
            i <= n,
            pos.len() == i,
            forall|j: int| 0 <= j < i ==> pos@[j] is None,
        decreases n - i,
    {
        pos.push(None);
        i += 1;
    }
    proof {
        lemma_count_unplaced_all_none(pos@);
    }
    let mut order: Vec<usize> = Vec::new();
    assert(pos@ =~= Seq::new(rows(t@).len(), |i: int| None::<usize>));
    while order.len() < n
        invariant
            n == t.len(),
            targets_in_range(t@),
            placement_ok(t@, order@, pos@),
            layering(rows(t@), order@, pos@) == layered(rows(t@)),
        decreases n - order.len(),
    {
        let placed_before = order.len();
        let ghost order0 = order@;
        let ghost pos0 = pos@;
        layer_pass(t, &mut order, &mut pos);
        reveal(layering);
        assert(layering(rows(t@), order0, pos0) == if order@.len() <= order0.len() || order@.len() > rows(t@).len() {
            Err::<(Seq<usize>, Seq<Option<usize>>), Seq<Option<usize>>>(pos@)
        } else {
            layering(rows(t@), order@, pos@)
        });
        if order.len() == placed_before {
            let stuck = collect_unplaced(&pos);
            proof {
                lemma_stuck_list(t@, order@, pos@, stuck@);
            }
            return Err(stuck);
        }
    }
    proof {
        reveal(layering);
    }
    Ok((order, pos))
}

proof fn lemma_count_unplaced_nonzero(pos: Seq<Option<usize>>)
    requires
        forall|i: int| 0 <= i < pos.len() ==> pos[i] is Some,
    ensures
        count_unplaced(pos) == 0,
    decreases pos.len(),
{
    if pos.len() > 0 {
        lemma_count_unplaced_nonzero(pos.drop_last());
    }
}


/// The name that crate `i` gives its dependency `d`: its alias, if the
/// crate declares one, else the dependency's display name.
pub open spec fn dep_name(cv: Seq<CrateSpecView>, i: int, d: Seq<char>) -> Seq<char> {
    match alias_for(cv[i].aliases, d) {
        Some(a) => a,
        None => cv[index_of_id(cv, d)].display_name,
    }
}

/// The value of the first pair whose key is `key`.
pub open spec fn alias_for(pairs: Seq<(Seq<char>, Seq<char>)>, key: Seq<char>) -> Option<Seq<char>>
    decreases pairs.len(),
{
    if pairs.len() == 0 {
        None
    } else if pairs[0].0 == key {
        Some(pairs[0].1)
    } else {
        alias_for(pairs.drop_first(), key)
    }
}

/// The resolved form of the first `k` dependencies of crate `i`, dangling
/// ones left out: each becomes the dependency's place and name.
pub open spec fn resolved_deps(cv: Seq<CrateSpecView>, pos: Seq<int>, i: int, k: int) -> Seq<(int, Seq<char>)>
    decreases k,
{
    if k <= 0 {
        seq![]
    } else {
        let prev = resolved_deps(cv, pos, i, k - 1);
        let d = cv[i].deps[k - 1];
        if has_id(cv, d) {
            prev.push((pos[index_of_id(cv, d)], dep_name(cv, i, d)))
        } else {
            prev
        }
    }
}

/// A node's dependencies as places and names.
pub open spec fn deps_view(deps: Seq<Dependency>) -> Seq<(int, Seq<char>)> {
    deps.map_values(|d: Dependency| (d.crate_index as int, d.name@))
}

/// `node` is the graph node of crate `i` under the placement `pos`.
pub open spec fn node_matches(cv: Seq<CrateSpecView>, pos: Seq<int>, i: int, node: Crate) -> bool {
    let c = cv[i];
    &&& opt_str_view(node.display_name) == Some(c.display_name)
    &&& node.root_module@ == c.root_module
    &&& node.edition@ == c.edition
    &&& deps_view(node.deps@) == resolved_deps(cv, pos, i, c.deps.len() as int)
    &&& strs_view(node.cfg@) == c.cfg
    &&& opt_str_view(node.target) == Some(c.target)
    &&& pairs_view(node.env@) == c.env
    &&& opt_str_view(node.proc_macro_dylib_path) == c.proc_macro_dylib_path
    &&& node.is_workspace_member == Some(c.is_workspace_member)
    &&& match c.source {
        Some((ex, inc)) => strs_view(node.source.exclude_dirs@) == ex && strs_view(
            node.source.include_dirs@,
        ) == inc,
        None => node.source.exclude_dirs@.len() == 0 && node.source.include_dirs@.len() == 0,
    }
    &&& node.is_proc_macro == c.proc_macro_dylib_path is Some
    &&& match c.build_file {
        Some(bf) => node.build is Some && node.build->0.label@ == c.bazel_target
            && node.build->0.build_file@ == bf && node.build->0.target_kind == target_kind_of(
            c.crate_type,
        ),
        None => node.build is None,
    }
}

/// Crates placed by a placement come after what they depend on: with `b`
/// depending on `a` and `c` on both, `a` is placed before `b` and `b` before
/// `c`, whatever the input order.
pub proof fn lemma_dependencies_placed_first(cv: Seq<CrateSpecView>, pos: Seq<int>, a: int, b: int, c: int)
    requires
        is_placement(cv, pos),
        is_edge(cv, b, a),
        is_edge(cv, c, a),
        is_edge(cv, c, b),
    ensures
        pos[a] < pos[b] < pos[c],
{
}

/// The crates with one more dependency, `d`, added to crate `i`.
pub open spec fn with_extra_dep(cv: Seq<CrateSpecView>, i: int, d: Seq<char>) -> Seq<CrateSpecView> {
    cv.update(i, CrateSpecView { deps: cv[i].deps.push(d), ..cv[i] })
}

/// A dependency on an id that names no crate changes nothing: the edges,
/// and so whether the crates can be placed, stay the same, and the crate's
/// resolved dependencies leave it out.
pub proof fn lemma_dangling_dependency_ignored(cv: Seq<CrateSpecView>, i: int, d: Seq<char>, pos: Seq<int>)
    requires
        unique_ids(cv),
        0 <= i < cv.len(),
        !has_id(cv, d),
    ensures
        forall|a: int, b: int| is_edge(with_extra_dep(cv, i, d), a, b) == is_edge(cv, a, b),
        is_acyclic(with_extra_dep(cv, i, d)) == is_acyclic(cv),
        resolved_deps(with_extra_dep(cv, i, d), pos, i, cv[i].deps.len() as int + 1) == resolved_deps(
            cv,
            pos,
            i,
            cv[i].deps.len() as int,
        ),
{
    lemma_extra_dep_edges(cv, i, d);
    lemma_extra_dep_resolved(cv, i, d, pos);
}

proof fn lemma_extra_dep_edges(cv: Seq<CrateSpecView>, i: int, d: Seq<char>)
    requires
        0 <= i < cv.len(),
        !has_id(cv, d),
    ensures
        forall|a: int, b: int| is_edge(with_extra_dep(cv, i, d), a, b) == is_edge(cv, a, b),
        is_acyclic(with_extra_dep(cv, i, d)) == is_acyclic(cv),
{
    let cv2 = with_extra_dep(cv, i, d);
    assert forall|a: int, b: int| is_edge(cv2, a, b) == is_edge(cv, a, b) by {
        if 0 <= a < cv.len() && 0 <= b < cv.len() && a == i {
            broadcast use vstd::seq_lib::group_seq_properties;
            if cv[b].crate_id == d {
                assert(has_id(cv, d));
            }
        }
    }
    reveal(is_stuck_set);
    assert forall|s: Set<int>| is_stuck_set(cv2, s) == is_stuck_set(cv, s) by {}
}

proof fn lemma_extra_dep_resolved(cv: Seq<CrateSpecView>, i: int, d: Seq<char>, pos: Seq<int>)
    requires
        unique_ids(cv),
        0 <= i < cv.len(),
        !has_id(cv, d),
    ensures
        resolved_deps(with_extra_dep(cv, i, d), pos, i, cv[i].deps.len() as int + 1) == resolved_deps(
            cv,
            pos,
            i,
            cv[i].deps.len() as int,
        ),
{
    let cv2 = with_extra_dep(cv, i, d);
    assert forall|x: Seq<char>| has_id(cv2, x) == has_id(cv, x) by {
        if has_id(cv, x) {
            let k = choose|k: int| 0 <= k < cv.len() && #[trigger] cv[k].crate_id == x;
            assert(cv2[k].crate_id == x);
        }
        if has_id(cv2, x) {
            let k = choose|k: int| 0 <= k < cv2.len() && #[trigger] cv2[k].crate_id == x;
            assert(cv[k].crate_id == x);
        }
    }
    assert(unique_ids(cv2)) by {
        assert forall|a: int, b: int| 0 <= a < cv2.len() && 0 <= b < cv2.len() && a != b implies #[trigger] cv2[a].crate_id != #[trigger] cv2[b].crate_id by {
            assert(cv[a].crate_id != cv[b].crate_id);
        }
    }
    assert forall|x: Seq<char>| has_id(cv, x) implies index_of_id(cv2, x) == index_of_id(cv, x) by {
        let k = index_of_id(cv, x);
        assert(cv2[k].crate_id == x);
        lemma_index_of_id(cv2, x, k);
    }
    assert forall|x: Seq<char>| has_id(cv, x) implies cv2[index_of_id(cv, x)].display_name == cv[index_of_id(cv, x)].display_name by {}
    let n = cv[i].deps.len() as int;
    assert(cv2[i].deps.subrange(0, n) =~= cv[i].deps);
    lemma_resolved_prefix_same(cv, cv2, pos, i, n);
    assert(cv2[i].deps[n] == d);
    assert(!has_id(cv2, d));
}

proof fn lemma_resolved_prefix_same(cv: Seq<CrateSpecView>, cv2: Seq<CrateSpecView>, pos: Seq<int>, i: int, k: int)
    requires
        0 <= i < cv.len(),
        cv2.len() == cv.len(),
        0 <= k <= cv[i].deps.len(),
        cv[i].deps.len() <= cv2[i].deps.len(),
        cv2[i].deps.subrange(0, cv[i].deps.len() as int) == cv[i].deps,
        cv2[i].aliases == cv[i].aliases,
        forall|x: Seq<char>| has_id(cv2, x) == has_id(cv, x),
        forall|x: Seq<char>| has_id(cv, x) ==> index_of_id(cv2, x) == index_of_id(cv, x),
        forall|x: Seq<char>| has_id(cv, x) ==> cv2[index_of_id(cv, x)].display_name == cv[index_of_id(cv, x)].display_name,
    ensures
        resolved_deps(cv2, pos, i, k) == resolved_deps(cv, pos, i, k),
    decreases k,
{
    if k > 0 {
        lemma_resolved_prefix_same(cv, cv2, pos, i, k - 1);
        assert(cv[i].deps[k - 1] == cv2[i].deps.subrange(0, cv[i].deps.len() as int)[k - 1]);
        assert(cv2[i].deps[k - 1] == cv[i].deps[k - 1]);
    }
}

/// Whether a diagnostic states a fact about the crates.
pub open spec fn diagnostic_holds(cv: Seq<CrateSpecView>, d: Diagnostic) -> bool {
    match d {
        Diagnostic::MissingDependency { crate_id, dep } => exists|i: int|
            0 <= i < cv.len() && #[trigger] cv[i].crate_id == crate_id@ && cv[i].deps.contains(dep@)
                && !has_id(cv, dep@),
        Diagnostic::Cycle { crate_ids } => exists|c: Seq<int>|
            #[trigger] is_cycle(cv, c) && ids_at(cv, c) == strs_view(crate_ids@),
    }
}

/// The diagnostics after a call extend those before it with true findings,
/// among them every dangling dependency.
pub open spec fn new_diagnostics_ok(cv: Seq<CrateSpecView>, before: Seq<Diagnostic>, after: Seq<Diagnostic>) -> bool {
    &&& before.len() <= after.len()
    &&& after.subrange(0, before.len() as int) == before
    &&& forall|m: int| before.len() <= m < after.len() ==> diagnostic_holds(cv, #[trigger] after[m])
    &&& forall|i: int, k: int|
        0 <= i < cv.len() && 0 <= k < cv[i].deps.len() && !has_id(cv, #[trigger] cv[i].deps[k])
            ==> exists|m: int|
            before.len() <= m < after.len() && #[trigger] reports_missing(after[m], cv[i].crate_id, cv[i].deps[k])
}

/// Whether `d` reports that crate `id` depends on the unknown id `dep`.
pub open spec fn reports_missing(d: Diagnostic, id: Seq<char>, dep: Seq<char>) -> bool {
    match d {
        Diagnostic::MissingDependency { crate_id, dep: e } => crate_id@ == id && e@ == dep,
        _ => false,
    }
}

/// The resolved targets agree with the crates' dependency ids.
pub open spec fn targets_match(cv: Seq<CrateSpecView>, t: Seq<Vec<Option<usize>>>) -> bool {
    &&& t.len() == cv.len()
    &&& forall|i: int| 0 <= i < t.len() ==> (#[trigger] t[i])@.len() == cv[i].deps.len()
    &&& forall|i: int, k: int|
        0 <= i < t.len() && 0 <= k < t[i]@.len() ==> match #[trigger] t[i]@[k] {
            Some(j) => has_id(cv, cv[i].deps[k]) && j == index_of_id(cv, cv[i].deps[k]),
            None => !has_id(cv, cv[i].deps[k]),
        }
}

/// The position of the crate with the given id, by a scan of the list.
fn position_of_id(crates: &Vec<CrateSpec>, id: &String) -> (r: Option<usize>)
    requires
        unique_ids(specs_view(crates@)),
    ensures
        match r {
            Some(j) => has_id(specs_view(crates@), id@) && j == index_of_id(specs_view(crates@), id@),
            None => !has_id(specs_view(crates@), id@),
        },
{
    let ghost cv = specs_view(crates@);
    let mut j: usize = 0;
    while j < crates.len()
        invariant
            j <= crates.len(),
            cv == specs_view(crates@),
            unique_ids(cv),
            forall|x: int| 0 <= x < j ==> cv[x].crate_id != id@,
        decreases crates.len() - j,
    {
        if crates[j].crate_id == *id {
            assert(cv[j as int] == crates@[j as int]@);
            proof {
                lemma_index_of_id(cv, id@, j as int);
            }
            return Some(j);
        }
        j += 1;
    }
    None
}

/// Resolves every dependency id to the position of the crate it names,
/// reporting the ids that name no crate.
fn resolve_dependency_targets(crates: &Vec<CrateSpec>, diagnostics: &mut Vec<Diagnostic>) -> (t: Vec<Vec<Option<usize>>>)
    requires
        unique_ids(specs_view(crates@)),
    ensures
        targets_match(specs_view(crates@), t@),
        targets_in_range(t@),
        new_diagnostics_ok(specs_view(crates@), old(diagnostics)@, final(diagnostics)@),
{
    let ghost cv = specs_view(crates@);
    let ghost before = diagnostics@;
    let n = crates.len();
    let mut t: Vec<Vec<Option<usize>>> = Vec::new();
    let mut i: usize = 0;
    while i < n
        invariant
            n == crates.len(),
            i <= n,
            cv == specs_view(crates@),
            unique_ids(cv),
            t.len() == i,
            forall|a: int| 0 <= a < i ==> (#[trigger] t@[a])@.len() == cv[a].deps.len(),
            forall|a: int, k: int|
                0 <= a < i && 0 <= k < t@[a]@.len() ==> match #[trigger] t@[a]@[k] {
                    Some(j) => has_id(cv, cv[a].deps[k]) && j == index_of_id(cv, cv[a].deps[k]),
                    None => !has_id(cv, cv[a].deps[k]),
                },
            before.len() <= diagnostics@.len(),
            diagnostics@.subrange(0, before.len() as int) == before,
            forall|m: int| before.len() <= m < diagnostics@.len() ==> diagnostic_holds(cv, #[trigger] diagnostics@[m]),
            forall|a: int, k: int|
                0 <= a < i && 0 <= k < cv[a].deps.len() && !has_id(cv, #[trigger] cv[a].deps[k])
                    ==> exists|m: int|
                    before.len() <= m < diagnostics@.len() && #[trigger] reports_missing(diagnostics@[m], cv[a].crate_id, cv[a].deps[k]),
        decreases n - i,
    {
        let c = &crates[i];
        assert(c@ == cv[i as int]);
        let mut row: Vec<Option<usize>> = Vec::new();
        let mut k: usize = 0;
        while k < c.deps.len()
            invariant
                n == crates.len(),
                i < n,
                c == &crates@[i as int],
                cv == specs_view(crates@),
                unique_ids(cv),
                k <= c.deps.len(),
                row.len() == k,
                forall|x: int| 0 <= x < k ==> match #[trigger] row@[x] {
                    Some(j) => has_id(cv, cv[i as int].deps[x]) && j == index_of_id(cv, cv[i as int].deps[x]),
                    None => !has_id(cv, cv[i as int].deps[x]),
                },
                before.len() <= diagnostics@.len(),
                diagnostics@.subrange(0, before.len() as int) == before,
                forall|m: int| before.len() <= m < diagnostics@.len() ==> diagnostic_holds(cv, #[trigger] diagnostics@[m]),
                forall|a: int, x: int|
                    ((0 <= a < i && 0 <= x < cv[a].deps.len()) || (a == i && 0 <= x < k)) && !has_id(cv, #[trigger] cv[a].deps[x])
                        ==> exists|m: int|
                        before.len() <= m < diagnostics@.len() && #[trigger] reports_missing(diagnostics@[m], cv[a].crate_id, cv[a].deps[x]),
            decreases c.deps.len() - k,
        {
            assert(cv[i as int].deps[k as int] == c.deps@[k as int]@);
            let target = position_of_id(crates, &c.deps[k]);
            if target.is_none() {
                let ghost old_d = diagnostics@;
                let cid = c.crate_id.clone();
                let dep = c.deps[k].clone();
                assert(cv[i as int].crate_id == cid@);
                assert(dep@ == cv[i as int].deps[k as int]);
                assert(cv[i as int].deps.contains(dep@));
                let d = Diagnostic::MissingDependency { crate_id: cid, dep: dep };
                assert(diagnostic_holds(cv, d));
                diagnostics.push(d);
                assert(diagnostics@.subrange(0, before.len() as int) =~= old_d.subrange(0, before.len() as int));
                assert(reports_missing(diagnostics@[diagnostics.len() - 1], cv[i as int].crate_id, cv[i as int].deps[k as int]));
                assert forall|m: int| before.len() <= m < diagnostics@.len() implies diagnostic_holds(cv, #[trigger] diagnostics@[m]) by {
                    if m < old_d.len() {
                        assert(diagnostics@[m] == old_d[m]);
                    }
                }
                assert forall|a: int, x: int|
                    ((0 <= a < i && 0 <= x < cv[a].deps.len()) || (a == i && 0 <= x < k + 1)) && !has_id(cv, #[trigger] cv[a].deps[x])
                        implies exists|m: int|
                        before.len() <= m < diagnostics@.len() && #[trigger] reports_missing(diagnostics@[m], cv[a].crate_id, cv[a].deps[x]) by {
                    if a == i && x == k {
                        assert(reports_missing(diagnostics@[diagnostics.len() - 1], cv[a].crate_id, cv[a].deps[x]));
                    } else {
                        let m = choose|m: int| before.len() <= m < old_d.len() && #[trigger] reports_missing(old_d[m], cv[a].crate_id, cv[a].deps[x]);
                        assert(diagnostics@[m] == old_d[m]);
                    }
                }
            }
            row.push(target);
            k += 1;
        }
        t.push(row);
        i += 1;
    }
    assert forall|a: int, k: int|
        0 <= a < t@.len() && 0 <= k < t@[a]@.len() && (#[trigger] t@[a]@[k]) is Some implies t@[a]@[k]->0 < t@.len() by {
        let d = cv[a].deps[k];
        let j = index_of_id(cv, d);
    }
    t
}


/// Crate `i` has a resolved dependency on crate `j`.
pub open spec fn t_edge(t: Seq<Vec<Option<usize>>>, i: int, j: int) -> bool {
    0 <= i < t.len() && exists|k: int| 0 <= k < t[i]@.len() && #[trigger] t[i]@[k] == Some(j as usize)
}

/// Each crate of `c` has a resolved dependency on the next one.
pub open spec fn t_chain(t: Seq<Vec<Option<usize>>>, c: Seq<usize>) -> bool {
    forall|m: int| 0 <= m < c.len() - 1 ==> #[trigger] t_edge(t, c[m] as int, c[m + 1] as int)
}

/// A chain of resolved dependencies that ends where it starts.
pub open spec fn t_cycle(t: Seq<Vec<Option<usize>>>, c: Seq<usize>) -> bool {
    &&& c.len() >= 2
    &&& c[0] == c[c.len() - 1]
    &&& t_chain(t, c)
}

/// Crate `i` has a resolved dependency on a crate marked in `in_scope`.
pub open spec fn waits_in_scope(t: Seq<Vec<Option<usize>>>, in_scope: Seq<bool>, i: int) -> bool {
    exists|k: int|
        0 <= k < t[i]@.len() && (#[trigger] t[i]@[k]) is Some && in_scope[t[i]@[k]->0 as int]
}

/// Every crate marked in `in_scope` has a resolved dependency on a marked
/// crate: a walk among them never ends, so it must come back on itself.
pub open spec fn scope_waits(t: Seq<Vec<Option<usize>>>, in_scope: Seq<bool>) -> bool {
    forall|i: int| 0 <= i < t.len() && #[trigger] in_scope[i] ==> waits_in_scope(t, in_scope, i)
}

/// A list of distinct positions below `n` has at most `n` items.
proof fn lemma_distinct_positions(p: Seq<usize>, n: int)
    requires
        p.no_duplicates(),
        forall|m: int| 0 <= m < p.len() ==> (#[trigger] p[m]) < n,
        0 <= n,
    ensures
        p.len() <= n,
{
    let q = p.map_values(|x: usize| x as int);
    assert forall|a: int, b: int| 0 <= a < q.len() && 0 <= b < q.len() && a != b implies q[a] != q[b] by {
        assert(p[a] != p[b]);
    }
    assert(q.no_duplicates());
    q.unique_seq_to_set();
    let range = vstd::set_lib::set_int_range(0, n);
    vstd::set_lib::lemma_int_range(0, n);
    assert forall|x: int| q.to_set().contains(x) implies range.contains(x) by {
        let m = choose|m: int| 0 <= m < q.len() && q[m] == x;
        assert(p[m] < n);
    }
    vstd::set_lib::lemma_len_subset(q.to_set(), range);
}

/// There is room on a path of distinct positions for one more that it lacks.
proof fn lemma_room_on_path(p: Seq<usize>, x: usize, n: int)
    requires
        p.no_duplicates(),
        forall|m: int| 0 <= m < p.len() ==> (#[trigger] p[m]) < n,
        x < n,
        forall|m: int| 0 <= m < p.len() ==> p[m] != x,
    ensures
        p.len() < n,
        p.push(x).no_duplicates(),
{
    let q = p.push(x);
    assert forall|a: int, b: int| 0 <= a < q.len() && 0 <= b < q.len() && a != b implies q[a] != q[b] by {
        if a < p.len() && b < p.len() {
            assert(p[a] != p[b]);
        }
    }
    assert forall|m: int| 0 <= m < q.len() implies (#[trigger] q[m]) < n by {}
    lemma_distinct_positions(q, n);
}

/// The cycle that closes when the walk comes back to `path[m]`.
fn cycle_in_path(t: &Vec<Vec<Option<usize>>>, path: &Vec<usize>, m: usize, current: usize) -> (c: Vec<usize>)
    requires
        m < path.len(),
        path@[m as int] == current,
        t_chain(t@, path@),
        t_edge(t@, path@.last() as int, current as int),
    ensures
        c@ == path@.subrange(m as int, path.len() as int).push(current),
        t_cycle(t@, c@),
{
    let ghost p = path@;
    let mut c: Vec<usize> = Vec::new();
    let mut x: usize = m;
    while x < path.len()
        invariant
            m <= x <= path.len(),
            path@ == p,
            c@ == p.subrange(m as int, x as int),
        decreases path.len() - x,
    {
        c.push(path[x]);
        x += 1;
        assert(c@ =~= p.subrange(m as int, x as int));
    }
    c.push(current);
    assert forall|y: int| 0 <= y < c@.len() - 1 implies #[trigger] t_edge(t@, c@[y] as int, c@[y + 1] as int) by {
        if y < c@.len() - 2 {
            assert(c@[y] == p[m + y]);
            assert(c@[y + 1] == p[m + y + 1]);
            assert(t_edge(t@, p[m + y] as int, p[m + y + 1] as int));
        } else {
            assert(c@[y] == p.last());
        }
    }
    c
}

/// Looks for a dependency cycle by a depth-first walk from `current` among
/// the crates marked in `in_scope`, `path` being the walk so far. Gives the
/// cycle from the first repeated crate to its repetition, if the walk meets
/// one within `fuel` steps.
fn detect_cycle(
    current: usize,
    t: &Vec<Vec<Option<usize>>>,
    in_scope: &Vec<bool>,
    path: &mut Vec<usize>,
    fuel: usize,
) -> (r: Option<Vec<usize>>)
    requires
        targets_in_range(t@),
        current < t.len(),
        in_scope.len() == t.len(),
        forall|m: int| 0 <= m < old(path).len() ==> (#[trigger] old(path)@[m]) < t.len(),
        t_chain(t@, old(path)@),
        old(path)@.no_duplicates(),
        old(path).len() > 0 ==> t_edge(t@, old(path)@.last() as int, current as int),
    ensures
        final(path)@ == old(path)@,
        match r {
            Some(c) => t_cycle(t@, c@),
            None => true,
        },
        forall|m: int|
            0 <= m < old(path).len() && old(path)@[m] == current ==> r is Some && r->0@ == old(path)@.subrange(
                m,
                old(path).len() as int,
            ).push(current),
        scope_waits(t@, in_scope@) && in_scope@[current as int] && fuel + old(path).len() >= t.len()
            ==> r is Some,
    decreases fuel,
{
    let mut m: usize = 0;
    while m < path.len()
        invariant
            m <= path.len(),
            path@ == old(path)@,
            t_chain(t@, path@),
            path@.no_duplicates(),
            path.len() > 0 ==> t_edge(t@, path@.last() as int, current as int),
            forall|y: int| 0 <= y < m ==> path@[y] != current,
        decreases path.len() - m,
    {
        if path[m] == current {
            let c = cycle_in_path(t, path, m, current);
            proof {
                assert forall|y: int| 0 <= y < path.len() && path@[y] == current implies y == m by {
                    if y != m {
                        assert(path@[y] != path@[m as int]);
                    }
                }
            }
            return Some(c);
        }
        m += 1;
    }
    let ghost complete = scope_waits(t@, in_scope@) && in_scope@[current as int] && fuel + path.len() >= t.len();
    proof {
        lemma_room_on_path(path@, current, t.len() as int);
    }
    if fuel == 0 {
        return None;
    }
    let ghost path0 = path@;
    path.push(current);
    assert forall|y: int| 0 <= y < path@.len() - 1 implies #[trigger] t_edge(t@, path@[y] as int, path@[y + 1] as int) by {
        if y < path0.len() - 1 {
            assert(path@[y] == path0[y]);
            assert(path@[y + 1] == path0[y + 1]);
            assert(t_edge(t@, path0[y] as int, path0[y + 1] as int));
        }
    }
    let mut k: usize = 0;
    while k < t[current].len()
        invariant
            targets_in_range(t@),
            current < t.len(),
            in_scope.len() == t.len(),
            path@ == path0.push(current),
            path0 == old(path)@,
            forall|m: int| 0 <= m < path.len() ==> (#[trigger] path@[m]) < t.len(),
            t_chain(t@, path@),
            path@.no_duplicates(),
            fuel > 0,
            complete == (scope_waits(t@, in_scope@) && in_scope@[current as int] && fuel + path0.len() >= t.len()),
            complete ==> forall|x: int|
                0 <= x < k ==> !((#[trigger] t[current as int]@[x]) is Some && in_scope@[t[current as int]@[x]->0 as int]),
            k <= t[current as int]@.len(),
        decreases t[current as int]@.len() - k,
    {
        if let Some(j) = t[current][k] {
            assert(j < t.len());
            if in_scope[j] {
                assert(t_edge(t@, current as int, j as int));
                let found = detect_cycle(j, t, in_scope, path, fuel - 1);
                if found.is_some() {
                    path.pop();
                    assert(path@ =~= path0);
                    return found;
                }
            }
        }
        k += 1;
    }
    path.pop();
    assert(path@ =~= path0);
    proof {
        if complete {
            assert(waits_in_scope(t@, in_scope@, current as int));
        }
    }
    None
}

/// The value of the first alias whose key is `key`.
fn lookup_alias(aliases: &Vec<(String, String)>, key: &String) -> (r: Option<String>)
    ensures
        opt_str_view(r) == alias_for(pairs_view(aliases@), key@),
{
    let ghost pv = pairs_view(aliases@);
    assert(pv.subrange(0, pv.len() as int) =~= pv);
    let mut i: usize = 0;
    while i < aliases.len()
        invariant
            i <= aliases.len(),
            pv == pairs_view(aliases@),
            alias_for(pv, key@) == alias_for(pv.subrange(i as int, pv.len() as int), key@),
        decreases aliases.len() - i,
    {
        let ghost rest = pv.subrange(i as int, pv.len() as int);
        assert(rest[0] == pv[i as int]);
        assert(rest.drop_first() =~= pv.subrange(i + 1, pv.len() as int));
        if aliases[i].0 == *key {
            return Some(aliases[i].1.clone());
        }
        i += 1;
    }
    assert(pv.subrange(i as int, pv.len() as int).len() == 0);
    None
}

/// The places of a complete placement, as integers.
pub open spec fn places(pos: Seq<Option<usize>>) -> Seq<int> {
    pos.map_values(|o: Option<usize>|
        match o {
            Some(p) => p as int,
            None => 0,
        })
}

/// The graph node of crate `i`, its dependencies resolved to places.
fn make_node(crates: &Vec<CrateSpec>, t: &Vec<Vec<Option<usize>>>, pos: &Vec<Option<usize>>, i: usize) -> (node: Crate)
    requires
        unique_ids(specs_view(crates@)),
        targets_match(specs_view(crates@), t@),
        pos.len() == crates.len(),
        forall|j: int| 0 <= j < pos.len() ==> (#[trigger] pos@[j]) is Some,
        i < crates.len(),
    ensures
        node_matches(specs_view(crates@), places(pos@), i as int, node),
{
    let ghost cv = specs_view(crates@);
    let ghost pl = places(pos@);
    let c = &crates[i];
    assert(c@ == cv[i as int]);
    let mut deps: Vec<Dependency> = Vec::new();
    let mut k: usize = 0;
    while k < c.deps.len()
        invariant
            cv == specs_view(crates@),
            pl == places(pos@),
            c == &crates@[i as int],
            c@ == cv[i as int],
            unique_ids(cv),
            targets_match(cv, t@),
            pos.len() == crates.len(),
            forall|j: int| 0 <= j < pos.len() ==> (#[trigger] pos@[j]) is Some,
            i < crates.len(),
            k <= c.deps.len(),
            deps_view(deps@) == resolved_deps(cv, pl, i as int, k as int),
        decreases c.deps.len() - k,
    {
        assert(t@[i as int]@.len() == cv[i as int].deps.len());
        let ghost prev = deps@;
        let ghost d = cv[i as int].deps[k as int];
        assert(d == c.deps@[k as int]@);
        if let Some(j) = t[i][k] {
            let place = match pos[j] {
                Some(p) => p,
                None => 0,
            };
            let name = match lookup_alias(&c.aliases, &c.deps[k]) {
                Some(a) => a,
                None => crates[j].display_name.clone(),
            };
            assert(cv[j as int] == crates@[j as int]@);
            deps.push(Dependency { crate_index: place, name });
            assert(deps_view(deps@) =~= deps_view(prev).push((pl[j as int], dep_name(cv, i as int, d))));
        } else {
            assert(deps_view(deps@) =~= deps_view(prev));
        }
        k += 1;
    }
    let source = match &c.source {
        Some(s) => Source { exclude_dirs: copy_strs(&s.exclude_dirs), include_dirs: copy_strs(&s.include_dirs) },
        None => Source { include_dirs: Vec::new(), exclude_dirs: Vec::new() },
    };
    let build = match &c.build_file {
        Some(bf) => Some(
            Build { label: c.bazel_target.clone(), build_file: bf.clone(), target_kind: TargetKind::from(c.crate_type) },
        ),
        None => None,
    };
    Crate {
        display_name: Some(c.display_name.clone()),
        root_module: c.root_module.clone(),
        edition: c.edition.clone(),
        deps,
        cfg: copy_strs(&c.cfg),
        target: Some(c.target.clone()),
        env: copy_pairs(&c.env),
        proc_macro_dylib_path: copy_opt_str(&c.proc_macro_dylib_path),
        is_workspace_member: Some(c.is_workspace_member),
        source,
        is_proc_macro: c.proc_macro_dylib_path.is_some(),
        build,
    }
}


/// A resolved dependency is a dependency edge.
proof fn lemma_t_edge_is_edge(cv: Seq<CrateSpecView>, t: Seq<Vec<Option<usize>>>, i: int, j: int)
    requires
        unique_ids(cv),
        targets_match(cv, t),
        0 <= j < t.len(),
        j <= usize::MAX,
        t_edge(t, i, j),
    ensures
        is_edge(cv, i, j),
{
    let k = choose|k: int| 0 <= k < t[i]@.len() && #[trigger] t[i]@[k] == Some(j as usize);
    let d = cv[i].deps[k];
    let o = t[i]@[k];
    assert(o == Some(j as usize));
    assert((j as usize) as int == j);
    assert(has_id(cv, d) && j == index_of_id(cv, d));
    assert(cv[j].crate_id == d);
    assert(cv[i].deps.contains(cv[j].crate_id));
}

/// Adding a true diagnostic keeps the diagnostics in order.
proof fn lemma_push_diagnostic(cv: Seq<CrateSpecView>, before: Seq<Diagnostic>, after: Seq<Diagnostic>, d: Diagnostic)
    requires
        new_diagnostics_ok(cv, before, after),
        diagnostic_holds(cv, d),
    ensures
        new_diagnostics_ok(cv, before, after.push(d)),
{
    let a2 = after.push(d);
    assert(a2.subrange(0, before.len() as int) =~= after.subrange(0, before.len() as int));
    assert forall|m: int| before.len() <= m < a2.len() implies diagnostic_holds(cv, #[trigger] a2[m]) by {
        if m < after.len() {
            assert(a2[m] == after[m]);
        }
    }
    assert forall|i: int, k: int|
        0 <= i < cv.len() && 0 <= k < cv[i].deps.len() && !has_id(cv, #[trigger] cv[i].deps[k])
            implies exists|m: int|
            before.len() <= m < a2.len() && #[trigger] reports_missing(a2[m], cv[i].crate_id, cv[i].deps[k]) by {
        let m = choose|m: int| before.len() <= m < after.len() && #[trigger] reports_missing(after[m], cv[i].crate_id, cv[i].deps[k]);
        assert(a2[m] == after[m]);
    }
}

/// The ids of the crates at the given positions.
fn ids_of(crates: &Vec<CrateSpec>, c: &Vec<usize>) -> (r: Vec<String>)
    requires
        forall|m: int| 0 <= m < c.len() ==> (#[trigger] c@[m]) < crates.len(),
    ensures
        strs_view(r@) == ids_at(specs_view(crates@), c@.map_values(|x: usize| x as int)),
{
    let ghost cv = specs_view(crates@);
    let ghost ci = c@.map_values(|x: usize| x as int);
    let mut r: Vec<String> = Vec::new();
    let mut m: usize = 0;
    while m < c.len()
        invariant
            m <= c.len(),
            cv == specs_view(crates@),
            ci == c@.map_values(|x: usize| x as int),
            forall|m: int| 0 <= m < c.len() ==> (#[trigger] c@[m]) < crates.len(),
            strs_view(r@) == ids_at(cv, ci.subrange(0, m as int)),
        decreases c.len() - m,
    {
        assert(cv[c@[m as int] as int] == crates@[c@[m as int] as int]@);
        let ghost prev = r@;
        let id = crates[c[m]].crate_id.clone();
        assert(id@ == cv[ci[m as int]].crate_id);
        r.push(id);
        assert(ci.subrange(0, m + 1) =~= ci.subrange(0, m as int).push(ci[m as int]));
        assert(strs_view(r@) =~= strs_view(prev).push(id@));
        m += 1;
        assert(strs_view(r@) =~= ids_at(cv, ci.subrange(0, m as int)));
    }
    assert(ci.subrange(0, c.len() as int) =~= ci);
    r
}

/// The graph nodes in the order of a complete placement.
fn place_nodes(
    crates: &Vec<CrateSpec>,
    t: &Vec<Vec<Option<usize>>>,
    order: &Vec<usize>,
    pos: &Vec<Option<usize>>,
) -> (nodes: Vec<Crate>)
    requires
        unique_ids(specs_view(crates@)),
        targets_match(specs_view(crates@), t@),
        placement_ok(t@, order@, pos@),
        order.len() == t.len(),
    ensures
        nodes.len() == crates.len(),
        is_placement(specs_view(crates@), places(pos@)),
        forall|i: int|
            0 <= i < crates.len() ==> node_matches(specs_view(crates@), places(pos@), i, #[trigger] nodes@[places(pos@)[i]]),
{
    let ghost cv = specs_view(crates@);
    let n = crates.len();
    proof {
        lemma_count_unplaced_zero(pos@);
    }
    let ghost pl = places(pos@);
    let mut nodes: Vec<Crate> = Vec::new();
    let mut p: usize = 0;
    while p < n
        invariant
            n == crates.len(),
            cv == specs_view(crates@),
            pl == places(pos@),
            unique_ids(cv),
            targets_match(cv, t@),
            placement_ok(t@, order@, pos@),
            order.len() == n,
            forall|j: int| 0 <= j < pos.len() ==> (#[trigger] pos@[j]) is Some,
            p <= n,
            nodes.len() == p,
            forall|q: int| 0 <= q < p ==> node_matches(cv, pl, order@[q] as int, #[trigger] nodes@[q]),
        decreases n - p,
    {
        let node = make_node(crates, t, pos, order[p]);
        nodes.push(node);
        p += 1;
    }
    proof {
        assert forall|i: int, j: int| #[trigger] is_edge(cv, i, j) implies pl[j] < pl[i] by {
            let k = choose|k: int| 0 <= k < cv[i].deps.len() && cv[i].deps[k] == cv[j].crate_id;
            lemma_index_of_id(cv, cv[j].crate_id, j);
            assert(t@[i]@[k] == Some(j as usize));
            let q = pos@[i]->0 as int;
            assert(order@[q] == i);
            assert(t@[order@[q] as int]@[k] is Some);
        }
        assert forall|i: int, j: int| 0 <= i < pl.len() && 0 <= j < pl.len() && i != j implies #[trigger] pl[i] != #[trigger] pl[j] by {
            assert(order@[pos@[i]->0 as int] == i);
            assert(order@[pos@[j]->0 as int] == j);
        }
        assert forall|i: int| 0 <= i < crates.len() implies node_matches(cv, pl, i, #[trigger] nodes@[pl[i]]) by {
            let q = pos@[i]->0 as int;
            assert(order@[q] == i);
        }
    }
    nodes
}

/// Reports the dependency cycles that a depth-first walk finds from each
/// crate left unplaced, among the crates left unplaced.
fn report_cycles(
    crates: &Vec<CrateSpec>,
    t: &Vec<Vec<Option<usize>>>,
    stuck: &Vec<usize>,
    diagnostics: &mut Vec<Diagnostic>,
)
    requires
        unique_ids(specs_view(crates@)),
        targets_match(specs_view(crates@), t@),
        targets_in_range(t@),
        is_stuck_list(t@, stuck@),
    ensures
        reports_cycle(old(diagnostics)@, final(diagnostics)@),
        forall|before: Seq<Diagnostic>|
            new_diagnostics_ok(specs_view(crates@), before, old(diagnostics)@) ==> new_diagnostics_ok(
                specs_view(crates@),
                before,
                final(diagnostics)@,
            ),
{
    let ghost cv = specs_view(crates@);
    let ghost start = diagnostics@;
    proof {
        assert forall|x: int| 0 <= x < stuck.len() implies (#[trigger] stuck@[x]) < t.len() by {}
    }
    let n = crates.len();
    let mut in_scope: Vec<bool> = Vec::new();
    let mut j: usize = 0;
    while j < n
        invariant
            j <= n,
            in_scope.len() == j,
            forall|x: int| 0 <= x < j ==> !in_scope@[x],
        decreases n - j,
    {
        in_scope.push(false);
        j += 1;
    }
    let mut m: usize = 0;
    while m < stuck.len()
        invariant
            n == t.len(),
            in_scope.len() == n,
            m <= stuck.len(),
            forall|x: int| 0 <= x < stuck.len() ==> (#[trigger] stuck@[x]) < n,
            forall|x: int| 0 <= x < n ==> (in_scope@[x] <==> stuck@.take(m as int).contains(x as usize)),
        decreases stuck.len() - m,
    {
        let ghost before = in_scope@;
        in_scope.set(stuck[m], true);
        proof {
            broadcast use vstd::seq_lib::group_seq_properties;
            assert(stuck@.take(m + 1) =~= stuck@.take(m as int).push(stuck@[m as int]));
            assert forall|x: int| 0 <= x < n implies (in_scope@[x] <==> stuck@.take(m + 1).contains(x as usize)) by {
                if x != stuck@[m as int] as int {
                    assert(in_scope@[x] == before[x]);
                }
            }
        }
        m += 1;
    }
    proof {
        assert(stuck@.take(stuck.len() as int) =~= stuck@);
        assert forall|i: int| 0 <= i < t.len() && #[trigger] in_scope@[i] implies waits_in_scope(t@, in_scope@, i) by {
            let w = choose|w: int| 0 <= w < stuck.len() && stuck@[w] == i as usize;
            assert(waits_within(t@, stuck@, stuck@[w]));
            let k = choose|k: int|
                0 <= k < t@[i]@.len() && (#[trigger] t@[i]@[k]) is Some && stuck@.contains(t@[i]@[k]->0);
            assert(in_scope@[t@[i]@[k]->0 as int]);
        }
        assert(scope_waits(t@, in_scope@));
    }
    let mut m: usize = 0;
    while m < stuck.len()
        invariant
            n == crates.len(),
            n == t.len(),
            cv == specs_view(crates@),
            unique_ids(cv),
            targets_match(cv, t@),
            targets_in_range(t@),
            in_scope.len() == n,
            forall|x: int| 0 <= x < stuck.len() ==> (#[trigger] stuck@[x]) < n,
            forall|before: Seq<Diagnostic>|
                new_diagnostics_ok(cv, before, start) ==> new_diagnostics_ok(cv, before, diagnostics@),
            scope_waits(t@, in_scope@),
            forall|x: int| 0 <= x < stuck.len() ==> in_scope@[#[trigger] stuck@[x] as int],
            stuck.len() > 0,
            m <= stuck.len(),
            start.len() <= diagnostics@.len(),
            m > 0 ==> reports_cycle(start, diagnostics@),
        decreases stuck.len() - m,
    {
        let mut path: Vec<usize> = Vec::new();
        assert(path@.no_duplicates());
        let found = detect_cycle(stuck[m], t, &in_scope, &mut path, n);
        assert(m == 0 ==> found is Some);
        if let Some(c) = found {
            assert(t_cycle(t@, c@));
            proof {
                assert forall|x: int| 0 <= x < c.len() implies (#[trigger] c@[x]) < n by {
                    if x < c.len() - 1 {
                        assert(t_edge(t@, c@[x] as int, c@[x + 1] as int));
                    } else {
                        assert(t_edge(t@, c@[x - 1] as int, c@[x - 1 + 1] as int));
                        let k = choose|k: int| 0 <= k < t@[c@[x - 1] as int]@.len() && #[trigger] t@[c@[x - 1] as int]@[k] == Some(c@[x]);
                    }
                }
            }
            let crate_ids = ids_of(crates, &c);
            let ghost ci = c@.map_values(|x: usize| x as int);
            proof {
                assert forall|y: int| 0 <= y < ci.len() - 1 implies #[trigger] is_edge(cv, ci[y], ci[y + 1]) by {
                    assert(t_edge(t@, c@[y] as int, c@[y + 1] as int));
                    lemma_t_edge_is_edge(cv, t@, ci[y], ci[y + 1]);
                }
                assert(is_cycle(cv, ci));
            }
            let d = Diagnostic::Cycle { crate_ids };
            assert(diagnostic_holds(cv, d));
            let ghost old_d = diagnostics@;
            diagnostics.push(d);
            assert(diagnostics@[diagnostics.len() - 1] is Cycle);
            assert(reports_cycle(start, diagnostics@));
            proof {
                assert forall|before: Seq<Diagnostic>|
                    new_diagnostics_ok(cv, before, start) implies new_diagnostics_ok(cv, before, diagnostics@) by {
                    lemma_push_diagnostic(cv, before, old_d, d);
                }
            }
        }
        m += 1;
    }
}

/// Some diagnostic added between `before` and `after` reports a cycle.
pub open spec fn reports_cycle(before: Seq<Diagnostic>, after: Seq<Diagnostic>) -> bool {
    exists|m: int| before.len() <= m < after.len() && (#[trigger] after[m]) is Cycle
}

/// The crates left over by the layering form a stuck set.
#[verifier::rlimit(40)]
proof fn lemma_stuck_is_stuck_set(cv: Seq<CrateSpecView>, t: Seq<Vec<Option<usize>>>, stuck: Seq<usize>)
    requires
        unique_ids(cv),
        targets_match(cv, t),
        targets_in_range(t),
        is_stuck_list(t, stuck),
    ensures
        is_stuck_set(cv, stuck.map_values(|x: usize| x as int).to_set()),
{
    reveal(is_stuck_set);
    let si = stuck.map_values(|x: usize| x as int);
    let set = si.to_set();
    assert(si.contains(si[0]));
    assert(set.contains(si[0]));
    assert forall|i: int| #[trigger] set.contains(i) implies 0 <= i < cv.len() && exists|j: int|
        #[trigger] is_edge(cv, i, j) && set.contains(j) by {
        assert(si.contains(i));
        let x = choose|x: int| 0 <= x < si.len() && si[x] == i;
        assert(stuck[x] as int == i);
        assert(waits_within(t, stuck, stuck[x]));
        let k = choose|k: int|
            0 <= k < t[i]@.len() && (#[trigger] t[i]@[k]) is Some && stuck.contains(t[i]@[k]->0);
        let j = t[i]@[k]->0 as int;
        assert(t_edge(t, i, j));
        lemma_t_edge_is_edge(cv, t, i, j);
        let w = choose|w: int| 0 <= w < stuck.len() && stuck[w] == j;
        assert(si[w] == j);
        assert(si.contains(j));
        assert(set.contains(j));
    }
}

/// The position of the crate named by each dependency of each crate.
#[verifier::opaque]
pub open spec fn dep_targets(cv: Seq<CrateSpecView>) -> Seq<Seq<Option<usize>>> {
    Seq::new(
        cv.len(),
        |i: int|
            Seq::new(
                cv[i].deps.len(),
                |k: int|
                    if has_id(cv, cv[i].deps[k]) {
                        Some(index_of_id(cv, cv[i].deps[k]) as usize)
                    } else {
                        None
                    },
            ),
    )
}

/// The place of each crate when the crates are placed in passes over the
/// input, each pass placing, in input order, every crate whose dependencies
/// are placed by then; `None` when a pass places nothing.
pub open spec fn layered_places(cv: Seq<CrateSpecView>) -> Option<Seq<int>> {
    match layered(dep_targets(cv)) {
        Ok((order, pos)) => Some(places(pos)),
        Err(_) => None,
    }
}

proof fn lemma_rows_are_dep_targets(cv: Seq<CrateSpecView>, t: Seq<Vec<Option<usize>>>)
    requires
        targets_match(cv, t),
        targets_in_range(t),
        t.len() <= usize::MAX,
    ensures
        rows(t) == dep_targets(cv),
{
    reveal(dep_targets);
    let d = dep_targets(cv);
    assert forall|i: int| 0 <= i < t.len() implies #[trigger] rows(t)[i] == d[i] by {
        assert(rows(t)[i] == t[i]@);
        assert forall|k: int| 0 <= k < t[i]@.len() implies t[i]@[k] == d[i][k] by {
            let o = t[i]@[k];
            if o is Some {
                assert(o->0 < t.len());
            }
        }
        assert(t[i]@ =~= d[i]);
    }
    assert(rows(t) =~= d);
}

/// The graph of a successful layering.
fn finish_placed(
    crates: &Vec<CrateSpec>,
    t: &Vec<Vec<Option<usize>>>,
    order: &Vec<usize>,
    pos: &Vec<Option<usize>>,
) -> (nodes: Vec<Crate>)
    requires
        unique_ids(specs_view(crates@)),
        targets_match(specs_view(crates@), t@),
        placement_ok(t@, order@, pos@),
        order.len() == t.len(),
        layered(dep_targets(specs_view(crates@))) == Ok::<(Seq<usize>, Seq<Option<usize>>), Seq<Option<usize>>>(
            (order@, pos@),
        ),
    ensures
        is_acyclic(specs_view(crates@)),
        layered_places(specs_view(crates@)) == Some(places(pos@)),
        nodes.len() == crates.len(),
        is_placement(specs_view(crates@), places(pos@)),
        forall|i: int|
            0 <= i < crates.len() ==> node_matches(specs_view(crates@), places(pos@), i, #[trigger] nodes@[places(pos@)[i]]),
{
    let nodes = place_nodes(crates, t, order, pos);
    proof {
        lemma_placement_means_acyclic(specs_view(crates@), places(pos@));
    }
    nodes
}

/// The crates that the layering leaves unplaced, in input order (empty when
/// it places them all).
pub open spec fn left_unplaced(cv: Seq<CrateSpecView>) -> Seq<int> {
    match layered(dep_targets(cv)) {
        Ok(_) => Seq::empty(),
        Err(pos) => unplaced(pos, cv.len() as int).map_values(|x: usize| x as int),
    }
}

/// The error of a failed layering, after reporting the cycles.
fn finish_stuck(
    crates: &Vec<CrateSpec>,
    t: &Vec<Vec<Option<usize>>>,
    stuck: &Vec<usize>,
    diagnostics: &mut Vec<Diagnostic>,
) -> (e: GraphError)
    requires
        unique_ids(specs_view(crates@)),
        targets_match(specs_view(crates@), t@),
        targets_in_range(t@),
        is_stuck_list(t@, stuck@),
    ensures
        !is_acyclic(specs_view(crates@)),
        is_stuck_set(specs_view(crates@), stuck@.map_values(|x: usize| x as int).to_set()),
        ids_at(specs_view(crates@), stuck@.map_values(|x: usize| x as int)) == strs_view(e.unresolved@),
        reports_cycle(old(diagnostics)@, final(diagnostics)@),
        forall|before: Seq<Diagnostic>|
            new_diagnostics_ok(specs_view(crates@), before, old(diagnostics)@) ==> new_diagnostics_ok(
                specs_view(crates@),
                before,
                final(diagnostics)@,
            ),
{
    report_cycles(crates, t, stuck, diagnostics);
    let unresolved = ids_of(crates, stuck);
    proof {
        lemma_stuck_is_stuck_set(specs_view(crates@), t@, stuck@);
    }
    GraphError { unresolved }
}

/// Orders the crates so that each one follows the crates it depends on, and
/// resolves each dependency to the place and name of the crate it names, in
/// the ascending order of the crate's dependency ids.
///
/// The crates are placed in passes over the input: a pass places, in input
/// order, each crate whose dependencies are placed by then. A dependency on an
/// id that names no crate is reported and left out. When a pass places
/// nothing, the cycles found among the crates left over are reported and the
/// call fails; this happens exactly when the dependencies have a cycle.
pub fn build_crate_graph(crates: &Vec<CrateSpec>, diagnostics: &mut Vec<Diagnostic>) -> (r: Result<Vec<Crate>, GraphError>)
    requires
        well_formed(specs_view(crates@)),
    ensures
        r is Ok <==> is_acyclic(specs_view(crates@)),
        r is Err ==> reports_cycle(old(diagnostics)@, final(diagnostics)@),
        match r {
            Ok(nodes) => {
                let pos = layered_places(specs_view(crates@))->0;
                &&& layered_places(specs_view(crates@)) is Some
                &&& nodes.len() == crates.len()
                &&& is_placement(specs_view(crates@), pos)
                &&& forall|i: int|
                    0 <= i < crates.len() ==> node_matches(specs_view(crates@), pos, i, #[trigger] nodes@[pos[i]])
            },
            Err(e) => {
                &&& layered_places(specs_view(crates@)) is None
                &&& strs_view(e.unresolved@) == ids_at(specs_view(crates@), left_unplaced(specs_view(crates@)))
                &&& is_stuck_set(specs_view(crates@), left_unplaced(specs_view(crates@)).to_set())
            },
        },
        new_diagnostics_ok(specs_view(crates@), old(diagnostics)@, final(diagnostics)@),
{
    let ghost cv = specs_view(crates@);
    let t = resolve_dependency_targets(crates, diagnostics);
    let n: usize = t.len();
    proof {
        assert(t@.len() == n);
        lemma_rows_are_dep_targets(cv, t@);
    }
    match layer_order(&t) {
        Ok((order, pos)) => Ok(finish_placed(crates, &t, &order, &pos)),
        Err(stuck) => {
            let ghost mid = diagnostics@;
            let e = finish_stuck(crates, &t, &stuck, diagnostics);
            proof {
                let w = choose|w: int| mid.len() <= w < diagnostics@.len() && (#[trigger] diagnostics@[w]) is Cycle;
                assert(old(diagnostics)@.len() <= mid.len());
            }
            let ghost si = stuck@.map_values(|x: usize| x as int);
            assert(si == left_unplaced(cv));
            Err(e)
        },
    }
}

} // verus!
