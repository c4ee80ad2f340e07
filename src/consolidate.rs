//! Merging the crate records that describe one compilation unit.
//!
//! A library is often built twice: on its own and inside its test binary.
//! Both builds produce a record with the same `crate_id`; the merge keeps one
//! record per id with the union of the dependencies (in ascending order), the
//! cfgs of all builds in the order first seen, the rlib's name and target
//! label, and the proc-macro artifact of the exec configuration. The records
//! come out in ascending order of id.
use vstd::prelude::*;

use crate::crate_spec::{
    specs_view, strs_view, CrateSpec, CrateSpecView, CrateType,
};
use crate::order::{
    ascending, insert_all, insert_all_str, lemma_ascending_unique, lemma_insert_all,
    lemma_insert_all_set, lemma_lex_irreflexive, lemma_lex_total, lemma_lex_transitive, lex_lt,
    str_lt,
};
use crate::text::{contains_seq, contains_str, str_contains};

verus! {

/// Whether a crate type is `rlib`: the library whose name other crates use.
pub open spec fn is_rlib(t: CrateType) -> bool {
    t == CrateType::Rlib
}

/// The path component that marks a build in Bazel's exec configuration.
pub open spec fn exec_marker() -> Seq<char> {
    seq!['-', 'o', 'p', 't', '-', 'e', 'x', 'e', 'c', '-']
}

/// Whether a proc-macro artifact path belongs to an exec-configuration build.
pub open spec fn built_for_exec(p: Option<Seq<char>>) -> bool {
    match p {
        Some(s) => contains_seq(s, exec_marker()),
        None => false,
    }
}

/// `a` followed by the items of `b` that are not already there, each once,
/// in the order of `b`.
pub open spec fn append_absent(a: Seq<Seq<char>>, b: Seq<Seq<char>>) -> Seq<Seq<char>>
    decreases b.len(),
{
    if b.len() == 0 {
        a
    } else {
        let r = append_absent(a, b.drop_last());
        if r.contains(b.last()) {
            r
        } else {
            r.push(b.last())
        }
    }
}

/// The record that results from folding `inc` into the accumulated `acc`.
///
/// An rlib's name, kind and target label replace those of earlier records; a
/// proc-macro artifact of the exec configuration replaces an earlier one;
/// every other field keeps the value of the first record.
pub open spec fn merged(acc: CrateSpecView, inc: CrateSpecView) -> CrateSpecView {
    let lib = is_rlib(inc.crate_type);
    CrateSpecView {
        deps: insert_all(acc.deps, inc.deps),
        cfg: append_absent(acc.cfg, inc.cfg),
        display_name: if lib { inc.display_name } else { acc.display_name },
        crate_type: if lib { inc.crate_type } else { acc.crate_type },
        bazel_target: if lib { inc.bazel_target } else { acc.bazel_target },
        proc_macro_dylib_path: if built_for_exec(inc.proc_macro_dylib_path) {
            inc.proc_macro_dylib_path
        } else {
            acc.proc_macro_dylib_path
        },
        ..acc
    }
}

/// A record with its dependencies put in ascending order, each once.
pub open spec fn with_sorted_deps(s: CrateSpecView) -> CrateSpecView {
    CrateSpecView { deps: insert_all(Seq::empty(), s.deps), ..s }
}

/// Consolidated records: distinct ids, and each record's dependency ids in
/// ascending order, each once.
pub open spec fn well_formed(r: Seq<CrateSpecView>) -> bool {
    &&& unique_ids(r)
    &&& forall|i: int| 0 <= i < r.len() ==> ascending(#[trigger] r[i].deps)
}

/// Where a record with id `id` goes among `r`: before the first record whose
/// id comes after `id`, or at the end.
pub open spec fn id_slot(r: Seq<CrateSpecView>, id: Seq<char>) -> int
    decreases r.len(),
{
    if r.len() == 0 {
        0
    } else if lex_lt(id, r[0].crate_id) {
        0
    } else {
        1 + id_slot(r.drop_first(), id)
    }
}

/// The ids of `r` are in ascending order.
pub open spec fn ids_ascending(r: Seq<CrateSpecView>) -> bool {
    forall|i: int, j: int| 0 <= i < j < r.len() ==> lex_lt(#[trigger] r[i].crate_id, #[trigger] r[j].crate_id)
}

proof fn lemma_id_slot(r: Seq<CrateSpecView>, id: Seq<char>, p: int)
    requires
        0 <= p <= r.len(),
        forall|k: int| 0 <= k < p ==> !lex_lt(id, #[trigger] r[k].crate_id),
        p < r.len() ==> lex_lt(id, r[p].crate_id),
    ensures
        id_slot(r, id) == p,
    decreases p,
{
    if p > 0 {
        assert(!lex_lt(id, r[0].crate_id));
        let rest = r.drop_first();
        assert forall|k: int| 0 <= k < p - 1 implies !lex_lt(id, #[trigger] rest[k].crate_id) by {
            assert(rest[k] == r[k + 1]);
        }
        lemma_id_slot(rest, id, p - 1);
    }
}

proof fn lemma_id_slot_range(r: Seq<CrateSpecView>, id: Seq<char>)
    ensures
        0 <= id_slot(r, id) <= r.len(),
        forall|k: int| 0 <= k < id_slot(r, id) ==> !lex_lt(id, #[trigger] r[k].crate_id),
        id_slot(r, id) < r.len() ==> lex_lt(id, r[id_slot(r, id)].crate_id),
    decreases r.len(),
{
    if r.len() > 0 && !lex_lt(id, r[0].crate_id) {
        let rest = r.drop_first();
        lemma_id_slot_range(rest, id);
        assert forall|k: int| 0 <= k < id_slot(r, id) implies !lex_lt(id, #[trigger] r[k].crate_id) by {
            if k > 0 {
                assert(r[k] == rest[k - 1]);
            }
        }
    }
}

/// Whether some record in `r` has the id `id`.
pub open spec fn has_id(r: Seq<CrateSpecView>, id: Seq<char>) -> bool {
    exists|i: int| 0 <= i < r.len() && #[trigger] r[i].crate_id == id
}

/// The position of the record with id `id` in `r` (meaningful when
/// `has_id(r, id)` and the ids of `r` are distinct).
pub open spec fn index_of_id(r: Seq<CrateSpecView>, id: Seq<char>) -> int {
    choose|i: int| 0 <= i < r.len() && #[trigger] r[i].crate_id == id
}

/// No two records of `r` share an id.
pub open spec fn unique_ids(r: Seq<CrateSpecView>) -> bool {
    forall|i: int, j: int|
        0 <= i < r.len() && 0 <= j < r.len() && i != j ==> #[trigger] r[i].crate_id != #[trigger] r[j].crate_id
}

/// The result of consolidating `specs` in order: one record per id, in
/// ascending order of id, each the fold of `merged` over the records with
/// that id, starting from the first with its dependencies sorted.
pub open spec fn consolidated(specs: Seq<CrateSpecView>) -> Seq<CrateSpecView>
    decreases specs.len(),
{
    if specs.len() == 0 {
        seq![]
    } else {
        let r = consolidated(specs.drop_last());
        let s = specs.last();
        if has_id(r, s.crate_id) {
            let i = index_of_id(r, s.crate_id);
            r.update(i, merged(r[i], s))
        } else {
            r.insert(id_slot(r, s.crate_id), with_sorted_deps(s))
        }
    }
}

/// The consolidated records have distinct ids, and an id occurs among them
/// exactly when it occurs among the input records.
pub proof fn lemma_consolidated_ids(specs: Seq<CrateSpecView>)
    ensures
        unique_ids(consolidated(specs)),
        forall|id: Seq<char>|
            has_id(consolidated(specs), id) <==> has_id(specs, id),
    decreases specs.len(),
{
    if specs.len() > 0 {
        let init = specs.drop_last();
        lemma_consolidated_ids(init);
        let r = consolidated(init);
        let s = specs.last();
        assert forall|id: Seq<char>| has_id(specs, id) <==> (has_id(init, id) || s.crate_id == id) by {
            if has_id(specs, id) {
                let k = choose|k: int| 0 <= k < specs.len() && #[trigger] specs[k].crate_id == id;
                if k < specs.len() - 1 {
                    assert(init[k].crate_id == id);
                }
            }
            if has_id(init, id) {
                let k = choose|k: int| 0 <= k < init.len() && #[trigger] init[k].crate_id == id;
                assert(specs[k].crate_id == id);
            }
            if s.crate_id == id {
                assert(specs[specs.len() - 1].crate_id == id);
            }
        }
        let c = consolidated(specs);
        if has_id(r, s.crate_id) {
            let i = index_of_id(r, s.crate_id);
            assert(c == r.update(i, merged(r[i], s)));
            assert forall|id: Seq<char>| has_id(c, id) <==> has_id(r, id) by {
                if has_id(c, id) {
                    let k = choose|k: int| 0 <= k < c.len() && #[trigger] c[k].crate_id == id;
                    assert(r[k].crate_id == id);
                }
                if has_id(r, id) {
                    let k = choose|k: int| 0 <= k < r.len() && #[trigger] r[k].crate_id == id;
                    assert(c[k].crate_id == id);
                }
            }
        } else {
            lemma_id_slot_range(r, s.crate_id);
            let p = id_slot(r, s.crate_id);
            assert(c == r.insert(p, with_sorted_deps(s)));
            assert forall|id: Seq<char>| has_id(c, id) <==> (has_id(r, id) || s.crate_id == id) by {
                if has_id(c, id) {
                    let k = choose|k: int| 0 <= k < c.len() && #[trigger] c[k].crate_id == id;
                    if k < p {
                        assert(r[k].crate_id == id);
                    } else if k > p {
                        assert(r[k - 1].crate_id == id);
                    }
                }
                if has_id(r, id) {
                    let k = choose|k: int| 0 <= k < r.len() && #[trigger] r[k].crate_id == id;
                    if k < p {
                        assert(c[k].crate_id == id);
                    } else {
                        assert(c[k + 1].crate_id == id);
                    }
                }
                if s.crate_id == id {
                    assert(c[p].crate_id == id);
                }
            }
            assert forall|a: int, b: int|
                0 <= a < c.len() && 0 <= b < c.len() && a != b implies #[trigger] c[a].crate_id != #[trigger] c[b].crate_id by {
                let ra = if a < p { a } else { a - 1 };
                let rb = if b < p { b } else { b - 1 };
                if a != p && b != p {
                    assert(c[a] == r[ra] && c[b] == r[rb]);
                } else if a == p {
                    assert(c[b] == r[rb]);
                } else {
                    assert(c[a] == r[ra]);
                }
            }
        }
    }
}

/// Consolidating two records with the same id gives their merge.
pub proof fn lemma_consolidated_pair(x: CrateSpecView, y: CrateSpecView)
    requires
        x.crate_id == y.crate_id,
    ensures
        consolidated(seq![x, y]) == seq![merged(with_sorted_deps(x), y)],
{
    let s = seq![x, y];
    assert(s.drop_last() =~= seq![x]);
    assert(seq![x].drop_last() =~= Seq::<CrateSpecView>::empty());
    let e = Seq::<CrateSpecView>::empty();
    assert(consolidated(e) == e);
    assert(!has_id(e, x.crate_id));
    let r = consolidated(seq![x]);
    assert(id_slot(e, x.crate_id) == 0);
    assert(r =~= e.insert(0, with_sorted_deps(x)));
    assert(r[0].crate_id == y.crate_id);
    assert(has_id(r, y.crate_id));
    assert(index_of_id(r, y.crate_id) == 0);
    assert(consolidated(s) =~= seq![merged(with_sorted_deps(x), y)]);
}

/// Appending items that are all present already changes nothing.
pub proof fn lemma_append_absent_present(a: Seq<Seq<char>>, b: Seq<Seq<char>>)
    requires
        forall|i: int| 0 <= i < b.len() ==> a.contains(#[trigger] b[i]),
    ensures
        append_absent(a, b) == a,
    decreases b.len(),
{
    if b.len() > 0 {
        let init = b.drop_last();
        assert forall|i: int| 0 <= i < init.len() implies a.contains(#[trigger] init[i]) by {
            assert(init[i] == b[i]);
        }
        lemma_append_absent_present(a, init);
        assert(a.contains(b[b.len() - 1]));
    }
}

/// An rlib's record and a binary's record of the same unit, merged in either
/// order, carry the rlib's display name and crate type.
pub proof fn lemma_library_name_wins(lib: CrateSpecView, bin: CrateSpecView)
    requires
        lib.crate_id == bin.crate_id,
        is_rlib(lib.crate_type),
        !is_rlib(bin.crate_type),
    ensures
        consolidated(seq![lib, bin]).len() == 1,
        consolidated(seq![lib, bin])[0].display_name == lib.display_name,
        consolidated(seq![lib, bin])[0].crate_type == lib.crate_type,
        consolidated(seq![bin, lib]).len() == 1,
        consolidated(seq![bin, lib])[0].display_name == lib.display_name,
        consolidated(seq![bin, lib])[0].crate_type == lib.crate_type,
{
    lemma_consolidated_pair(lib, bin);
    lemma_consolidated_pair(bin, lib);
}

/// Two records of the same unit, one whose proc-macro artifact lies in the
/// exec configuration and one whose artifact does not (or is absent), merge in
/// either order to the exec artifact.
pub proof fn lemma_exec_proc_macro_wins(exec: CrateSpecView, other: CrateSpecView)
    requires
        exec.crate_id == other.crate_id,
        built_for_exec(exec.proc_macro_dylib_path),
        !built_for_exec(other.proc_macro_dylib_path),
    ensures
        consolidated(seq![exec, other]).len() == 1,
        consolidated(seq![exec, other])[0].proc_macro_dylib_path == exec.proc_macro_dylib_path,
        consolidated(seq![other, exec]).len() == 1,
        consolidated(seq![other, exec])[0].proc_macro_dylib_path == exec.proc_macro_dylib_path,
{
    lemma_consolidated_pair(exec, other);
    lemma_consolidated_pair(other, exec);
}

/// Two records of the same unit merge, in either order, to a record whose
/// dependencies are the union of theirs.
pub proof fn lemma_dependency_union(a: CrateSpecView, b: CrateSpecView)
    requires
        a.crate_id == b.crate_id,
    ensures
        consolidated(seq![a, b]).len() == 1,
        consolidated(seq![a, b])[0].deps.to_set() == a.deps.to_set() + b.deps.to_set(),
        consolidated(seq![b, a]).len() == 1,
        consolidated(seq![b, a])[0].deps.to_set() == a.deps.to_set() + b.deps.to_set(),
{
    lemma_consolidated_pair(a, b);
    lemma_consolidated_pair(b, a);
    let e = Seq::<Seq<char>>::empty();
    assert(e.to_set() =~= Set::empty());
    lemma_insert_all_set(e, a.deps);
    lemma_insert_all_set(e, b.deps);
    lemma_insert_all_set(insert_all(e, a.deps), b.deps);
    lemma_insert_all_set(insert_all(e, b.deps), a.deps);
    assert(e.to_set() + a.deps.to_set() =~= a.deps.to_set());
    assert(e.to_set() + b.deps.to_set() =~= b.deps.to_set());
    assert(b.deps.to_set() + a.deps.to_set() =~= a.deps.to_set() + b.deps.to_set());
}

/// Whether two records agree on the fields that a merge keeps from the first
/// record of a unit.
pub open spec fn agree_on_kept_fields(a: CrateSpecView, b: CrateSpecView) -> bool {
    &&& a.aliases == b.aliases
    &&& a.edition == b.edition
    &&& a.root_module == b.root_module
    &&& a.is_workspace_member == b.is_workspace_member
    &&& a.source == b.source
    &&& a.cfg == b.cfg
    &&& a.env == b.env
    &&& a.target == b.target
    &&& a.build_file == b.build_file
}

/// Whether two records agree on name, kind and target label.
pub open spec fn same_identity(a: CrateSpecView, b: CrateSpecView) -> bool {
    &&& a.display_name == b.display_name
    &&& a.crate_type == b.crate_type
    &&& a.bazel_target == b.bazel_target
}

/// Whether two records agree field by field.
pub open spec fn same_record(a: CrateSpecView, b: CrateSpecView) -> bool {
    &&& a.crate_id == b.crate_id
    &&& agree_on_kept_fields(a, b)
    &&& same_identity(a, b)
    &&& a.proc_macro_dylib_path == b.proc_macro_dylib_path
    &&& a.deps == b.deps
}

/// Whether `s[k]` is a record of the unit `id`.
pub open spec fn is_member(s: Seq<CrateSpecView>, k: int, id: Seq<char>) -> bool {
    0 <= k < s.len() && s[k].crate_id == id
}

/// Whether some record of the unit `id` is an rlib.
pub open spec fn group_has_rlib(s: Seq<CrateSpecView>, id: Seq<char>) -> bool {
    exists|k: int| #[trigger] is_member(s, k, id) && is_rlib(s[k].crate_type)
}

/// Whether some record of the unit `id` has an exec-configuration artifact.
pub open spec fn group_has_exec(s: Seq<CrateSpecView>, id: Seq<char>) -> bool {
    exists|k: int| #[trigger] is_member(s, k, id) && built_for_exec(s[k].proc_macro_dylib_path)
}

/// Every dependency of some record of the unit `id`.
pub open spec fn group_deps(s: Seq<CrateSpecView>, id: Seq<char>) -> Set<Seq<char>> {
    Set::new(|d: Seq<char>| exists|k: int| #[trigger] is_member(s, k, id) && s[k].deps.contains(d))
}

/// Whether the records of each unit leave no choice to the order of merging:
/// they agree on the fields kept from the first record; the rlibs among
/// them (or, where there is none, all of them) agree on name, kind and
/// target label; and the exec-configuration artifacts among them (or, where
/// there is none, all artifacts) are the same.
pub open spec fn order_insensitive(s: Seq<CrateSpecView>) -> bool {
    forall|i: int, j: int|
        0 <= j < s.len() && #[trigger] is_member(s, i, s[j].crate_id) ==> {
            &&& agree_on_kept_fields(s[i], s[j])
            &&& ((is_rlib(s[i].crate_type) && is_rlib(s[j].crate_type))
                || !group_has_rlib(s, s[i].crate_id)) ==> same_identity(s[i], s[j])
            &&& ((built_for_exec(s[i].proc_macro_dylib_path) && built_for_exec(
                s[j].proc_macro_dylib_path,
            )) || !group_has_exec(s, s[i].crate_id)) ==> s[i].proc_macro_dylib_path
                == s[j].proc_macro_dylib_path
        }
}

/// In a sequence with distinct ids, `index_of_id` finds the one position
/// that holds the id.
pub proof fn lemma_index_of_id(r: Seq<CrateSpecView>, id: Seq<char>, j: int)
    requires
        unique_ids(r),
        0 <= j < r.len(),
        r[j].crate_id == id,
    ensures
        has_id(r, id),
        index_of_id(r, id) == j,
{
    assert(has_id(r, id));
}

/// What the consolidated record of unit `id` is made of: the kept fields of
/// the unit's records (where they all agree with `t`), the name and kind of
/// one of its records (an rlib where there is one), the artifact of one of
/// its records (an exec one where there is one), and all their dependencies.
pub proof fn lemma_consolidated_record(s: Seq<CrateSpecView>, id: Seq<char>, t: CrateSpecView)
    requires
        has_id(s, id),
    ensures
        has_id(consolidated(s), id),
        ({
            let c = consolidated(s)[index_of_id(consolidated(s), id)];
            &&& c.crate_id == id
            &&& (forall|k: int| #[trigger] is_member(s, k, id) ==> agree_on_kept_fields(s[k], t))
                ==> agree_on_kept_fields(c, t)
            &&& exists|k: int|
                #[trigger] is_member(s, k, id) && same_identity(c, s[k]) && (group_has_rlib(
                    s,
                    id,
                ) ==> is_rlib(s[k].crate_type))
            &&& exists|k: int|
                #[trigger] is_member(s, k, id) && c.proc_macro_dylib_path
                    == s[k].proc_macro_dylib_path && (group_has_exec(s, id) ==> built_for_exec(
                    s[k].proc_macro_dylib_path,
                ))
            &&& c.deps.to_set() == group_deps(s, id)
        }),
    decreases s.len(),
{
    lemma_consolidated_ids(s);
    let init = s.drop_last();
    let x = s.last();
    let n = s.len() - 1;
    lemma_consolidated_ids(init);
    let r = consolidated(init);
    let res = consolidated(s);
    assert forall|k: int| 0 <= k < n implies #[trigger] init[k] == s[k] by {}
    if x.crate_id != id {
        let k0 = choose|k: int| 0 <= k < s.len() && #[trigger] s[k].crate_id == id;
        assert(init[k0].crate_id == id);
        assert(has_id(init, id));
        lemma_consolidated_record(init, id, t);
        let i = index_of_id(r, id);
        let c = r[i];
        assert forall|k: int| is_member(s, k, id) <==> is_member(init, k, id) by {}
        let i2 = if has_id(r, x.crate_id) {
            i
        } else if i < id_slot(r, x.crate_id) {
            i
        } else {
            i + 1
        };
        if has_id(r, x.crate_id) {
            let ix = index_of_id(r, x.crate_id);
            assert(res == r.update(ix, merged(r[ix], x)));
            assert(res[i] == c);
        } else {
            lemma_id_slot_range(r, x.crate_id);
            assert(res == r.insert(id_slot(r, x.crate_id), with_sorted_deps(x)));
            assert(res[i2] == c);
        }
        lemma_index_of_id(res, id, i2);
        assert(group_has_rlib(s, id) == group_has_rlib(init, id));
        assert(group_has_exec(s, id) == group_has_exec(init, id));
        assert(group_deps(s, id) =~= group_deps(init, id));
        let ki = choose|k: int|
            #[trigger] is_member(init, k, id) && same_identity(c, init[k]) && (group_has_rlib(
                init,
                id,
            ) ==> is_rlib(init[k].crate_type));
        assert(is_member(s, ki, id));
        let kp = choose|k: int|
            #[trigger] is_member(init, k, id) && c.proc_macro_dylib_path
                == init[k].proc_macro_dylib_path && (group_has_exec(init, id) ==> built_for_exec(
                init[k].proc_macro_dylib_path,
            ));
        assert(is_member(s, kp, id));
    } else if has_id(init, id) {
        lemma_consolidated_record(init, id, t);
        let i = index_of_id(r, id);
        let c = r[i];
        assert(res == r.update(i, merged(c, x)));
        lemma_index_of_id(res, id, i);
        let m = merged(c, x);
        assert(res[i] == m);
        assert(is_member(s, n, id));
        if forall|k: int| #[trigger] is_member(s, k, id) ==> agree_on_kept_fields(s[k], t) {
            assert forall|k: int| #[trigger] is_member(init, k, id) implies agree_on_kept_fields(
                init[k],
                t,
            ) by {
                assert(is_member(s, k, id));
            }
            assert(agree_on_kept_fields(x, t));
            assert forall|j: int| 0 <= j < x.cfg.len() implies c.cfg.contains(#[trigger] x.cfg[j]) by {
                assert(c.cfg[j] == x.cfg[j]);
            }
            lemma_append_absent_present(c.cfg, x.cfg);
        }
        if is_rlib(x.crate_type) {
            assert(same_identity(m, s[n]));
        } else {
            let ki = choose|k: int|
                #[trigger] is_member(init, k, id) && same_identity(c, init[k]) && (
                group_has_rlib(init, id) ==> is_rlib(init[k].crate_type));
            assert(is_member(s, ki, id));
            assert(group_has_rlib(s, id) ==> group_has_rlib(init, id)) by {
                if group_has_rlib(s, id) {
                    let k = choose|k: int| #[trigger] is_member(s, k, id) && is_rlib(s[k].crate_type);
                    assert(k != n);
                    assert(is_member(init, k, id));
                }
            }
        }
        if built_for_exec(x.proc_macro_dylib_path) {
            assert(m.proc_macro_dylib_path == s[n].proc_macro_dylib_path);
        } else {
            let kp = choose|k: int|
                #[trigger] is_member(init, k, id) && c.proc_macro_dylib_path
                    == init[k].proc_macro_dylib_path && (group_has_exec(init, id) ==> built_for_exec(
                    init[k].proc_macro_dylib_path,
                ));
            assert(is_member(s, kp, id));
            assert(group_has_exec(s, id) ==> group_has_exec(init, id)) by {
                if group_has_exec(s, id) {
                    let k = choose|k: int|
                        #[trigger] is_member(s, k, id) && built_for_exec(s[k].proc_macro_dylib_path);
                    assert(k != n);
                    assert(is_member(init, k, id));
                }
            }
        }
        lemma_insert_all_set(c.deps, x.deps);
        assert forall|d: Seq<char>| group_deps(s, id).contains(d) <==> (group_deps(
            init,
            id,
        ).contains(d) || x.deps.to_set().contains(d)) by {
            if group_deps(s, id).contains(d) {
                let k = choose|k: int| #[trigger] is_member(s, k, id) && s[k].deps.contains(d);
                if k < n {
                    assert(is_member(init, k, id));
                }
            }
            if group_deps(init, id).contains(d) {
                let k = choose|k: int| #[trigger] is_member(init, k, id) && init[k].deps.contains(d);
                assert(is_member(s, k, id));
            }
            if x.deps.to_set().contains(d) {
                assert(is_member(s, n, id));
            }
        }
        assert(m.deps.to_set() =~= group_deps(s, id));
    } else {
        assert(!has_id(r, id));
        let w = with_sorted_deps(x);
        lemma_id_slot_range(r, x.crate_id);
        let p = id_slot(r, x.crate_id);
        assert(res == r.insert(p, w));
        lemma_index_of_id(res, id, p);
        assert(res[p] == w);
        let e = Seq::<Seq<char>>::empty();
        lemma_insert_all_set(e, x.deps);
        assert(e.to_set() + x.deps.to_set() =~= x.deps.to_set());
        assert forall|k: int| #[trigger] is_member(s, k, id) implies k == n by {
            if k < n {
                assert(init[k].crate_id == id);
            }
        }
        assert(is_member(s, n, id));
        assert(group_has_rlib(s, id) ==> is_rlib(x.crate_type));
        assert(group_has_exec(s, id) ==> built_for_exec(x.proc_macro_dylib_path));
        assert forall|d: Seq<char>| group_deps(s, id).contains(d) <==> x.deps.to_set().contains(d) by {
            if x.deps.to_set().contains(d) {
                assert(is_member(s, n, id));
            }
        }
        assert(x.deps.to_set() =~= group_deps(s, id));
    }
}

/// Two sequences with the same multiset of records hold the same records.
proof fn lemma_same_members(s1: Seq<CrateSpecView>, s2: Seq<CrateSpecView>)
    requires
        s1.to_multiset() == s2.to_multiset(),
    ensures
        forall|x: CrateSpecView| s1.contains(x) <==> s2.contains(x),
{
    assert forall|x: CrateSpecView| s1.contains(x) <==> s2.contains(x) by {
        vstd::seq_lib::to_multiset_contains(s1, x);
        vstd::seq_lib::to_multiset_contains(s2, x);
    }
}

/// A position of `x` in `s` (meaningful when `s` holds `x`).
pub open spec fn position_of(s: Seq<CrateSpecView>, x: CrateSpecView) -> int {
    choose|k: int| 0 <= k < s.len() && s[k] == x
}

proof fn lemma_position_of(s: Seq<CrateSpecView>, x: CrateSpecView)
    requires
        s.contains(x),
    ensures
        0 <= position_of(s, x) < s.len(),
        s[position_of(s, x)] == x,
{
}

/// A record of unit `id` in one of two sequences with the same records is a
/// record of that unit in the other.
proof fn lemma_member_moves(s1: Seq<CrateSpecView>, s2: Seq<CrateSpecView>, id: Seq<char>, k: int)
    requires
        forall|x: CrateSpecView| s1.contains(x) <==> s2.contains(x),
        is_member(s2, k, id),
    ensures
        is_member(s1, position_of(s1, s2[k]), id),
        s1[position_of(s1, s2[k])] == s2[k],
{
    assert(s2.contains(s2[k]));
    lemma_position_of(s1, s2[k]);
}

proof fn lemma_group_facts_move(s1: Seq<CrateSpecView>, s2: Seq<CrateSpecView>, id: Seq<char>)
    requires
        forall|x: CrateSpecView| s1.contains(x) <==> s2.contains(x),
    ensures
        group_has_rlib(s2, id) ==> group_has_rlib(s1, id),
        group_has_exec(s2, id) ==> group_has_exec(s1, id),
        group_deps(s2, id).subset_of(group_deps(s1, id)),
{
    if group_has_rlib(s2, id) {
        let k = choose|k: int| #[trigger] is_member(s2, k, id) && is_rlib(s2[k].crate_type);
        lemma_member_moves(s1, s2, id, k);
        assert(is_member(s1, position_of(s1, s2[k]), id));
    }
    if group_has_exec(s2, id) {
        let k = choose|k: int|
            #[trigger] is_member(s2, k, id) && built_for_exec(s2[k].proc_macro_dylib_path);
        lemma_member_moves(s1, s2, id, k);
        assert(is_member(s1, position_of(s1, s2[k]), id));
    }
    assert forall|d: Seq<char>| group_deps(s2, id).contains(d) implies group_deps(s1, id).contains(d) by {
        let k = choose|k: int| #[trigger] is_member(s2, k, id) && s2[k].deps.contains(d);
        lemma_member_moves(s1, s2, id, k);
        assert(is_member(s1, position_of(s1, s2[k]), id));
    }
}

/// The consolidated records of one unit agree when two sequences hold the
/// same records.
proof fn lemma_same_record_for_id(s1: Seq<CrateSpecView>, s2: Seq<CrateSpecView>, id: Seq<char>)
    requires
        forall|x: CrateSpecView| s1.contains(x) <==> s2.contains(x),
        order_insensitive(s1),
        has_id(s1, id),
    ensures
        has_id(consolidated(s1), id),
        has_id(consolidated(s2), id),
        same_record(
            consolidated(s1)[index_of_id(consolidated(s1), id)],
            consolidated(s2)[index_of_id(consolidated(s2), id)],
        ),
{
    let k0 = choose|k: int| 0 <= k < s1.len() && #[trigger] s1[k].crate_id == id;
    let t = s1[k0];
    assert(is_member(s1, k0, id));
    lemma_group_facts_move(s1, s2, id);
    lemma_group_facts_move(s2, s1, id);
    assert(group_deps(s1, id) =~= group_deps(s2, id));
    lemma_member_moves(s2, s1, id, k0);
    assert(has_id(s2, id));
    assert forall|k: int| #[trigger] is_member(s1, k, id) implies agree_on_kept_fields(s1[k], t) by {}
    assert forall|k: int| #[trigger] is_member(s2, k, id) implies agree_on_kept_fields(s2[k], t) by {
        lemma_member_moves(s1, s2, id, k);
        assert(is_member(s1, position_of(s1, s2[k]), s1[k0].crate_id));
    }
    lemma_consolidated_record(s1, id, t);
    lemma_consolidated_record(s2, id, t);
    let c1 = consolidated(s1)[index_of_id(consolidated(s1), id)];
    let c2 = consolidated(s2)[index_of_id(consolidated(s2), id)];
    let a1 = choose|k: int|
        #[trigger] is_member(s1, k, id) && same_identity(c1, s1[k]) && (group_has_rlib(s1, id)
            ==> is_rlib(s1[k].crate_type));
    let a2 = choose|k: int|
        #[trigger] is_member(s2, k, id) && same_identity(c2, s2[k]) && (group_has_rlib(s2, id)
            ==> is_rlib(s2[k].crate_type));
    lemma_member_moves(s1, s2, id, a2);
    let b2 = position_of(s1, s2[a2]);
    assert(is_member(s1, a1, s1[b2].crate_id));
    assert(same_identity(s1[a1], s1[b2]));
    let exec1 = choose|k: int|
        #[trigger] is_member(s1, k, id) && c1.proc_macro_dylib_path == s1[k].proc_macro_dylib_path
            && (group_has_exec(s1, id) ==> built_for_exec(s1[k].proc_macro_dylib_path));
    let exec2 = choose|k: int|
        #[trigger] is_member(s2, k, id) && c2.proc_macro_dylib_path == s2[k].proc_macro_dylib_path
            && (group_has_exec(s2, id) ==> built_for_exec(s2[k].proc_macro_dylib_path));
    lemma_member_moves(s1, s2, id, exec2);
    let exec2_in1 = position_of(s1, s2[exec2]);
    assert(is_member(s1, exec1, s1[exec2_in1].crate_id));
    lemma_consolidated_ids(s1);
    lemma_consolidated_ids(s2);
    lemma_consolidated_ascending(s1);
    lemma_consolidated_ascending(s2);
    assert(ascending(c1.deps));
    assert(ascending(c2.deps));
    lemma_ascending_unique(c1.deps, c2.deps);
}

/// Consolidation does not depend on the order of its input: two orders of the
/// same records, whose units leave no choice to the order of merging (see
/// `order_insensitive`), give the same records, field by field, in the same
/// order.
pub proof fn lemma_consolidation_order_independent(s1: Seq<CrateSpecView>, s2: Seq<CrateSpecView>)
    requires
        s1.to_multiset() == s2.to_multiset(),
        order_insensitive(s1),
    ensures
        consolidated(s1) == consolidated(s2),
{
    lemma_consolidated_ids(s1);
    lemma_consolidated_ids(s2);
    lemma_same_members(s1, s2);
    assert forall|id: Seq<char>| has_id(consolidated(s1), id) implies has_id(consolidated(s2), id) by {
        lemma_same_record_for_id(s1, s2, id);
    }
    assert forall|id: Seq<char>| has_id(consolidated(s2), id) implies has_id(consolidated(s1), id) by {
        assert(has_id(s2, id));
        let k = choose|k: int| 0 <= k < s2.len() && #[trigger] s2[k].crate_id == id;
        assert(s2.contains(s2[k]));
        let k1 = choose|k1: int| 0 <= k1 < s1.len() && s1[k1] == s2[k];
        assert(s1[k1].crate_id == id);
        assert(has_id(s1, id));
        lemma_same_record_for_id(s1, s2, id);
    }
    assert forall|id: Seq<char>|
        #![trigger index_of_id(consolidated(s1), id)]
        has_id(consolidated(s1), id) implies same_record(
        consolidated(s1)[index_of_id(consolidated(s1), id)],
        consolidated(s2)[index_of_id(consolidated(s2), id)],
    ) by {
        lemma_same_record_for_id(s1, s2, id);
    }
    // Both results list the same ids in ascending order, so they list them
    // in the same order, and hold the same record at each place.
    let c1 = consolidated(s1);
    let c2 = consolidated(s2);
    lemma_consolidated_ascending(s1);
    lemma_consolidated_ascending(s2);
    let ids1 = c1.map_values(|c: CrateSpecView| c.crate_id);
    let ids2 = c2.map_values(|c: CrateSpecView| c.crate_id);
    assert(ascending(ids1));
    assert(ascending(ids2));
    assert forall|id: Seq<char>| ids1.to_set().contains(id) <==> ids2.to_set().contains(id) by {
        if ids1.contains(id) {
            let k = choose|k: int| 0 <= k < ids1.len() && ids1[k] == id;
            assert(c1[k].crate_id == id);
            assert(has_id(c2, id));
            let k2 = choose|k2: int| 0 <= k2 < c2.len() && #[trigger] c2[k2].crate_id == id;
            assert(ids2[k2] == id);
        }
        if ids2.contains(id) {
            let k = choose|k: int| 0 <= k < ids2.len() && ids2[k] == id;
            assert(c2[k].crate_id == id);
            assert(has_id(c1, id));
            let k1 = choose|k1: int| 0 <= k1 < c1.len() && #[trigger] c1[k1].crate_id == id;
            assert(ids1[k1] == id);
        }
    }
    assert(ids1.to_set() =~= ids2.to_set());
    lemma_ascending_unique(ids1, ids2);
    assert(c1.len() == c2.len());
    assert forall|k: int| 0 <= k < c1.len() implies c1[k] == c2[k] by {
        let id = c1[k].crate_id;
        assert(ids1[k] == id && ids2[k] == id);
        lemma_index_of_id(c1, id, k);
        lemma_index_of_id(c2, id, k);
        assert(same_record(c1[index_of_id(c1, id)], c2[index_of_id(c2, id)]));
    }
    assert(c1 =~= c2);
}

/// The consolidated records come in ascending order of id, and list their
/// dependencies in ascending order.
pub proof fn lemma_consolidated_ascending(specs: Seq<CrateSpecView>)
    ensures
        forall|i: int| 0 <= i < consolidated(specs).len() ==> ascending(#[trigger] consolidated(specs)[i].deps),
        ids_ascending(consolidated(specs)),
    decreases specs.len(),
{
    if specs.len() > 0 {
        let init = specs.drop_last();
        lemma_consolidated_ascending(init);
        let r = consolidated(init);
        let s = specs.last();
        let c = consolidated(specs);
        let e = Seq::<Seq<char>>::empty();
        lemma_insert_all(e, s.deps);
        if has_id(r, s.crate_id) {
            let i = index_of_id(r, s.crate_id);
            lemma_insert_all(r[i].deps, s.deps);
            assert(c == r.update(i, merged(r[i], s)));
            assert forall|a: int, b: int| 0 <= a < b < c.len() implies lex_lt(#[trigger] c[a].crate_id, #[trigger] c[b].crate_id) by {
                assert(r[a].crate_id == c[a].crate_id && r[b].crate_id == c[b].crate_id);
            }
        } else {
            lemma_id_slot_range(r, s.crate_id);
            let p = id_slot(r, s.crate_id);
            let id = s.crate_id;
            assert(c == r.insert(p, with_sorted_deps(s)));
            assert forall|k: int| 0 <= k < r.len() implies (k < p ==> lex_lt(#[trigger] r[k].crate_id, id)) && (k >= p ==> lex_lt(id, r[k].crate_id)) by {
                if k < p {
                    lemma_lex_total(r[k].crate_id, id);
                    assert(r[k].crate_id != id);
                } else if k > p {
                    lemma_lex_transitive(id, r[p].crate_id, r[k].crate_id);
                }
            }
            assert forall|a: int, b: int| 0 <= a < b < c.len() implies lex_lt(#[trigger] c[a].crate_id, #[trigger] c[b].crate_id) by {
                if a < p && b < p {
                    assert(c[a] == r[a] && c[b] == r[b]);
                } else if a < p && b == p {
                    assert(c[a] == r[a]);
                } else if a < p {
                    assert(c[a] == r[a] && c[b] == r[b - 1]);
                    lemma_lex_transitive(r[a].crate_id, id, r[b - 1].crate_id);
                } else if a == p {
                    assert(c[b] == r[b - 1]);
                } else {
                    assert(c[a] == r[a - 1] && c[b] == r[b - 1]);
                }
            }
        }
    }
}

/// The position of the record with the given id, if there is one.
fn find_crate(r: &Vec<CrateSpec>, id: &String) -> (k: Option<usize>)
    ensures
        match k {
            Some(k) => k < r.len() && r@[k as int].crate_id@ == id@,
            None => !has_id(specs_view(r@), id@),
        },
{
    let mut i: usize = 0;
    while i < r.len()
        invariant
            i <= r.len(),
            forall|j: int| 0 <= j < i ==> r@[j].crate_id@ != id@,
        decreases r.len() - i,
    {
        if r[i].crate_id == *id {
            return Some(i);
        }
        i += 1;
    }
    assert forall|j: int| 0 <= j < r.len() implies #[trigger] specs_view(r@)[j].crate_id != id@ by {
        assert(specs_view(r@)[j] == r@[j]@);
    }
    None
}

/// Appends to `acc` the strings of `extra` that it does not hold yet.
fn append_absent_strs(acc: &mut Vec<String>, extra: &Vec<String>)
    ensures
        strs_view(final(acc)@) == append_absent(strs_view(old(acc)@), strs_view(extra@)),
{
    let ghost a0 = strs_view(acc@);
    let ghost e = strs_view(extra@);
    let mut i: usize = 0;
    while i < extra.len()
        invariant
            i <= extra.len(),
            e == strs_view(extra@),
            strs_view(acc@) == append_absent(a0, e.subrange(0, i as int)),
        decreases extra.len() - i,
    {
        let ghost prev = strs_view(acc@);
        assert(e.subrange(0, i + 1).drop_last() =~= e.subrange(0, i as int));
        assert(e.subrange(0, i + 1).last() == extra@[i as int]@);
        if !contains_str(acc, &extra[i]) {
            acc.push(extra[i].clone());
            assert(strs_view(acc@) =~= prev.push(extra@[i as int]@));
        }
        i += 1;
    }
    assert(e.subrange(0, extra.len() as int) =~= e);
}

/// Folds `spec` into `existing`, a record with the same id.
pub fn merge_crate_spec(existing: &mut CrateSpec, spec: &CrateSpec)
    ensures
        final(existing)@ == merged(old(existing)@, spec@),
{
    insert_all_str(&mut existing.deps, &spec.deps);
    append_absent_strs(&mut existing.cfg, &spec.cfg);

    // rust-analyzer matches crate entries against the symbols of source files
    // by display name, so an rlib keeps its own name even when its test
    // binary was seen first; the target label follows the name.
    if spec.crate_type == CrateType::Rlib {
        existing.display_name = spec.display_name.clone();
        existing.crate_type = spec.crate_type;
        existing.bazel_target = spec.bazel_target.clone();
    }

    // A proc-macro crate of the workspace gets a record from both the
    // fastbuild and the exec configuration; only the exec one is certain to
    // be built when the macro is used.
    if let Some(dylib_path) = &spec.proc_macro_dylib_path {
        if str_contains(dylib_path.as_str(), "-opt-exec-") {
            existing.proc_macro_dylib_path = Some(dylib_path.clone());
        }
    }
    proof {
        reveal_strlit("-opt-exec-");
        assert(exec_marker() =~= "-opt-exec-"@);
        assert(final(existing)@ =~= merged(old(existing)@, spec@));
    }
}

/// Merges records that share a `crate_id` into one record per id.
///
/// This happens when a `rust_test` depends on a `rust_library`, for example.
/// The records come out in ascending order of id.
pub fn consolidate_crate_specs(crate_specs: Vec<CrateSpec>) -> (r: Vec<CrateSpec>)
    ensures
        specs_view(r@) == consolidated(specs_view(crate_specs@)),
        well_formed(specs_view(r@)),
        ids_ascending(specs_view(r@)),
{
    let ghost sv = specs_view(crate_specs@);
    let mut result: Vec<CrateSpec> = Vec::new();
    let mut i: usize = 0;
    while i < crate_specs.len()
        invariant
            i <= crate_specs.len(),
            sv == specs_view(crate_specs@),
            specs_view(result@) == consolidated(sv.subrange(0, i as int)),
        decreases crate_specs.len() - i,
    {
        let ghost prefix = sv.subrange(0, i + 1);
        assert(prefix.drop_last() =~= sv.subrange(0, i as int));
        assert(prefix.last() == crate_specs@[i as int]@);
        proof {
            lemma_consolidated_ids(sv.subrange(0, i as int));
        }
        let spec = &crate_specs[i];
        match find_crate(&result, &spec.crate_id) {
            Some(k) => {
                let ghost rv = specs_view(result@);
                assert(rv[k as int].crate_id == spec.crate_id@);
                assert(has_id(rv, spec.crate_id@));
                assert(index_of_id(rv, spec.crate_id@) == k);
                let mut cur = result[k].duplicate();
                merge_crate_spec(&mut cur, spec);
                result.set(k, cur);
                assert(specs_view(result@) =~= rv.update(k as int, merged(rv[k as int], spec@)));
            },
            None => {
                let ghost rv = specs_view(result@);
                let mut fresh = spec.duplicate();
                let mut deps: Vec<String> = Vec::new();
                assert(strs_view(deps@) =~= Seq::<Seq<char>>::empty());
                insert_all_str(&mut deps, &spec.deps);
                fresh.deps = deps;
                assert(fresh@ =~= with_sorted_deps(spec@));
                let mut p: usize = 0;
                while p < result.len() && !str_lt(spec.crate_id.as_str(), result[p].crate_id.as_str())
                    invariant
                        p <= result.len(),
                        rv == specs_view(result@),
                        forall|k: int| 0 <= k < p ==> !lex_lt(spec@.crate_id, #[trigger] rv[k].crate_id),
                    decreases result.len() - p,
                {
                    assert(rv[p as int] == result@[p as int]@);
                    p += 1;
                }
                proof {
                    if p < result.len() {
                        assert(rv[p as int] == result@[p as int]@);
                    }
                    lemma_id_slot(rv, spec@.crate_id, p as int);
                }
                result.insert(p, fresh);
                assert(specs_view(result@) =~= rv.insert(p as int, with_sorted_deps(spec@)));
            },
        }
        i += 1;
    }
    assert(sv.subrange(0, crate_specs.len() as int) =~= sv);
    proof {
        lemma_consolidated_ids(sv);
        lemma_consolidated_ascending(sv);
    }
    result
}

} // verus!
