//! Laws of the store, proved once and for all: what creation guarantees to a
//! later lookup, idempotence of the initializer, what the two deletion
//! strategies leave behind, what a leaf's progress is, and what bulk
//! completion achieves.

use vstd::prelude::*;

use crate::category::CategoryModel;
use crate::database::{default_count, default_name, is_seeded_default, migrations_post};
use crate::hierarchy::{
    bulk_marked, cascade_remaining, chain_to, completed_subtree_listing, in_subtree,
    lemma_filter_all, lemma_same_ids_same_len, lemma_subtree_step, lemma_task_of_index,
    promote_remaining, promoted_one, subtree_listing,
};
use crate::repository::{
    contains_category_name, contains_task_id, dedup_categories, lemma_filter_agree,
    lemma_filter_elem_of, lemma_filter_unique_task_ids, name_survivor, task_index, task_of,
    unique_category_names, unique_task_ids,
};
use crate::task::{created_task, CreateTaskRequest, TaskModel};
use crate::text::{lemma_lex_refl, lex_le};

verus! {

/// No stored task sits in its own subtree: parent links form a forest.
pub open spec fn acyclic(s: Seq<TaskModel>) -> bool {
    forall|j: int| 0 <= j < s.len() ==> !in_subtree(s, (#[trigger] s[j]).id, Some(s[j].id))
}

/// Creation then lookup: once a freshly-created task is inserted, looking its
/// id up yields exactly the created record, which carries the request's
/// fields and differs from it only in the generated id and the two stamps.
pub proof fn lemma_create_then_get(
    s: Seq<TaskModel>,
    request: CreateTaskRequest,
    t: TaskModel,
    now: i64,
)
    requires
        unique_task_ids(s),
        !contains_task_id(s, t.id),
        t == created_task(request, t.id, now),
    ensures
        unique_task_ids(s.push(t)),
        contains_task_id(s.push(t), t.id),
        task_of(s.push(t), t.id) == t,
        t.title == request.title@,
        t.description == request.description.deep_view(),
        t.completed == false,
        t.category_id == request.category_id.deep_view(),
        t.parent_id == request.parent_id.deep_view(),
        t.created_at == now,
        t.updated_at == now,
{
    let s2 = s.push(t);
    assert forall|i: int, j: int| 0 <= i < j < s2.len() implies s2[i].id != s2[j].id by {
        if j == s2.len() - 1 {
            assert(s2[i] == s[i]);
        }
    }
    lemma_task_of_index(s2, s2.len() - 1);
}

/// With unique names, every category is the survivor of its own name, so
/// collapsing duplicates changes nothing.  Together with the initializer's
/// success clause this makes a repeated run owed success: all default names
/// are present, so nothing is drawn or inserted.
pub proof fn lemma_unique_names_dedup_identity(s: Seq<CategoryModel>)
    requires
        unique_category_names(s),
    ensures
        dedup_categories(s) == s,
{
    let p = |m: CategoryModel| name_survivor(s, m);
    assert forall|i: int| 0 <= i < s.len() implies p(#[trigger] s[i]) by {
        assert forall|j: int|
            0 <= j < s.len() && (#[trigger] s[j]).name == s[i].name implies lex_le(
            s[i].id,
            s[j].id,
        ) by {
            if i != j {
                assert(s[i].name != s[j].name);
            } else {
                lemma_lex_refl(s[i].id);
            }
        }
    }
    lemma_filter_all(s, p);
}

/// Idempotence of the initializer: a store that one run left behind (all
/// default names present, names unique) passes through a second run
/// unchanged.
pub proof fn lemma_migrations_idempotent(
    once: Seq<CategoryModel>,
    twice: Seq<CategoryModel>,
    now2: i64,
)
    requires
        unique_category_names(once),
        forall|d: int|
            0 <= d < default_count() ==> contains_category_name(once, default_name(d)),
        migrations_post(once, twice, now2),
    ensures
        twice == once,
        dedup_categories(once) == once,
{
    lemma_unique_names_dedup_identity(once);
    assert(dedup_categories(once) == once);
    if twice.len() > once.len() {
        assert(is_seeded_default(twice[once.len() as int], once, now2));
        let d = choose|d: int|
            0 <= d < default_count() && twice[once.len() as int].name == #[trigger] default_name(
                d,
            ) && !contains_category_name(once, default_name(d));
        assert(contains_category_name(once, default_name(d)));
    }
    assert(twice.len() == once.len());
    assert(twice =~= twice.subrange(0, once.len() as int));
}

/// Complementary filters split a sequence's length.
proof fn lemma_filter_len_complement<A>(s: Seq<A>, p: spec_fn(A) -> bool)
    ensures
        s.filter(p).len() + s.filter(|a: A| !p(a)).len() == s.len(),
    decreases s.len(),
{
    reveal(Seq::filter);
    if s.len() > 0 {
        lemma_filter_len_complement(s.drop_last(), p);
    }
}

/// Disjoint filters add their lengths under a disjunction.
proof fn lemma_filter_len_disjoint<A>(s: Seq<A>, p: spec_fn(A) -> bool, q: spec_fn(A) -> bool)
    requires
        forall|i: int| 0 <= i < s.len() ==> !(p(#[trigger] s[i]) && q(s[i])),
    ensures
        s.filter(|a: A| p(a) || q(a)).len() == s.filter(p).len() + s.filter(q).len(),
    decreases s.len(),
{
    reveal(Seq::filter);
    if s.len() > 0 {
        assert(forall|i: int|
            0 <= i < s.drop_last().len() ==> #[trigger] s.drop_last()[i] == s[i]);
        lemma_filter_len_disjoint(s.drop_last(), p, q);
    }
}

/// With unique ids, exactly one stored task carries a stored id.
proof fn lemma_filter_id_eq_len(s: Seq<TaskModel>, root: Seq<char>)
    requires
        unique_task_ids(s),
        contains_task_id(s, root),
    ensures
        s.filter(|m: TaskModel| m.id == root).len() == 1,
{
    broadcast use vstd::seq_lib::group_filter_ensures;
    broadcast use lemma_filter_elem_of;
    broadcast use lemma_filter_unique_task_ids;

    let p = |m: TaskModel| m.id == root;
    let out = s.filter(p);
    let w = choose|w: int| 0 <= w < s.len() && s[w].id == root;
    assert(out.contains(s[w]));
    assert(out.len() >= 1);
    if out.len() >= 2 {
        assert(p(out[0]) && p(out[1]));
        assert(out[0].id != out[1].id);
    }
}

/// Cascade deletion: what remains points at nothing that was removed, and the
/// number of removed tasks is the subtree size plus one for the root itself.
pub proof fn lemma_cascade_delete(s: Seq<TaskModel>, root: Seq<char>)
    requires
        unique_task_ids(s),
        contains_task_id(s, root),
        acyclic(s),
    ensures
        forall|i: int|
            0 <= i < cascade_remaining(s, root).len() ==> ((#[trigger] cascade_remaining(
                s,
                root,
            )[i]).parent_id matches Some(p) ==> !(p == root || in_subtree(s, p, Some(root)))),
        cascade_remaining(s, root).len() + subtree_listing(s, root).len() + 1 == s.len(),
{
    broadcast use vstd::seq_lib::group_filter_ensures;
    broadcast use lemma_filter_elem_of;

    let keep = |m: TaskModel| m.id != root && !in_subtree(s, m.id, Some(root));
    let out = cascade_remaining(s, root);
    // no remaining task points into the removed set
    assert forall|i: int|
        0 <= i < out.len() implies ((#[trigger] out[i]).parent_id matches Some(p) ==> !(p == root
        || in_subtree(s, p, Some(root)))) by {
        if out[i].parent_id is Some {
            let p = out[i].parent_id->Some_0;
            assert(s.contains(out[i]));
            let w = choose|w: int| 0 <= w < s.len() && s[w] == out[i];
            lemma_task_of_index(s, w);
            if p == root {
                assert(chain_to(s, out[i].id, Some(root), 1));
                assert(keep(out[i]));
                assert(false);
            } else if in_subtree(s, p, Some(root)) {
                lemma_subtree_step(s, out[i].id, p, Some(root));
                assert(false);
            }
        }
    }
    // counting: the removed set is the subtree plus exactly the root
    let insub = |m: TaskModel| in_subtree(s, m.id, Some(root));
    let isroot = |m: TaskModel| m.id == root;
    lemma_filter_len_complement(s, keep);
    assert forall|i: int| 0 <= i < s.len() implies (!keep(#[trigger] s[i]) == (isroot(s[i])
        || insub(s[i]))) by {}
    lemma_filter_agree(s, |m: TaskModel| !keep(m), |m: TaskModel| isroot(m) || insub(m));
    assert forall|i: int| 0 <= i < s.len() implies !(isroot(#[trigger] s[i]) && insub(
        s[i],
    )) by {
        if isroot(s[i]) && insub(s[i]) {
            assert(in_subtree(s, s[i].id, Some(s[i].id)));
        }
    }
    lemma_filter_len_disjoint(s, isroot, insub);
    lemma_filter_agree(s, |m: TaskModel| isroot(m) || insub(m), |m: TaskModel| m.id == root
        || in_subtree(s, m.id, Some(root)));
    lemma_filter_agree(
        s,
        |m: TaskModel| isroot(m),
        |m: TaskModel| m.id == root,
    );
    lemma_filter_agree(
        s,
        |m: TaskModel| insub(m),
        |m: TaskModel| in_subtree(s, m.id, Some(root)),
    );
    lemma_filter_id_eq_len(s, root);
}

/// Promote-on-delete: the root is gone, every direct child now points at the
/// root's former parent with a fresh stamp, and every grandchild keeps its
/// parent and is otherwise untouched.
pub proof fn lemma_promote_delete(s: Seq<TaskModel>, root: Seq<char>, now: i64)
    requires
        unique_task_ids(s),
        contains_task_id(s, root),
        acyclic(s),
    ensures
        !contains_task_id(promote_remaining(s, root, now), root),
        forall|i: int|
            0 <= i < s.len() && (#[trigger] s[i]).parent_id == Some(root)
                ==> promote_remaining(s, root, now).contains(
                TaskModel {
                    parent_id: task_of(s, root).parent_id,
                    updated_at: now,
                    ..s[i]
                },
            ),
        forall|gi: int, ci: int|
            0 <= gi < s.len() && 0 <= ci < s.len() && (#[trigger] s[gi]).parent_id == Some(
                (#[trigger] s[ci]).id,
            ) && s[ci].parent_id == Some(root) ==> promote_remaining(s, root, now).contains(
                s[gi],
            ),
{
    broadcast use vstd::seq_lib::group_filter_ensures;
    broadcast use lemma_filter_elem_of;

    let rp = task_of(s, root).parent_id;
    let mapped = s.map_values(|m: TaskModel| promoted_one(m, root, rp, now));
    let out = promote_remaining(s, root, now);
    let keep = |m: TaskModel| m.id != root;
    assert(out == mapped.filter(keep));
    // the root is gone: filtered elements keep their ids, none of which is root
    assert forall|i: int| 0 <= i < out.len() implies (#[trigger] out[i]).id != root by {
        assert(keep(out[i]));
    }
    // direct children appear promoted
    assert forall|i: int|
        0 <= i < s.len() && (#[trigger] s[i]).parent_id == Some(root) implies out.contains(
        TaskModel { parent_id: rp, updated_at: now, ..s[i] },
    ) by {
        assert(mapped[i] == promoted_one(s[i], root, rp, now));
        assert(mapped[i] == TaskModel { parent_id: rp, updated_at: now, ..s[i] });
        assert(s[i].id != root) by {
            if s[i].id == root {
                lemma_task_of_index(s, i);
                assert(chain_to(s, s[i].id, Some(s[i].id), 1));
            }
        }
        assert(keep(mapped[i]));
        mapped.lemma_filter_contains(keep, i);
    }
    // grandchildren are untouched
    assert forall|gi: int, ci: int|
        0 <= gi < s.len() && 0 <= ci < s.len() && (#[trigger] s[gi]).parent_id == Some(
            (#[trigger] s[ci]).id,
        ) && s[ci].parent_id == Some(root) implies out.contains(s[gi]) by {
        assert(s[ci].id != root) by {
            if s[ci].id == root {
                lemma_task_of_index(s, ci);
                assert(chain_to(s, s[ci].id, Some(s[ci].id), 1));
            }
        }
        assert(s[gi].parent_id != Some(root));
        assert(mapped[gi] == promoted_one(s[gi], root, rp, now));
        assert(mapped[gi] == s[gi]);
        assert(s[gi].id != root) by {
            if s[gi].id == root {
                lemma_task_of_index(s, gi);
                lemma_task_of_index(s, ci);
                assert(chain_to(s, s[ci].id, Some(root), 1));
                lemma_subtree_step(s, s[gi].id, s[ci].id, Some(root));
                assert(in_subtree(s, s[gi].id, Some(s[gi].id)));
            }
        }
        assert(keep(mapped[gi]));
        mapped.lemma_filter_contains(keep, gi);
    }
}

/// A task with descendants has a direct child.
proof fn lemma_chain_gives_child(s: Seq<TaskModel>, x: Seq<char>, id: Seq<char>, k: nat)
    requires
        chain_to(s, x, Some(id), k),
    ensures
        crate::repository::has_child(s, id),
    decreases k,
{
    if k == 1 {
        let w = task_index(s, x);
        assert(0 <= w < s.len() && s[w].id == x);
        assert(s[w].parent_id == Some(id));
    } else {
        lemma_chain_gives_child(s, task_of(s, x).parent_id->Some_0, id, (k - 1) as nat);
    }
}

/// A leaf's progress: a task without a direct child has an empty subtree, so
/// its progress reads zero of zero with no subtasks.
pub proof fn lemma_leaf_progress(s: Seq<TaskModel>, id: Seq<char>)
    requires
        !crate::repository::has_child(s, id),
    ensures
        subtree_listing(s, id).len() == 0,
        completed_subtree_listing(s, id).len() == 0,
{
    broadcast use vstd::seq_lib::group_filter_ensures;
    broadcast use lemma_filter_elem_of;

    assert forall|j: int| 0 <= j < s.len() implies !in_subtree(
        s,
        (#[trigger] s[j]).id,
        Some(id),
    ) by {
        if in_subtree(s, s[j].id, Some(id)) {
            let k = choose|k: nat| chain_to(s, s[j].id, Some(id), k);
            lemma_chain_gives_child(s, s[j].id, id, k);
        }
    }
    let p1 = |m: TaskModel| in_subtree(s, m.id, Some(id));
    let out1 = s.filter(p1);
    if out1.len() > 0 {
        assert(s.contains(out1[0]));
        let w = choose|w: int| 0 <= w < s.len() && s[w] == out1[0];
        assert(p1(out1[0]));
    }
    let p2 = |m: TaskModel| in_subtree(s, m.id, Some(id)) && m.completed;
    let out2 = s.filter(p2);
    if out2.len() > 0 {
        assert(s.contains(out2[0]));
        let w = choose|w: int| 0 <= w < s.len() && s[w] == out2[0];
        assert(p2(out2[0]));
    }
}

/// Subtree membership only reads ids and parent links, which bulk completion
/// preserves.
proof fn lemma_chain_pointwise(
    s: Seq<TaskModel>,
    s2: Seq<TaskModel>,
    id: Seq<char>,
    root: Option<Seq<char>>,
    k: nat,
)
    requires
        unique_task_ids(s),
        s2.len() == s.len(),
        forall|i: int|
            0 <= i < s.len() ==> (#[trigger] s2[i]).id == s[i].id && s2[i].parent_id
                == s[i].parent_id,
        chain_to(s, id, root, k),
    ensures
        chain_to(s2, id, root, k),
    decreases k,
{
    let w = task_index(s, id);
    assert(0 <= w < s.len() && s[w].id == id);
    lemma_task_of_index(s, w);
    assert(contains_task_id(s2, id));
    assert(unique_task_ids(s2));
    let w2 = task_index(s2, id);
    assert(0 <= w2 < s2.len() && s2[w2].id == id);
    assert(w2 == w) by {
        if w2 != w {
            assert(s2[w2].id != s2[w].id) by {
                assert(s[w2].id == s2[w2].id && s[w].id == s2[w].id);
            }
        }
    }
    assert(task_of(s2, id).parent_id == task_of(s, id).parent_id);
    if k > 1 {
        lemma_chain_pointwise(s, s2, task_of(s, id).parent_id->Some_0, root, (k - 1) as nat);
    }
}

/// Bulk completion completes the subtree: afterwards every task in the
/// subtree under the root is completed, so a progress reading shows as many
/// completed as there are in total.
pub proof fn lemma_bulk_mark_completes(s: Seq<TaskModel>, root: Seq<char>, now: i64)
    requires
        unique_task_ids(s),
    ensures
        completed_subtree_listing(bulk_marked(s, root, now), root) == subtree_listing(
            bulk_marked(s, root, now),
            root,
        ),
{
    let s2 = bulk_marked(s, root, now);
    assert(s2.len() == s.len());
    assert forall|i: int|
        0 <= i < s.len() implies (#[trigger] s2[i]).id == s[i].id && s2[i].parent_id
        == s[i].parent_id by {}
    assert forall|i: int| 0 <= i < s2.len() implies ((in_subtree(s2, (#[trigger] s2[i]).id, Some(
        root,
    )) && s2[i].completed) == in_subtree(s2, s2[i].id, Some(root))) by {
        if in_subtree(s2, s2[i].id, Some(root)) {
            // carry the chain back to the old store
            let k = choose|k: nat| chain_to(s2, s2[i].id, Some(root), k);
            assert(unique_task_ids(s2));
            lemma_chain_pointwise(s2, s, s2[i].id, Some(root), k);
            assert(in_subtree(s, s[i].id, Some(root)));
            assert(s2[i].completed);
        }
    }
    lemma_filter_agree(
        s2,
        |m: TaskModel| in_subtree(s2, m.id, Some(root)) && m.completed,
        |m: TaskModel| in_subtree(s2, m.id, Some(root)),
    );
}

/// Bulk completion returns exactly one task per previously-incomplete member
/// of the subtree: the count of changed tasks is the count of incomplete
/// descendants before the call.
pub proof fn lemma_bulk_mark_count(s: Seq<TaskModel>, root: Seq<char>, out: Seq<TaskModel>)
    requires
        unique_task_ids(s),
        unique_task_ids(out),
        forall|i: int|
            0 <= i < out.len() ==> contains_task_id(s, (#[trigger] out[i]).id) && in_subtree(
                s,
                out[i].id,
                Some(root),
            ) && !task_of(s, out[i].id).completed,
        forall|j: int|
            0 <= j < s.len() && in_subtree(s, (#[trigger] s[j]).id, Some(root)) && !s[
                j
            ].completed ==> contains_task_id(out, s[j].id),
    ensures
        out.len() == s.filter(
            |m: TaskModel| in_subtree(s, m.id, Some(root)) && !m.completed,
        ).len(),
{
    broadcast use vstd::seq_lib::group_filter_ensures;
    broadcast use lemma_filter_elem_of;
    broadcast use lemma_filter_unique_task_ids;

    let p = |m: TaskModel| in_subtree(s, m.id, Some(root)) && !m.completed;
    let listing = s.filter(p);
    assert forall|i: int| 0 <= i < out.len() implies contains_task_id(
        listing,
        (#[trigger] out[i]).id,
    ) by {
        let w = choose|w: int| 0 <= w < s.len() && s[w].id == out[i].id;
        lemma_task_of_index(s, w);
        assert(p(s[w]));
        s.lemma_filter_contains(p, w);
        let w2 = choose|w2: int| 0 <= w2 < listing.len() && listing[w2] == s[w];
    }
    assert forall|i: int| 0 <= i < listing.len() implies contains_task_id(
        out,
        (#[trigger] listing[i]).id,
    ) by {
        assert(s.contains(listing[i]));
        let w = choose|w: int| 0 <= w < s.len() && s[w] == listing[i];
        assert(p(s[w]));
    }
    lemma_same_ids_same_len(out, listing);
}

} // verus!
