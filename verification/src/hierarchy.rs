//! The hierarchy engine: which tasks sit under which, computed by repeated
//! lookup of direct children over a LIFO work list.
//!
//! A task is *in the subtree* of a root when following its parent links,
//! through stored tasks only, lands on that root.  The root is an `Option`:
//! `Some(id)` selects the strict descendants of that id, `None` selects every
//! root-level task together with its full descendants.  The traversal skips
//! ids already listed, so it terminates on any store, cyclic parent links
//! included; on an acyclic tree the guard never fires and the listing is the
//! plain descendant enumeration.

use vstd::prelude::*;
use vstd::set_lib::lemma_len_subset;

use crate::error::AppError;
use crate::repository::{
    contains_task_id, lemma_filter_agree, lemma_filter_elem_of, lemma_filter_filter,
    lemma_filter_push, lemma_filter_unique_task_ids, task_index, task_of, unique_task_ids,
    TaskRepository,
};
use crate::task::{Task, TaskModel};
use crate::text::str_eq;

verus! {

/// Following `k` parent links from the stored task `id`, each step through a
/// stored task, lands exactly on `root`.
pub open spec fn chain_to(
    s: Seq<TaskModel>,
    id: Seq<char>,
    root: Option<Seq<char>>,
    k: nat,
) -> bool
    decreases k,
{
    if k == 0 {
        false
    } else if k == 1 {
        contains_task_id(s, id) && task_of(s, id).parent_id == root
    } else {
        contains_task_id(s, id) && match task_of(s, id).parent_id {
            Option::Some(p) => chain_to(s, p, root, (k - 1) as nat),
            Option::None => false,
        }
    }
}

/// The stored task `id` lies in the subtree under `root`.
pub open spec fn in_subtree(s: Seq<TaskModel>, id: Seq<char>, root: Option<Seq<char>>) -> bool {
    exists|k: nat| chain_to(s, id, root, k)
}

/// What a hierarchy listing is: copies of stored tasks, one per id, covering
/// exactly the subtree under `root`.  No order is promised.
pub open spec fn hierarchy_result(
    s: Seq<TaskModel>,
    root: Option<Seq<char>>,
    out: Seq<TaskModel>,
) -> bool {
    &&& forall|i: int|
        0 <= i < out.len() ==> contains_task_id(s, (#[trigger] out[i]).id) && out[i] == task_of(
            s,
            out[i].id,
        ) && in_subtree(s, out[i].id, root)
    &&& unique_task_ids(out)
    &&& forall|j: int|
        0 <= j < s.len() && in_subtree(s, (#[trigger] s[j]).id, root) ==> contains_task_id(
            out,
            s[j].id,
        )
}

/// The stored tasks in the subtree under `root`, in store order.
pub open spec fn subtree_listing(s: Seq<TaskModel>, root: Seq<char>) -> Seq<TaskModel> {
    s.filter(|m: TaskModel| in_subtree(s, m.id, Some(root)))
}

/// The completed stored tasks in the subtree under `root`.
pub open spec fn completed_subtree_listing(s: Seq<TaskModel>, root: Seq<char>) -> Seq<
    TaskModel,
> {
    s.filter(|m: TaskModel| in_subtree(s, m.id, Some(root)) && m.completed)
}

/// What cascade deletion leaves: every task that is neither the root nor in
/// its subtree.
pub open spec fn cascade_remaining(s: Seq<TaskModel>, root: Seq<char>) -> Seq<TaskModel> {
    s.filter(|m: TaskModel| m.id != root && !in_subtree(s, m.id, Some(root)))
}

/// One task after promotion: a direct child of `root` is handed `root`'s own
/// parent and a fresh stamp; everything else is untouched.
pub open spec fn promoted_one(
    m: TaskModel,
    root: Seq<char>,
    new_parent: Option<Seq<char>>,
    now: i64,
) -> TaskModel {
    if m.parent_id == Some(root) {
        TaskModel { parent_id: new_parent, updated_at: now, ..m }
    } else {
        m
    }
}

/// What promote-on-delete leaves: every direct child of `root` points at
/// `root`'s former parent, grandchildren are untouched, and `root` is gone.
pub open spec fn promote_remaining(s: Seq<TaskModel>, root: Seq<char>, now: i64) -> Seq<
    TaskModel,
> {
    s.map_values(
        |m: TaskModel| promoted_one(m, root, task_of(s, root).parent_id, now),
    ).filter(|m: TaskModel| m.id != root)
}

/// One task marked completed with a fresh stamp.
pub open spec fn mark_done_model(m: TaskModel, now: i64) -> TaskModel {
    TaskModel { completed: true, updated_at: now, ..m }
}

/// What bulk completion leaves: every incomplete task in the subtree under
/// `root` is completed and restamped; completed ones keep their stamp.
pub open spec fn bulk_marked(s: Seq<TaskModel>, root: Seq<char>, now: i64) -> Seq<TaskModel> {
    s.map_values(
        |m: TaskModel| if in_subtree(s, m.id, Some(root)) && !m.completed {
            mark_done_model(m, now)
        } else {
            m
        },
    )
}

/// `m`'s id does not occur among the first `upto` listed tasks.
pub open spec fn not_among(m: TaskModel, listed: Seq<TaskModel>, upto: int) -> bool {
    forall|k: int| 0 <= k < upto ==> m.id != (#[trigger] listed[k]).id
}

/// A filter that holds everywhere filters nothing out.
pub proof fn lemma_filter_all<A>(s: Seq<A>, p: spec_fn(A) -> bool)
    requires
        forall|i: int| 0 <= i < s.len() ==> p(#[trigger] s[i]),
    ensures
        s.filter(p) == s,
    decreases s.len(),
{
    reveal(Seq::filter);
    if s.len() > 0 {
        assert(forall|i: int|
            0 <= i < s.drop_last().len() ==> #[trigger] s.drop_last()[i] == s[i]);
        lemma_filter_all(s.drop_last(), p);
        assert(p(s.last()));
        assert(s.drop_last().push(s.last()) =~= s);
    }
}

/// With unique ids, looking a stored task up by its own id gives it back.
pub proof fn lemma_task_of_index(s: Seq<TaskModel>, w: int)
    requires
        unique_task_ids(s),
        0 <= w < s.len(),
    ensures
        task_index(s, s[w].id) == w,
        task_of(s, s[w].id) == s[w],
        contains_task_id(s, s[w].id),
{
    assert(contains_task_id(s, s[w].id));
    let j = task_index(s, s[w].id);
    assert(0 <= j < s.len() && s[j].id == s[w].id);
    if j != w {
        assert(s[j].id != s[w].id);
    }
}

/// A stored child of a task in the subtree is in the subtree.
pub proof fn lemma_subtree_step(
    s: Seq<TaskModel>,
    child: Seq<char>,
    parent: Seq<char>,
    root: Option<Seq<char>>,
)
    requires
        contains_task_id(s, child),
        task_of(s, child).parent_id == Some(parent),
        in_subtree(s, parent, root),
    ensures
        in_subtree(s, child, root),
{
    let k = choose|k: nat| chain_to(s, parent, root, k);
    assert(chain_to(s, parent, root, k));
    assert(k >= 1);
    assert(chain_to(s, child, root, k + 1));
}

/// A stored direct child of the root is in the subtree.
pub proof fn lemma_subtree_base(s: Seq<TaskModel>, id: Seq<char>, root: Option<Seq<char>>)
    requires
        contains_task_id(s, id),
        task_of(s, id).parent_id == root,
    ensures
        in_subtree(s, id, root),
{
    assert(chain_to(s, id, root, 1));
}

/// A listing that holds every stored direct child of the root, and with every
/// listed task the stored children of that task, holds the whole subtree.
proof fn lemma_chain_reaches(
    s: Seq<TaskModel>,
    root: Option<Seq<char>>,
    out: Seq<TaskModel>,
    id: Seq<char>,
    k: nat,
)
    requires
        unique_task_ids(s),
        chain_to(s, id, root, k),
        forall|j: int|
            0 <= j < s.len() && (#[trigger] s[j]).parent_id == root ==> contains_task_id(
                out,
                s[j].id,
            ),
        forall|j: int|
            0 <= j < s.len() && (#[trigger] s[j]).parent_id is Some && contains_task_id(
                out,
                s[j].parent_id->Some_0,
            ) ==> contains_task_id(out, s[j].id),
    ensures
        contains_task_id(out, id),
    decreases k,
{
    assert(contains_task_id(s, id));
    let w = task_index(s, id);
    assert(0 <= w < s.len() && s[w].id == id);
    lemma_task_of_index(s, w);
    if k == 1 {
        assert(s[w].parent_id == root);
    } else {
        let p = task_of(s, id).parent_id->Some_0;
        lemma_chain_reaches(s, root, out, p, (k - 1) as nat);
    }
}

/// Tasks with unique ids that all occur in `s` are no more numerous than `s`.
pub proof fn lemma_unique_ids_len_le(out: Seq<TaskModel>, s: Seq<TaskModel>)
    requires
        unique_task_ids(out),
        forall|i: int| 0 <= i < out.len() ==> contains_task_id(s, (#[trigger] out[i]).id),
    ensures
        out.len() <= s.len(),
{
    broadcast use vstd::seq_lib::seq_to_set_is_finite;
    broadcast use vstd::set::group_set_axioms;

    let ids_out = out.map_values(|m: TaskModel| m.id);
    let ids_s = s.map_values(|m: TaskModel| m.id);
    assert(ids_out.no_duplicates()) by {
        assert(forall|i: int, j: int| 0 <= i < j < out.len() ==> ids_out[i] != ids_out[j]);
    }
    ids_out.unique_seq_to_set();
    ids_s.lemma_cardinality_of_set();
    assert(ids_out.to_set().subset_of(ids_s.to_set())) by {
        assert forall|x: Seq<char>| ids_out.to_set().contains(x) implies ids_s.to_set().contains(
            x,
        ) by {
            let i = choose|i: int| 0 <= i < ids_out.len() && ids_out[i] == x;
            assert(contains_task_id(s, out[i].id));
            let w = choose|w: int| 0 <= w < s.len() && s[w].id == x;
            assert(ids_s[w] == x);
        }
    }
    lemma_len_subset(ids_out.to_set(), ids_s.to_set());
}

/// Two listings with unique ids and the same ids have the same length.
pub proof fn lemma_same_ids_same_len(a: Seq<TaskModel>, b: Seq<TaskModel>)
    requires
        unique_task_ids(a),
        unique_task_ids(b),
        forall|i: int| 0 <= i < a.len() ==> contains_task_id(b, (#[trigger] a[i]).id),
        forall|i: int| 0 <= i < b.len() ==> contains_task_id(a, (#[trigger] b[i]).id),
    ensures
        a.len() == b.len(),
{
    lemma_unique_ids_len_le(a, b);
    lemma_unique_ids_len_le(b, a);
}

/// Whether some listed task carries this id.
pub fn vec_contains_task_id(v: &Vec<Task>, id: &str) -> (r: bool)
    ensures
        r == contains_task_id(v.deep_view(), id@),
{
    let n = v.len();
    let mut i: usize = 0;
    while i < n
        invariant
            n == v.deep_view().len(),
            n == v@.len(),
            0 <= i <= n,
            forall|k: int| 0 <= k < i ==> v.deep_view()[k].id != id@,
        decreases n - i,
    {
        if str_eq(v[i].id.as_str(), id) {
            proof {
                assert(v.deep_view()[i as int].id == id@);
            }
            return true;
        }
        i += 1;
    }
    false
}

impl TaskRepository {
    /// Lists the whole subtree under `root_id`: every descendant of that id,
    /// or, with no id, every root-level task and its full descendants.  Each
    /// task is listed once; no order is promised, only completeness.
    pub fn get_task_hierarchy(&self, root_id: Option<String>) -> (r: Vec<Task>)
        requires
            self.wf(),
        ensures
            hierarchy_result(self@, root_id.deep_view(), r.deep_view()),
    {
        broadcast use vstd::seq_lib::group_filter_ensures;
        broadcast use crate::repository::lemma_filter_elem_of;
        broadcast use crate::repository::lemma_filter_unique_task_ids;

        let ghost s = self@;
        let ghost root = root_id.deep_view();
        let mut result: Vec<Task> = self.children_of(&root_id);
        proof {
            let base = result.deep_view();
            assert forall|i: int| 0 <= i < base.len() implies contains_task_id(
                s,
                (#[trigger] base[i]).id,
            ) && base[i] == task_of(s, base[i].id) && in_subtree(s, base[i].id, root) by {
                assert(s.contains(base[i]));
                let w = choose|w: int| 0 <= w < s.len() && s[w] == base[i];
                lemma_task_of_index(s, w);
                lemma_subtree_base(s, base[i].id, root);
            }
            assert forall|j: int|
                0 <= j < s.len() && (#[trigger] s[j]).parent_id == root implies contains_task_id(
                base,
                s[j].id,
            ) by {
                assert(base.contains(s[j]));
                let w = choose|w: int| 0 <= w < base.len() && base[w] == s[j];
            }
            lemma_unique_ids_len_le(base, s);
        }
        let mut pending: Vec<String> = Vec::new();
        let rn = result.len();
        let mut pi: usize = 0;
        while pi < rn
            invariant
                rn == result.deep_view().len(),
                rn == result@.len(),
                0 <= pi <= rn,
                pending.deep_view().len() == pi,
                forall|k: int|
                    0 <= k < pi ==> #[trigger] pending.deep_view()[k] == result.deep_view()[k].id,
            decreases rn - pi,
        {
            let ghost pre = pending.deep_view();
            pending.push(result[pi].id.clone());
            proof {
                assert(pending.deep_view() =~= pre.push(result@[pi as int].id@));
            }
            pi += 1;
        }
        proof {
            assert forall|k: int|
                0 <= k < pending.deep_view().len() implies contains_task_id(
                result.deep_view(),
                #[trigger] pending.deep_view()[k],
            ) by {
                assert(result.deep_view()[k].id == pending.deep_view()[k]);
            }
            // every listed id is still on the work list, so nothing counts as
            // processed yet
            assert forall|x: Seq<char>| contains_task_id(result.deep_view(), x) implies
                pending.deep_view().contains(x) by {
                let w = choose|w: int|
                    0 <= w < result.deep_view().len() && result.deep_view()[w].id == x;
                assert(pending.deep_view()[w] == x);
            }
        }
        while pending.len() > 0
            invariant
                self.wf(),
                s == self@,
                root == root_id.deep_view(),
                unique_task_ids(result.deep_view()),
                result.deep_view().len() <= s.len(),
                forall|i: int|
                    0 <= i < result.deep_view().len() ==> contains_task_id(
                        s,
                        (#[trigger] result.deep_view()[i]).id,
                    ) && result.deep_view()[i] == task_of(s, result.deep_view()[i].id)
                        && in_subtree(s, result.deep_view()[i].id, root),
                forall|k: int|
                    0 <= k < pending.deep_view().len() ==> contains_task_id(
                        result.deep_view(),
                        #[trigger] pending.deep_view()[k],
                    ),
                forall|j: int|
                    0 <= j < s.len() && (#[trigger] s[j]).parent_id == root ==> contains_task_id(
                        result.deep_view(),
                        s[j].id,
                    ),
                forall|j: int|
                    0 <= j < s.len() && (#[trigger] s[j]).parent_id is Some && contains_task_id(
                        result.deep_view(),
                        s[j].parent_id->Some_0,
                    ) && !pending.deep_view().contains(s[j].parent_id->Some_0)
                        ==> contains_task_id(result.deep_view(), s[j].id),
            decreases s.len() - result.deep_view().len(), pending.len(),
        {
            let ghost pend_pre = pending.deep_view();
            let ghost res_pre = result.deep_view();
            let current = pending.pop().unwrap();
            proof {
                assert(pend_pre.len() >= 1);
                assert(pending.deep_view() =~= pend_pre.drop_last());
                assert(current@ == pend_pre[pend_pre.len() - 1]);
                assert(contains_task_id(res_pre, pend_pre[pend_pre.len() - 1]));
            }
            let kids = self.get_direct_subtasks(current.as_str());
            let ghost kd = kids.deep_view();
            proof {
                assert forall|i: int| 0 <= i < kd.len() implies contains_task_id(
                    s,
                    (#[trigger] kd[i]).id,
                ) && kd[i] == task_of(s, kd[i].id) && in_subtree(s, kd[i].id, root) by {
                    assert(s.contains(kd[i]));
                    let w = choose|w: int| 0 <= w < s.len() && s[w] == kd[i];
                    lemma_task_of_index(s, w);
                    assert(kd[i].parent_id == Some(current@));
                    let w2 = choose|w2: int|
                        0 <= w2 < res_pre.len() && res_pre[w2].id == current@;
                    assert(in_subtree(s, current@, root));
                    lemma_subtree_step(s, kd[i].id, current@, root);
                }
                assert(unique_task_ids(kd));
                // entering the inner loop: coverage holds for every parent
                // that is neither still pending nor the id being processed
                assert forall|j: int|
                    0 <= j < s.len() && (#[trigger] s[j]).parent_id is Some && contains_task_id(
                        res_pre,
                        s[j].parent_id->Some_0,
                    ) && !pend_pre.drop_last().contains(s[j].parent_id->Some_0)
                        && s[j].parent_id->Some_0 != current@ implies contains_task_id(
                    res_pre,
                    s[j].id,
                ) by {
                    let pp = s[j].parent_id->Some_0;
                    assert(!pend_pre.contains(pp)) by {
                        if pend_pre.contains(pp) {
                            let w = choose|w: int|
                                0 <= w < pend_pre.len() && pend_pre[w] == pp;
                            if w < pend_pre.len() - 1 {
                                assert(pend_pre.drop_last()[w] == pp);
                            }
                        }
                    }
                }
            }
            let kn = kids.len();
            let mut ki: usize = 0;
            while ki < kn
                invariant
                    self.wf(),
                    s == self@,
                    root == root_id.deep_view(),
                    kn == kd.len(),
                    kn == kids@.len(),
                    kd == kids.deep_view(),
                    0 <= ki <= kn,
                    forall|i: int|
                        0 <= i < kd.len() ==> contains_task_id(s, (#[trigger] kd[i]).id)
                            && kd[i] == task_of(s, kd[i].id) && in_subtree(s, kd[i].id, root),
                    unique_task_ids(result.deep_view()),
                    result.deep_view().len() <= s.len(),
                    res_pre.len() <= result.deep_view().len(),
                    result.deep_view().len() - res_pre.len() == pending.deep_view().len() - (
                    pend_pre.len() - 1),
                    forall|i: int|
                        0 <= i < result.deep_view().len() ==> contains_task_id(
                            s,
                            (#[trigger] result.deep_view()[i]).id,
                        ) && result.deep_view()[i] == task_of(s, result.deep_view()[i].id)
                            && in_subtree(s, result.deep_view()[i].id, root),
                    forall|k: int|
                        0 <= k < pending.deep_view().len() ==> contains_task_id(
                            result.deep_view(),
                            #[trigger] pending.deep_view()[k],
                        ),
                    pending.deep_view().len() >= pend_pre.len() - 1,
                    forall|k: int|
                        0 <= k < pend_pre.len() - 1 ==> #[trigger] pending.deep_view()[k]
                            == pend_pre.drop_last()[k],
                    forall|j: int|
                        0 <= j < s.len() && (#[trigger] s[j]).parent_id == root
                            ==> contains_task_id(result.deep_view(), s[j].id),
                    forall|j: int|
                        0 <= j < s.len() && (#[trigger] s[j]).parent_id is Some
                            && contains_task_id(result.deep_view(), s[j].parent_id->Some_0)
                            && !pending.deep_view().contains(s[j].parent_id->Some_0)
                            && s[j].parent_id->Some_0 != current@ ==> contains_task_id(
                            result.deep_view(),
                            s[j].id,
                        ),
                    forall|i: int|
                        0 <= i < ki ==> contains_task_id(
                            result.deep_view(),
                            (#[trigger] kd[i]).id,
                        ),
                decreases kn - ki,
            {
                let ghost res_in = result.deep_view();
                let ghost pend_in = pending.deep_view();
                if !vec_contains_task_id(&result, kids[ki].id.as_str()) {
                    result.push(kids[ki].clone());
                    pending.push(kids[ki].id.clone());
                    proof {
                        assert(result.deep_view() =~= res_in.push(kd[ki as int]));
                        assert(pending.deep_view() =~= pend_in.push(kd[ki as int].id));
                        assert forall|a: int, b: int|
                            0 <= a < b < result.deep_view().len() implies result.deep_view()[a].id
                            != result.deep_view()[b].id by {
                            if b == result.deep_view().len() - 1 {
                                assert(!contains_task_id(res_in, kd[ki as int].id));
                            }
                        }
                        lemma_unique_ids_len_le(result.deep_view(), s);
                        assert forall|x: Seq<char>| contains_task_id(res_in, x) implies
                            contains_task_id(result.deep_view(), x) by {
                            let w = choose|w: int|
                                0 <= w < res_in.len() && res_in[w].id == x;
                            assert(result.deep_view()[w].id == x);
                        }
                        assert forall|k: int|
                            0 <= k < pending.deep_view().len() implies contains_task_id(
                            result.deep_view(),
                            #[trigger] pending.deep_view()[k],
                        ) by {
                            if k < pend_in.len() {
                                assert(pending.deep_view()[k] == pend_in[k]);
                                assert(contains_task_id(res_in, pend_in[k]));
                            } else {
                                assert(pending.deep_view()[k] == kd[ki as int].id);
                                assert(result.deep_view()[result.deep_view().len() - 1].id == kd[
                                    ki as int
                                ].id);
                            }
                        }
                        assert forall|j: int|
                            0 <= j < s.len() && (#[trigger] s[j]).parent_id is Some
                                && contains_task_id(result.deep_view(), s[j].parent_id->Some_0)
                                && !pending.deep_view().contains(s[j].parent_id->Some_0)
                                && s[j].parent_id->Some_0 != current@ implies contains_task_id(
                            result.deep_view(),
                            s[j].id,
                        ) by {
                            let pp = s[j].parent_id->Some_0;
                            assert(!pend_in.contains(pp)) by {
                                if pend_in.contains(pp) {
                                    let w = choose|w: int|
                                        0 <= w < pend_in.len() && pend_in[w] == pp;
                                    assert(pending.deep_view()[w] == pp);
                                }
                            }
                            if contains_task_id(res_in, pp) {
                                assert(contains_task_id(res_in, s[j].id));
                            } else {
                                let w = choose|w: int|
                                    0 <= w < result.deep_view().len() && result.deep_view()[w].id
                                        == pp;
                                assert(w == result.deep_view().len() - 1);
                                assert(pp == kd[ki as int].id);
                                assert(pending.deep_view()[pending.deep_view().len() - 1] == pp);
                                assert(false);
                            }
                        }
                    }
                }
                ki += 1;
            }
            proof {
                assert forall|j: int|
                    0 <= j < s.len() && (#[trigger] s[j]).parent_id is Some && contains_task_id(
                        result.deep_view(),
                        s[j].parent_id->Some_0,
                    ) && !pending.deep_view().contains(s[j].parent_id->Some_0) implies
                    contains_task_id(result.deep_view(), s[j].id) by {
                    let pp = s[j].parent_id->Some_0;
                    if pp == current@ {
                        assert(kd.contains(s[j]));
                        let w = choose|w: int| 0 <= w < kd.len() && kd[w] == s[j];
                        assert(contains_task_id(result.deep_view(), kd[w].id));
                    }
                }
            }
        }
        proof {
            assert forall|j: int|
                0 <= j < s.len() && in_subtree(s, (#[trigger] s[j]).id, root) implies
                contains_task_id(result.deep_view(), s[j].id) by {
                let k = choose|k: nat| chain_to(s, s[j].id, root, k);
                assert(pending.deep_view().len() == 0);
                assert forall|jj: int|
                    0 <= jj < s.len() && (#[trigger] s[jj]).parent_id is Some && contains_task_id(
                        result.deep_view(),
                        s[jj].parent_id->Some_0,
                    ) implies contains_task_id(result.deep_view(), s[jj].id) by {
                    assert(!pending.deep_view().contains(s[jj].parent_id->Some_0));
                }
                lemma_chain_reaches(s, root, result.deep_view(), s[j].id, k);
            }
        }
        result
    }

    /// Aggregates progress under a task: how many tasks its subtree holds,
    /// how many of those are completed, and whether there are any.  The
    /// percentage is the ratio of the two counts, formed at the boundary.
    pub fn calculate_task_progress(&self, task_id: &str) -> (r: TaskProgress)
        requires
            self.wf(),
        ensures
            r.total_subtasks == subtree_listing(self@, task_id@).len(),
            r.completed_subtasks == completed_subtree_listing(self@, task_id@).len(),
            r.completed_subtasks <= r.total_subtasks,
            r.has_subtasks == (r.total_subtasks > 0),
    {
        broadcast use vstd::seq_lib::group_filter_ensures;
        broadcast use crate::repository::lemma_filter_elem_of;
        broadcast use crate::repository::lemma_filter_unique_task_ids;

        let ghost s = self@;
        let ghost root = task_id@;
        let subtasks = self.get_task_hierarchy(Some(task_id.to_owned()));
        let ghost out = subtasks.deep_view();
        proof {
            assert(hierarchy_result(s, Some(root), out));
            let listing = subtree_listing(s, root);
            assert forall|i: int| 0 <= i < out.len() implies contains_task_id(
                listing,
                (#[trigger] out[i]).id,
            ) by {
                let w = choose|w: int| 0 <= w < s.len() && s[w].id == out[i].id;
                lemma_task_of_index(s, w);
                assert(in_subtree(s, s[w].id, Some(root)));
                assert(listing.contains(s[w]));
                let w2 = choose|w2: int| 0 <= w2 < listing.len() && listing[w2] == s[w];
            }
            assert forall|i: int| 0 <= i < listing.len() implies contains_task_id(
                out,
                (#[trigger] listing[i]).id,
            ) by {
                assert(s.contains(listing[i]));
                let w = choose|w: int| 0 <= w < s.len() && s[w] == listing[i];
                assert(in_subtree(s, s[w].id, Some(root)));
            }
            lemma_same_ids_same_len(out, listing);
        }
        let total = subtasks.len();
        let mut completed: usize = 0;
        let mut i: usize = 0;
        proof {
            assert(out.subrange(0, 0) =~= Seq::<TaskModel>::empty());
            reveal(Seq::filter);
        }
        while i < total
            invariant
                total == out.len(),
                total == subtasks@.len(),
                out == subtasks.deep_view(),
                0 <= i <= total,
                completed <= i,
                completed == out.subrange(0, i as int).filter(
                    |m: TaskModel| m.completed,
                ).len(),
            decreases total - i,
        {
            proof {
                lemma_filter_push(
                    out.subrange(0, i as int),
                    out[i as int],
                    |m: TaskModel| m.completed,
                );
                assert(out.subrange(0, i + 1) =~= out.subrange(0, i as int).push(
                    out[i as int],
                ));
                out.subrange(0, i + 1).lemma_filter_len(|m: TaskModel| m.completed);
            }
            if subtasks[i].completed {
                completed += 1;
            }
            i += 1;
        }
        proof {
            assert(out.subrange(0, total as int) =~= out);
            let cout = out.filter(|m: TaskModel| m.completed);
            let clisting = completed_subtree_listing(s, root);
            assert(hierarchy_result(s, Some(root), out));
            assert forall|i: int| 0 <= i < cout.len() implies contains_task_id(
                clisting,
                (#[trigger] cout[i]).id,
            ) by {
                assert(out.contains(cout[i]));
                let w2 = choose|w2: int| 0 <= w2 < out.len() && out[w2] == cout[i];
                let w = choose|w: int| 0 <= w < s.len() && s[w].id == out[w2].id;
                lemma_task_of_index(s, w);
                assert(s[w] == out[w2]);
                assert(in_subtree(s, s[w].id, Some(root)) && s[w].completed);
                assert(clisting.contains(s[w]));
                let w3 = choose|w3: int| 0 <= w3 < clisting.len() && clisting[w3] == s[w];
            }
            assert forall|i: int| 0 <= i < clisting.len() implies contains_task_id(
                cout,
                (#[trigger] clisting[i]).id,
            ) by {
                assert(s.contains(clisting[i]));
                let w = choose|w: int| 0 <= w < s.len() && s[w] == clisting[i];
                lemma_task_of_index(s, w);
                assert(in_subtree(s, s[w].id, Some(root)));
                assert(contains_task_id(out, s[w].id));
                let w2 = choose|w2: int| 0 <= w2 < out.len() && out[w2].id == s[w].id;
                assert(out[w2] == s[w]);
                assert(out[w2].completed);
                assert(cout.contains(out[w2]));
                let w3 = choose|w3: int| 0 <= w3 < cout.len() && cout[w3] == out[w2];
            }
            lemma_same_ids_same_len(cout, clisting);
            out.lemma_filter_len(|m: TaskModel| m.completed);
        }
        TaskProgress { total_subtasks: total, completed_subtasks: completed, has_subtasks: total
            > 0 }
    }

    /// Deletes a task together with its whole subtree, the subtree first and
    /// the task itself last.  A missing id still removes its subtree (of
    /// which there is none).
    pub fn delete_task_and_subtasks(&mut self, task_id: &str)
        requires
            old(self).wf(),
        ensures
            final(self).wf(),
            final(self)@ == cascade_remaining(old(self)@, task_id@),
    {
        let ghost s = old(self)@;
        let ghost root = task_id@;
        let subtasks = self.get_task_hierarchy(Some(task_id.to_owned()));
        let ghost out = subtasks.deep_view();
        proof {
            assert(hierarchy_result(s, Some(root), out));
            lemma_filter_all(s, |m: TaskModel| not_among(m, out, 0));
        }
        let n = subtasks.len();
        let mut i: usize = 0;
        while i < n
            invariant
                self.wf(),
                s == old(self)@,
                unique_task_ids(s),
                root == task_id@,
                n == out.len(),
                n == subtasks@.len(),
                out == subtasks.deep_view(),
                0 <= i <= n,
                hierarchy_result(s, Some(root), out),
                self@ == s.filter(|m: TaskModel| not_among(m, out, i as int)),
            decreases n - i,
        {
            let ghost p_now = |m: TaskModel| not_among(m, out, i as int);
            let ghost p_next = |m: TaskModel| not_among(m, out, i + 1);
            let ghost q = |m: TaskModel| m.id != out[i as int].id;
            self.delete(subtasks[i].id.as_str());
            proof {
                lemma_filter_filter(s, p_now, q);
                lemma_filter_agree(s, |m: TaskModel| p_now(m) && q(m), p_next);
            }
            i += 1;
        }
        let ghost p_all = |m: TaskModel| not_among(m, out, n as int);
        let ghost q_root = |m: TaskModel| m.id != root;
        self.delete(task_id);
        proof {
            lemma_filter_filter(s, p_all, q_root);
            assert forall|j: int| 0 <= j < s.len() implies ((p_all(#[trigger] s[j]) && q_root(
                s[j],
            )) == (s[j].id != root && !in_subtree(s, s[j].id, Some(root)))) by {
                if in_subtree(s, s[j].id, Some(root)) {
                    assert(contains_task_id(out, s[j].id));
                    let w = choose|w: int| 0 <= w < out.len() && out[w].id == s[j].id;
                    assert(!p_all(s[j]));
                } else {
                    assert forall|k: int| 0 <= k < n implies s[j].id != (#[trigger] out[k]).id by {
                        assert(in_subtree(s, out[k].id, Some(root)));
                    }
                }
            }
            lemma_filter_agree(
                s,
                |m: TaskModel| p_all(m) && q_root(m),
                |m: TaskModel| m.id != root && !in_subtree(s, m.id, Some(root)),
            );
        }
    }

    /// Deletes a task and promotes its direct children to the task's own
    /// parent, each with a fresh stamp; grandchildren keep their parent.
    /// Fails with `TaskNotFound` when the id does not resolve, leaving the
    /// store unchanged.
    pub fn delete_task_and_promote_subtasks(&mut self, task_id: &str, now: i64) -> (r: Result<
        (),
        AppError,
    >)
        requires
            old(self).wf(),
        ensures
            final(self).wf(),
            !contains_task_id(old(self)@, task_id@) ==> r == Result::<(), AppError>::Err(
                AppError::TaskNotFound,
            ) && final(self)@ == old(self)@,
            contains_task_id(old(self)@, task_id@) ==> r == Result::<(), AppError>::Ok(())
                && final(self)@ == promote_remaining(old(self)@, task_id@, now),
    {
        broadcast use vstd::seq_lib::group_filter_ensures;
        broadcast use crate::repository::lemma_filter_elem_of;

        let ghost s = old(self)@;
        let ghost root = task_id@;
        let task = match self.get_by_id(task_id) {
            Some(t) => t,
            None => {
                return Err(AppError::TaskNotFound);
            },
        };
        let ghost rp = task_of(s, root).parent_id;
        let direct = self.get_direct_subtasks(task_id);
        let ghost dd = direct.deep_view();
        proof {
            assert(task@ == task_of(s, root));
            assert(task@.parent_id == rp);
            assert forall|i: int| 0 <= i < dd.len() implies s.contains(#[trigger] dd[i]) && dd[
                i
            ].parent_id == Some(root) by {}
        }
        let dn = direct.len();
        let mut i: usize = 0;
        while i < dn
            invariant
                self.wf(),
                s == old(self)@,
                unique_task_ids(s),
                root == task_id@,
                rp == task_of(s, root).parent_id,
                task@.parent_id == rp,
                dn == dd.len(),
                dn == direct@.len(),
                dd == direct.deep_view(),
                unique_task_ids(dd),
                forall|k: int|
                    0 <= k < dd.len() ==> s.contains(#[trigger] dd[k]) && dd[k].parent_id
                        == Some(root),
                0 <= i <= dn,
                self@.len() == s.len(),
                forall|k: int| 0 <= k < s.len() ==> (#[trigger] self@[k]).id == s[k].id,
                forall|k: int|
                    0 <= k < s.len() ==> #[trigger] self@[k] == (if exists|j: int|
                        0 <= j < i && (#[trigger] dd[j]).id == s[k].id {
                        promoted_one(s[k], root, rp, now)
                    } else {
                        s[k]
                    }),
            decreases dn - i,
        {
            let ghost pre = self@;
            let mut st = direct[i].clone();
            st.parent_id = task.parent_id.clone();
            st.updated_at = now;
            proof {
                assert(st@ == TaskModel { parent_id: rp, updated_at: now, ..dd[i as int] });
                assert(st@ == promoted_one(dd[i as int], root, rp, now));
            }
            self.update(&st);
            proof {
                let w = choose|w: int| 0 <= w < s.len() && s[w] == dd[i as int];
                assert forall|k: int| 0 <= k < s.len() implies #[trigger] self@[k] == (
                if exists|j: int| 0 <= j < i + 1 && (#[trigger] dd[j]).id == s[k].id {
                    promoted_one(s[k], root, rp, now)
                } else {
                    s[k]
                }) by {
                    if pre[k].id == st@.id {
                        assert(s[k].id == dd[i as int].id);
                        if k != w {
                            assert(s[k].id != s[w].id);
                        }
                        assert(s[k] == dd[i as int]);
                        assert(!(exists|j: int| 0 <= j < i && (#[trigger] dd[j]).id == s[k].id))
                            by {
                            if exists|j: int| 0 <= j < i && (#[trigger] dd[j]).id == s[k].id {
                                let j = choose|j: int|
                                    0 <= j < i && (#[trigger] dd[j]).id == s[k].id;
                                assert(dd[j].id != dd[i as int].id);
                            }
                        }
                        assert(self@[k] == st@);
                        assert(dd[i as int].id == s[k].id);
                    } else {
                        assert(self@[k] == pre[k]);
                        assert(s[k].id != dd[i as int].id);
                    }
                }
            }
            i += 1;
        }
        proof {
            // every direct child is processed, so the store is exactly the
            // promoted image of its old self
            assert forall|k: int| 0 <= k < s.len() implies #[trigger] self@[k] == promoted_one(
                s[k],
                root,
                rp,
                now,
            ) by {
                if s[k].parent_id == Some(root) {
                    assert(dd.contains(s[k]));
                    let j = choose|j: int| 0 <= j < dd.len() && dd[j] == s[k];
                } else {
                    assert(!(exists|j: int| 0 <= j < dn && (#[trigger] dd[j]).id == s[k].id))
                        by {
                        if exists|j: int| 0 <= j < dn && (#[trigger] dd[j]).id == s[k].id {
                            let j = choose|j: int|
                                0 <= j < dn && (#[trigger] dd[j]).id == s[k].id;
                            let w = choose|w: int| 0 <= w < s.len() && s[w] == dd[j];
                            if w != k {
                                assert(s[w].id != s[k].id);
                            }
                        }
                    }
                }
            }
            assert(self@ =~= s.map_values(
                |m: TaskModel| promoted_one(m, root, task_of(s, root).parent_id, now),
            ));
        }
        self.delete(task_id);
        proof {
            assert(final(self)@ =~= promote_remaining(s, root, now));
        }
        Ok(())
    }

    /// Marks every task in the subtree completed, stamping only those that
    /// were incomplete, and returns exactly the tasks that changed, already
    /// in their completed form.
    pub fn bulk_mark_subtasks_completed(&mut self, parent_id: &str, now: i64) -> (r: Vec<Task>)
        requires
            old(self).wf(),
        ensures
            final(self).wf(),
            final(self)@ == bulk_marked(old(self)@, parent_id@, now),
            unique_task_ids(r.deep_view()),
            forall|i: int|
                0 <= i < r.deep_view().len() ==> contains_task_id(
                    old(self)@,
                    (#[trigger] r.deep_view()[i]).id,
                ) && in_subtree(old(self)@, r.deep_view()[i].id, Some(parent_id@)) && !task_of(
                    old(self)@,
                    r.deep_view()[i].id,
                ).completed && r.deep_view()[i] == mark_done_model(
                    task_of(old(self)@, r.deep_view()[i].id),
                    now,
                ),
            forall|j: int|
                0 <= j < old(self)@.len() && in_subtree(
                    old(self)@,
                    (#[trigger] old(self)@[j]).id,
                    Some(parent_id@),
                ) && !old(self)@[j].completed ==> contains_task_id(
                    r.deep_view(),
                    old(self)@[j].id,
                ),
    {
        let ghost s = old(self)@;
        let ghost root = parent_id@;
        let all = self.get_task_hierarchy(Some(parent_id.to_owned()));
        let ghost out = all.deep_view();
        proof {
            assert(hierarchy_result(s, Some(root), out));
        }
        let mut updated: Vec<Task> = Vec::new();
        let n = all.len();
        let mut i: usize = 0;
        while i < n
            invariant
                self.wf(),
                s == old(self)@,
                unique_task_ids(s),
                root == parent_id@,
                n == out.len(),
                n == all@.len(),
                out == all.deep_view(),
                hierarchy_result(s, Some(root), out),
                0 <= i <= n,
                self@.len() == s.len(),
                forall|k: int| 0 <= k < s.len() ==> (#[trigger] self@[k]).id == s[k].id,
                forall|k: int|
                    0 <= k < s.len() ==> #[trigger] self@[k] == (if exists|j: int|
                        0 <= j < i && (#[trigger] out[j]).id == s[k].id && !out[j].completed {
                        mark_done_model(s[k], now)
                    } else {
                        s[k]
                    }),
                unique_task_ids(updated.deep_view()),
                forall|k: int|
                    0 <= k < updated.deep_view().len() ==> exists|j: int|
                        0 <= j < i && (#[trigger] out[j]).id == (#[trigger] updated.deep_view()[
                            k
                        ]).id && !out[j].completed && updated.deep_view()[k] == mark_done_model(
                            out[j],
                            now,
                        ),
                forall|j: int|
                    0 <= j < i && !(#[trigger] out[j]).completed ==> contains_task_id(
                        updated.deep_view(),
                        out[j].id,
                    ),
            decreases n - i,
        {
            let ghost pre = self@;
            let ghost upd_pre = updated.deep_view();
            if !all[i].completed {
                let mut t = all[i].clone();
                t.completed = true;
                t.updated_at = now;
                proof {
                    assert(t@ == mark_done_model(out[i as int], now));
                }
                self.update(&t);
                updated.push(t);
                proof {
                    assert(updated.deep_view() =~= upd_pre.push(
                        mark_done_model(out[i as int], now),
                    ));
                    let w = choose|w: int| 0 <= w < s.len() && s[w].id == out[i as int].id;
                    lemma_task_of_index(s, w);
                    assert(s[w] == out[i as int]);
                    assert forall|k: int| 0 <= k < s.len() implies #[trigger] self@[k] == (
                    if exists|j: int|
                        0 <= j < i + 1 && (#[trigger] out[j]).id == s[k].id && !out[
                            j
                        ].completed {
                        mark_done_model(s[k], now)
                    } else {
                        s[k]
                    }) by {
                        if pre[k].id == t@.id {
                            if k != w {
                                assert(s[k].id != s[w].id);
                            }
                            assert(s[k] == out[i as int]);
                            assert(self@[k] == t@);
                        } else {
                            assert(self@[k] == pre[k]);
                            assert(s[k].id != out[i as int].id);
                        }
                    }
                    assert forall|a: int, b: int|
                        0 <= a < b < updated.deep_view().len() implies updated.deep_view()[a].id
                        != updated.deep_view()[b].id by {
                        if b == updated.deep_view().len() - 1 {
                            let ja = choose|ja: int|
                                0 <= ja < i && (#[trigger] out[ja]).id == upd_pre[a].id && !out[
                                    ja
                                ].completed && upd_pre[a] == mark_done_model(out[ja], now);
                            assert(out[ja].id != out[i as int].id);
                        }
                    }
                    assert forall|j: int|
                        0 <= j < i + 1 && !(#[trigger] out[j]).completed implies
                        contains_task_id(updated.deep_view(), out[j].id) by {
                        if j < i {
                            assert(contains_task_id(upd_pre, out[j].id));
                            let w2 = choose|w2: int|
                                0 <= w2 < upd_pre.len() && upd_pre[w2].id == out[j].id;
                            assert(updated.deep_view()[w2].id == out[j].id);
                        } else {
                            assert(updated.deep_view()[updated.deep_view().len() - 1].id == out[
                                i as int
                            ].id);
                        }
                    }
                }
            } else {
                proof {
                    assert forall|k: int| 0 <= k < s.len() implies #[trigger] self@[k] == (
                    if exists|j: int|
                        0 <= j < i + 1 && (#[trigger] out[j]).id == s[k].id && !out[
                            j
                        ].completed {
                        mark_done_model(s[k], now)
                    } else {
                        s[k]
                    }) by {}
                }
            }
            i += 1;
        }
        proof {
            // the conditional image over the full listing is the bulk image
            assert forall|k: int| 0 <= k < s.len() implies #[trigger] self@[k] == (if in_subtree(
                s,
                s[k].id,
                Some(root),
            ) && !s[k].completed {
                mark_done_model(s[k], now)
            } else {
                s[k]
            }) by {
                if in_subtree(s, s[k].id, Some(root)) && !s[k].completed {
                    assert(contains_task_id(out, s[k].id));
                    let j = choose|j: int| 0 <= j < out.len() && out[j].id == s[k].id;
                    lemma_task_of_index(s, k);
                    assert(out[j] == s[k]);
                } else {
                    assert(!(exists|j: int|
                        0 <= j < n && (#[trigger] out[j]).id == s[k].id && !out[j].completed))
                        by {
                        if exists|j: int|
                            0 <= j < n && (#[trigger] out[j]).id == s[k].id && !out[
                                j
                            ].completed {
                            let j = choose|j: int|
                                0 <= j < n && (#[trigger] out[j]).id == s[k].id && !out[
                                    j
                                ].completed;
                            lemma_task_of_index(s, k);
                            assert(out[j] == task_of(s, out[j].id));
                            assert(out[j] == s[k]);
                            assert(in_subtree(s, s[k].id, Some(root)));
                        }
                    }
                }
            }
            assert(self@ =~= bulk_marked(s, root, now));
            // result soundness and completeness over the store
            assert forall|k: int| 0 <= k < updated.deep_view().len() implies contains_task_id(
                s,
                (#[trigger] updated.deep_view()[k]).id,
            ) && in_subtree(s, updated.deep_view()[k].id, Some(root)) && !task_of(
                s,
                updated.deep_view()[k].id,
            ).completed && updated.deep_view()[k] == mark_done_model(
                task_of(s, updated.deep_view()[k].id),
                now,
            ) by {
                let j = choose|j: int|
                    0 <= j < n && (#[trigger] out[j]).id == updated.deep_view()[k].id && !out[
                        j
                    ].completed && updated.deep_view()[k] == mark_done_model(out[j], now);
                assert(out[j] == task_of(s, out[j].id));
            }
            assert forall|j: int|
                0 <= j < s.len() && in_subtree(s, (#[trigger] s[j]).id, Some(root)) && !s[
                    j
                ].completed implies contains_task_id(updated.deep_view(), s[j].id) by {
                assert(contains_task_id(out, s[j].id));
                let w = choose|w: int| 0 <= w < n && out[w].id == s[j].id;
                lemma_task_of_index(s, j);
                assert(out[w] == s[j]);
                assert(!out[w].completed);
                assert(contains_task_id(updated.deep_view(), out[w].id));
            }
        }
        updated
    }
}

/// Progress under a task: the size of its subtree, how many of those tasks
/// are completed, and whether there are any.
pub struct TaskProgress {
    pub total_subtasks: usize,
    pub completed_subtasks: usize,
    pub has_subtasks: bool,
}

} // verus!
