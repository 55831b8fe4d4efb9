use todo_core::commands::{
    bulk_check_tasks_have_subtasks, bulk_delete_tasks_and_promote_subtasks,
    bulk_delete_tasks_with_subtasks, bulk_mark_subtasks_completed, calculate_task_progress,
    check_task_has_subtasks, create_task, delete_task, delete_task_and_promote_subtasks,
    delete_task_with_subtasks, get_incomplete_subtasks, get_subtasks, get_task_by_id,
    get_task_hierarchy, get_task_with_subtasks, get_tasks, toggle_task_completion, update_task,
};
use todo_core::database::Database;
use todo_core::error::AppError;
use todo_core::task::{CreateTaskRequest, Task, UpdateTaskRequest};

fn fresh_db() -> Database {
    Database::in_memory(0).expect("fresh store")
}

fn child_request(title: &str, parent: Option<&str>) -> CreateTaskRequest {
    CreateTaskRequest {
        title: title.to_string(),
        description: None,
        priority: None,
        due_date: None,
        category_id: None,
        tags: None,
        parent_id: parent.map(|p| p.to_string()),
    }
}

fn add(db: &mut Database, title: &str, parent: Option<&str>, now: i64) -> Task {
    create_task(db, child_request(title, parent), now).expect("create")
}

fn ids_of(tasks: &[Task]) -> Vec<String> {
    let mut ids: Vec<String> = tasks.iter().map(|t| t.id.clone()).collect();
    ids.sort();
    ids
}

/// root -> (a -> (a1, a2), b)
fn small_tree(db: &mut Database) -> (Task, Task, Task, Task, Task) {
    let root = add(db, "root", None, 1);
    let a = add(db, "a", Some(&root.id), 2);
    let b = add(db, "b", Some(&root.id), 3);
    let a1 = add(db, "a1", Some(&a.id), 4);
    let a2 = add(db, "a2", Some(&a.id), 5);
    (root, a, b, a1, a2)
}

#[test]
fn hierarchy_lists_every_descendant_once() {
    let mut db = fresh_db();
    let (root, a, b, a1, a2) = small_tree(&mut db);
    let hier = get_task_hierarchy(&db, Some(root.id.clone()));
    let mut expected = vec![a.id.clone(), b.id.clone(), a1.id.clone(), a2.id.clone()];
    expected.sort();
    assert_eq!(ids_of(&hier), expected);
    // the root itself is not a descendant of itself
    assert!(!hier.iter().any(|t| t.id == root.id));
}

#[test]
fn hierarchy_without_root_covers_the_forest() {
    let mut db = fresh_db();
    let (root, a, b, a1, a2) = small_tree(&mut db);
    let lone = add(&mut db, "lone", None, 6);
    let hier = get_task_hierarchy(&db, None);
    let mut expected = ids_of(&[root, a, b, a1, a2, lone]);
    expected.sort();
    assert_eq!(ids_of(&hier), expected);
}

#[test]
fn subtask_listing_comes_newest_first() {
    let mut db = fresh_db();
    let (root, a, b, _, _) = small_tree(&mut db);
    let direct = get_subtasks(&db, root.id.clone());
    // the command goes through the general listing, which is newest first
    assert_eq!(direct.len(), 2);
    assert_eq!(direct[0].id, b.id);
    assert_eq!(direct[1].id, a.id);
}

#[test]
fn direct_children_of_the_store_come_oldest_first() {
    let mut db = fresh_db();
    let (root, a, b, _, _) = small_tree(&mut db);
    let direct = db.tasks.get_direct_subtasks(&root.id);
    assert_eq!(direct.len(), 2);
    assert_eq!(direct[0].id, a.id);
    assert_eq!(direct[1].id, b.id);
}

#[test]
fn progress_counts_descendants() {
    let mut db = fresh_db();
    let (root, a, b, a1, a2) = small_tree(&mut db);
    // complete three of the four descendants
    for id in [&a.id, &a1.id, &a2.id] {
        toggle_task_completion(&mut db, id, 10).unwrap();
    }
    let _ = b;
    let progress = calculate_task_progress(&db, &root.id);
    assert_eq!(progress.total_subtasks, 4);
    assert_eq!(progress.completed_subtasks, 3);
    assert!(progress.has_subtasks);
    let percentage = (progress.completed_subtasks as f32 / progress.total_subtasks as f32) * 100.0;
    assert_eq!(percentage, 75.0);
}

#[test]
fn progress_of_a_leaf_is_empty() {
    let mut db = fresh_db();
    let leaf = add(&mut db, "leaf", None, 1);
    let progress = calculate_task_progress(&db, &leaf.id);
    assert_eq!(progress.total_subtasks, 0);
    assert_eq!(progress.completed_subtasks, 0);
    assert!(!progress.has_subtasks);
    let percentage = if progress.total_subtasks > 0 {
        (progress.completed_subtasks as f32 / progress.total_subtasks as f32) * 100.0
    } else {
        0.0
    };
    assert_eq!(percentage, 0.0);
}

#[test]
fn cascade_delete_removes_subtree_and_nothing_else() {
    let mut db = fresh_db();
    let (root, a, b, a1, a2) = small_tree(&mut db);
    let bystander = add(&mut db, "bystander", None, 6);
    let before = get_tasks(&db, None).len();
    assert_eq!(before, 6);

    delete_task_with_subtasks(&mut db, &root.id);

    let remaining = get_tasks(&db, None);
    assert_eq!(remaining.len(), 1);
    assert_eq!(remaining[0].id, bystander.id);
    // removed count equals the hierarchy size plus one
    assert_eq!(before - remaining.len(), 4 + 1);
    // no survivor points at anything removed
    for t in &remaining {
        if let Some(p) = &t.parent_id {
            assert!(![&root.id, &a.id, &b.id, &a1.id, &a2.id].iter().any(|r| *r == p));
        }
    }
}

#[test]
fn promote_delete_reattaches_children_and_keeps_grandchildren() {
    let mut db = fresh_db();
    let top = add(&mut db, "top", None, 1);
    let middle = add(&mut db, "middle", Some(&top.id), 2);
    let child1 = add(&mut db, "child1", Some(&middle.id), 3);
    let child2 = add(&mut db, "child2", Some(&middle.id), 4);
    let grandchild = add(&mut db, "grandchild", Some(&child1.id), 5);

    delete_task_and_promote_subtasks(&mut db, &middle.id, 50).unwrap();

    assert!(get_task_by_id(&db, &middle.id).is_none());
    let c1 = get_task_by_id(&db, &child1.id).unwrap();
    let c2 = get_task_by_id(&db, &child2.id).unwrap();
    assert_eq!(c1.parent_id.as_deref(), Some(top.id.as_str()));
    assert_eq!(c2.parent_id.as_deref(), Some(top.id.as_str()));
    assert_eq!(c1.updated_at, 50);
    // grandchildren stay attached to their (unchanged) parent
    let g = get_task_by_id(&db, &grandchild.id).unwrap();
    assert_eq!(g.parent_id.as_deref(), Some(child1.id.as_str()));
    assert_eq!(g.updated_at, 5);
}

#[test]
fn promote_delete_to_root_level() {
    let mut db = fresh_db();
    let top = add(&mut db, "top", None, 1);
    let child = add(&mut db, "child", Some(&top.id), 2);
    delete_task_and_promote_subtasks(&mut db, &top.id, 9).unwrap();
    let c = get_task_by_id(&db, &child.id).unwrap();
    assert_eq!(c.parent_id, None);
}

#[test]
fn promote_delete_of_missing_task_fails() {
    let mut db = fresh_db();
    add(&mut db, "only", None, 1);
    let r = delete_task_and_promote_subtasks(&mut db, "no-such-id", 9);
    assert_eq!(r, Err(AppError::TaskNotFound));
    assert_eq!(get_tasks(&db, None).len(), 1);
}

#[test]
fn bulk_mark_returns_exactly_the_changed_tasks() {
    let mut db = fresh_db();
    let root = add(&mut db, "root", None, 1);
    let mut descendant_ids = Vec::new();
    for i in 0..5 {
        let t = add(&mut db, &format!("d{}", i), Some(&root.id), 2 + i as i64);
        descendant_ids.push(t.id);
    }
    // two are already completed
    toggle_task_completion(&mut db, &descendant_ids[0], 10).unwrap();
    toggle_task_completion(&mut db, &descendant_ids[1], 10).unwrap();

    let changed = bulk_mark_subtasks_completed(&mut db, &root.id, 20);
    assert_eq!(changed.len(), 3);
    for t in &changed {
        assert!(t.completed);
        assert_eq!(t.updated_at, 20);
    }
    // already-completed descendants keep their stamp
    let untouched = get_task_by_id(&db, &descendant_ids[0]).unwrap();
    assert_eq!(untouched.updated_at, 10);

    let progress = calculate_task_progress(&db, &root.id);
    assert_eq!(progress.completed_subtasks, progress.total_subtasks);
    assert_eq!(progress.total_subtasks, 5);
}

#[test]
fn incomplete_subtasks_lists_only_open_work() {
    let mut db = fresh_db();
    let (root, a, _b, a1, _a2) = small_tree(&mut db);
    toggle_task_completion(&mut db, &a.id, 10).unwrap();
    toggle_task_completion(&mut db, &a1.id, 10).unwrap();
    let open = get_incomplete_subtasks(&db, &root.id);
    assert_eq!(open.len(), 2);
    assert!(open.iter().all(|t| !t.completed));
}

#[test]
fn has_subtasks_is_an_existence_check() {
    let mut db = fresh_db();
    let (root, a, b, _, _) = small_tree(&mut db);
    assert!(check_task_has_subtasks(&db, &root.id));
    assert!(check_task_has_subtasks(&db, &a.id));
    assert!(!check_task_has_subtasks(&db, &b.id));
    assert!(!check_task_has_subtasks(&db, "missing"));
}

#[test]
fn bulk_check_keeps_only_parents_in_given_order() {
    let mut db = fresh_db();
    let (root, a, b, _, _) = small_tree(&mut db);
    let ids = vec![b.id.clone(), root.id.clone(), a.id.clone(), "missing".to_string()];
    let parents = bulk_check_tasks_have_subtasks(&db, ids);
    assert_eq!(parents, vec![root.id.clone(), a.id.clone()]);
}

#[test]
fn bulk_cascade_delete_applies_in_order() {
    let mut db = fresh_db();
    let (root, _a, _b, _a1, _a2) = small_tree(&mut db);
    let other = add(&mut db, "other", None, 6);
    bulk_delete_tasks_with_subtasks(&mut db, vec![root.id.clone(), other.id.clone()]);
    assert!(get_tasks(&db, None).is_empty());
}

#[test]
fn bulk_promote_delete_stops_at_first_failure() {
    let mut db = fresh_db();
    let first = add(&mut db, "first", None, 1);
    let second = add(&mut db, "second", None, 2);
    let r = bulk_delete_tasks_and_promote_subtasks(
        &mut db,
        vec![first.id.clone(), "missing".to_string(), second.id.clone()],
        9,
    );
    assert_eq!(r, Err(AppError::TaskNotFound));
    // the first delete went through; the one after the failure did not
    assert!(get_task_by_id(&db, &first.id).is_none());
    assert!(get_task_by_id(&db, &second.id).is_some());
}

#[test]
fn task_with_subtasks_starts_with_the_task_itself() {
    let mut db = fresh_db();
    let (root, _a, _b, _a1, _a2) = small_tree(&mut db);
    let all = get_task_with_subtasks(&db, &root.id).unwrap();
    assert_eq!(all.len(), 5);
    assert_eq!(all[0].id, root.id);
    assert!(matches!(
        get_task_with_subtasks(&db, "missing"),
        Err(AppError::TaskNotFound)
    ));
}

#[test]
fn toggle_flips_and_stamps() {
    let mut db = fresh_db();
    let t = add(&mut db, "flip me", None, 1);
    let on = toggle_task_completion(&mut db, &t.id, 5).unwrap();
    assert!(on.completed);
    assert_eq!(on.updated_at, 5);
    let off = toggle_task_completion(&mut db, &t.id, 6).unwrap();
    assert!(!off.completed);
    assert_eq!(off.updated_at, 6);
    assert!(matches!(
        toggle_task_completion(&mut db, "missing", 7),
        Err(AppError::TaskNotFound)
    ));
}

#[test]
fn update_task_rewrites_the_stored_record() {
    let mut db = fresh_db();
    let t = add(&mut db, "before", None, 1);
    let updated = update_task(
        &mut db,
        &t.id,
        UpdateTaskRequest {
            title: Some("after".to_string()),
            description: Some("notes".to_string()),
            completed: None,
            priority: None,
            due_date: None,
            category_id: None,
            tags: Some(vec!["tag".to_string()]),
            parent_id: None,
        },
        8,
    )
    .unwrap();
    assert_eq!(updated.title, "after");
    let read_back = get_task_by_id(&db, &t.id).unwrap();
    assert_eq!(read_back.title, "after");
    assert_eq!(read_back.description.as_deref(), Some("notes"));
    assert_eq!(read_back.tags, vec!["tag".to_string()]);
    assert_eq!(read_back.updated_at, 8);
    assert_eq!(read_back.created_at, 1);
}

#[test]
fn plain_delete_leaves_children_in_place() {
    let mut db = fresh_db();
    let (root, a, _b, a1, _a2) = small_tree(&mut db);
    delete_task(&mut db, &a.id);
    assert!(get_task_by_id(&db, &a.id).is_none());
    // the child keeps its now-dangling parent reference
    let orphan = get_task_by_id(&db, &a1.id).unwrap();
    assert_eq!(orphan.parent_id.as_deref(), Some(a.id.as_str()));
    assert!(get_task_by_id(&db, &root.id).is_some());
}
