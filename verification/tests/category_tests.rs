use todo_core::commands::{
    create_category, create_task, delete_category, get_categories, get_category_by_id,
    get_task_by_id, update_category,
};
use todo_core::database::{run_migrations, Database};
use todo_core::error::AppError;
use todo_core::task::CreateTaskRequest;

fn fresh_db() -> Database {
    Database::in_memory(0).expect("fresh store")
}

#[test]
fn initializer_seeds_the_default_categories() {
    let db = fresh_db();
    let names: Vec<String> = get_categories(&db).into_iter().map(|c| c.name).collect();
    assert_eq!(names, vec!["Health", "Personal", "Shopping", "Work"]);
}

#[test]
fn initializer_is_idempotent() {
    let mut db = fresh_db();
    let first: Vec<(String, String)> =
        get_categories(&db).into_iter().map(|c| (c.id, c.name)).collect();
    run_migrations(&mut db, 999).expect("second run");
    let second: Vec<(String, String)> =
        get_categories(&db).into_iter().map(|c| (c.id, c.name)).collect();
    assert_eq!(first, second);
}

#[test]
fn initializer_collapses_duplicate_names_to_id_first_survivor() {
    let mut db = fresh_db();
    let one = create_category(&mut db, "Hobby".to_string(), "#111111".to_string(), None, 1)
        .unwrap();
    let two = create_category(&mut db, "Hobby".to_string(), "#222222".to_string(), None, 2)
        .unwrap();
    run_migrations(&mut db, 3).unwrap();
    let hobbies: Vec<_> = get_categories(&db)
        .into_iter()
        .filter(|c| c.name == "Hobby")
        .collect();
    assert_eq!(hobbies.len(), 1);
    let survivor_id = if one.id < two.id { one.id } else { two.id };
    assert_eq!(hobbies[0].id, survivor_id);
}

#[test]
fn category_crud_round_trip() {
    let mut db = fresh_db();
    let c = create_category(
        &mut db,
        "Garden".to_string(),
        "#00FF00".to_string(),
        Some("Leaf".to_string()),
        7,
    )
    .unwrap();
    assert_eq!(c.name, "Garden");
    assert_eq!(c.created_at, 7);
    assert_eq!(c.id.chars().count(), 36);

    let read = get_category_by_id(&db, &c.id).unwrap();
    assert_eq!(read.name, "Garden");
    assert_eq!(read.color, "#00FF00");
    assert_eq!(read.icon.as_deref(), Some("Leaf"));

    let renamed = update_category(
        &mut db,
        &c.id,
        Some("Yard".to_string()),
        None,
        None,
    )
    .unwrap();
    assert_eq!(renamed.name, "Yard");
    assert_eq!(renamed.color, "#00FF00");

    delete_category(&mut db, &c.id);
    assert!(get_category_by_id(&db, &c.id).is_none());
    let missing = update_category(&mut db, &c.id, Some("X".to_string()), None, None);
    assert!(matches!(missing, Err(AppError::CategoryNotFound)));
}

#[test]
fn categories_list_sorted_by_name() {
    let mut db = fresh_db();
    create_category(&mut db, "Zebra".to_string(), "#000000".to_string(), None, 1).unwrap();
    create_category(&mut db, "Apple".to_string(), "#000000".to_string(), None, 2).unwrap();
    let names: Vec<String> = get_categories(&db).into_iter().map(|c| c.name).collect();
    let mut sorted = names.clone();
    sorted.sort();
    assert_eq!(names, sorted);
    assert_eq!(names.first().map(|s| s.as_str()), Some("Apple"));
}

#[test]
fn deleting_a_category_does_not_touch_referencing_tasks() {
    let mut db = fresh_db();
    let c = create_category(&mut db, "Doomed".to_string(), "#123456".to_string(), None, 1)
        .unwrap();
    let request = CreateTaskRequest {
        title: "filed task".to_string(),
        description: None,
        priority: None,
        due_date: None,
        category_id: Some(c.id.clone()),
        tags: None,
        parent_id: None,
    };
    let t = create_task(&mut db, request, 2).unwrap();

    delete_category(&mut db, &c.id);

    assert!(get_category_by_id(&db, &c.id).is_none());
    // the task survives and keeps pointing at the now-missing category
    let survivor = get_task_by_id(&db, &t.id).unwrap();
    assert_eq!(survivor.category_id.as_deref(), Some(c.id.as_str()));
}
