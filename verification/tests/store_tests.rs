use todo_core::commands::{create_task, get_task_by_id, get_tasks, search_tasks};
use todo_core::database::Database;
use todo_core::error::AppError;
use todo_core::repository::TaskRepository;
use todo_core::task::{CreateTaskRequest, Priority, Task};

fn fresh_db() -> Database {
    Database::in_memory(0).expect("fresh store")
}

#[test]
fn create_then_get_returns_the_same_task() {
    let mut db = fresh_db();
    let request = CreateTaskRequest {
        title: "plan the trip".to_string(),
        description: Some("book trains".to_string()),
        priority: Some("Low".to_string()),
        due_date: Some("2025-03-01".to_string()),
        category_id: Some("cat-9".to_string()),
        tags: Some(vec!["travel".to_string()]),
        parent_id: None,
    };
    let created = create_task(&mut db, request, 77).unwrap();
    let fetched = get_task_by_id(&db, &created.id).unwrap();

    // equal to the created task in every field; id and stamps were assigned
    // by the store
    assert_eq!(fetched.id, created.id);
    assert_eq!(fetched.title, "plan the trip");
    assert_eq!(fetched.description.as_deref(), Some("book trains"));
    assert!(!fetched.completed);
    assert!(matches!(fetched.priority, Priority::Low));
    assert_eq!(fetched.due_date, created.due_date);
    assert_eq!(fetched.category_id.as_deref(), Some("cat-9"));
    assert_eq!(fetched.tags, vec!["travel".to_string()]);
    assert_eq!(fetched.parent_id, None);
    assert_eq!(fetched.created_at, 77);
    assert_eq!(fetched.updated_at, 77);
}

#[test]
fn missing_id_resolves_to_none() {
    let db = fresh_db();
    assert!(get_task_by_id(&db, "nothing-here").is_none());
}

#[test]
fn empty_store_lists_nothing() {
    let db = fresh_db();
    assert!(get_tasks(&db, None).is_empty());
}

#[test]
fn inserting_a_stored_id_again_is_refused() {
    let mut repo = TaskRepository::new();
    let task = Task {
        id: "fixed-id".to_string(),
        title: "one".to_string(),
        description: None,
        completed: false,
        priority: Priority::Medium,
        due_date: None,
        category_id: None,
        tags: vec![],
        parent_id: None,
        created_at: 1,
        updated_at: 1,
    };
    assert!(repo.create(&task).is_ok());
    let again = repo.create(&task);
    assert!(matches!(again, Err(AppError::DuplicateId)));
}

#[test]
fn repository_update_keeps_the_stored_creation_stamp() {
    let mut repo = TaskRepository::new();
    let task = Task {
        id: "fixed-id".to_string(),
        title: "one".to_string(),
        description: None,
        completed: false,
        priority: Priority::Medium,
        due_date: None,
        category_id: None,
        tags: vec![],
        parent_id: None,
        created_at: 1,
        updated_at: 1,
    };
    repo.create(&task).unwrap();
    let mut rewrite = task;
    rewrite.title = "renamed".to_string();
    rewrite.created_at = 999;
    rewrite.updated_at = 5;
    repo.update(&rewrite);
    let stored = repo.get_by_id("fixed-id").unwrap();
    assert_eq!(stored.title, "renamed");
    assert_eq!(stored.updated_at, 5);
    // the creation stamp is immutable at the store
    assert_eq!(stored.created_at, 1);
}

#[test]
fn category_update_keeps_the_stored_creation_stamp() {
    let mut db = fresh_db();
    let c = todo_core::commands::create_category(
        &mut db,
        "Garage".to_string(),
        "#333333".to_string(),
        None,
        4,
    )
    .unwrap();
    let renamed = todo_core::commands::update_category(
        &mut db,
        &c.id,
        Some("Workshop".to_string()),
        None,
        None,
    )
    .unwrap();
    assert_eq!(renamed.created_at, 4);
    let stored = todo_core::commands::get_category_by_id(&db, &c.id).unwrap();
    assert_eq!(stored.name, "Workshop");
    assert_eq!(stored.created_at, 4);
}

#[test]
fn empty_search_query_matches_every_task() {
    let mut db = fresh_db();
    create_task(
        &mut db,
        CreateTaskRequest {
            title: "anything".to_string(),
            description: None,
            priority: None,
            due_date: None,
            category_id: None,
            tags: None,
            parent_id: None,
        },
        1,
    )
    .unwrap();
    assert_eq!(search_tasks(&db, String::new()).len(), 1);
}

#[test]
fn error_messages_are_stable() {
    assert_eq!(AppError::TaskNotFound.message(), "Task not found");
    assert_eq!(AppError::CategoryNotFound.message(), "Category not found");
    assert_eq!(AppError::DuplicateId.message(), "Duplicate id");
}
