use rs_practice::project_note;
use rs_practice::todo_api::{
    error_response, i64_to_string, todo_from_insert, todo_or_not_found, validate_create_todo,
    AppError, CreateTodo, Todo,
};

#[test]
fn project_note_mentions_todo() {
    assert!(project_note().contains("TODO"));
}

#[test]
fn validation_trims_the_title() {
    let payload = CreateTodo { title: "  learn ownership \n".to_string(), completed: true };
    assert_eq!(
        validate_create_todo(payload),
        Ok(CreateTodo { title: "learn ownership".to_string(), completed: true })
    );
}

#[test]
fn validation_refuses_a_blank_title() {
    let payload = CreateTodo { title: " \t ".to_string(), completed: false };
    assert_eq!(
        validate_create_todo(payload),
        Err(AppError::BadRequest("title cannot be empty".to_string()))
    );
}

#[test]
fn lookup_and_insert() {
    let todo = todo_from_insert(7, CreateTodo { title: "x".to_string(), completed: false });
    assert_eq!(todo, Todo { id: 7, title: "x".to_string(), completed: false });
    assert_eq!(todo_or_not_found(Some(todo.clone()), 7), Ok(todo));
    assert_eq!(todo_or_not_found(None, 404), Err(AppError::NotFound(404)));
}

#[test]
fn error_responses() {
    assert_eq!(error_response(AppError::NotFound(404)), (404, "todo 404 not found".to_string()));
    assert_eq!(error_response(AppError::NotFound(-12)), (404, "todo -12 not found".to_string()));
    assert_eq!(error_response(AppError::BadRequest("bad".to_string())), (400, "bad".to_string()));
    assert_eq!(error_response(AppError::Database("db".to_string())), (500, "db".to_string()));
}

#[test]
fn decimal_numerals() {
    assert_eq!(i64_to_string(0), "0");
    assert_eq!(i64_to_string(1234567890), "1234567890");
    assert_eq!(i64_to_string(i64::MIN), i64::MIN.to_string());
    assert_eq!(i64_to_string(i64::MAX), i64::MAX.to_string());
}

#[test]
fn validation_is_idempotent() {
    let once = validate_create_todo(CreateTodo { title: "\u{a0} buy milk \t".to_string(), completed: false })
        .unwrap();
    assert_eq!(once.title, "buy milk");
    let twice = validate_create_todo(once.clone()).unwrap();
    assert_eq!(twice, once);
}
