//! The data and the request rules of the todo service: what a new todo
//! must look like, what a lookup answers, and how each error is reported.
use vstd::prelude::*;

use crate::text::{decimal, decimal_chars, lemma_trim_ends, trim, trim_end, trim_start, trim_str};

verus! {

/// A stored todo.
#[derive(Debug, Clone, PartialEq, Eq)]
pub struct Todo {
    pub id: i64,
    pub title: String,
    pub completed: bool,
}

/// The body of a request that creates a todo.
#[derive(Debug, Clone, PartialEq, Eq)]
pub struct CreateTodo {
    pub title: String,
    pub completed: bool,
}

/// Why a request to the todo service fails.
#[derive(Debug, Clone, PartialEq, Eq)]
pub enum AppError {
    /// The request is malformed; the message says how.
    BadRequest(String),
    /// No todo has this id.
    NotFound(i64),
    /// The database failed; the message is its error's text.
    Database(String),
}

/// A short note on the state of the todo service.
pub fn project_note() -> (note: &'static str)
    ensures
        note@ == "TODO: implement todo api by hand"@,
{
    "TODO: implement todo api by hand"
}

/// The decimal numeral of an integer, with a leading `-` when negative.
pub open spec fn signed_decimal(n: int) -> Seq<char> {
    if n < 0 {
        seq!['-'] + decimal((-n) as nat)
    } else {
        decimal(n as nat)
    }
}

/// The decimal numeral of `n`.
pub fn i64_to_string(n: i64) -> (s: String)
    ensures
        s@ == signed_decimal(n as int),
{
    if n < 0 {
        let magnitude: u64 = if n == i64::MIN {
            9223372036854775808u64
        } else {
            (-n) as u64
        };
        let digits = decimal_chars(magnitude);
        let mut out: Vec<char> = Vec::new();
        out.push('-');
        let mut i: usize = 0;
        while i < digits.len()
            invariant
                0 <= i <= digits.len(),
                out@ == seq!['-'] + digits@.take(i as int),
            decreases digits.len() - i,
        {
            out.push(digits[i]);
            assert(digits@.take(i + 1) =~= digits@.take(i as int).push(digits@[i as int]));
            i = i + 1;
        }
        assert(digits@.take(digits.len() as int) =~= digits@);
        crate::text::chars_to_string(out.as_slice())
    } else {
        let digits = decimal_chars(n as u64);
        crate::text::chars_to_string(digits.as_slice())
    }
}

/// Checks a new todo: its title, without surrounding white space, must not
/// be empty, and the todo is stored with that trimmed title.
pub fn validate_create_todo(payload: CreateTodo) -> (res: Result<CreateTodo, AppError>)
    ensures
        trim(payload.title@).len() == 0 ==> (res matches Err(AppError::BadRequest(m)) && m@
            == "title cannot be empty"@),
        trim(payload.title@).len() > 0 ==> (res matches Ok(t) && t.title@ == trim(payload.title@)
            && t.completed == payload.completed),
{
    let title = trim_str(payload.title.as_str());
    if title.is_empty() {
        return Err(AppError::BadRequest("title cannot be empty".to_string()));
    }
    Ok(CreateTodo { title: title.to_string(), completed: payload.completed })
}

/// The todo stored under the id the database assigned to a validated
/// request.
pub fn todo_from_insert(id: i64, payload: CreateTodo) -> (todo: Todo)
    ensures
        todo.id == id,
        todo.title@ == payload.title@,
        todo.completed == payload.completed,
{
    Todo { id, title: payload.title, completed: payload.completed }
}

/// The answer to a lookup by id: the todo when one was found, else
/// `NotFound` with the id.
pub fn todo_or_not_found(found: Option<Todo>, id: i64) -> (res: Result<Todo, AppError>)
    ensures
        match found {
            Some(t) => res == Ok::<Todo, AppError>(t),
            None => res == Err::<Todo, AppError>(AppError::NotFound(id)),
        },
{
    match found {
        Some(todo) => Ok(todo),
        None => Err(AppError::NotFound(id)),
    }
}

/// The HTTP status code of an error.
pub open spec fn status_spec(error: AppError) -> u16 {
    match error {
        AppError::BadRequest(_) => 400,
        AppError::NotFound(_) => 404,
        AppError::Database(_) => 500,
    }
}

/// The message of an error.
pub open spec fn message_spec(error: AppError) -> Seq<char> {
    match error {
        AppError::BadRequest(m) => m@,
        AppError::NotFound(id) => "todo "@ + signed_decimal(id as int) + " not found"@,
        AppError::Database(m) => m@,
    }
}

/// The HTTP status code and the message that an error is answered with.
pub fn error_response(error: AppError) -> (res: (u16, String))
    ensures
        res.0 == status_spec(error),
        res.1@ == message_spec(error),
{
    match error {
        AppError::BadRequest(message) => (400, message),
        AppError::NotFound(id) => {
            let mut message = "todo ".to_string();
            let digits = i64_to_string(id);
            message.append(digits.as_str());
            message.append(" not found");
            (404, message)
        },
        AppError::Database(message) => (500, message),
    }
}

/// Validation is idempotent: a title that passed validation passes it again
/// unchanged.
pub proof fn law_validation_idempotent(title: Seq<char>)
    ensures
        trim(trim(title)) == trim(title),
{
    let t = trim(title);
    lemma_trim_ends(title);
    lemma_trim_ends(trim_start(title));
    if t.len() > 0 {
        assert(t[0] == trim_start(title)[0]);
        assert(trim_start(t) == t);
        assert(trim_end(t) == t);
    } else {
        assert(trim_start(t) == t);
    }
}

} // verus!
