//! Small services and tools: a key-value protocol with its store, a
//! markdown-to-HTML converter, the request rules of a todo service, the
//! bookkeeping of an HTTP load tester, and the lifetime analysis of a
//! type-declaration rewriter.
pub mod auto_lifetime;
pub mod kv_store;
pub mod load_tester;
pub mod markdown_wasm;
pub mod text;
pub mod todo_api;

pub use markdown_wasm::parse_markdown;
pub use todo_api::project_note;
