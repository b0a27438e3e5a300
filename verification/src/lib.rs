//! Editor core: a text buffer with undo/redo, cursors and selections, an edit history
//! with time travel, LSP position conversion and message framing, the project file
//! tree, and the plain data of syntax analysis.

pub mod api;
pub mod cursor;
pub mod edit;
pub mod editor;
pub mod history;
pub mod lsp;
pub mod project;
pub mod storage;
pub mod syntax;
pub mod text;

pub use cursor::{Cursor, CursorMode, Movement, Selection};
pub use edit::{Range, StoredCmd, TextEdit, UndoRedoError};
pub use editor::Editor;
pub use history::{EditRecord, EditType, HistoryTimeline, Version};
pub use lsp::{offset_to_position, CompletionItem, HoverInfo, Location, LspConfig};
pub use project::{FileNode, GitStatus, ProjectManager, StatusEntry};
pub use syntax::{HighlightStyle, Language, Symbol, SymbolKind};
