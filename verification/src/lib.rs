//! Front end of a small scripting-language toolchain: an append-only
//! character arena with range-checked source views, a modal lexer, a
//! speculative lookahead cursor, and a recursive-descent expression parser.

mod arena;
mod ast;
mod error_handler;
mod eval;
mod lexer;
mod lookahead;
mod parser;
mod reader;
mod source;
mod values;

pub use arena::RenderError;
pub use arena::SourceArena;
pub use arena::SourceView;
pub use ast::BinExpression;
pub use ast::BinOperator;
pub use ast::Expression;
pub use ast::LitExpression;
pub use ast::UnExpression;
pub use ast::UnOperator;
pub use ast::Visitor;
pub use error_handler::Diagnostic;
pub use error_handler::ErrorHandler;
pub use eval::ExpressionEval;
pub use lexer::init_keywords;
pub use lexer::Lexer;
pub use lexer::LexerMode;
pub use lexer::Token;
pub use lexer::TokenLiteral;
pub use lexer::TokenType;
pub use lexer::MODE_STACK_MAX;
pub use lookahead::lookahead;
pub use lookahead::Cursor;
pub use lookahead::Lookahead;
pub use parser::Parser;
pub use reader::Reader;
pub use reader::ReaderBounds;
pub use source::Source;
pub use values::int_of;
pub use values::Value;
