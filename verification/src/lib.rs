pub mod common;
pub mod lexer;
pub mod multi_table_view;
pub mod pbase;
pub mod query;
pub mod parser;
pub mod query_tools;
pub mod schema;
pub mod table_opener;
pub mod value;
