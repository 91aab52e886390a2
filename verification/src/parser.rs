pub mod parser;
pub mod parsing_functions;
