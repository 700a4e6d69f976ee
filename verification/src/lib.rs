pub mod case;
pub mod characters;
pub mod characters_parser;
pub mod code_generator;
pub mod dialogue;
pub mod dialogue_parser;
pub mod lexer;
pub mod maps;
pub mod reader;
pub mod text;
pub mod variables;
pub mod variables_parser;
pub mod writer;
