pub mod order;
pub mod trade;
pub mod order_book;
pub mod book_lemmas;
pub mod order_index;
pub mod parser;
pub mod order_gateway;
pub mod matching_engine;
pub mod laws;
