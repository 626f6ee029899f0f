pub mod about;
pub mod bag_draw;
pub mod export;
pub mod lex;
pub mod ring;
pub mod tile;
