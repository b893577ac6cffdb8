pub mod adjust;
pub mod atl;
pub mod color;
pub mod command;
pub mod compound;
pub mod document;
pub mod editing;
pub mod history;
pub mod image_io;
pub mod mask;
pub mod node;
pub mod ops;
pub mod order;
pub mod tile;
pub mod tools;
pub mod vector;
