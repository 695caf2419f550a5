pub mod codec;
pub mod directory;
pub mod disk;
pub mod disk_operator;
pub mod error;
pub mod fat;
pub mod path;
