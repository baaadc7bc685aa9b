pub mod calendar;
pub mod codec;
pub mod datetime;
pub mod display;
pub mod flattree;
pub mod laws;
pub mod layout;
pub mod node;
pub mod parser;
pub mod sessionview;
pub mod status;
pub mod store;
pub mod tables;
pub mod treeview;
