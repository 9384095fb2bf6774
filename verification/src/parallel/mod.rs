pub mod structs;
