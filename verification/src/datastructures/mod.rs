pub mod priority_queue;
pub mod union_find;
pub mod skip_list;
