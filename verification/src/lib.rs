pub mod event_log;
pub mod found_match;
pub mod fqcn;
pub mod fqcn_processor;
pub mod fqcn_replacer;
pub mod json;
pub mod matched_file;
pub mod results_view;
pub mod rewrite;
pub mod rg_worker;
pub mod scrollable;
pub mod search;
pub mod text;
