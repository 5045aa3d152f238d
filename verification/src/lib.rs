//! Verified core of a local file search engine.
pub mod bitmaps;
pub mod call_laws;
pub mod cancellation;
pub mod comparator;
pub mod engine;
pub mod files;
pub mod fold;
pub mod key_order;
pub mod lexicographic;
pub mod memory_inventory;
pub mod metadata_postings;
pub mod name_column;
pub mod natural;
pub mod numeric_columns;
pub mod order_validation;
pub mod ordered_merge;
pub mod ordered_page;
pub mod paging;
pub mod paths;
pub mod pcre;
pub mod posting_cache;
pub mod posting_changes;
pub mod posting_map;
pub mod query;
pub mod query_scratch;
pub mod relations;
pub mod result_order;
pub mod scan_resume;
pub mod scanner;
pub mod search;
pub mod shared_text;
pub mod sharing;
pub mod slot_order;
pub mod slot_sort;
pub mod snapshot;
pub mod text;
pub mod text_order;
