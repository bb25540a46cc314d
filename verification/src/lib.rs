//! Utilities for hand-written tokenizers over character streams: a buffered
//! lookahead cursor and a family of longest-match affix dictionaries, together
//! with the ordering and search primitives they are built on.

pub mod arrays;
pub mod bi_fix_dict;
pub mod buffer;
pub mod char_slices;
pub mod fp_form;
pub mod into_chars;
pub mod join;
pub mod lexical;
pub mod opt_res_boost;
pub mod or_some_ref;
pub mod prefix_match;
pub mod result_transform;
pub mod search;
pub mod seq_util;
pub mod suffix_match;
pub mod to_debug;
pub mod vec_tools;
pub mod void;
pub mod x_fix_dict;

// the two subsystems
pub use buffer::lemma_buffer_accounting;
pub use buffer::lemma_probe_idempotent;
pub use buffer::lemma_skip_commit;
pub use buffer::BufferIterator;
pub use buffer::CursorView;
pub use bi_fix_dict::BiFixMatchDictPair;
pub use prefix_match::PrefixMatchDictPair;
pub use suffix_match::SuffixMatchDictPair;
pub use x_fix_dict::PrefixMatchDict;
pub use x_fix_dict::SuffixMatchDict;
pub use x_fix_dict::XFixMatchDict;

// the order and the searches they rest on
pub use lexical::lemma_insert_position_keeps_order;
pub use lexical::lemma_prefix_order_is_length_order;
pub use lexical::lex_cmp;
pub use lexical::str_compare;
pub use lexical::str_has_prefix;
pub use lexical::str_has_suffix;
pub use search::binary_search;
pub use search::binary_search_by;
pub use search::linear_search;
pub use search::linear_search_by;
pub use search::search_by;

// the surrounding utilities
pub use arrays::AutoOrderedVec;
pub use char_slices::char_slice_has_prefix;
pub use char_slices::char_slice_has_suffix;
pub use char_slices::StartsWithStr;
pub use fp_form::FpForm;
pub use into_chars::IntoChars;
pub use join::add_space_if_necessary_and_flush_buffer;
pub use join::join_lest_multiple_separators;
pub use join::join_to;
pub use join::join_to_multi;
pub use join::join_to_multi_new;
pub use join::join_to_new;
pub use opt_res_boost::OptionBoost;
pub use opt_res_boost::ResultBoost;
pub use opt_res_boost::ResultBoostSingular;
pub use or_some_ref::OrSomeMut;
pub use or_some_ref::OrSomeRef;
pub use result_transform::ResultTransform;
pub use result_transform::ResultTransformSingular;
pub use to_debug::ToDebug;
pub use vec_tools::set_has_intersection;
pub use vec_tools::set_is_subset;
pub use vec_tools::set_union_vec;
pub use void::void;
pub use void::Void;
