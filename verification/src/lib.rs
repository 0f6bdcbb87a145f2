//! View-model logic of the Teksilo user interface: the pure decisions behind the
//! margin lane, the mention index, the overview table, the settings files and the
//! heap profiler, each stated against a mathematical model and proved.

pub mod lane_ids;
pub mod text;
pub mod memprof;
pub mod order;
pub mod mentions;
pub mod mention_index;
pub mod overview;
pub mod overview_sort;
pub mod exchange;
pub mod note_files;
pub mod dictionaries;
pub mod styles;
pub mod paratext;
pub mod lanes;
pub mod reload;
pub mod media;
pub mod comments;
pub mod digest;
pub mod note_prose;
pub mod indent_tree;
pub mod dict_words;
pub mod presence;
pub mod binder_stream;
