//! Grade bookkeeping: the text formats (subject files, CSV export) and the
//! file naming and listing rules of a weighted grade calculator.
pub mod seqs;
pub mod text;
pub mod fields;
pub mod subject_file;
pub mod files;
pub mod order;
pub mod export;
pub mod status;
pub mod encoding;
pub mod parse_model;
pub mod roundtrip;
