//! Indexing a reference sequence with a suffix array and an FM index, and
//! mapping short reads back onto it by exact search, seeding and alignment.

pub mod text;
pub mod suffix_array;
pub mod fm_index;
pub mod search;
pub mod cigar;
pub mod align;
pub mod seeds;
pub mod mapper;
pub mod sa_search;
pub mod lcp;
pub mod assembly;
pub mod fasta;
