pub mod error;
pub mod text;
pub mod score;
pub mod maps;
pub mod parse;
pub mod tokenize;
pub mod index;
pub mod codec;
pub mod laws;

pub use codec::{decode_index, encode_index};
pub use error::{RFSeeError, RFSeeResult};
pub use index::{
    Index, ProcessedRfc, RfcDetails, RfcEntry, RfcSearchResult, TfIdf, build_rfc_entry,
    combine_scores, rfc_url, search_index,
};
pub use maps::{NumMap, StrMap};
pub use parse::{normalize_title, parse_rfc_details, parse_rfc_index, split_url};
