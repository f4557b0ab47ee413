mod merge_files;
mod split_file;
mod utils;

pub use merge_files::merge_files;
pub use split_file::{
    build_actions, parse_merch_doc, plan, Action, ActionV, DocV, ExRecV, ExistingFileInfo,
    ParseError, ParsedMerchDoc, UpdRecV, UpdatedFileInfo,
};
pub use utils::{compute_hash, fingerprint_of, LineFormatter};
