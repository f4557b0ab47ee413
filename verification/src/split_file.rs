mod action;
mod build_actions;
mod laws;
mod parse_merch_doc;
mod parsed_merch_doc;
mod split_file;

pub use self::action::{Action, ActionV};
pub use self::build_actions::{
    build_actions, classify, edge_pos, edge_target, has_edge, join_spec, lemma_dv_edges,
    plan_spec, resolve_all, upsert_edge, wf_pending,
};
pub use self::laws::{
    apply_renames, count_act, ends_with_temp, lemma_content_change_detection, lemma_deletion,
    lemma_plan_decomposition, lemma_rename_completeness, lemma_resolve_no_clobber,
    lemma_untouched_plans_empty, lemma_write_provenance, lemma_writes_precede_renames,
    phase1_acts, record_action, renames_applicable, renames_from, resolvable, untouched,
};
pub use self::parse_merch_doc::{
    lemma_parse_unique_updated, parse_merch_doc, parse_spec, ParseError,
};
pub use self::parsed_merch_doc::{
    find_updated, lookup_updated, unique_updated_indices, upd_pos, DocV, ExRecV,
    ExistingFileInfo, ParsedMerchDoc, UpdRecV, UpdatedFileInfo,
};
pub use self::split_file::plan;
