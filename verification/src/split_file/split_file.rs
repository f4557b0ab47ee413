use crate::split_file::action::Action;
use crate::split_file::build_actions::{build_actions, plan_spec};
use crate::split_file::parse_merch_doc::{parse_merch_doc, parse_spec, ParseError};
use crate::split_file::parsed_merch_doc::DocV;
use vstd::prelude::*;

verus! {

/// The pure pipeline behind splitting an edited document: parse it, then
/// plan the filesystem actions that realize the edit.  The caller applies
/// the actions in order (or merely reports them on a dry run).
pub fn plan(content: &[u8]) -> (r: Result<Vec<Action>, ParseError>)
    ensures
        match r {
            Ok(actions) => parse_spec(content@) is Ok && actions.deep_view() == plan_spec(
                parse_spec(content@).unwrap(),
            ),
            Err(e) => parse_spec(content@) == Err::<DocV, ParseError>(e),
        },
{
    match parse_merch_doc(content) {
        Err(e) => Err(e),
        Ok(doc) => Ok(build_actions(doc)),
    }
}

} // verus!
