//! Build orchestration. One site generation snapshots the state store,
//! persists the link collection, and hands the content document to the
//! external builder through its config file; everything the step decides —
//! the exact bytes of both documents — is computed and pinned down here. The
//! surrounding application writes the files, invokes the builder and hands
//! the populated output directory to the packager; a failure of any step
//! aborts the generation and leaves the previous bundle in place.

use vstd::prelude::*;

use crate::json::{content_json, json_content, json_links, links_json};
use crate::state::AppState;

verus! {

/// The documents one generation writes: the persisted link collection and
/// the builder's config file holding the content document.
pub struct SiteDocs {
    pub links_file: Vec<u8>,
    pub config: Vec<u8>,
}

/// Assemble the documents for one site generation from the current state.
/// Each run is a full rebuild: the result is a function of the snapshot
/// alone, so re-generating replaces what an earlier run produced and merges
/// nothing.
pub fn generate_site(state: &AppState) -> (r: SiteDocs)
    ensures
        r.links_file@ == json_links(state.links.deep_view()),
        r.config@ == json_content(state.user@, state.links.deep_view()),
{
    SiteDocs {
        links_file: links_json(&state.links),
        config: content_json(&state.user, &state.links),
    }
}

} // verus!
