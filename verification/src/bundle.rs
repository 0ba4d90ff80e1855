//! Bundle packaging and export. The packager turns a listing of the rendered
//! output tree into the exact entries of the export archive; the surrounding
//! application walks the tree, writes the archive through its zip writer to a
//! temporary path and renames it over the well-known bundle location. The two
//! retrieval surfaces are here too: the text-safe encoding of the bundle's
//! bytes, and the save-dialog decision where a cancelled prompt copies
//! nothing and is no error.

use vstd::prelude::*;

use base64::Engine;

use crate::state::clone_bytes;

verus! {

/// One node of the rendered site's output tree, as plain values: a path
/// relative to the output root ('/'-separated, no trailing slash), and the
/// file's bytes for a regular file, nothing for a directory.
pub struct TreeNode {
    pub path: Vec<u8>,
    pub file: Option<Vec<u8>>,
}

/// Mathematical value of a [`TreeNode`].
pub ghost struct TreeNodeV {
    pub path: Seq<u8>,
    pub file: Option<Seq<u8>>,
}

impl View for TreeNode {
    type V = TreeNodeV;

    open spec fn view(&self) -> TreeNodeV {
        TreeNodeV {
            path: self.path@,
            file: match self.file {
                Option::Some(ref d) => Option::Some(d@),
                Option::None => Option::None,
            },
        }
    }
}

impl DeepView for TreeNode {
    type V = TreeNodeV;

    open spec fn deep_view(&self) -> TreeNodeV {
        self@
    }
}

/// One entry of the bundle archive: a regular file keeps its path and bytes;
/// a directory (empty ones included) becomes a marker whose name is the path
/// with a trailing slash and no bytes.
pub struct BundleEntry {
    pub name: Vec<u8>,
    pub data: Option<Vec<u8>>,
}

/// Mathematical value of a [`BundleEntry`].
pub ghost struct BundleEntryV {
    pub name: Seq<u8>,
    pub data: Option<Seq<u8>>,
}

impl View for BundleEntry {
    type V = BundleEntryV;

    open spec fn view(&self) -> BundleEntryV {
        BundleEntryV {
            name: self.name@,
            data: match self.data {
                Option::Some(ref d) => Option::Some(d@),
                Option::None => Option::None,
            },
        }
    }
}

impl DeepView for BundleEntry {
    type V = BundleEntryV;

    open spec fn deep_view(&self) -> BundleEntryV {
        self@
    }
}

/// The archive entry one tree node becomes.
pub open spec fn bundle_entry_of(n: TreeNodeV) -> BundleEntryV {
    match n.file {
        Option::Some(d) => BundleEntryV { name: n.path, data: Option::Some(d) },
        Option::None => BundleEntryV { name: n.path.push(0x2f), data: Option::None },
    }
}

/// The entries of the bundle: one per tree node, in listing order.
pub open spec fn bundle_entries(ns: Seq<TreeNodeV>) -> Seq<BundleEntryV> {
    ns.map_values(|n: TreeNodeV| bundle_entry_of(n))
}

/// Turn the listing of the rendered output tree into the bundle's entries:
/// every regular file becomes one entry with exactly its bytes, every
/// directory becomes a trailing-slash marker, in listing order.
pub fn package_entries(nodes: &Vec<TreeNode>) -> (r: Vec<BundleEntry>)
    ensures
        r.deep_view() == bundle_entries(nodes.deep_view()),
{
    let ghost all = nodes.deep_view();
    let mut out: Vec<BundleEntry> = Vec::new();
    let mut i: usize = 0;
    proof {
        assert(out.deep_view() =~= bundle_entries(all.take(0)));
    }
    while i < nodes.len()
        invariant
            i <= nodes.len(),
            all == nodes.deep_view(),
            out.deep_view() == bundle_entries(all.take(i as int)),
        decreases nodes.len() - i,
    {
        let ghost before = out.deep_view();
        let n = &nodes[i];
        proof {
            assert(n@ == all[i as int]);
        }
        let entry = match n.file {
            Option::Some(ref d) => BundleEntry {
                name: clone_bytes(&n.path),
                data: Option::Some(clone_bytes(d)),
            },
            Option::None => {
                let mut name = clone_bytes(&n.path);
                name.push(0x2f);
                BundleEntry { name, data: Option::None }
            },
        };
        proof {
            assert(entry@ == bundle_entry_of(all[i as int]));
        }
        out.push(entry);
        i = i + 1;
        proof {
            assert(out.deep_view() =~= before.push(bundle_entry_of(all[i - 1])));
            assert(bundle_entries(all.take(i as int)) =~= before.push(
                bundle_entry_of(all[i - 1]),
            ));
        }
    }
    proof {
        assert(all.take(nodes@.len() as int) =~= all);
    }
    out
}

/// What the standard base64 alphabet with padding makes of a byte sequence.
pub uninterp spec fn base64_of(bytes: Seq<u8>) -> Seq<char>;

/// Relies on base64's `STANDARD` engine `encode` (RFC 4648, padded): the
/// result depends on the input bytes alone, and the padded encoding takes
/// four characters for every started group of three input bytes. The engine
/// panics when that length does not fit in `usize`, so that input is ruled
/// out here.
#[verifier::external_body]
fn base64_encode(bytes: &Vec<u8>) -> (r: String)
    requires
        4 * ((bytes@.len() + 2) / 3) <= usize::MAX,
    ensures
        r@ == base64_of(bytes@),
        r@.len() == 4 * ((bytes@.len() + 2) / 3),
{
    base64::engine::general_purpose::STANDARD.encode(bytes.as_slice())
}

/// The bundle's full contents re-encoded as a text-safe string, for handing
/// to a presentation layer that cannot reach the filesystem.
pub fn get_export_zip_base64(bundle: &Vec<u8>) -> (r: String)
    requires
        4 * ((bundle@.len() + 2) / 3) <= usize::MAX,
    ensures
        r@ == base64_of(bundle@),
        r@.len() == 4 * ((bundle@.len() + 2) / 3),
{
    base64_encode(bundle)
}

/// The outcome of a user-directed export: copy the bundle to the chosen
/// destination, or — when the save prompt was cancelled — touch nothing.
pub enum ExportAction {
    Cancelled,
    CopyTo { dest: Vec<u8> },
}

/// Decide a user-directed export from the save prompt's answer: a chosen
/// destination is copied to, a cancelled prompt copies nothing and is not an
/// error.
pub fn export_zip(chosen: Option<Vec<u8>>) -> (r: ExportAction)
    ensures
        match chosen {
            Option::Some(d) => r == (ExportAction::CopyTo { dest: d }),
            Option::None => r == ExportAction::Cancelled,
        },
{
    match chosen {
        Option::Some(d) => ExportAction::CopyTo { dest: d },
        Option::None => ExportAction::Cancelled,
    }
}

} // verus!
