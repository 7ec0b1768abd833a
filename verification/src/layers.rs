//! The order in which a loaded tree's files and the environment are layered.
//!
//! Later layers override earlier ones. Files are layered from the last
//! loaded node back to the root, so that a file overrides the files it
//! declares; environment variables come last and override every file.

use vstd::prelude::*;
use crate::format::{format_of, ConfigFormat};
use crate::tree::ConfigTree;

verus! {

/// One layer of a config: a file read in a format, or the environment.
#[derive(Debug, Clone, PartialEq, Eq)]
pub enum ConfigLayer {
    /// A config file and the format it is read as.
    File {
        /// Normalized absolute path of the file.
        path: String,
        /// Format named by the file's extension.
        format: ConfigFormat,
    },
    /// Environment variables declared by the schema.
    Environment,
}

/// `layers` lists the files of `paths` from last to first, each read in the
/// format its extension names, followed by the environment.
pub open spec fn layered(paths: Seq<Seq<char>>, layers: Seq<ConfigLayer>) -> bool {
    &&& layers.len() == paths.len() + 1
    &&& forall|i: int|
        0 <= i < paths.len() ==> (#[trigger] layers[i] matches ConfigLayer::File { path, format } && path@
            == paths[paths.len() - 1 - i] && format == format_of(path@))
    &&& layers[paths.len() as int] is Environment
}

/// The layers a loaded tree is merged from, in merge order.
pub fn config_layers<T>(tree: &ConfigTree<T>) -> (r: Vec<ConfigLayer>)
    ensures
        layered(Seq::new(tree.nodes@.len(), |i: int| tree.nodes@[i].path@), r@),
{
    let ghost paths = Seq::new(tree.nodes@.len(), |i: int| tree.nodes@[i].path@);
    let n = tree.nodes.len();
    let mut layers: Vec<ConfigLayer> = Vec::new();
    let mut k: usize = 0;
    while k < n
        invariant
            n == tree.nodes@.len(),
            paths == Seq::new(tree.nodes@.len(), |i: int| tree.nodes@[i].path@),
            k <= n,
            layers@.len() == k,
            forall|i: int|
                0 <= i < k ==> (#[trigger] layers@[i] matches ConfigLayer::File { path, format } && path@
                    == paths[n - 1 - i] && format == format_of(path@)),
        decreases n - k,
    {
        let node = &tree.nodes[n - 1 - k];
        let path = node.path.clone();
        let format = ConfigFormat::from_path(path.as_str());
        layers.push(ConfigLayer::File { path, format });
        k = k + 1;
    }
    layers.push(ConfigLayer::Environment);
    layers
}

} // verus!
