//! Errors produced while traversing a recursive config tree.

use vstd::prelude::*;
use crate::text::{decimal, decimal_text};

verus! {

/// Errors produced while traversing a recursive config tree.
#[derive(Debug)]
pub enum ConfigTreeError {
    /// The current directory could not be resolved while absolutizing a path.
    CurrentDir {
        /// Description of the failure reported by the operating system.
        source: String,
    },
    /// A source loader failed for the given path.
    Load {
        /// Path that failed to load.
        path: String,
        /// Message returned by the loader.
        source: String,
    },
    /// A list of included paths contained an empty path.
    EmptyIncludePath {
        /// Path whose list contained the empty entry.
        path: String,
        /// Zero-based index of the empty entry.
        index: usize,
    },
    /// Recursive includes formed a cycle.
    IncludeCycle {
        /// Normalized path chain that forms the cycle; it starts and ends
        /// with the same path.
        chain: Vec<String>,
    },
}

/// The paths of a cycle separated by ` -> `.
pub open spec fn chain_text(chain: Seq<Seq<char>>) -> Seq<char>
    decreases chain.len(),
{
    if chain.len() == 0 {
        Seq::empty()
    } else if chain.len() == 1 {
        chain[0]
    } else {
        chain_text(chain.drop_last()) + " -> "@ + chain.last()
    }
}

/// The message describing an error.
pub open spec fn error_text(e: ConfigTreeError) -> Seq<char> {
    match e {
        ConfigTreeError::CurrentDir { .. } => "failed to resolve current directory"@,
        ConfigTreeError::Load { path, source } => "failed to load config "@ + path@ + ": "@ + source@,
        ConfigTreeError::EmptyIncludePath { path, index } => "include path at index "@ + decimal(index as nat)
            + " in "@ + path@ + " must not be empty"@,
        ConfigTreeError::IncludeCycle { chain } => "recursive config include cycle: "@ + chain_text(chain.deep_view()),
    }
}

impl ConfigTreeError {
    /// Describes the error.
    pub fn message(&self) -> (r: String)
        ensures
            r@ == error_text(*self),
    {
        match self {
            ConfigTreeError::CurrentDir { .. } => String::from_str("failed to resolve current directory"),
            ConfigTreeError::Load { path, source } => {
                let mut s = String::from_str("failed to load config ");
                s.append(path.as_str());
                s.append(": ");
                s.append(source.as_str());
                s
            },
            ConfigTreeError::EmptyIncludePath { path, index } => {
                let mut s = String::from_str("include path at index ");
                let digits = decimal_text(*index as u128);
                s.append(digits.as_str());
                s.append(" in ");
                s.append(path.as_str());
                s.append(" must not be empty");
                s
            },
            ConfigTreeError::IncludeCycle { chain } => {
                let mut s = String::from_str("recursive config include cycle: ");
                let ghost head = s@;
                let mut i: usize = 0;
                proof {
                    assert(chain.deep_view().take(0) =~= Seq::<Seq<char>>::empty());
                    assert(s@ =~= head + chain_text(chain.deep_view().take(0)));
                }
                while i < chain.len()
                    invariant
                        i <= chain@.len(),
                        s@ == head + chain_text(chain.deep_view().take(i as int)),
                    decreases chain@.len() - i,
                {
                    if i > 0 {
                        s.append(" -> ");
                    }
                    s.append(chain[i].as_str());
                    proof {
                        let t = chain.deep_view().take(i + 1);
                        assert(t.drop_last() =~= chain.deep_view().take(i as int));
                        assert(t.last() == chain@[i as int]@);
                        if i == 0 {
                            assert(chain_text(chain.deep_view().take(0)) =~= Seq::<char>::empty());
                        }
                        assert(s@ =~= head + chain_text(t));
                    }
                    i = i + 1;
                }
                proof {
                    assert(chain.deep_view().take(chain@.len() as int) =~= chain.deep_view());
                }
                s
            },
        }
    }

    /// Builds a loader failure for a source path.
    pub fn load(path: &str, source: String) -> (r: Self)
        ensures
            r matches ConfigTreeError::Load { path: p, source: s } && p@ == path@ && s == source,
    {
        ConfigTreeError::Load { path: path.to_owned(), source }
    }
}

} // verus!
