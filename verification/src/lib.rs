//! Verified core of a declarative package-state reconciler.
//!
//! Desired package sets are declared in layered, importable configuration
//! documents; each package manager reports its installed set through a list
//! command. This library resolves the import graph, computes the add/remove
//! split per manager, and expands command templates, all under verified
//! contracts. Process spawning, file reading and terminal interaction live
//! outside the library.

use vstd::prelude::*;

pub mod document;
pub mod error;
pub mod manager;
pub mod reconcile;
pub mod registry;
pub mod resolve;
pub mod strings;
pub mod template;

verus! {

/// The view of an optional string.
pub open spec fn opt_view(o: Option<String>) -> Option<Seq<char>> {
    match o {
        Option::Some(s) => Option::Some(s@),
        Option::None => Option::None,
    }
}

/// True when the sequence holds no two equal entries.
pub open spec fn distinct_seq(s: Seq<Seq<char>>) -> bool {
    forall|i: int, j: int| 0 <= i < j < s.len() ==> s[i] != s[j]
}

/// Whether `x` occurs in `s`.
pub open spec fn seq_contains(s: Seq<Seq<char>>, x: Seq<char>) -> bool {
    exists|i: int| 0 <= i < s.len() && s[i] == x
}

/// The views of a vector of strings.
pub open spec fn views(v: Seq<String>) -> Seq<Seq<char>> {
    v.map_values(|s: String| s@)
}

/// Linear membership test for a string among a vector of strings.
pub fn contains_string(v: &Vec<String>, x: &String) -> (r: bool)
    ensures
        r == seq_contains(views(v@), x@),
{
    let mut i: usize = 0;
    while i < v.len()
        invariant
            0 <= i <= v.len(),
            forall|k: int| 0 <= k < i ==> views(v@)[k] != x@,
        decreases v.len() - i,
    {
        proof {
            assert(views(v@)[i as int] == v@[i as int]@);
        }
        if v[i].eq(x) {
            return true;
        }
        i += 1;
    }
    false
}

} // verus!
