//! The configuration that a hierarchy is built from.
use crate::resource::Attributes;
use vstd::prelude::*;

verus! {

/// Resources by path, with their attributes. As in a map, each path
/// occurs once (see `wf`).
#[derive(Debug)]
pub struct Config {
    pub resources: Vec<(String, Attributes)>,
}

impl Config {
    /// No path occurs twice.
    pub open spec fn wf(&self) -> bool {
        forall|i: int, j: int|
            0 <= i < j < self.resources@.len() ==> #[trigger] self.resources@[i].0@
                != #[trigger] self.resources@[j].0@
    }

    /// Whether no path occurs twice.
    pub fn has_unique_paths(&self) -> (r: bool)
        ensures
            r == self.wf(),
    {
        let n = self.resources.len();
        let mut j: usize = 0;
        while j < n
            invariant
                n == self.resources@.len(),
                j <= n,
                forall|a: int, b: int|
                    0 <= a < b < j ==> #[trigger] self.resources@[a].0@
                        != #[trigger] self.resources@[b].0@,
            decreases n - j,
        {
            let mut i: usize = 0;
            while i < j
                invariant
                    n == self.resources@.len(),
                    i <= j < n,
                    forall|a: int| 0 <= a < i ==> #[trigger] self.resources@[a].0@ != self.resources@[j as int].0@,
                decreases j - i,
            {
                if self.resources[i].0.eq(&self.resources[j].0) {
                    return false;
                }
                i = i + 1;
            }
            j = j + 1;
        }
        true
    }
}

} // verus!
