//! The data supplier: an ordered set of input vectors with their target
//! vectors, a batch size and a shuffle flag, plus the one-hot encoding
//! helper that expands class indices into target vectors.

use vstd::prelude::*;
use crate::fixed::SCALE;

verus! {

/// In-memory training data: one label vector per input vector.
#[derive(Clone, PartialEq, Debug)]
pub struct DataLoader {
    pub data: Vec<Vec<i64>>,
    pub labels: Vec<Vec<i64>>,
    pub batch_size: usize,
    pub shuffle: bool,
}

impl DataLoader {
    /// Every input has `in_dim` entries, every label `out_dim`, and the
    /// two sequences pair up one to one.
    pub open spec fn dims_ok(&self, in_dim: nat, out_dim: nat) -> bool {
        &&& self.data.len() == self.labels.len()
        &&& forall|i: int| 0 <= i < self.data.len() ==> (#[trigger] self.data[i]).len() == in_dim
        &&& forall|i: int|
            0 <= i < self.labels.len() ==> (#[trigger] self.labels[i]).len() == out_dim
    }

    /// A loader over the given data and labels.
    pub fn new(data: Vec<Vec<i64>>, labels: Vec<Vec<i64>>, batch_size: usize, shuffle: bool) -> (r:
        DataLoader)
        ensures
            r.data == data,
            r.labels == labels,
            r.batch_size == batch_size,
            r.shuffle == shuffle,
    {
        DataLoader { data, labels, batch_size, shuffle }
    }
}

/// Expands a class-index labeling into one-hot target vectors: entry
/// `labels[i]` of each row is one, every other entry is zero.
pub fn to_onehot(labels: &Vec<usize>, num_classes: usize) -> (r: Vec<Vec<i64>>)
    requires
        forall|i: int| 0 <= i < labels.len() ==> (#[trigger] labels[i]) < num_classes,
    ensures
        r.len() == labels.len(),
        forall|i: int| 0 <= i < r.len() ==> (#[trigger] r[i]).len() == num_classes,
        forall|i: int| 0 <= i < r.len() ==> (#[trigger] r@[i]@[labels[i] as int]) == SCALE,
        forall|i: int, j: int|
            0 <= i < r.len() && 0 <= j < num_classes && j != labels[i] ==> (#[trigger] r@[i]@[j])
                == 0,
{
    let mut out: Vec<Vec<i64>> = Vec::new();
    let mut i: usize = 0;
    while i < labels.len()
        invariant
            forall|p: int| 0 <= p < labels.len() ==> (#[trigger] labels[p]) < num_classes,
            0 <= i <= labels.len(),
            out.len() == i,
            forall|p: int| 0 <= p < i ==> (#[trigger] out[p]).len() == num_classes,
            forall|p: int| 0 <= p < i ==> (#[trigger] out@[p]@[labels[p] as int]) == SCALE,
            forall|p: int, q: int|
                0 <= p < i && 0 <= q < num_classes && q != labels[p] ==> (#[trigger] out@[p]@[q])
                    == 0,
        decreases labels.len() - i,
    {
        let c: usize = labels[i];
        let mut row: Vec<i64> = Vec::new();
        let mut j: usize = 0;
        while j < num_classes
            invariant
                c < num_classes,
                0 <= j <= num_classes,
                row.len() == j,
                forall|q: int| 0 <= q < j && q == c ==> (#[trigger] row@[q]) == SCALE,
                forall|q: int| 0 <= q < j && q != c ==> (#[trigger] row@[q]) == 0,
            decreases num_classes - j,
        {
            if j == c {
                row.push(SCALE);
            } else {
                row.push(0);
            }
            j = j + 1;
        }
        out.push(row);
        i = i + 1;
    }
    out
}

} // verus!
