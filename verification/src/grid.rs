//! A rectangular character grid backed by a vector of rows.
use vstd::prelude::*;

verus! {

use crate::text::{seq_views, to_chars};

/// A two-dimensional character matrix, one inner vector per row.
pub struct Matrix2D {
    pub data: Vec<Vec<char>>,
}

impl View for Matrix2D {
    type V = Seq<Seq<char>>;

    open spec fn view(&self) -> Seq<Seq<char>> {
        seq_views(self.data@)
    }
}

impl Matrix2D {
    /// Builds the matrix whose rows are the characters of the given lines.
    pub fn new(data: Vec<String>) -> (m: Matrix2D)
        ensures
            m@ == seq_views(data@),
    {
        let n = data.len();
        let mut rows: Vec<Vec<char>> = Vec::new();
        let mut i: usize = 0;
        while i < n
            invariant
                i <= n,
                n == data@.len(),
                rows@.len() == i,
                forall|j: int| 0 <= j < i ==> #[trigger] rows@[j]@ == data@[j]@,
            decreases n - i,
        {
            rows.push(to_chars(data[i].as_str()));
            i = i + 1;
        }
        let m = Matrix2D { data: rows };
        proof {
            assert(m@ =~= seq_views(data@));
        }
        m
    }
}

} // verus!
