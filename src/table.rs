use vstd::prelude::*;
use crate::node::GeoNode;

verus! {

/// The packed record bytes; leaves address them by offset and length.
#[derive(Debug)]
pub struct GeoTable {
    pub data: Vec<u8>,
}

impl GeoTable {
    /// Takes the bytes of a packed table.
    pub fn load(data: Vec<u8>) -> (r: Self)
        ensures
            r.data@ == data@,
    {
        GeoTable { data }
    }

    /// The bytes of each leaf, in order, borrowed from the table.
    pub fn read_ranges<'a>(&'a self, leaves: &Vec<GeoNode>) -> (r: Vec<&'a [u8]>)
        requires
            forall|i: int|
                0 <= i < leaves@.len() ==> #[trigger] leaves@[i].value1 + leaves@[i].value2
                    <= self.data@.len(),
        ensures
            r@.len() == leaves@.len(),
            forall|i: int|
                0 <= i < leaves@.len() ==> (#[trigger] r@[i])@ == self.data@.subrange(
                    leaves@[i].value1 as int,
                    leaves@[i].value1 + leaves@[i].value2,
                ),
    {
        let mut out: Vec<&'a [u8]> = Vec::new();
        let mut i: usize = 0;
        while i < leaves.len()
            invariant
                forall|i: int|
                    0 <= i < leaves@.len() ==> #[trigger] leaves@[i].value1 + leaves@[i].value2
                        <= self.data@.len(),
                0 <= i <= leaves.len(),
                out@.len() == i,
                forall|k: int|
                    0 <= k < i ==> (#[trigger] out@[k])@ == self.data@.subrange(
                        leaves@[k].value1 as int,
                        leaves@[k].value1 + leaves@[k].value2,
                    ),
            decreases leaves.len() - i,
        {
            let l = leaves[i];
            proof {
                assert(leaves@[i as int].value1 + leaves@[i as int].value2 <= self.data@.len());
                assert(self.data@.len() == self.data.len());
            }
            out.push(&self.data.as_slice()[l.value1..l.value1 + l.value2]);
            i += 1;
        }
        out
    }
}

} // verus!
