//! Indexed string slices, for menus that report which entry was picked.
use vstd::prelude::*;

verus! {

/// A `&str` together with its position in a list.
#[derive(Clone, Copy, Debug)]
pub struct IndexedStr<'a> {
    /// The string slice
    pub str: &'a str,
    /// The index
    pub idx: usize,
}

impl<'a> IndexedStr<'a> {
    /// Pairs each string of `array` with its index.
    pub fn make_array(array: &[&'a str]) -> (r: Vec<IndexedStr<'a>>)
        ensures
            r.len() == array@.len(),
            forall|i: int| 0 <= i < r.len() ==> (#[trigger] r[i]).str == array@[i] && r[i].idx == i,
    {
        let mut ret: Vec<IndexedStr<'a>> = Vec::new();
        for idx in 0..array.len()
            invariant
                ret.len() == idx,
                forall|i: int| 0 <= i < idx ==> (#[trigger] ret[i]).str == array@[i] && ret[i].idx == i,
        {
            ret.push(IndexedStr { str: array[idx], idx });
        }
        ret
    }
}

} // verus!
