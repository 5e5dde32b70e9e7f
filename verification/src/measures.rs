//! Measure groups: the runs of neighbouring records that share a measure
//! number, handed out once each, front to back.

use vstd::prelude::*;
use crate::chart::BMSDatum;

verus! {

/// The records from `start` up to `end` are one measure group: they share
/// their measure number, and the record at `end`, if there is one, has another.
pub open spec fn is_run(data: Seq<BMSDatum>, start: int, end: int) -> bool {
    &&& 0 <= start < end <= data.len()
    &&& forall|i: int| start <= i < end ==> (#[trigger] data[i]).measure == data[start].measure
    &&& end < data.len() ==> data[end].measure != data[start].measure
}

/// A single pass over the records, one measure group at a time.
pub struct Measures {
    pub data: Vec<BMSDatum>,
    /// The records before `position` have been handed out.
    pub position: usize,
}

impl Measures {
    pub open spec fn wf(&self) -> bool {
        self.position <= self.data@.len()
    }

    /// A pass that starts at the first record.
    pub fn new(data: Vec<BMSDatum>) -> (r: Measures)
        ensures
            r.wf(),
            r.data == data,
            r.position == 0,
    {
        Measures { data, position: 0 }
    }

    /// The next group, as the range of its records: from the first index up
    /// to the second. `None` when every record has been handed out.
    pub fn next(&mut self) -> (r: Option<(usize, usize)>)
        requires
            old(self).wf(),
        ensures
            final(self).wf(),
            final(self).data == old(self).data,
            match r {
                Some((start, end)) => {
                    &&& start == old(self).position
                    &&& end == final(self).position
                    &&& is_run(old(self).data@, start as int, end as int)
                },
                None => {
                    &&& old(self).position == old(self).data@.len()
                    &&& final(self).position == old(self).position
                },
            },
    {
        let start: usize = self.position;
        if start >= self.data.len() {
            return None;
        }
        let measure: u16 = self.data[start].measure;
        let mut end: usize = start + 1;
        while end < self.data.len() && self.data[end].measure == measure
            invariant
                start < end <= self.data@.len(),
                measure == self.data@[start as int].measure,
                forall|i: int| start <= i < end ==> (#[trigger] self.data@[i]).measure == measure,
            decreases self.data@.len() - end,
        {
            end = end + 1;
        }
        self.position = end;
        Some((start, end))
    }
}

} // verus!
