//! The records that a frame is made of.

use vstd::prelude::*;
use crate::geometry::Bbox;
use crate::sign_class::SignClass;

verus! {

/// One ground-truth sign of a frame.
#[derive(Debug, Clone)]
pub struct SignAnnotation {
    pub bbox: Bbox,
    pub class: SignClass,
    pub temporary: bool,
    pub occluded: bool,
    pub data: Option<String>,
}

/// One submitted detection of a frame.
#[derive(Debug, Clone)]
pub struct SignDetection {
    pub bbox: Bbox,
    pub class: SignClass,
    pub temporary: Option<bool>,
    pub data: Option<String>,
}

/// The ground truth and the detections of one frame, each in the order of
/// its source.
#[derive(Debug, Clone)]
pub struct IndexItem {
    pub gtruth: Vec<SignAnnotation>,
    pub solutions: Vec<SignDetection>,
}

/// The text of an optional field as a sequence of characters.
pub open spec fn text_of(data: Option<String>) -> Option<Seq<char>> {
    match data {
        Some(s) => Some(s@),
        None => None,
    }
}

impl IndexItem {
    /// Every box of the frame has its edges in order.
    pub open spec fn wf(self) -> bool {
        &&& forall|i: int| 0 <= i < self.gtruth@.len() ==> (#[trigger] self.gtruth@[i]).bbox.wf()
        &&& forall|i: int|
            0 <= i < self.solutions@.len() ==> (#[trigger] self.solutions@[i]).bbox.wf()
    }

    /// A frame without records.
    pub fn new() -> (r: IndexItem)
        ensures
            r.gtruth@.len() == 0,
            r.solutions@.len() == 0,
            r.wf(),
    {
        IndexItem { gtruth: Vec::new(), solutions: Vec::new() }
    }

    /// Whether every box of the frame has its edges in order.
    pub fn is_wf(&self) -> (r: bool)
        ensures
            r == self.wf(),
    {
        let mut i: usize = 0;
        while i < self.gtruth.len()
            invariant
                0 <= i <= self.gtruth@.len(),
                forall|j: int| 0 <= j < i ==> (#[trigger] self.gtruth@[j]).bbox.wf(),
            decreases self.gtruth@.len() - i,
        {
            if !self.gtruth[i].bbox.is_wf() {
                return false;
            }
            i += 1;
        }
        let mut k: usize = 0;
        while k < self.solutions.len()
            invariant
                0 <= k <= self.solutions@.len(),
                forall|j: int| 0 <= j < k ==> (#[trigger] self.solutions@[j]).bbox.wf(),
            decreases self.solutions@.len() - k,
        {
            if !self.solutions[k].bbox.is_wf() {
                return false;
            }
            k += 1;
        }
        true
    }
}

impl Default for IndexItem {
    fn default() -> (r: IndexItem)
        ensures
            r.gtruth@.len() == 0,
            r.solutions@.len() == 0,
            r.wf(),
    {
        IndexItem::new()
    }
}

} // verus!
