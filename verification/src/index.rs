//! The frames of a run: ground truth and detections gathered under the name
//! of their frame.

use vstd::prelude::*;
use crate::geometry::Bbox;
use crate::records::{IndexItem, SignAnnotation, SignDetection};

verus! {

/// A frame and its name.
#[derive(Debug, Clone)]
pub struct Frame {
    pub name: String,
    pub item: IndexItem,
}

/// The frames of a run, each name once.
#[derive(Debug, Clone)]
pub struct SignIndex {
    pub frames: Vec<Frame>,
}

/// The names of the frames.
pub open spec fn frame_names(frames: Seq<Frame>) -> Set<Seq<char>> {
    Set::new(|name: Seq<char>| exists|i: int| 0 <= i < frames.len() && (#[trigger] frames[i]).name@ == name)
}

/// No two frames have the same name.
pub open spec fn names_distinct(frames: Seq<Frame>) -> bool {
    forall|i: int, j: int|
        0 <= i < j < frames.len() ==> (#[trigger] frames[i]).name@ != (#[trigger] frames[j]).name@
}

/// The ground truth gathered under a name; empty where no frame has it.
pub open spec fn annotations_of(frames: Seq<Frame>, name: Seq<char>) -> Seq<SignAnnotation>
    decreases frames.len(),
{
    if frames.len() == 0 {
        Seq::empty()
    } else {
        annotations_of(frames.drop_last(), name) + if frames.last().name@ == name {
            frames.last().item.gtruth@
        } else {
            Seq::empty()
        }
    }
}

/// The detections gathered under a name; empty where no frame has it.
pub open spec fn detections_of(frames: Seq<Frame>, name: Seq<char>) -> Seq<SignDetection>
    decreases frames.len(),
{
    if frames.len() == 0 {
        Seq::empty()
    } else {
        detections_of(frames.drop_last(), name) + if frames.last().name@ == name {
            frames.last().item.solutions@
        } else {
            Seq::empty()
        }
    }
}

/// The frames of `before` are at their places in `after`, under their names.
pub open spec fn same_order(before: Seq<Frame>, after: Seq<Frame>) -> bool {
    &&& before.len() <= after.len()
    &&& forall|k: int| 0 <= k < before.len() ==> (#[trigger] after[k]).name@ == before[k].name@
}

/// The name of a frame: that of its set and its own, joined by a slash.
pub open spec fn joined_name(set_name: Seq<char>, frame: Seq<char>) -> Seq<char> {
    set_name.push('/') + frame
}

/// An annotation with the edges of its box put in order.
pub open spec fn annotation_in_order(sign: SignAnnotation) -> SignAnnotation {
    SignAnnotation {
        bbox: sign.bbox.normalized(),
        class: sign.class,
        temporary: sign.temporary,
        occluded: sign.occluded,
        data: sign.data,
    }
}

/// A detection with the edges of its box put in order.
pub open spec fn detection_in_order(sign: SignDetection) -> SignDetection {
    SignDetection {
        bbox: sign.bbox.normalized(),
        class: sign.class,
        temporary: sign.temporary,
        data: sign.data,
    }
}

proof fn lemma_replace_frame(frames: Seq<Frame>, i: int, f: Frame, name: Seq<char>)
    requires
        0 <= i < frames.len(),
        f.name@ == frames[i].name@,
        forall|j: int| i < j < frames.len() ==> (#[trigger] frames[j]).name@ != f.name@,
    ensures
        name != f.name@ ==> annotations_of(frames.update(i, f), name) == annotations_of(frames, name)
            && detections_of(frames.update(i, f), name) == detections_of(frames, name),
        annotations_of(frames, f.name@) == annotations_of(frames.take(i), f.name@)
            + frames[i].item.gtruth@,
        detections_of(frames, f.name@) == detections_of(frames.take(i), f.name@)
            + frames[i].item.solutions@,
        annotations_of(frames.update(i, f), f.name@) == annotations_of(frames.take(i), f.name@)
            + f.item.gtruth@,
        detections_of(frames.update(i, f), f.name@) == detections_of(frames.take(i), f.name@)
            + f.item.solutions@,
    decreases frames.len(),
{
    let after = frames.update(i, f);
    let front = frames.drop_last();
    assert(forall|k: int| 0 <= k < front.len() ==> front[k] == frames[k]);
    if i == frames.len() - 1 {
        assert(after.drop_last() == front);
        assert(frames.take(i) == front);
    } else {
        assert(after.drop_last() == front.update(i, f));
        assert(frames[frames.len() - 1].name@ != f.name@);
        assert(front.take(i) == frames.take(i));
        lemma_replace_frame(front, i, f, name);
        assert(annotations_of(frames, f.name@) =~= annotations_of(frames.take(i), f.name@)
            + frames[i].item.gtruth@);
        assert(detections_of(frames, f.name@) =~= detections_of(frames.take(i), f.name@)
            + frames[i].item.solutions@);
        assert(annotations_of(after, f.name@) =~= annotations_of(frames.take(i), f.name@)
            + f.item.gtruth@);
        assert(detections_of(after, f.name@) =~= detections_of(frames.take(i), f.name@)
            + f.item.solutions@);
        if name != f.name@ {
            assert(annotations_of(after, name) =~= annotations_of(frames, name));
            assert(detections_of(after, name) =~= detections_of(frames, name));
        }
    }
}

/// The last frame of a name is given more records: the names stay, the name
/// gathers what it gathered and the new records after it, and every other
/// name gathers what it gathered.
proof fn lemma_grown_frame(
    before: Seq<Frame>,
    after: Seq<Frame>,
    i: int,
    more_truth: Seq<SignAnnotation>,
    more_found: Seq<SignDetection>,
)
    requires
        0 <= i < before.len(),
        after == before.update(i, after[i]),
        after[i].name@ == before[i].name@,
        forall|j: int| i < j < before.len() ==> (#[trigger] before[j]).name@ != before[i].name@,
        after[i].item.gtruth@ == before[i].item.gtruth@ + more_truth,
        after[i].item.solutions@ == before[i].item.solutions@ + more_found,
    ensures
        names_distinct(before) ==> names_distinct(after),
        frame_names(after) == frame_names(before),
        annotations_of(after, before[i].name@) == annotations_of(before, before[i].name@)
            + more_truth,
        detections_of(after, before[i].name@) == detections_of(before, before[i].name@)
            + more_found,
        forall|m: Seq<char>|
            m != before[i].name@ ==> #[trigger] annotations_of(after, m) == annotations_of(
                before,
                m,
            ),
        forall|m: Seq<char>|
            m != before[i].name@ ==> #[trigger] detections_of(after, m) == detections_of(before, m),
        (forall|k: int| 0 <= k < before.len() ==> (#[trigger] before[k]).item.wf())
            && after[i].item.wf() ==> forall|k: int|
            0 <= k < after.len() ==> (#[trigger] after[k]).item.wf(),
{
    let f = after[i];
    let name = before[i].name@;
    assert(forall|k: int| 0 <= k < after.len() && k != i ==> after[k] == before[k]);
    if names_distinct(before) {
        assert forall|a: int, b: int| 0 <= a < b < after.len() implies (#[trigger] after[a]).name@
            != (#[trigger] after[b]).name@ by {
            assert(before[a].name@ != before[b].name@);
        }
    }
    assert(frame_names(after) =~= frame_names(before)) by {
        assert forall|m: Seq<char>| frame_names(after).contains(m) == frame_names(before).contains(
            m,
        ) by {
            if frame_names(after).contains(m) {
                let k = choose|k: int| 0 <= k < after.len() && (#[trigger] after[k]).name@ == m;
                assert(before[k].name@ == m);
            }
            if frame_names(before).contains(m) {
                let k = choose|k: int| 0 <= k < before.len() && (#[trigger] before[k]).name@ == m;
                assert(after[k].name@ == m);
            }
        }
    }
    lemma_replace_frame(before, i, f, name);
    assert(annotations_of(after, name) =~= annotations_of(before, name) + more_truth);
    assert(detections_of(after, name) =~= detections_of(before, name) + more_found);
    assert forall|m: Seq<char>| m != name implies #[trigger] annotations_of(after, m)
        == annotations_of(before, m) by {
        lemma_replace_frame(before, i, f, m);
    }
    assert forall|m: Seq<char>| m != name implies #[trigger] detections_of(after, m)
        == detections_of(before, m) by {
        lemma_replace_frame(before, i, f, m);
    }
    if (forall|k: int| 0 <= k < before.len() ==> (#[trigger] before[k]).item.wf())
        && after[i].item.wf() {
        assert forall|k: int| 0 <= k < after.len() implies (#[trigger] after[k]).item.wf() by {
            if k != i {
                assert(before[k].item.wf());
            }
        }
    }
}

/// A name that no frame has gathers nothing.
proof fn lemma_absent_name(frames: Seq<Frame>, name: Seq<char>)
    requires
        forall|i: int| 0 <= i < frames.len() ==> (#[trigger] frames[i]).name@ != name,
    ensures
        annotations_of(frames, name) == Seq::<SignAnnotation>::empty(),
        detections_of(frames, name) == Seq::<SignDetection>::empty(),
        !frame_names(frames).contains(name),
    decreases frames.len(),
{
    if frames.len() > 0 {
        let front = frames.drop_last();
        assert(forall|k: int| 0 <= k < front.len() ==> front[k] == frames[k]);
        lemma_absent_name(front, name);
        assert(frames[frames.len() - 1].name@ != name);
    }
}

/// A frame under a new name is put at the end: its name joins the names and
/// gathers the records of the frame, and every other name gathers what it
/// gathered.
proof fn lemma_new_frame(before: Seq<Frame>, f: Frame)
    requires
        forall|i: int| 0 <= i < before.len() ==> (#[trigger] before[i]).name@ != f.name@,
    ensures
        names_distinct(before) ==> names_distinct(before.push(f)),
        frame_names(before.push(f)) == frame_names(before).insert(f.name@),
        !frame_names(before).contains(f.name@),
        annotations_of(before.push(f), f.name@) == f.item.gtruth@,
        detections_of(before.push(f), f.name@) == f.item.solutions@,
        annotations_of(before, f.name@) == Seq::<SignAnnotation>::empty(),
        detections_of(before, f.name@) == Seq::<SignDetection>::empty(),
        forall|m: Seq<char>|
            m != f.name@ ==> #[trigger] annotations_of(before.push(f), m) == annotations_of(
                before,
                m,
            ),
        forall|m: Seq<char>|
            m != f.name@ ==> #[trigger] detections_of(before.push(f), m) == detections_of(
                before,
                m,
            ),
        (forall|k: int| 0 <= k < before.len() ==> (#[trigger] before[k]).item.wf())
            && f.item.wf() ==> forall|k: int|
            0 <= k < before.push(f).len() ==> (#[trigger] before.push(f)[k]).item.wf(),
{
    let after = before.push(f);
    assert(after.drop_last() == before);
    assert(after.last() == f);
    lemma_absent_name(before, f.name@);
    if names_distinct(before) {
        assert forall|a: int, b: int| 0 <= a < b < after.len() implies (#[trigger] after[a]).name@
            != (#[trigger] after[b]).name@ by {
            if b < before.len() {
                assert(before[a].name@ != before[b].name@);
            } else {
                assert(before[a].name@ != f.name@);
            }
        }
    }
    assert(frame_names(after) =~= frame_names(before).insert(f.name@)) by {
        assert forall|m: Seq<char>|
            frame_names(after).contains(m) == (frame_names(before).contains(m) || m == f.name@) by {
            if frame_names(after).contains(m) {
                let k = choose|k: int| 0 <= k < after.len() && (#[trigger] after[k]).name@ == m;
                if k < before.len() {
                    assert(before[k].name@ == m);
                }
            }
            if frame_names(before).contains(m) {
                let k = choose|k: int| 0 <= k < before.len() && (#[trigger] before[k]).name@ == m;
                assert(after[k].name@ == m);
            }
            if m == f.name@ {
                assert(after[before.len() as int].name@ == m);
            }
        }
    }
    assert(annotations_of(after, f.name@) =~= f.item.gtruth@);
    assert(detections_of(after, f.name@) =~= f.item.solutions@);
    assert forall|m: Seq<char>| m != f.name@ implies #[trigger] annotations_of(after, m)
        == annotations_of(before, m) by {
        assert(annotations_of(after, m) =~= annotations_of(before, m));
    }
    assert forall|m: Seq<char>| m != f.name@ implies #[trigger] detections_of(after, m)
        == detections_of(before, m) by {
        assert(detections_of(after, m) =~= detections_of(before, m));
    }
    if (forall|k: int| 0 <= k < before.len() ==> (#[trigger] before[k]).item.wf()) && f.item.wf() {
        assert forall|k: int| 0 <= k < after.len() implies (#[trigger] after[k]).item.wf() by {
            if k < before.len() {
                assert(before[k].item.wf());
            }
        }
    }
}

/// The name of a frame from the name of its set and its own.
pub fn frame_name(set_name: &str, frame: &str) -> (r: String)
    ensures
        r@ == joined_name(set_name@, frame@),
{
    let mut out = String::from_str(set_name);
    out.push('/');
    out.append(frame);
    out
}

/// Whether a box is too small to count: its area is below the limit.
pub fn too_small(bbox: &Bbox, min_area: u64) -> (r: bool)
    requires
        bbox.wf(),
    ensures
        r == (bbox.area() < min_area),
{
    let w: u64 = (bbox.xbr as i64 - bbox.xtl as i64) as u64;
    let h: u64 = (bbox.ybr as i64 - bbox.ytl as i64) as u64;
    assert(w * h <= 0xffff_ffff * 0xffff_ffff) by (nonlinear_arith)
        requires
            0 <= w <= 0xffff_ffff,
            0 <= h <= 0xffff_ffff,
    ;
    w * h < min_area
}

impl SignIndex {
    /// Each name occurs once, and every box has its edges in order.
    pub open spec fn wf(self) -> bool {
        &&& names_distinct(self.frames@)
        &&& forall|i: int| 0 <= i < self.frames@.len() ==> (#[trigger] self.frames@[i]).item.wf()
    }

    /// An index without frames.
    pub fn new() -> (r: SignIndex)
        ensures
            r.wf(),
            r.frames@.len() == 0,
    {
        SignIndex { frames: Vec::new() }
    }

    /// The position of the frame of a name, if there is one: the last, should
    /// several frames have the name.
    pub fn find(&self, name: &String) -> (r: Option<usize>)
        ensures
            r is Some <==> frame_names(self.frames@).contains(name@),
            r matches Some(i) ==> {
                &&& i < self.frames@.len()
                &&& self.frames@[i as int].name@ == name@
                &&& forall|j: int|
                    i < j < self.frames@.len() ==> (#[trigger] self.frames@[j]).name@ != name@
            },
    {
        let mut i: usize = self.frames.len();
        while i > 0
            invariant
                0 <= i <= self.frames@.len(),
                forall|j: int|
                    i <= j < self.frames@.len() ==> (#[trigger] self.frames@[j]).name@ != name@,
            decreases i,
        {
            i -= 1;
            if self.frames[i].name == *name {
                return Some(i);
            }
        }
        None
    }

    /// Makes the frame of a name, without records, if it is not there yet.
    pub fn add_frame(&mut self, frame: String)
        ensures
            old(self).wf() ==> final(self).wf(),
            same_order(old(self).frames@, final(self).frames@),
            final(self).frames@.len() == old(self).frames@.len() + if frame_names(
                old(self).frames@,
            ).contains(frame@) {
                0int
            } else {
                1int
            },
            frame_names(final(self).frames@) == frame_names(old(self).frames@).insert(frame@),
            forall|m: Seq<char>| #[trigger]
                annotations_of(final(self).frames@, m) == annotations_of(old(self).frames@, m),
            forall|m: Seq<char>| #[trigger]
                detections_of(final(self).frames@, m) == detections_of(old(self).frames@, m),
    {
        let ghost before = self.frames@;
        match self.find(&frame) {
            Some(_) => {
                proof {
                    assert(frame_names(before).insert(frame@) =~= frame_names(before));
                }
            },
            None => {
                let f = Frame { name: frame, item: IndexItem::new() };
                self.frames.push(f);
                proof {
                    lemma_new_frame(before, f);
                }
            },
        }
    }

    /// Puts the edges of the annotation's box in order and appends it to the
    /// ground truth of the frame, which is made if it is not there yet.
    pub fn add_annotation(&mut self, frame: String, sign: SignAnnotation)
        ensures
            old(self).wf() ==> final(self).wf(),
            same_order(old(self).frames@, final(self).frames@),
            final(self).frames@.len() == old(self).frames@.len() + if frame_names(
                old(self).frames@,
            ).contains(frame@) {
                0int
            } else {
                1int
            },
            frame_names(final(self).frames@) == frame_names(old(self).frames@).insert(frame@),
            annotations_of(final(self).frames@, frame@) == annotations_of(
                old(self).frames@,
                frame@,
            ).push(annotation_in_order(sign)),
            detections_of(final(self).frames@, frame@) == detections_of(old(self).frames@, frame@),
            forall|m: Seq<char>|
                m != frame@ ==> #[trigger] annotations_of(final(self).frames@, m) == annotations_of(
                    old(self).frames@,
                    m,
                ),
            forall|m: Seq<char>|
                m != frame@ ==> #[trigger] detections_of(final(self).frames@, m) == detections_of(
                    old(self).frames@,
                    m,
                ),
    {
        let mut sign = sign;
        sign.bbox.check();
        let ghost before = self.frames@;
        match self.find(&frame) {
            Some(i) => {
                self.frames[i].item.gtruth.push(sign);
                proof {
                    let after = self.frames@;
                    assert(after =~= before.update(i as int, after[i as int]));
                    assert(after[i as int].item.gtruth@ =~= before[i as int].item.gtruth@
                        + seq![sign]);
                    assert(after[i as int].item.solutions@ =~= before[i as int].item.solutions@
                        + Seq::<SignDetection>::empty());
                    if old(self).wf() {
                        assert(before[i as int].item.wf());
                        assert(after[i as int].item.wf());
                    }
                    lemma_grown_frame(
                        before,
                        after,
                        i as int,
                        seq![sign],
                        Seq::<SignDetection>::empty(),
                    );
                    assert(frame_names(before).insert(frame@) =~= frame_names(before));
                    assert(annotations_of(before, frame@) + seq![sign] =~= annotations_of(
                        before,
                        frame@,
                    ).push(sign));
                    assert(detections_of(before, frame@) + Seq::<SignDetection>::empty()
                        =~= detections_of(before, frame@));
                }
            },
            None => {
                let mut item = IndexItem::new();
                item.gtruth.push(sign);
                let f = Frame { name: frame, item };
                self.frames.push(f);
                proof {
                    assert(f.item.wf());
                    lemma_new_frame(before, f);
                    assert(f.item.gtruth@ =~= annotations_of(before, frame@).push(sign));
                    assert(f.item.solutions@ =~= detections_of(before, frame@));
                }
            },
        }
    }

    /// Puts the edges of the detection's box in order and appends it to the
    /// detections of the frame. A detection whose area is below `min_area`,
    /// or whose frame is not there, is dropped; the result tells whether it
    /// was kept.
    pub fn add_detection(&mut self, frame: &String, sign: SignDetection, min_area: u64) -> (kept:
        bool)
        ensures
            old(self).wf() ==> final(self).wf(),
            same_order(old(self).frames@, final(self).frames@),
            final(self).frames@.len() == old(self).frames@.len(),
            kept == (sign.bbox.normalized().area() >= min_area && frame_names(
                old(self).frames@,
            ).contains(frame@)),
            frame_names(final(self).frames@) == frame_names(old(self).frames@),
            detections_of(final(self).frames@, frame@) == if kept {
                detections_of(old(self).frames@, frame@).push(detection_in_order(sign))
            } else {
                detections_of(old(self).frames@, frame@)
            },
            annotations_of(final(self).frames@, frame@) == annotations_of(old(self).frames@, frame@),
            forall|m: Seq<char>|
                m != frame@ ==> #[trigger] annotations_of(final(self).frames@, m) == annotations_of(
                    old(self).frames@,
                    m,
                ),
            forall|m: Seq<char>|
                m != frame@ ==> #[trigger] detections_of(final(self).frames@, m) == detections_of(
                    old(self).frames@,
                    m,
                ),
    {
        let mut sign = sign;
        sign.bbox.check();
        if too_small(&sign.bbox, min_area) {
            return false;
        }
        let ghost before = self.frames@;
        match self.find(frame) {
            Some(i) => {
                self.frames[i].item.solutions.push(sign);
                proof {
                    let after = self.frames@;
                    assert(after =~= before.update(i as int, after[i as int]));
                    assert(after[i as int].item.gtruth@ =~= before[i as int].item.gtruth@
                        + Seq::<SignAnnotation>::empty());
                    assert(after[i as int].item.solutions@ =~= before[i as int].item.solutions@
                        + seq![sign]);
                    if old(self).wf() {
                        assert(before[i as int].item.wf());
                        assert(after[i as int].item.wf());
                    }
                    lemma_grown_frame(
                        before,
                        after,
                        i as int,
                        Seq::<SignAnnotation>::empty(),
                        seq![sign],
                    );
                    assert(detections_of(before, frame@) + seq![sign] =~= detections_of(
                        before,
                        frame@,
                    ).push(sign));
                    assert(annotations_of(before, frame@) + Seq::<SignAnnotation>::empty()
                        =~= annotations_of(before, frame@));
                }
                true
            },
            None => false,
        }
    }
}

} // verus!
