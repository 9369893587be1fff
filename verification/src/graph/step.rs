use vstd::prelude::*;

verus! {

/// A traversal step as the graph builders consume it: source, target, and
/// whether the edge closed a cycle.
#[derive(Debug, PartialEq, Eq, Structural, Clone, Copy, Hash)]
pub struct Step {
    pub sid: usize,
    pub tid: usize,
    pub cut: bool,
}

impl Step {
    /// A step from `sid` to `tid`, cut or not.
    pub fn new(sid: usize, tid: usize, cut: bool) -> (r: Self)
        ensures
            r.sid == sid,
            r.tid == tid,
            r.cut == cut,
    {
        Step { sid, tid, cut }
    }
}

} // verus!
