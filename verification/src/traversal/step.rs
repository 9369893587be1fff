use vstd::prelude::*;

verus! {

/// A single traversal step: the source and target of the edge crossed,
/// and a flag marking a cycle cut (an edge back into visited territory).
#[derive(Debug, PartialEq, Eq, Structural, Clone, Copy, Hash)]
pub struct Step {
    pub sid: usize,
    pub tid: usize,
    pub cut: bool,
}

impl Step {
    /// A step from `sid` to `tid`, cut or not.
    pub fn new(sid: usize, tid: usize, cut: bool) -> (r: Self)
        ensures
            r.sid == sid,
            r.tid == tid,
            r.cut == cut,
    {
        Step { sid, tid, cut }
    }
}

} // verus!
