use vstd::prelude::*;

verus! {

/// One candidate move out of a node.
///
/// `ptr` is the arena index of the child the move leads to, or `-1` while the
/// move has never been explored. The prior is a sixteen-bit fraction in which
/// `u16::MAX` stands for one.
#[derive(Clone, Debug)]
pub struct Edge {
    ptr: i32,
    mov: u16,
    policy: u16,
}

impl Edge {
    pub closed spec fn spec_ptr(&self) -> i32 {
        self.ptr
    }

    pub closed spec fn spec_mov(&self) -> u16 {
        self.mov
    }

    pub closed spec fn spec_policy(&self) -> u16 {
        self.policy
    }

    /// The edge of the given child, move and prior.
    pub closed spec fn spec_new(ptr: i32, mov: u16, policy: u16) -> Edge {
        Edge { ptr, mov, policy }
    }

    /// An edge is the edge of its child, its move and its prior.
    pub proof fn lemma_parts(edge: Edge)
        ensures
            edge == Self::spec_new(edge.ptr(), edge.mov(), edge.policy()),
    {
    }

    /// The edge of a child, a move and a prior has these and no others.
    pub proof fn lemma_new(ptr: i32, mov: u16, policy: u16)
        ensures
            Self::spec_new(ptr, mov, policy).ptr() == ptr,
            Self::spec_new(ptr, mov, policy).mov() == mov,
            Self::spec_new(ptr, mov, policy).policy() == policy,
    {
    }

    /// An edge for `mov`, without child and with a prior of zero.
    pub fn new(mov: u16) -> (edge: Edge)
        ensures
            edge == Self::spec_new(-1i32, mov, 0),
            edge.ptr() == -1,
            edge.mov() == mov,
            edge.policy() == 0,
    {
        Edge { ptr: -1, mov, policy: 0 }
    }

    #[verifier::when_used_as_spec(spec_ptr)]
    pub fn ptr(&self) -> (ptr: i32)
        ensures
            ptr == self.ptr(),
    {
        self.ptr
    }

    #[verifier::when_used_as_spec(spec_mov)]
    pub fn mov(&self) -> (mov: u16)
        ensures
            mov == self.mov(),
    {
        self.mov
    }

    #[verifier::when_used_as_spec(spec_policy)]
    pub fn policy(&self) -> (policy: u16)
        ensures
            policy == self.policy(),
    {
        self.policy
    }

    pub fn set_ptr(&mut self, ptr: i32)
        ensures
            *final(self) == Self::spec_new(ptr, old(self).mov(), old(self).policy()),
            final(self).ptr() == ptr,
            final(self).mov() == old(self).mov(),
            final(self).policy() == old(self).policy(),
    {
        self.ptr = ptr;
    }

    pub fn set_policy(&mut self, policy: u16)
        ensures
            *final(self) == Self::spec_new(old(self).ptr(), old(self).mov(), policy),
            final(self).ptr() == old(self).ptr(),
            final(self).mov() == old(self).mov(),
            final(self).policy() == policy,
    {
        self.policy = policy;
    }
}

} // verus!
