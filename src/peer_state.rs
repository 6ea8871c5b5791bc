use vstd::prelude::*;

verus! {

/// Our side of a peer connection: whether the peer chokes us, and whether we
/// told it we are interested.
#[derive(Debug, Clone, Copy, PartialEq, Eq, Structural)]
pub struct PeerState {
    pub choked: bool,
    pub interested: bool,
}

impl PeerState {
    /// A fresh connection: choked, not interested.
    pub fn new() -> (r: PeerState)
        ensures
            r.choked,
            !r.interested,
    {
        PeerState { choked: true, interested: false }
    }

    pub fn choke(&mut self)
        ensures
            final(self).choked,
            final(self).interested == old(self).interested,
    {
        self.choked = true;
    }

    pub fn unchoke(&mut self)
        ensures
            !final(self).choked,
            final(self).interested == old(self).interested,
    {
        self.choked = false;
    }

    pub fn set_interested(&mut self, interested: bool)
        ensures
            final(self).interested == interested,
            final(self).choked == old(self).choked,
    {
        self.interested = interested;
    }

    pub fn is_choked(&self) -> (r: bool)
        ensures
            r == self.choked,
    {
        self.choked
    }

    pub fn is_interested(&self) -> (r: bool)
        ensures
            r == self.interested,
    {
        self.interested
    }
}

} // verus!
