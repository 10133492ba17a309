//! The per-epoch application key schedule: which (sender, generation) pairs
//! have been issued.
use vstd::prelude::*;

verus! {

/// Errors of the key schedule.
#[derive(Debug, PartialEq, Eq, Structural)]
pub enum KeyChainError {
    /// The sender is not a leaf of the group.
    UnknownSender,
    /// The sender's generation counter cannot advance further.
    Exhausted,
}

/// Key chain of one epoch: the application secret it is derived from and,
/// for each sender leaf, the next generation to issue.
pub struct AppKeyChain {
    application_secret: Vec<u8>,
    next_generation: Vec<u32>,
}

impl AppKeyChain {
    pub closed spec fn secret(&self) -> Seq<u8> {
        self.application_secret@
    }

    /// For each sender, the next generation to issue.
    pub closed spec fn generations(&self) -> Seq<u32> {
        self.next_generation@
    }

    /// The (sender, generation) pairs issued so far.
    pub open spec fn issued(&self) -> Set<(nat, nat)> {
        Set::new(
            |p: (nat, nat)| p.0 < self.generations().len() && p.1 < self.generations()[p.0 as int],
        )
    }

    /// A fresh chain for `num_senders` senders: nothing issued yet.
    pub fn new(application_secret: Vec<u8>, num_senders: usize) -> (r: Self)
        ensures
            r.secret() == application_secret@,
            r.generations().len() == num_senders,
            forall|i: int| 0 <= i < num_senders ==> r.generations()[i] == 0,
            r.issued() == Set::<(nat, nat)>::empty(),
    {
        let mut next_generation: Vec<u32> = Vec::new();
        let mut i: usize = 0;
        while i < num_senders
            invariant
                i <= num_senders,
                next_generation@.len() == i,
                forall|k: int| 0 <= k < i ==> next_generation@[k] == 0,
            decreases num_senders - i,
        {
            next_generation.push(0);
            i = i + 1;
        }
        let r = AppKeyChain { application_secret, next_generation };
        assert(r.issued() =~= Set::<(nat, nat)>::empty());
        r
    }

    pub fn num_senders(&self) -> (r: usize)
        ensures
            r == self.generations().len(),
    {
        self.next_generation.len()
    }

    pub fn application_secret(&self) -> (r: &Vec<u8>)
        ensures
            r@ == self.secret(),
    {
        &self.application_secret
    }

    /// Issues the next generation for `sender`: it is greater than every
    /// generation issued to that sender before, and never issued again.
    pub fn next(&mut self, sender: usize) -> (r: Result<u32, KeyChainError>)
        ensures
            r is Ok <==> sender < old(self).generations().len() && old(self).generations()[sender as int]
                < u32::MAX,
            sender >= old(self).generations().len() ==> r == Err::<u32, KeyChainError>(
                KeyChainError::UnknownSender,
            ),
            sender < old(self).generations().len() && old(self).generations()[sender as int]
                == u32::MAX ==> r == Err::<u32, KeyChainError>(KeyChainError::Exhausted),
            r is Err ==> *final(self) == *old(self),
            final(self).secret() == old(self).secret(),
            final(self).generations().len() == old(self).generations().len(),
            r is Ok ==> r->Ok_0 == old(self).generations()[sender as int],
            r is Ok ==> final(self).generations() == old(self).generations().update(
                sender as int,
                (r->Ok_0 + 1) as u32,
            ),
            r is Ok ==> !old(self).issued().contains((sender as nat, r->Ok_0 as nat)),
            r is Ok ==> forall|g: nat|
                old(self).issued().contains((sender as nat, g)) ==> g < r->Ok_0,
            r is Ok ==> final(self).issued() == old(self).issued().insert(
                (sender as nat, r->Ok_0 as nat),
            ),
    {
        if sender >= self.next_generation.len() {
            return Err(KeyChainError::UnknownSender);
        }
        let g = self.next_generation[sender];
        if g == u32::MAX {
            return Err(KeyChainError::Exhausted);
        }
        let ghost before = *self;
        self.next_generation.set(sender, g + 1);
        assert(self.issued() =~= before.issued().insert((sender as nat, g as nat)));
        Ok(g)
    }
}

} // verus!
