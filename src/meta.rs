use crate::hash::H256;
use vstd::prelude::*;

verus! {

/// Which outputs of one transaction are still unspent: `true` at `i` means
/// output `i` is live.
#[derive(Clone, Debug, PartialEq, Eq)]
pub struct TransactionMeta {
    unspent: Vec<bool>,
}

impl View for TransactionMeta {
    type V = Seq<bool>;

    closed spec fn view(&self) -> Seq<bool> {
        self.unspent@
    }
}

/// A transaction with `len` outputs, all of them live.
pub open spec fn all_live(len: nat) -> Seq<bool> {
    Seq::new(len, |i: int| true)
}

impl TransactionMeta {
    /// A meta with `len` outputs, all live.
    pub fn new(len: usize) -> (r: TransactionMeta)
        ensures
            r@ == all_live(len as nat),
    {
        let mut unspent: Vec<bool> = Vec::new();
        let mut i: usize = 0;
        while i < len
            invariant
                i <= len,
                unspent@ == all_live(i as nat),
            decreases len - i,
        {
            unspent.push(true);
            i = i + 1;
            assert(unspent@ =~= all_live(i as nat));
        }
        TransactionMeta { unspent }
    }

    /// Number of outputs.
    pub fn len(&self) -> (r: usize)
        ensures
            r == self@.len(),
    {
        self.unspent.len()
    }

    /// Whether output `i` is still live; `false` past the last output.
    pub fn is_unspent(&self, i: usize) -> (r: bool)
        ensures
            r == (i < self@.len() && self@[i as int]),
    {
        i < self.unspent.len() && self.unspent[i]
    }

    /// Whether every output is spent.
    pub fn is_fully_spent(&self) -> (r: bool)
        ensures
            r == (forall|j: int| 0 <= j < self@.len() ==> !self@[j]),
    {
        let mut i: usize = 0;
        while i < self.unspent.len()
            invariant
                i <= self@.len(),
                forall|j: int| 0 <= j < i ==> !self@[j],
            decreases self@.len() - i,
        {
            if self.unspent[i] {
                return false;
            }
            i = i + 1;
        }
        true
    }

    /// Marks output `i` spent.
    pub fn set_spent(&mut self, i: usize)
        requires
            i < old(self)@.len(),
        ensures
            final(self)@ == old(self)@.update(i as int, false),
    {
        self.unspent.set(i, false);
    }

    /// A meta with the same outputs.
    pub fn duplicate(&self) -> (r: TransactionMeta)
        ensures
            r@ == self@,
    {
        let mut unspent: Vec<bool> = Vec::new();
        let mut i: usize = 0;
        while i < self.unspent.len()
            invariant
                i <= self@.len(),
                unspent@ == self@.take(i as int),
            decreases self@.len() - i,
        {
            unspent.push(self.unspent[i]);
            i = i + 1;
            assert(unspent@ =~= self@.take(i as int));
        }
        assert(self@.take(self@.len() as int) =~= self@);
        TransactionMeta { unspent }
    }
}

/// A reference to output `index` of transaction `hash`.
#[derive(Clone, Copy, Debug, PartialEq, Eq)]
pub struct OutPoint {
    pub hash: H256,
    pub index: u32,
}

} // verus!
