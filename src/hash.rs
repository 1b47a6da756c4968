use vstd::prelude::*;

verus! {

/// A 32-byte hash: the identity of blocks, transactions and tree roots.
#[derive(Clone, Copy, Debug)]
pub struct H256(pub [u8; 32]);

impl PartialEq for H256 {
    fn eq(&self, other: &H256) -> (r: bool) {
        let mut i: usize = 0;
        while i < 32
            invariant
                i <= 32,
                forall|j: int| 0 <= j < i ==> self.0@[j] == other.0@[j],
            decreases 32 - i,
        {
            if self.0[i] != other.0[i] {
                return false;
            }
            i = i + 1;
        }
        assert(self.0@ =~= other.0@);
        true
    }
}

impl vstd::std_specs::cmp::PartialEqSpecImpl for H256 {
    open spec fn obeys_eq_spec() -> bool {
        true
    }

    open spec fn eq_spec(&self, other: &H256) -> bool {
        self.0@ == other.0@
    }
}

impl Eq for H256 {
}

impl H256 {
    /// The hash whose 32 bytes are `b`.
    pub fn from_slice(b: &[u8]) -> (r: H256)
        requires
            b@.len() == 32,
        ensures
            r.0@ == b@,
    {
        let mut a: [u8; 32] = [0u8; 32];
        let mut i: usize = 0;
        while i < 32
            invariant
                i <= 32,
                b@.len() == 32,
                forall|j: int| 0 <= j < i ==> a@[j] == b@[j],
            decreases 32 - i,
        {
            a[i] = b[i];
            i = i + 1;
        }
        assert(a@ =~= b@);
        H256(a)
    }

    /// The hash of all zero bytes.
    pub fn zero() -> (r: H256)
        ensures
            forall|j: int| 0 <= j < 32 ==> r.0@[j] == 0,
    {
        H256([0u8; 32])
    }

    /// The 32 bytes, in order.
    pub fn to_vec(&self) -> (r: Vec<u8>)
        ensures
            r@ == self.0@,
    {
        let mut v: Vec<u8> = Vec::new();
        let mut i: usize = 0;
        while i < 32
            invariant
                i <= 32,
                v@ == self.0@.take(i as int),
            decreases 32 - i,
        {
            v.push(self.0[i]);
            i = i + 1;
            assert(v@ =~= self.0@.take(i as int));
        }
        assert(self.0@.take(32) =~= self.0@);
        v
    }
}

/// Lexicographic order on byte strings.
pub open spec fn bytes_lt(s: Seq<u8>, t: Seq<u8>) -> bool
    decreases s.len(),
{
    if s.len() == 0 || t.len() == 0 {
        false
    } else if s[0] < t[0] {
        true
    } else if s[0] == t[0] {
        bytes_lt(s.drop_first(), t.drop_first())
    } else {
        false
    }
}

/// Hashes ordered by their bytes.
pub open spec fn key_lt(a: H256, b: H256) -> bool {
    bytes_lt(a.0@, b.0@)
}

pub proof fn lemma_bytes_lt_irreflexive(s: Seq<u8>)
    ensures
        !bytes_lt(s, s),
    decreases s.len(),
{
    if s.len() > 0 {
        lemma_bytes_lt_irreflexive(s.drop_first());
    }
}

pub proof fn lemma_bytes_lt_transitive(s: Seq<u8>, t: Seq<u8>, u: Seq<u8>)
    requires
        bytes_lt(s, t),
        bytes_lt(t, u),
    ensures
        bytes_lt(s, u),
    decreases s.len(),
{
    if s[0] == t[0] && t[0] == u[0] {
        lemma_bytes_lt_transitive(s.drop_first(), t.drop_first(), u.drop_first());
    }
}

pub proof fn lemma_bytes_lt_total(s: Seq<u8>, t: Seq<u8>)
    requires
        s.len() == t.len(),
    ensures
        s == t || bytes_lt(s, t) || bytes_lt(t, s),
    decreases s.len(),
{
    if s.len() == 0 {
        assert(s =~= t);
    } else if s[0] == t[0] {
        lemma_bytes_lt_total(s.drop_first(), t.drop_first());
        if s.drop_first() == t.drop_first() {
            assert(s =~= t) by {
                assert forall|i: int| 0 <= i < s.len() implies s[i] == t[i] by {
                    if i > 0 {
                        assert(s[i] == s.drop_first()[i - 1]);
                    }
                }
            }
        }
    }
}

impl H256 {
    /// Whether `self` comes before `other` in the order of their bytes.
    pub fn less_than(&self, other: &H256) -> (r: bool)
        ensures
            r == key_lt(*self, *other),
    {
        assert(self.0@.skip(0) =~= self.0@ && other.0@.skip(0) =~= other.0@);
        let mut i: usize = 0;
        while i < 32
            invariant
                i <= 32,
                bytes_lt(self.0@, other.0@) == bytes_lt(self.0@.skip(i as int), other.0@.skip(i as int)),
            decreases 32 - i,
        {
            let x = self.0[i];
            let y = other.0[i];
            assert(self.0@.skip(i as int)[0] == x && other.0@.skip(i as int)[0] == y);
            if x < y {
                return true;
            }
            if x > y {
                return false;
            }
            assert(self.0@.skip(i as int).drop_first() =~= self.0@.skip(i + 1 as int));
            assert(other.0@.skip(i as int).drop_first() =~= other.0@.skip(i + 1 as int));
            i = i + 1;
        }
        false
    }
}

/// Equal bytes make equal hashes.
pub proof fn lemma_h256_eq(x: H256, y: H256)
    requires
        x.0@ == y.0@,
    ensures
        x == y,
{
    assert(x.0 =~= y.0);
}

} // verus!
