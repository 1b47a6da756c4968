use vstd::prelude::*;

verus! {

/// Where one record lies inside a packed blob.
#[derive(Clone, Copy, PartialEq, Eq, Structural, Debug)]
pub struct Address {
    pub offset: usize,
    pub length: usize,
}

/// The records one after another.
pub open spec fn packed(records: Seq<Seq<u8>>) -> Seq<u8>
    decreases records.len(),
{
    if records.len() == 0 {
        Seq::empty()
    } else {
        packed(records.drop_last()) + records.last()
    }
}

/// The address of each record inside `packed(records)`.
pub open spec fn addresses_of(records: Seq<Seq<u8>>) -> Seq<Address> {
    Seq::new(
        records.len(),
        |j: int|
            Address {
                offset: packed(records.take(j)).len() as usize,
                length: records[j].len() as usize,
            },
    )
}

/// The bytes that `a` locates in `blob`.
pub open spec fn slice_at(blob: Seq<u8>, a: Address) -> Seq<u8> {
    blob.subrange(a.offset as int, a.offset + a.length)
}

/// `a` lies inside a blob of `len` bytes.
pub open spec fn fits(a: Address, len: nat) -> bool {
    a.offset + a.length <= len
}

proof fn lemma_packed_take(records: Seq<Seq<u8>>, j: int)
    requires
        0 <= j < records.len(),
    ensures
        packed(records.take(j + 1)) == packed(records.take(j)) + records[j],
{
    assert(records.take(j + 1).drop_last() =~= records.take(j));
}

proof fn lemma_packed_prefix(records: Seq<Seq<u8>>, j: int)
    requires
        0 <= j <= records.len(),
    ensures
        packed(records.take(j)).len() <= packed(records).len(),
        packed(records).subrange(0, packed(records.take(j)).len() as int) == packed(records.take(j)),
    decreases records.len() - j,
{
    if j == records.len() {
        assert(records.take(j) =~= records);
        assert(packed(records).subrange(0, packed(records).len() as int) =~= packed(records));
    } else {
        lemma_packed_prefix(records, j + 1);
        lemma_packed_take(records, j);
        let a = packed(records.take(j));
        let b = packed(records.take(j + 1));
        assert(packed(records).subrange(0, a.len() as int) =~= b.subrange(0, a.len() as int));
        assert(b.subrange(0, a.len() as int) =~= a);
    }
}

/// Each record is found again at its address in the packed blob.
pub proof fn lemma_flat_round_trip(records: Seq<Seq<u8>>, j: int)
    requires
        0 <= j < records.len(),
        packed(records).len() <= usize::MAX,
    ensures
        fits(addresses_of(records)[j], packed(records).len()),
        slice_at(packed(records), addresses_of(records)[j]) == records[j],
{
    lemma_packed_prefix(records, j + 1);
    lemma_packed_take(records, j);
    let a = packed(records.take(j));
    let b = packed(records.take(j + 1));
    let whole = packed(records);
    assert(whole.subrange(a.len() as int, b.len() as int) =~= b.subrange(
        a.len() as int,
        b.len() as int,
    ));
    assert(b.subrange(a.len() as int, b.len() as int) =~= records[j]);
}

/// Views of a list of byte strings.
pub open spec fn views(records: Seq<Vec<u8>>) -> Seq<Seq<u8>> {
    records.map_values(|r: Vec<u8>| r@)
}

/// Packs `records` into one blob and lists where each of them lies.
pub fn serialize(records: &Vec<Vec<u8>>) -> (r: (Vec<u8>, Vec<Address>))
    requires
        packed(views(records@)).len() <= usize::MAX,
    ensures
        r.0@ == packed(views(records@)),
        r.1@ == addresses_of(views(records@)),
{
    let ghost rs = views(records@);
    let mut blob: Vec<u8> = Vec::new();
    let mut addresses: Vec<Address> = Vec::new();
    let mut k: usize = 0;
    while k < records.len()
        invariant
            k <= records@.len(),
            rs == views(records@),
            packed(rs).len() <= usize::MAX,
            blob@ == packed(rs.take(k as int)),
            addresses@ == addresses_of(rs).take(k as int),
        decreases records@.len() - k,
    {
        proof {
            lemma_packed_take(rs, k as int);
            lemma_packed_prefix(rs, k as int + 1);
        }
        let rec = &records[k];
        let offset = blob.len();
        let mut i: usize = 0;
        while i < rec.len()
            invariant
                i <= rec@.len(),
                rec@ == rs[k as int],
                offset + rec@.len() <= usize::MAX,
                blob@ == packed(rs.take(k as int)) + rec@.take(i as int),
                offset == packed(rs.take(k as int)).len(),
            decreases rec@.len() - i,
        {
            blob.push(rec[i]);
            i = i + 1;
            assert(blob@ =~= packed(rs.take(k as int)) + rec@.take(i as int));
        }
        assert(rec@.take(rec@.len() as int) =~= rec@);
        addresses.push(Address { offset, length: rec.len() });
        k = k + 1;
        assert(addresses@ =~= addresses_of(rs).take(k as int));
    }
    assert(rs.take(records@.len() as int) =~= rs);
    assert(addresses_of(rs).take(records@.len() as int) =~= addresses_of(rs));
    (blob, addresses)
}

/// The records that `addresses` locate in `blob`, in order; `None` when an
/// address reaches past the end of the blob.
pub fn deserialize(blob: &[u8], addresses: &[Address]) -> (r: Option<Vec<Vec<u8>>>)
    ensures
        r is None <==> exists|j: int|
            0 <= j < addresses@.len() && !fits(#[trigger] addresses@[j], blob@.len()),
        r matches Some(v) ==> views(v@) == addresses@.map_values(|a: Address| slice_at(blob@, a)),
{
    let mut out: Vec<Vec<u8>> = Vec::new();
    let mut k: usize = 0;
    while k < addresses.len()
        invariant
            k <= addresses@.len(),
            forall|j: int| 0 <= j < k ==> fits(#[trigger] addresses@[j], blob@.len()),
            views(out@) == addresses@.take(k as int).map_values(|a: Address| slice_at(blob@, a)),
        decreases addresses@.len() - k,
    {
        let a = addresses[k];
        if a.offset > blob.len() || a.length > blob.len() - a.offset {
            assert(!fits(addresses@[k as int], blob@.len()));
            return None;
        }
        let bl = blob.len();
        let mut rec: Vec<u8> = Vec::new();
        let mut i: usize = 0;
        while i < a.length
            invariant
                i <= a.length,
                bl == blob@.len(),
                a.offset + a.length <= bl,
                rec@ == blob@.subrange(a.offset as int, a.offset + i),
            decreases a.length - i,
        {
            rec.push(blob[a.offset + i]);
            i = i + 1;
            assert(rec@ =~= blob@.subrange(a.offset as int, a.offset + i));
        }
        let ghost before = out@;
        out.push(rec);
        assert(views(out@) =~= views(before).push(slice_at(blob@, a)));
        assert(addresses@.take(k + 1 as int).map_values(|a: Address| slice_at(blob@, a))
            =~= addresses@.take(k as int).map_values(|a: Address| slice_at(blob@, a)).push(slice_at(blob@, a)));
        k = k + 1;
    }
    assert(addresses@.take(k as int) =~= addresses@);
    Some(out)
}

} // verus!
