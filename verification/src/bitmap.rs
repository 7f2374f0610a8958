//! Sets of row numbers, held in compressed bitmaps.

use roaring::RoaringBitmap;
use vstd::prelude::*;

verus! {

/// The compressed bitmap of the `roaring` crate.
#[verifier::external_type_specification]
#[verifier::external_body]
pub struct ExRoaringBitmap(RoaringBitmap);

/// The row numbers in a bitmap: those for which `RoaringBitmap::contains` holds.
pub uninterp spec fn rows_of(b: RoaringBitmap) -> Set<u32>;

/// The row numbers that `RoaringBitmap::deserialize_from` reads out of a byte
/// string, in the order of iteration; none where it fails.
pub uninterp spec fn decoded_rows(bytes: Seq<u8>) -> Option<Seq<u32>>;

/// Calls `RoaringBitmap::new`: a bitmap with nothing in it.
#[verifier::external_body]
pub(crate) fn empty_bitmap() -> (b: RoaringBitmap)
    ensures
        rows_of(b) == Set::<u32>::empty(),
{
    RoaringBitmap::new()
}

/// Calls `RoaringBitmap::insert`: adds one row number, and says whether it was
/// absent.
#[verifier::external_body]
pub(crate) fn bitmap_insert(b: &mut RoaringBitmap, row: u32) -> (fresh: bool)
    ensures
        rows_of(*final(b)) == rows_of(*old(b)).insert(row),
        fresh == !rows_of(*old(b)).contains(row),
{
    b.insert(row)
}

/// Calls `RoaringBitmap::remove`: takes one row number out, and says whether it
/// was there.
#[verifier::external_body]
pub(crate) fn bitmap_remove(b: &mut RoaringBitmap, row: u32) -> (found: bool)
    ensures
        rows_of(*final(b)) == rows_of(*old(b)).remove(row),
        found == rows_of(*old(b)).contains(row),
{
    b.remove(row)
}

/// Calls `RoaringBitmap::contains`: whether a row number is in the bitmap.
#[verifier::external_body]
pub(crate) fn bitmap_contains(b: &RoaringBitmap, row: u32) -> (r: bool)
    ensures
        r == rows_of(*b).contains(row),
{
    b.contains(row)
}

/// Calls `RoaringBitmap::len`: how many row numbers are in the bitmap.
#[verifier::external_body]
pub(crate) fn bitmap_len(b: &RoaringBitmap) -> (n: u64)
    ensures
        n == rows_of(*b).len(),
{
    b.len()
}

/// Calls `RoaringBitmap::clear`: takes everything out.
#[verifier::external_body]
pub(crate) fn bitmap_clear(b: &mut RoaringBitmap)
    ensures
        rows_of(*final(b)) == Set::<u32>::empty(),
{
    b.clear()
}

/// Calls `RoaringBitmap::serialize_into` on a byte vector, for which it does not
/// fail: the bytes are such that `RoaringBitmap::deserialize_from` reads the same
/// row numbers back, each once.
#[verifier::external_body]
pub(crate) fn bitmap_bytes(b: &RoaringBitmap) -> (bytes: Vec<u8>)
    ensures
        decoded_rows(bytes@) is Some,
        decoded_rows(bytes@)->0.to_set() == rows_of(*b),
        decoded_rows(bytes@)->0.no_duplicates(),
{
    let mut out: Vec<u8> = Vec::new();
    let _ = b.serialize_into(&mut out);
    out
}

/// Calls `RoaringBitmap::deserialize_from` on a byte string and hands out what it
/// read, in the order of iteration.
#[verifier::external_body]
fn bitmap_rows(bytes: &[u8]) -> (r: Option<Vec<u32>>)
    ensures
        r is Some <==> decoded_rows(bytes@) is Some,
        r is Some ==> r->0@ == decoded_rows(bytes@)->0,
{
    match RoaringBitmap::deserialize_from(bytes) {
        Ok(b) => Some(b.iter().collect()),
        Err(_) => None,
    }
}

/// A set of row numbers below `n` is finite, and has at most `n` of them.
pub proof fn lemma_rows_below(s: Set<u32>, n: nat)
    requires
        n <= u32::MAX,
        forall|x: u32| #[trigger] s.contains(x) ==> x < n,
    ensures
        s.finite(),
        s.len() <= n,
{
    let all = Set::<u32>::range(0, n as u32);
    vstd::set_lib::range_set_properties(0u32, n as u32);
    assert(s.subset_of(all));
    vstd::set_lib::lemma_set_subset_finite(all, s);
    vstd::set_lib::lemma_len_subset(s, all);
}

/// The bitmap that a byte string describes, if it describes one.
pub fn bitmap_from_bytes(bytes: &[u8]) -> (r: Option<RoaringBitmap>)
    ensures
        r is Some <==> decoded_rows(bytes@) is Some,
        r is Some ==> rows_of(r->0) == decoded_rows(bytes@)->0.to_set(),
{
    match bitmap_rows(bytes) {
        None => None,
        Some(rows) => {
            let mut b = empty_bitmap();
            let mut i: usize = 0;
            while i < rows.len()
                invariant
                    i <= rows.len(),
                    rows_of(b) == rows@.take(i as int).to_set(),
                decreases rows.len() - i,
            {
                bitmap_insert(&mut b, rows[i]);
                proof {
                    let before = rows@.take(i as int);
                    let after = rows@.take(i + 1);
                    assert(after =~= before.push(rows@[i as int]));
                    before.lemma_push_to_set_commute(rows@[i as int]);
                }
                i = i + 1;
            }
            proof {
                assert(rows@.take(rows@.len() as int) =~= rows@);
            }
            Some(b)
        },
    }
}

} // verus!
