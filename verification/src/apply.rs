use vstd::prelude::*;

use crate::record::{PatchSet, RecordModel};

verus! {

/// A write that cannot be addressed: some record's destination range lies
/// beyond the end of the target image.
#[derive(Clone, Copy, PartialEq, Eq, Structural, Debug)]
pub struct IoError;

/// The image after one record's payload is written starting at `pos`:
/// bytes inside the destination range come from the payload, all others are
/// unchanged, and the image keeps its length.
pub open spec fn spec_write(img: Seq<u8>, pos: int, data: Seq<u8>) -> Seq<u8> {
    Seq::new(
        img.len(),
        |j: int|
            if pos <= j < pos + data.len() {
                data[j - pos]
            } else {
                img[j]
            },
    )
}

/// The image after every record of `rs` is written in order, each at
/// `offset + base`.
pub open spec fn spec_apply(img: Seq<u8>, rs: Seq<RecordModel>, base: u64) -> Seq<u8>
    decreases rs.len(),
{
    if rs.len() == 0 {
        img
    } else {
        spec_write(
            spec_apply(img, rs.drop_last(), base),
            rs.last().offset + base,
            rs.last().data,
        )
    }
}

/// Every record's destination range fits inside an image of `img_len` bytes.
pub open spec fn records_in_bounds(img_len: int, rs: Seq<RecordModel>, base: u64) -> bool {
    forall|i: int|
        0 <= i < rs.len() ==> (#[trigger] rs[i]).offset + base + rs[i].data.len() <= img_len
}

/// Record `r`, applied against `base`, writes the image byte at position `p`.
pub open spec fn record_covers(r: RecordModel, base: u64, p: int) -> bool {
    r.offset + base <= p < r.offset + base + r.data.len()
}

/// The byte at position `p` after applying `rs` in order to a byte that was
/// `b`: the last record covering `p` wins, and `b` survives if none does.
pub open spec fn byte_after(b: u8, rs: Seq<RecordModel>, base: u64, p: int) -> u8
    decreases rs.len(),
{
    if rs.len() == 0 {
        b
    } else if record_covers(rs.last(), base, p) {
        rs.last().data[p - (rs.last().offset + base)]
    } else {
        byte_after(b, rs.drop_last(), base, p)
    }
}

/// Applying a patch set keeps the image length, and each byte's final value
/// depends only on the records that cover its position, latest first.
pub proof fn lemma_apply_pointwise(img: Seq<u8>, rs: Seq<RecordModel>, base: u64, p: int)
    requires
        0 <= p < img.len(),
    ensures
        spec_apply(img, rs, base).len() == img.len(),
        spec_apply(img, rs, base)[p] == byte_after(img[p], rs, base, p),
    decreases rs.len(),
{
    if rs.len() > 0 {
        lemma_apply_pointwise(img, rs.drop_last(), base, p);
    }
}

/// When some record of `rs` covers `p`, the byte `p` held before the
/// patch set is applied makes no difference to its final value.
pub proof fn lemma_byte_after_covered(b1: u8, b2: u8, rs: Seq<RecordModel>, base: u64, p: int)
    requires
        exists|i: int| 0 <= i < rs.len() && record_covers(#[trigger] rs[i], base, p),
    ensures
        byte_after(b1, rs, base, p) == byte_after(b2, rs, base, p),
    decreases rs.len(),
{
    if !record_covers(rs.last(), base, p) {
        let i = choose|i: int| 0 <= i < rs.len() && record_covers(#[trigger] rs[i], base, p);
        assert(rs.drop_last()[i] == rs[i]);
        lemma_byte_after_covered(b1, b2, rs.drop_last(), base, p);
    }
}

/// When no record of `rs` covers `p`, the byte at `p` is untouched.
pub proof fn lemma_byte_after_uncovered(b: u8, rs: Seq<RecordModel>, base: u64, p: int)
    requires
        forall|i: int| 0 <= i < rs.len() ==> !record_covers(#[trigger] rs[i], base, p),
    ensures
        byte_after(b, rs, base, p) == b,
    decreases rs.len(),
{
    if rs.len() > 0 {
        assert(forall|i: int|
            0 <= i < rs.drop_last().len() ==> rs.drop_last()[i] == #[trigger] rs[i]);
        lemma_byte_after_uncovered(b, rs.drop_last(), base, p);
    }
}

/// Last write wins: when two records' destination ranges overlap, applying
/// them in order leaves every overlapping byte equal to the later record's
/// payload byte for that position.
pub proof fn lemma_last_write_wins(
    img: Seq<u8>,
    first: RecordModel,
    second: RecordModel,
    base: u64,
    p: int,
)
    requires
        0 <= p < img.len(),
        record_covers(first, base, p),
        record_covers(second, base, p),
    ensures
        spec_apply(img, seq![first, second], base)[p] == second.data[p - (second.offset + base)],
{
    let rs = seq![first, second];
    assert(rs.last() == second);
    lemma_apply_len(img, rs.drop_last(), base);
    assert(spec_apply(img, rs, base) == spec_write(
        spec_apply(img, rs.drop_last(), base),
        second.offset + base,
        second.data,
    ));
}

/// Idempotence: applying the same patch set to the same image twice leaves
/// exactly the image one application leaves.
pub proof fn lemma_apply_idempotent(img: Seq<u8>, rs: Seq<RecordModel>, base: u64)
    ensures
        spec_apply(spec_apply(img, rs, base), rs, base) == spec_apply(img, rs, base),
{
    let once = spec_apply(img, rs, base);
    let twice = spec_apply(once, rs, base);
    if img.len() == 0 {
        assert(once =~= img) by {
            lemma_apply_len(img, rs, base);
        }
        assert(twice =~= img) by {
            lemma_apply_len(once, rs, base);
        }
    } else {
        lemma_apply_len(img, rs, base);
        lemma_apply_len(once, rs, base);
        assert forall|p: int| 0 <= p < img.len() implies twice[p] == once[p] by {
            lemma_apply_pointwise(img, rs, base, p);
            lemma_apply_pointwise(once, rs, base, p);
            if exists|i: int| 0 <= i < rs.len() && record_covers(#[trigger] rs[i], base, p) {
                lemma_byte_after_covered(once[p], img[p], rs, base, p);
            } else {
                lemma_byte_after_uncovered(img[p], rs, base, p);
                lemma_byte_after_uncovered(once[p], rs, base, p);
            }
        }
        assert(twice =~= once);
    }
}

/// Applying a patch set never changes the image's length.
pub proof fn lemma_apply_len(img: Seq<u8>, rs: Seq<RecordModel>, base: u64)
    ensures
        spec_apply(img, rs, base).len() == img.len(),
    decreases rs.len(),
{
    if rs.len() > 0 {
        lemma_apply_len(img, rs.drop_last(), base);
    }
}

/// The absolute write position of a record: its offset plus the variant base
/// address, or nothing when the sum is not addressable.
pub fn absolute_offset(offset: u64, base: u64) -> (r: Option<u64>)
    ensures
        match r {
            Some(a) => a == offset + base,
            None => offset + base > u64::MAX,
        },
{
    if offset <= u64::MAX - base {
        Some(offset + base)
    } else {
        None
    }
}

/// Applies every record of `ps` to the in-memory image, in order, each
/// payload written at `offset + base`.
///
/// Succeeds exactly when every destination range fits in the image; the
/// whole set is validated before the first byte is written, so a failed
/// application leaves the image untouched.
pub fn apply_patch_set(image: &mut Vec<u8>, ps: &PatchSet, base: u64) -> (r: Result<(), IoError>)
    ensures
        match r {
            Ok(_) => records_in_bounds(old(image)@.len() as int, ps@, base) && final(image)@
                == spec_apply(old(image)@, ps@, base),
            Err(_) => !records_in_bounds(old(image)@.len() as int, ps@, base) && final(image)@
                == old(image)@,
        },
{
    let ghost old_img = image@;
    let img_len: usize = image.len();
    let n: usize = ps.records.len();
    let mut i: usize = 0;
    while i < n
        invariant
            n == ps@.len(),
            0 <= i <= n,
            image@ == old_img,
            img_len == old_img.len(),
            forall|j: int|
                0 <= j < i ==> (#[trigger] ps@[j]).offset + base + ps@[j].data.len()
                    <= old_img.len(),
        decreases n - i,
    {
        let r = &ps.records[i];
        if (r.offset as u128) + (base as u128) + (r.data.len() as u128) > (img_len as u128) {
            proof {
                assert(ps@[i as int] == ps.records@[i as int]@);
                assert(!(ps@[i as int].offset + base + ps@[i as int].data.len()
                    <= old_img.len()));
            }
            return Err(IoError);
        }
        i = i + 1;
    }
    let mut i: usize = 0;
    while i < n
        invariant
            n == ps@.len(),
            0 <= i <= n,
            old_img.len() <= usize::MAX,
            records_in_bounds(old_img.len() as int, ps@, base),
            image@ == spec_apply(old_img, ps@.take(i as int), base),
            image@.len() == old_img.len(),
        decreases n - i,
    {
        let ghost before = image@;
        let r = &ps.records[i];
        proof {
            assert(ps@[i as int] == ps.records@[i as int]@);
            assert(ps@[i as int].offset + base + ps@[i as int].data.len() <= old_img.len());
        }
        let pos: u64 = r.offset + base;
        let length: usize = r.data.len();
        let mut k: usize = 0;
        while k < length
            invariant
                pos + length <= image@.len(),
                image@.len() == before.len(),
                image@.len() <= usize::MAX,
                length == r.data@.len(),
                0 <= k <= length,
                forall|j: int|
                    0 <= j < image@.len() ==> image@[j] == (if pos <= j < pos + k {
                        r.data@[j - pos]
                    } else {
                        before[j]
                    }),
            decreases length - k,
        {
            let b = r.data[k];
            image.set(pos as usize + k, b);
            k = k + 1;
        }
        proof {
            assert(image@ =~= spec_write(before, pos as int, r.data@));
            assert(ps@.take(i as int + 1).drop_last() =~= ps@.take(i as int));
            assert(ps@.take(i as int + 1).last() == ps@[i as int]);
        }
        i = i + 1;
    }
    proof {
        assert(ps@.take(n as int) =~= ps@);
    }
    Ok(())
}

} // verus!
