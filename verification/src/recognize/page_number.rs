use vstd::prelude::*;
use crate::error::RecError;

verus! {

/// Reads the page number from the marks printed on a sheet.
pub struct PageNumberModule;

/// The number that the bits spell, most significant bit first.
pub open spec fn bits_value(bits: Seq<bool>) -> nat
    decreases bits.len(),
{
    if bits.len() == 0 {
        0
    } else {
        2 * bits_value(bits.drop_last()) + if bits.last() { 1nat } else { 0nat }
    }
}

proof fn lemma_bits_value_grows(bits: Seq<bool>, b: bool)
    ensures
        bits_value(bits.push(b)) == 2 * bits_value(bits) + if b { 1nat } else { 0nat },
        bits_value(bits.push(b)) >= bits_value(bits),
{
    assert(bits.push(b).drop_last() =~= bits);
}

impl PageNumberModule {
    pub fn new() -> (r: Self) {
        PageNumberModule
    }

    /// The page number of a sheet with `mark_count` page-number marks whose
    /// marks after the first read `bits`: page 1 when the sheet has no such
    /// marks, otherwise the number the bits spell (see
    /// `page_index_from_bits`).
    pub fn page_index(mark_count: usize, bits: &[bool]) -> (r: Result<usize, RecError>)
        ensures
            mark_count == 0 ==> r == Ok::<usize, RecError>(1),
            mark_count > 0 ==> (bits@.len() == 0 || bits_value(bits@) > u32::MAX <==> r == Err::<
                usize,
                RecError,
            >(RecError::PageNumberUnreadable)),
            mark_count > 0 ==> (bits@.len() > 0 && bits_value(bits@) == 0 <==> r == Err::<usize, RecError>(
                RecError::PageNumberZero,
            )),
            mark_count > 0 ==> (r matches Ok(v) ==> v == bits_value(bits@) && 1 <= v <= u32::MAX),
    {
        if mark_count == 0 {
            Ok(1)
        } else {
            Self::page_index_from_bits(bits)
        }
    }

    /// The page number that the filled (`true`) and empty (`false`)
    /// page-number marks spell in binary, most significant mark first.
    /// No marks, or a number beyond `u32`, cannot be read; page 0 does not
    /// exist.
    pub fn page_index_from_bits(bits: &[bool]) -> (r: Result<usize, RecError>)
        ensures
            bits@.len() == 0 || bits_value(bits@) > u32::MAX <==> r == Err::<usize, RecError>(
                RecError::PageNumberUnreadable,
            ),
            bits@.len() > 0 && bits_value(bits@) == 0 <==> r == Err::<usize, RecError>(
                RecError::PageNumberZero,
            ),
            r matches Ok(v) ==> v == bits_value(bits@) && 1 <= v <= u32::MAX,
    {
        if bits.len() == 0 {
            return Err(RecError::PageNumberUnreadable);
        }
        let mut value: u64 = 0;
        let mut overflow = false;
        let mut i: usize = 0;
        assert(bits@.take(0) =~= Seq::<bool>::empty());
        while i < bits.len()
            invariant
                0 <= i <= bits@.len(),
                overflow <==> bits_value(bits@.take(i as int)) > u32::MAX,
                !overflow ==> value == bits_value(bits@.take(i as int)),
            decreases bits@.len() - i,
        {
            proof {
                assert(bits@.take(i + 1) =~= bits@.take(i as int).push(bits@[i as int]));
                lemma_bits_value_grows(bits@.take(i as int), bits@[i as int]);
            }
            if !overflow {
                value = value * 2 + if bits[i] { 1 } else { 0 };
                if value > u32::MAX as u64 {
                    overflow = true;
                }
            }
            i = i + 1;
        }
        assert(bits@.take(bits@.len() as int) =~= bits@);
        if overflow {
            return Err(RecError::PageNumberUnreadable);
        }
        if value == 0 {
            return Err(RecError::PageNumberZero);
        }
        Ok(value as usize)
    }
}

} // verus!
