//! The fan-out table: for each value of an identifier's leading byte, how many
//! entries have a leading byte no greater than it.

use crate::order::IndexEntry;
use vstd::prelude::*;

verus! {

/// Number of entries of `s` whose identifier starts with a byte no greater than `b`.
pub open spec fn count_leading_le(s: Seq<IndexEntry>, b: int) -> nat
    decreases s.len(),
{
    if s.len() == 0 {
        0
    } else {
        count_leading_le(s.drop_last(), b) + if s.last().id@[0] <= b {
            1nat
        } else {
            0nat
        }
    }
}

/// Number of entries of `s` whose identifier starts with the byte `b`.
pub open spec fn count_leading_eq(s: Seq<IndexEntry>, b: int) -> nat
    decreases s.len(),
{
    if s.len() == 0 {
        0
    } else {
        count_leading_eq(s.drop_last(), b) + if s.last().id@[0] == b {
            1nat
        } else {
            0nat
        }
    }
}

/// The fan-out table of `s`: 256 cumulative counts over the leading byte.
pub open spec fn fan_out_of(s: Seq<IndexEntry>) -> Seq<u32> {
    Seq::new(256, |b: int| count_leading_le(s, b) as u32)
}

/// Counting up to `b` is counting up to `b - 1` and then the entries that start with `b`.
pub proof fn lemma_count_step(s: Seq<IndexEntry>, b: int)
    ensures
        count_leading_le(s, b) == count_leading_le(s, b - 1) + count_leading_eq(s, b),
    decreases s.len(),
{
    if s.len() > 0 {
        lemma_count_step(s.drop_last(), b);
    }
}

/// No more entries are counted than there are, and from 255 on all of them are.
pub proof fn lemma_count_bounds(s: Seq<IndexEntry>, b: int)
    ensures
        count_leading_le(s, b) <= s.len(),
        b < 0 ==> count_leading_le(s, b) == 0,
        b >= 255 ==> count_leading_le(s, b) == s.len(),
    decreases s.len(),
{
    if s.len() > 0 {
        lemma_count_bounds(s.drop_last(), b);
    }
}

/// Builds the fan-out table of the entries: a histogram of the leading bytes,
/// then its running sums.
pub fn fan_out(s: &Vec<IndexEntry>) -> (r: Vec<u32>)
    requires
        s@.len() <= u32::MAX,
    ensures
        r@ == fan_out_of(s@),
{
    let mut hist: Vec<u32> = Vec::new();
    let mut b: usize = 0;
    while b < 256
        invariant
            b <= 256,
            hist@.len() == b,
            forall|c: int| 0 <= c < b ==> hist@[c] == 0,
        decreases 256 - b,
    {
        hist.push(0u32);
        b = b + 1;
    }
    let mut i: usize = 0;
    while i < s.len()
        invariant
            i <= s@.len() <= u32::MAX,
            hist@.len() == 256,
            forall|c: int| 0 <= c < 256 ==> hist@[c] == count_leading_eq(#[trigger] s@.take(i as int), c),
            forall|c: int| 0 <= c < 256 ==> hist@[c] <= i,
        decreases s@.len() - i,
    {
        let lead = s[i].id[0] as usize;
        assert(s@.take(i + 1).drop_last() =~= s@.take(i as int));
        proof {
            assert forall|c: int| 0 <= c < 256 implies count_leading_eq(#[trigger] s@.take(i + 1), c)
                == count_leading_eq(s@.take(i as int), c) + if c == lead { 1nat } else { 0nat } by {
            }
        }
        let v = hist[lead];
        hist.set(lead, v + 1);
        i = i + 1;
    }
    assert(s@.take(i as int) =~= s@);
    proof {
        lemma_count_bounds(s@, -1);
    }
    let mut r: Vec<u32> = Vec::new();
    let mut total: u32 = 0;
    let mut b: usize = 0;
    while b < 256
        invariant
            b <= 256,
            hist@.len() == 256,
            s@.len() <= u32::MAX,
            forall|c: int| 0 <= c < 256 ==> hist@[c] == count_leading_eq(s@, c),
            r@.len() == b,
            total == count_leading_le(s@, b - 1),
            forall|c: int| 0 <= c < b ==> r@[c] == count_leading_le(s@, c) as u32,
        decreases 256 - b,
    {
        proof {
            lemma_count_step(s@, b as int);
            lemma_count_bounds(s@, b as int);
        }
        total = total + hist[b];
        r.push(total);
        b = b + 1;
    }
    assert(r@ =~= fan_out_of(s@));
    r
}

} // verus!
