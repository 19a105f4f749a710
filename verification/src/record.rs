//! The record types the pipeline aggregates, and their mathematical views.

use vstd::prelude::*;

verus! {

/// One aggregated frequency record: a token (UTF-8 bytes) together with its
/// total occurrence count and the number of distinct books it appears in.
#[derive(Clone, Debug, PartialEq, Eq)]
pub struct Freq {
    pub token: Vec<u8>,
    pub occurrences: u32,
    pub books: u32,
}

/// The counts of a record without its token.
#[derive(Clone, Copy, Debug, PartialEq, Eq, Structural)]
pub struct FreqMember {
    pub occurrences: u32,
    pub books: u32,
}

/// The mathematical shape of a record: the token as a byte sequence,
/// and the two counts.
#[verifier::ext_equal]
pub ghost struct Rec {
    pub token: Seq<u8>,
    pub occurrences: u32,
    pub books: u32,
}

impl View for Freq {
    type V = Rec;

    open spec fn view(&self) -> Rec {
        Rec { token: self.token@, occurrences: self.occurrences, books: self.books }
    }
}

/// The views of a sequence of records.
pub open spec fn recs(s: Seq<Freq>) -> Seq<Rec> {
    s.map_values(|f: Freq| f@)
}

/// Clamp a mathematical integer into the `u32` range.
pub open spec fn sat32(x: int) -> u32 {
    if x > u32::MAX {
        u32::MAX
    } else if x < 0 {
        0u32
    } else {
        x as u32
    }
}

impl Freq {
    /// Merge another record's counts into this one, saturating at `u32::MAX`.
    pub fn absorb(&mut self, occurrences: u32, books: u32)
        ensures
            final(self).token == old(self).token,
            final(self).occurrences == sat32(old(self).occurrences + occurrences),
            final(self).books == sat32(old(self).books + books),
    {
        self.occurrences = if self.occurrences <= u32::MAX - occurrences {
            self.occurrences + occurrences
        } else {
            u32::MAX
        };
        self.books = if self.books <= u32::MAX - books {
            self.books + books
        } else {
            u32::MAX
        };
    }
}

/// Byte-vector equality, the token comparison of the pipeline.
pub fn bytes_eq(a: &Vec<u8>, b: &Vec<u8>) -> (r: bool)
    ensures
        r <==> a@ == b@,
{
    if a.len() != b.len() {
        return false;
    }
    for i in 0..a.len()
        invariant
            a@.len() == b@.len(),
            i <= a@.len(),
            forall|j: int| 0 <= j < i ==> a@[j] == b@[j],
    {
        if a[i] != b[i] {
            return false;
        }
    }
    proof {
        assert(a@ =~= b@);
    }
    true
}

impl Default for Freq {
    /// The empty aggregate: empty token, zero counts.
    fn default() -> (r: Freq)
        ensures
            r@.token == Seq::<u8>::empty(),
            r@.occurrences == 0u32,
            r@.books == 0u32,
    {
        Freq { token: Vec::new(), occurrences: 0, books: 0 }
    }
}

} // verus!
