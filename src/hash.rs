use vstd::prelude::*;

verus! {

/// A 256-bit hash, held as four 64-bit words, most significant first.
///
/// Block hashes and candidate hashes are both of this kind.
#[derive(Clone, Copy, Debug, PartialEq, Eq, Structural, Hash)]
pub struct H256 {
    pub w0: u64,
    pub w1: u64,
    pub w2: u64,
    pub w3: u64,
}

impl H256 {
    /// The hash whose four words are the given ones.
    pub fn new(w0: u64, w1: u64, w2: u64, w3: u64) -> (r: H256)
        ensures
            r == (H256 { w0, w1, w2, w3 }),
    {
        H256 { w0, w1, w2, w3 }
    }

    /// The hash whose least significant word is `n` and whose other words are zero.
    pub fn from_low_u64(n: u64) -> (r: H256)
        ensures
            r == (H256 { w0: 0, w1: 0, w2: 0, w3: n }),
    {
        H256 { w0: 0, w1: 0, w2: 0, w3: n }
    }

    /// Lexicographic order on the words, that is the numeric order of the hashes.
    pub open spec fn spec_lt(self, other: H256) -> bool {
        ||| self.w0 < other.w0
        ||| (self.w0 == other.w0 && self.w1 < other.w1)
        ||| (self.w0 == other.w0 && self.w1 == other.w1 && self.w2 < other.w2)
        ||| (self.w0 == other.w0 && self.w1 == other.w1 && self.w2 == other.w2 && self.w3
            < other.w3)
    }

    /// Whether `self` is numerically smaller than `other`.
    pub fn lt(&self, other: &H256) -> (r: bool)
        ensures
            r == self.spec_lt(*other),
    {
        if self.w0 != other.w0 {
            self.w0 < other.w0
        } else if self.w1 != other.w1 {
            self.w1 < other.w1
        } else if self.w2 != other.w2 {
            self.w2 < other.w2
        } else {
            self.w3 < other.w3
        }
    }
}

/// Whether `v` lists the hash `h`.
pub fn list_contains(v: &Vec<H256>, h: &H256) -> (r: bool)
    ensures
        r == v@.contains(*h),
{
    let mut i: usize = 0;
    while i < v.len()
        invariant
            i <= v.len(),
            forall|k: int| 0 <= k < i ==> v@[k] != *h,
        decreases v.len() - i,
    {
        if v[i] == *h {
            assert(v@[i as int] == *h);
            return true;
        }
        i = i + 1;
    }
    false
}

} // verus!
