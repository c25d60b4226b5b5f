//! Byte histograms, and what of them the entropy of a byte distribution is
//! computed from.

use vstd::prelude::*;

use crate::ascii::{is_safe, safe};
use crate::feature_extraction::counting::{
    count, lemma_count_le_len, lemma_count_push, lemma_count_remove,
};

verus! {

/// The counts of the bytes below `upto` that belong to `class` and occur in
/// `bytes`, in the order of the bytes.
pub open spec fn class_counts(bytes: Seq<u8>, class: spec_fn(u8) -> bool, upto: int) -> Seq<usize>
    decreases upto,
{
    if upto <= 0 {
        Seq::empty()
    } else {
        let before = class_counts(bytes, class, upto - 1);
        let b = (upto - 1) as u8;
        if class(b) && count(bytes, b) > 0 {
            before.push(count(bytes, b) as usize)
        } else {
            before
        }
    }
}

/// The bytes of the safe alphabet.
pub open spec fn safe_class() -> spec_fn(u8) -> bool {
    |b: u8| is_safe(b)
}

/// The bytes outside the safe alphabet.
pub open spec fn other_class() -> spec_fn(u8) -> bool {
    |b: u8| !is_safe(b)
}

/// The counts of the bytes that occur in `bytes`, as a window lists them:
/// first the bytes outside the safe alphabet, then those of the safe
/// alphabet, each group in the order of the bytes.
pub open spec fn window_counts(bytes: Seq<u8>) -> Seq<usize> {
    class_counts(bytes, other_class(), 256) + class_counts(bytes, safe_class(), 256)
}

/// A byte distribution: how often each byte occurs that occurs at all, and
/// how many bytes there are. The Shannon entropy of the distribution, in
/// bits, is `|sum of c * ln(c / total)| / (total * ln 2)` over the counts `c`,
/// taken in the order of `counts`.
#[derive(Debug, Clone, PartialEq, Eq)]
pub struct Distribution {
    pub counts: Vec<usize>,
    pub total: usize,
}

/// The entry that counts `b`: that of `ascii_map` for a byte of the safe
/// alphabet, that of `char_map` for any other.
pub open spec fn counted(ascii_map: Seq<usize>, char_map: Seq<usize>, b: u8) -> int {
    if is_safe(b) {
        ascii_map[b as int] as int
    } else {
        char_map[b as int] as int
    }
}

/// The entry for `b` in the table that does not count it; 0 where that table
/// has none.
pub open spec fn unused(ascii_map: Seq<usize>, char_map: Seq<usize>, b: u8) -> int {
    if is_safe(b) {
        char_map[b as int] as int
    } else if b < 128 {
        ascii_map[b as int] as int
    } else {
        0
    }
}

/// Whether the two tables hold the histogram of `bytes`: the count of each
/// byte of the safe alphabet in `ascii_map`, that of any other byte in
/// `char_map`, and 0 in the entries that are not used.
pub open spec fn is_histogram(ascii_map: Seq<usize>, char_map: Seq<usize>, bytes: Seq<u8>) -> bool {
    &&& ascii_map.len() == 128
    &&& char_map.len() == 256
    &&& forall|b: u8|
        #![trigger count(bytes, b)]
        counted(ascii_map, char_map, b) == count(bytes, b) && unused(ascii_map, char_map, b) == 0
}

/// A histogram of bytes in two tables: one for the bytes of the safe
/// alphabet, which are by far the most frequent, and one for the others.
pub struct ByteHistogram {
    /// How often each byte outside the safe alphabet occurs, by byte.
    pub char_map: Vec<usize>,
    /// How often each byte of the safe alphabet occurs, by byte.
    pub ascii_map: Vec<usize>,
}

impl ByteHistogram {
    /// Whether this is the histogram of `bytes`.
    pub open spec fn holds(&self, bytes: Seq<u8>) -> bool {
        is_histogram(self.ascii_map@, self.char_map@, bytes)
    }

    /// The histogram of no bytes.
    pub fn new() -> (h: Self)
        ensures
            h.holds(Seq::empty()),
    {
        ByteHistogram { char_map: vec![0usize; 256], ascii_map: vec![0usize; 128] }
    }

    /// Counts the bytes of `label` in.
    pub(crate) fn add(&mut self, label: &Vec<u8>, Ghost(bytes): Ghost<Seq<u8>>)
        requires
            old(self).holds(bytes),
            bytes.len() + label@.len() <= usize::MAX,
        ensures
            final(self).holds(bytes + label@),
    {
        let mut j: usize = 0;
        proof {
            assert(bytes + label@.take(0) =~= bytes);
        }
        while j < label.len()
            invariant
                j <= label.len(),
                bytes.len() + label@.len() <= usize::MAX,
                self.holds(bytes + label@.take(j as int)),
            decreases label.len() - j,
        {
            let ch: u8 = label[j];
            let ghost cur = bytes + label@.take(j as int);
            proof {
                assert(cur.push(ch) =~= bytes + label@.take(j + 1));
                lemma_count_le_len(cur, ch);
                assert forall|b: u8|
                    #![trigger count(cur.push(ch), b)]
                    count(cur.push(ch), b) == count(cur, b) + if ch == b {
                    1nat
                } else {
                    0nat
                } by {
                    lemma_count_push(cur, ch, b);
                }
            }
            assert(counted(self.ascii_map@, self.char_map@, ch) == count(cur, ch));
            if safe(ch) {
                let n: usize = self.ascii_map[ch as usize];
                self.ascii_map.set(ch as usize, n + 1);
            } else {
                let n: usize = self.char_map[ch as usize];
                self.char_map.set(ch as usize, n + 1);
            }
            j += 1;
        }
        proof {
            assert(label@.take(label.len() as int) =~= label@);
        }
    }

    /// Counts the bytes of `label` out, which stand in the counted bytes
    /// behind `before`.
    pub(crate) fn remove(
        &mut self,
        label: &Vec<u8>,
        Ghost(before): Ghost<Seq<u8>>,
        Ghost(after): Ghost<Seq<u8>>,
    )
        requires
            old(self).holds(before + label@ + after),
        ensures
            final(self).holds(before + after),
    {
        let mut j: usize = 0;
        proof {
            assert(label@.skip(0) =~= label@);
        }
        while j < label.len()
            invariant
                j <= label.len(),
                self.holds(before + label@.skip(j as int) + after),
            decreases label.len() - j,
        {
            let ch: u8 = label[j];
            let ghost cur = before + label@.skip(j as int) + after;
            proof {
                assert(cur[before.len() as int] == ch);
                assert(cur.remove(before.len() as int) =~= before + label@.skip(j + 1) + after);
                assert forall|b: u8|
                    #![trigger count(cur.remove(before.len() as int), b)]
                    count(cur.remove(before.len() as int), b) == count(cur, b) - if ch == b {
                        1int
                    } else {
                        0int
                    } by {
                    lemma_count_remove(cur, before.len() as int, b);
                }
                lemma_count_remove(cur, before.len() as int, ch);
                assert(count(cur, ch) >= 1);
            }
            assert(counted(self.ascii_map@, self.char_map@, ch) == count(cur, ch));
            if safe(ch) {
                let n: usize = self.ascii_map[ch as usize];
                self.ascii_map.set(ch as usize, n - 1);
            } else {
                let n: usize = self.char_map[ch as usize];
                self.char_map.set(ch as usize, n - 1);
            }
            proof {
                let next = before + label@.skip(j + 1) + after;
                assert(next == cur.remove(before.len() as int));
                assert forall|b: u8|
                    #![trigger count(next, b)]
                    counted(self.ascii_map@, self.char_map@, b) == count(next, b) && unused(
                        self.ascii_map@,
                        self.char_map@,
                        b,
                    ) == 0 by {
                    assert(count(next, b) == count(cur, b) - if ch == b {
                        1int
                    } else {
                        0int
                    });
                }
                assert(self.holds(next));
            }
            j += 1;
        }
        proof {
            assert(label@.skip(label.len() as int) =~= Seq::<u8>::empty());
            assert(before + Seq::<u8>::empty() + after =~= before + after);
        }
    }

    /// The counts of the bytes that occur, first those outside the safe
    /// alphabet, then those of the safe alphabet.
    pub(crate) fn counts(&self, Ghost(bytes): Ghost<Seq<u8>>) -> (r: Vec<usize>)
        requires
            self.holds(bytes),
        ensures
            r@ == window_counts(bytes),
    {
        let mut r: Vec<usize> = Vec::new();
        let mut b: usize = 0;
        while b < 256
            invariant
                b <= 256,
                self.holds(bytes),
                r@ == class_counts(bytes, other_class(), b as int),
            decreases 256 - b,
        {
            let byte: u8 = b as u8;
            assert(counted(self.ascii_map@, self.char_map@, byte) == count(bytes, byte));
            if !safe(byte) && self.char_map[b] != 0 {
                r.push(self.char_map[b]);
            }
            b += 1;
        }
        let ghost others = r@;
        b = 0;
        proof {
            assert(r@ =~= others + class_counts(bytes, safe_class(), 0));
        }
        while b < 256
            invariant
                b <= 256,
                self.holds(bytes),
                r@ == others + class_counts(bytes, safe_class(), b as int),
            decreases 256 - b,
        {
            let byte: u8 = b as u8;
            assert(counted(self.ascii_map@, self.char_map@, byte) == count(bytes, byte));
            if safe(byte) {
                if self.ascii_map[b] != 0 {
                    r.push(self.ascii_map[b]);
                }
            }
            proof {
                let before = class_counts(bytes, safe_class(), b as int);
                let next = class_counts(bytes, safe_class(), b + 1);
                if safe_class()(byte) && count(bytes, byte) > 0 {
                    assert(others + before.push(count(bytes, byte) as usize) =~= (others
                        + before).push(count(bytes, byte) as usize));
                }
            }
            b += 1;
        }
        r
    }
}

} // verus!
