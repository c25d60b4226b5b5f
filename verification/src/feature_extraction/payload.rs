//! The features of a single payload.

use vstd::prelude::*;

use crate::ascii::{digit, is_digit, is_safe, safe, DOT};
use crate::feature_extraction::counting::{
    count, distinct, greatest, lemma_count_le_len, lemma_count_push, lemma_distinct_le_len,
    lemma_distinct_sum_push, lemma_greatest_push,
};
use crate::feature_extraction::histogram::{class_counts, Distribution};
use crate::feature_extraction::sliding::{open_space_for, Ratio, MAX_PRIMARY_LEN};
use crate::feature_extraction::state::label_len;
use crate::parse_dns::DnsPayload;

verus! {

/// The features of one payload.
#[derive(Debug, Clone, PartialEq, Eq)]
pub struct PayloadFeatureVector {
    pub id: usize,
    pub n_unique: u8,
    pub ratio_unique: Ratio,
    pub n_digits: u8,
    pub n_invalid: u8,
    pub n_labels: u8,
    pub avg_label_length: Ratio,
    pub max_label_length: u8,
    pub entropy: Distribution,
    pub fill_ratio: Ratio,
}

/// The bytes of `s` but for the dots, in order.
pub open spec fn without_dots(s: Seq<u8>) -> Seq<u8>
    decreases s.len(),
{
    if s.len() == 0 {
        s
    } else if s.last() == DOT {
        without_dots(s.drop_last())
    } else {
        without_dots(s.drop_last()).push(s.last())
    }
}

/// The bytes of the labels that the features count: all but dots.
pub open spec fn characters(labels: Seq<Seq<u8>>) -> Seq<u8> {
    without_dots(labels.flatten())
}

/// How many bytes of `s` are digits.
pub open spec fn digits(s: Seq<u8>) -> nat
    decreases s.len(),
{
    if s.len() == 0 {
        0
    } else {
        digits(s.drop_last()) + if is_digit(s.last()) {
            1nat
        } else {
            0nat
        }
    }
}

/// How many bytes of `s` lie outside the safe alphabet.
pub open spec fn invalids(s: Seq<u8>) -> nat
    decreases s.len(),
{
    if s.len() == 0 {
        0
    } else {
        invalids(s.drop_last()) + if is_safe(s.last()) {
            0nat
        } else {
            1nat
        }
    }
}

/// The bytes from 128 up.
pub open spec fn high_class() -> spec_fn(u8) -> bool {
    |b: u8| b >= 128
}

/// The bytes below 128.
pub open spec fn low_class() -> spec_fn(u8) -> bool {
    |b: u8| b < 128
}

/// The counts of the bytes that occur in `bytes`, as the features of a
/// payload list them: first the bytes from 128 up, then those below, each
/// group in the order of the bytes.
pub open spec fn payload_counts(bytes: Seq<u8>) -> Seq<usize> {
    class_counts(bytes, high_class(), 256) + class_counts(bytes, low_class(), 256)
}

impl PayloadFeatureVector {
    /// Whether these are the features, under the number `id`, of the payload
    /// with the labels `labels`, which takes `payload_len` bytes of a name
    /// that leaves `open_space` to it.
    pub open spec fn describes(
        &self,
        id: usize,
        labels: Seq<Seq<u8>>,
        payload_len: u8,
        open_space: int,
    ) -> bool {
        &&& self.id == id
        &&& self.n_unique == distinct(characters(labels))
        &&& self.ratio_unique == (Ratio {
            num: distinct(characters(labels)) as i128,
            den: characters(labels).len() as i128,
        })
        &&& self.n_digits == digits(characters(labels))
        &&& self.n_invalid == invalids(characters(labels))
        &&& self.n_labels == labels.len()
        &&& self.avg_label_length == (Ratio {
            num: labels.flatten().len() as i128,
            den: labels.len() as i128,
        })
        &&& self.max_label_length == greatest(labels, label_len())
        &&& self.entropy.counts@ == payload_counts(characters(labels))
        &&& self.entropy.total == characters(labels).len()
        &&& self.fill_ratio == (Ratio { num: payload_len as i128, den: open_space as i128 })
    }
}

/// Leaving out the dots never lengthens a sequence.
pub proof fn lemma_without_dots_len(s: Seq<u8>)
    ensures
        without_dots(s).len() <= s.len(),
    decreases s.len(),
{
    if s.len() > 0 {
        lemma_without_dots_len(s.drop_last());
    }
}

/// No more bytes are digits, or lie outside the safe alphabet, than there
/// are bytes.
pub proof fn lemma_digits_le_len(s: Seq<u8>)
    ensures
        digits(s) <= s.len(),
        invalids(s) <= s.len(),
    decreases s.len(),
{
    if s.len() > 0 {
        lemma_digits_le_len(s.drop_last());
    }
}

/// The counts of one class of the bytes that a table counts.
fn counts_of_class(table: &Vec<usize>, high: bool, Ghost(bytes): Ghost<Seq<u8>>) -> (r: Vec<usize>)
    requires
        table@.len() == 256,
        forall|b: u8| #![trigger count(bytes, b)] table@[b as int] == count(bytes, b),
    ensures
        r@ == class_counts(
            bytes,
            if high {
                high_class()
            } else {
                low_class()
            },
            256,
        ),
{
    let ghost class = if high {
        high_class()
    } else {
        low_class()
    };
    let mut r: Vec<usize> = Vec::new();
    let mut b: usize = 0;
    while b < 256
        invariant
            b <= 256,
            table@.len() == 256,
            forall|x: u8| #![trigger count(bytes, x)] table@[x as int] == count(bytes, x),
            class == (if high {
                high_class()
            } else {
                low_class()
            }),
            r@ == class_counts(bytes, class, b as int),
        decreases 256 - b,
    {
        let byte: u8 = b as u8;
        assert(table@[byte as int] == count(bytes, byte));
        if (byte >= 128) == high && table[b] != 0 {
            r.push(table[b]);
        }
        b += 1;
    }
    r
}

/// The features of the payload `entry` of a query to a primary domain of
/// `primary_domain_length` bytes.
pub fn payload_features(id: usize, entry: &DnsPayload, primary_domain_length: u8) -> (fv:
    PayloadFeatureVector)
    requires
        entry.wf(),
        primary_domain_length <= MAX_PRIMARY_LEN,
    ensures
        fv.describes(id, entry@, entry.payload_len, open_space_for(primary_domain_length)),
{
    let ghost labels = entry@;
    let n_labels: usize = entry.labels.len();
    let mut total_len: usize = 0;
    let mut max_label_length: usize = 0;
    let mut n_digits: usize = 0;
    let mut n_invalid: usize = 0;
    let mut n_unique: usize = 0;
    let mut n_total: usize = 0;
    let mut table: Vec<usize> = vec![0usize; 256];
    let mut k: usize = 0;
    proof {
        assert(labels.take(0) =~= Seq::<Seq<u8>>::empty());
        assert(labels.take(0).flatten() =~= Seq::<u8>::empty());
        lemma_flatten_prefix(labels, labels.len() as int);
        assert(labels.take(labels.len() as int) =~= labels);
    }
    while k < n_labels
        invariant
            k <= n_labels,
            labels == entry@,
            n_labels == entry.labels.len(),
            n_labels == labels.len(),
            labels.flatten().len() <= 255,
            table@.len() == 256,
            total_len == labels.take(k as int).flatten().len(),
            max_label_length == greatest(labels.take(k as int), label_len()),
            max_label_length <= total_len,
            n_total == characters(labels.take(k as int)).len(),
            n_digits == digits(characters(labels.take(k as int))),
            n_invalid == invalids(characters(labels.take(k as int))),
            n_unique == distinct(characters(labels.take(k as int))),
            forall|b: u8|
                #![trigger count(characters(labels.take(k as int)), b)]
                table@[b as int] == count(characters(labels.take(k as int)), b),
        decreases n_labels - k,
    {
        let label = &entry.labels[k];
        let ghost done = labels.take(k as int);
        proof {
            assert(labels[k as int] == label@);
            assert(labels.take(k + 1) =~= done.push(label@));
            done.lemma_flatten_push(label@);
            lemma_greatest_push(done, label_len(), label@);
            lemma_flatten_prefix(labels, k + 1);
            assert(label@.take(0) =~= Seq::<u8>::empty());
            assert(done.flatten() + label@.take(0) =~= done.flatten());
        }
        total_len += label.len();
        if label.len() > max_label_length {
            max_label_length = label.len();
        }
        let mut j: usize = 0;
        while j < label.len()
            invariant
                j <= label.len(),
                table@.len() == 256,
                (done.flatten() + label@).len() <= 255,
                n_total == without_dots(done.flatten() + label@.take(j as int)).len(),
                n_digits == digits(without_dots(done.flatten() + label@.take(j as int))),
                n_invalid == invalids(without_dots(done.flatten() + label@.take(j as int))),
                n_unique == distinct(without_dots(done.flatten() + label@.take(j as int))),
                forall|b: u8|
                    #![trigger count(without_dots(done.flatten() + label@.take(j as int)), b)]
                    table@[b as int] == count(
                        without_dots(done.flatten() + label@.take(j as int)),
                        b,
                    ),
            decreases label.len() - j,
        {
            let ch: u8 = label[j];
            let ghost raw = done.flatten() + label@.take(j as int);
            let ghost cur = without_dots(raw);
            proof {
                assert(raw.push(ch) =~= done.flatten() + label@.take(j + 1));
                assert(raw.push(ch).drop_last() =~= raw);
                lemma_without_dots_len(raw);
                lemma_digits_le_len(cur);
                lemma_distinct_le_len(cur);
                lemma_count_le_len(cur, ch);
                lemma_distinct_sum_push(cur, |x: u8| 1nat, ch);
                assert(cur.push(ch).drop_last() =~= cur);
                assert forall|b: u8|
                    #![trigger count(cur.push(ch), b)]
                    count(cur.push(ch), b) == count(cur, b) + if ch == b {
                        1nat
                    } else {
                        0nat
                    } by {
                    lemma_count_push(cur, ch, b);
                }
                assert(table@[ch as int] == count(cur, ch));
            }
            if ch != DOT {
                n_total += 1;
                if digit(ch) {
                    n_digits += 1;
                }
                if !safe(ch) {
                    n_invalid += 1;
                }
                let n: usize = table[ch as usize];
                if n == 0 {
                    n_unique += 1;
                }
                table.set(ch as usize, n + 1);
            }
            j += 1;
        }
        proof {
            assert(label@.take(label.len() as int) =~= label@);
        }
        k += 1;
    }
    let ghost chars = characters(labels);
    proof {
        lemma_without_dots_len(labels.flatten());
        lemma_digits_le_len(chars);
        lemma_distinct_le_len(chars);
    }
    let mut counts = counts_of_class(&table, true, Ghost(chars));
    let mut low = counts_of_class(&table, false, Ghost(chars));
    counts.append(&mut low);
    PayloadFeatureVector {
        id,
        n_unique: n_unique as u8,
        ratio_unique: Ratio { num: n_unique as i128, den: n_total as i128 },
        n_digits: n_digits as u8,
        n_invalid: n_invalid as u8,
        n_labels: n_labels as u8,
        avg_label_length: Ratio { num: total_len as i128, den: n_labels as i128 },
        max_label_length: max_label_length as u8,
        entropy: Distribution { counts, total: n_total },
        fill_ratio: Ratio {
            num: entry.payload_len as i128,
            den: (253 - (primary_domain_length + 1)) as i128,
        },
    }
}

/// The first labels of a payload have no more bytes than all of them.
pub proof fn lemma_flatten_prefix(labels: Seq<Seq<u8>>, k: int)
    requires
        0 <= k <= labels.len(),
    ensures
        labels.take(k).flatten().len() <= labels.flatten().len(),
{
    assert(labels =~= labels.take(k) + labels.skip(k));
    vstd::seq_lib::lemma_flatten_concat(labels.take(k), labels.skip(k));
}

} // verus!
