//! Validation of DNS query names.
//!
//! A query name is split into its primary domain (the registrable name, as
//! the public suffix list resolves it) and the labels in front of it, the
//! payload. Names that cannot carry a payload worth looking at are filtered
//! out, each filter with an error of its own.

use vstd::prelude::*;
use vstd::string::StringSliceAdditionalSpecFns;

use vstd::slice::slice_subrange;

use crate::ascii::{alphanumeric, is_alphanumeric, DOT, HYPHEN, UNDERSCORE};

verus! {

/// The byte between two labels of a name.
pub const LABEL_SEP: u8 = DOT;

/// The least number of bytes of a query that can hold a payload.
pub const MIN_QUERY_LEN: usize = 5;

/// The greatest number of bytes of a name.
pub const MAX_QUERY_LEN: usize = 255;

/// The greatest number of bytes of a label.
pub const MAX_LABEL_LEN: usize = 63;

/// The labels in front of a primary domain, in the order of the name, and the
/// number of bytes they take in it.
#[derive(Debug, Clone, PartialEq, Eq)]
pub struct DnsPayload {
    pub labels: Vec<Vec<u8>>,
    pub payload_len: u8,
}

/// Why a query was filtered out.
#[derive(Debug, Clone, Copy, PartialEq, Eq)]
pub enum ParseDnsError {
    /// The query is too short to hold a payload, or too long for a name.
    QueryLength,
    /// The query has no registrable domain, or one of its labels is empty or
    /// too long.
    InvalidDnsName,
    /// The suffix is not on the public suffix list.
    UnknownSuffix,
    /// The suffix is reserved for special use.
    ReservedSuffix,
    /// Nothing stands in front of the primary domain.
    NoLabels,
    /// The primary domain holds bytes that a host name cannot.
    InvalidPrim,
    /// The only thing in front of the primary domain is `www`.
    NoStorageChannel,
}

/// What the public suffix list says of a name: its registrable domain, the
/// public suffix of that domain, and whether the suffix is listed.
pub struct Resolved {
    pub domain: Vec<u8>,
    pub suffix: Vec<u8>,
    pub known: bool,
}

/// The bytes of a string.
pub open spec fn text(s: &str) -> Seq<u8> {
    s.spec_bytes()
}

/// The characters that stand for `bytes`, byte by byte.
pub open spec fn as_chars(bytes: Seq<u8>) -> Seq<char> {
    Seq::new(bytes.len(), |i: int| bytes[i] as char)
}

/// The bytes that a name takes whose labels are `labels`: the labels and a
/// separator between each two of them.
pub open spec fn encoded_len(labels: Seq<Seq<u8>>) -> int {
    labels.flatten().len() + labels.len() - 1
}

/// Whether `labels` can be the payload of a name: there is a label, each has
/// 1 to 63 bytes, and in all they take no more than 255 bytes.
pub open spec fn valid_labels(labels: Seq<Seq<u8>>) -> bool {
    &&& labels.len() >= 1
    &&& forall|i: int| 0 <= i < labels.len() ==> 1 <= #[trigger] labels[i].len() <= MAX_LABEL_LEN
    &&& encoded_len(labels) <= MAX_QUERY_LEN
}

/// The labels in `labels`, each as the sequence of its bytes.
pub open spec fn labels_of(labels: Seq<Vec<u8>>) -> Seq<Seq<u8>> {
    labels.map_values(|label: Vec<u8>| label@)
}

impl View for DnsPayload {
    type V = Seq<Seq<u8>>;

    /// The labels, each as the sequence of its bytes.
    open spec fn view(&self) -> Seq<Seq<u8>> {
        labels_of(self.labels@)
    }
}

impl DnsPayload {
    /// Whether the labels are those of a name and `payload_len` is the number
    /// of bytes they take in it.
    pub open spec fn wf(&self) -> bool {
        &&& valid_labels(self@)
        &&& self.payload_len == encoded_len(self@)
    }
}

impl DnsPayload {
    /// A copy of the payload.
    pub fn duplicate(&self) -> (r: Self)
        ensures
            r@ == self@,
            r.payload_len == self.payload_len,
            self.wf() ==> r.wf(),
    {
        DnsPayload { labels: clone_labels(&self.labels), payload_len: self.payload_len }
    }
}

/// Whether `s` ends with `tail`.
pub open spec fn is_suffix(s: Seq<u8>, tail: Seq<u8>) -> bool {
    tail.len() <= s.len() && s.skip(s.len() - tail.len()) == tail
}

/// Whether `domain` is the domain that collects test traffic. Its suffix is
/// on no list, and it is let through the two filters on suffixes.
pub open spec fn is_collection_domain(domain: Seq<u8>) -> bool {
    domain == text("tun.lan")
}

/// Whether `suffix` ends with one of the names that are reserved for special
/// use.
pub open spec fn is_reserved_suffix(suffix: Seq<u8>) -> bool {
    ||| is_suffix(suffix, text("arpa"))
    ||| is_suffix(suffix, text("local"))
    ||| is_suffix(suffix, text("intranet"))
    ||| is_suffix(suffix, text("lan"))
    ||| is_suffix(suffix, text("localhost"))
    ||| is_suffix(suffix, text("example.com"))
    ||| is_suffix(suffix, text("example.net"))
    ||| is_suffix(suffix, text("example.org"))
    ||| is_suffix(suffix, text("internal"))
    ||| is_suffix(suffix, text("private"))
    ||| is_suffix(suffix, text("corp"))
    ||| is_suffix(suffix, text("home"))
    ||| is_suffix(suffix, text("invalid"))
    ||| is_suffix(suffix, text("test"))
    ||| is_suffix(suffix, text("example"))
}

/// Whether `byte` may stand inside a primary domain: a letter, a digit, a dot
/// or a hyphen.
pub open spec fn is_domain_byte(byte: u8) -> bool {
    is_alphanumeric(byte) || byte == DOT || byte == HYPHEN
}

/// Whether `body` starts with a letter or a digit, holds only letters,
/// digits, dots and hyphens, and does not end with a hyphen.
pub open spec fn is_primary_body(body: Seq<u8>) -> bool {
    &&& body.len() >= 1
    &&& is_alphanumeric(body[0])
    &&& forall|i: int| 0 <= i < body.len() ==> is_domain_byte(#[trigger] body[i])
    &&& body.last() != HYPHEN
}

/// Whether `domain` is written as a primary domain is: an underscore may lead
/// it, and what follows is the body of one.
pub open spec fn is_valid_primary(domain: Seq<u8>) -> bool {
    if domain.len() > 0 && domain[0] == UNDERSCORE {
        is_primary_body(domain.skip(1))
    } else {
        is_primary_body(domain)
    }
}

/// The part of `query` in front of a primary domain of `domain_len` bytes and
/// the separator before it; empty where the query has no room for one.
pub open spec fn label_portion(query: Seq<u8>, domain_len: nat) -> Seq<u8> {
    if query.len() > domain_len + 1 {
        query.take(query.len() - domain_len - 1)
    } else {
        Seq::empty()
    }
}

/// The pieces of `s` between its separators, in order. A sequence with `n`
/// separators has `n + 1` pieces, some of which may be empty.
pub open spec fn split(s: Seq<u8>) -> Seq<Seq<u8>>
    decreases s.len(),
{
    if s.len() == 0 {
        seq![Seq::empty()]
    } else {
        let before = split(s.drop_last());
        if s.last() == LABEL_SEP {
            before.push(Seq::empty())
        } else {
            before.drop_last().push(before.last().push(s.last()))
        }
    }
}

/// Whether some label is empty or longer than a label may be.
pub open spec fn has_bad_label(labels: Seq<Seq<u8>>) -> bool {
    exists|i: int| 0 <= i < labels.len() && !(1 <= #[trigger] labels[i].len() <= MAX_LABEL_LEN)
}

/// What parsing `query` gives, where `resolved` is what the public suffix
/// list says of it (domain, suffix, whether the suffix is listed). The first
/// filter that the query fails decides the error; a query that passes all of
/// them gives its primary domain and its labels.
pub open spec fn parse_outcome(
    query: Seq<u8>,
    resolved: Option<(Seq<u8>, Seq<u8>, bool)>,
) -> Result<(Seq<u8>, Seq<Seq<u8>>), ParseDnsError> {
    if query.len() < MIN_QUERY_LEN {
        Err(ParseDnsError::QueryLength)
    } else if query.len() > MAX_QUERY_LEN {
        Err(ParseDnsError::QueryLength)
    } else {
        match resolved {
            None => Err(ParseDnsError::InvalidDnsName),
            Some((domain, suffix, known)) => {
                let portion = label_portion(query, domain.len());
                if !known && !is_collection_domain(domain) {
                    Err(ParseDnsError::UnknownSuffix)
                } else if is_reserved_suffix(suffix) && !is_collection_domain(domain) {
                    Err(ParseDnsError::ReservedSuffix)
                } else if !is_valid_primary(domain) {
                    Err(ParseDnsError::InvalidPrim)
                } else if portion.len() == 0 {
                    Err(ParseDnsError::NoLabels)
                } else if portion == text("www") {
                    Err(ParseDnsError::NoStorageChannel)
                } else if has_bad_label(split(portion)) {
                    Err(ParseDnsError::InvalidDnsName)
                } else {
                    Ok((domain, split(portion)))
                }
            },
        }
    }
}

/// Whether `query` gets as far as the filter on its labels: it has the
/// length of a name, a primary domain that is written as one and whose
/// suffix is let through, and something other than `www` in front of it.
pub open spec fn reaches_labels(query: Seq<u8>, resolved: Option<(Seq<u8>, Seq<u8>, bool)>) -> bool {
    &&& MIN_QUERY_LEN <= query.len() <= MAX_QUERY_LEN
    &&& resolved matches Some((domain, suffix, known)) && {
        &&& known || is_collection_domain(domain)
        &&& !is_reserved_suffix(suffix) || is_collection_domain(domain)
        &&& is_valid_primary(domain)
        &&& label_portion(query, domain.len()).len() > 0
        &&& label_portion(query, domain.len()) != text("www")
    }
}

/// A query of fewer than 5 bytes, or of more than 255, is filtered out for
/// its length, whatever the public suffix list says of it.
pub proof fn lemma_short_query(query: Seq<u8>, resolved: Option<(Seq<u8>, Seq<u8>, bool)>)
    requires
        query.len() < MIN_QUERY_LEN || query.len() > MAX_QUERY_LEN,
    ensures
        parse_outcome(query, resolved) == Err::<(Seq<u8>, Seq<Seq<u8>>), _>(
            ParseDnsError::QueryLength,
        ),
{
}

/// A query with the length of a name whose suffix is not listed is filtered
/// out as such, unless its primary domain is the collection domain, which is
/// never filtered out for its suffix.
pub proof fn lemma_unknown_suffix(query: Seq<u8>, domain: Seq<u8>, suffix: Seq<u8>)
    requires
        MIN_QUERY_LEN <= query.len() <= MAX_QUERY_LEN,
    ensures
        !is_collection_domain(domain) ==> parse_outcome(query, Some((domain, suffix, false)))
            == Err::<(Seq<u8>, Seq<Seq<u8>>), _>(ParseDnsError::UnknownSuffix),
        is_collection_domain(domain) ==> parse_outcome(query, Some((domain, suffix, false)))
            != Err::<(Seq<u8>, Seq<Seq<u8>>), _>(ParseDnsError::UnknownSuffix) && parse_outcome(
            query,
            Some((domain, suffix, false)),
        ) != Err::<(Seq<u8>, Seq<Seq<u8>>), _>(ParseDnsError::ReservedSuffix),
{
}

/// A query that gets as far as the filter on its labels and has a label
/// that is empty or longer than 63 bytes is filtered out as no name; one
/// whose labels are all of 1 to 63 bytes passes, with those labels.
pub proof fn lemma_bad_label(query: Seq<u8>, resolved: Option<(Seq<u8>, Seq<u8>, bool)>)
    requires
        reaches_labels(query, resolved),
    ensures
        has_bad_label(split(label_portion(query, resolved.unwrap().0.len()))) ==> parse_outcome(
            query,
            resolved,
        ) == Err::<(Seq<u8>, Seq<Seq<u8>>), _>(ParseDnsError::InvalidDnsName),
        !has_bad_label(split(label_portion(query, resolved.unwrap().0.len()))) ==> parse_outcome(
            query,
            resolved,
        ) == Ok::<_, ParseDnsError>(
            (resolved.unwrap().0, split(label_portion(query, resolved.unwrap().0.len()))),
        ),
{
}

/// Whether the result `r` of a parse is the outcome `outcome`: the same
/// error, or the same primary domain and labels, in a well-formed payload.
pub open spec fn is_outcome(
    r: Result<(String, DnsPayload), ParseDnsError>,
    outcome: Result<(Seq<u8>, Seq<Seq<u8>>), ParseDnsError>,
) -> bool {
    match (r, outcome) {
        (Ok((prim, payload)), Ok((domain, labels))) => {
            &&& prim@ == as_chars(domain)
            &&& payload@ == labels
            &&& payload.wf()
        },
        (Err(e), Err(f)) => e == f,
        _ => false,
    }
}

/// The registrable domain of `name` by the public suffix list, with a trailing
/// dot removed: the domain, its public suffix, and whether the list holds
/// that suffix. `None` where the name has no registrable domain.
pub uninterp spec fn registrable_domain(name: Seq<u8>) -> Option<(Seq<u8>, Seq<u8>, bool)>;

/// What the bytes of `resolved` are.
pub open spec fn resolved_view(resolved: Option<Resolved>) -> Option<(Seq<u8>, Seq<u8>, bool)> {
    match resolved {
        Some(r) => Some((r.domain@, r.suffix@, r.known)),
        None => None,
    }
}

/// `psl::List::domain`, then `Domain::trim`, `as_bytes`, `suffix` and
/// `Suffix::is_known`, copied out into plain values. The lookup depends on
/// the name alone, so its result is [`registrable_domain`] of the name; the
/// domain it finds is a part of the name, so it is no longer than the name.
#[verifier::external_body]
fn resolve(query: &[u8]) -> (r: Option<Resolved>)
    ensures
        resolved_view(r) == registrable_domain(query@),
        r matches Some(d) ==> d.domain@.len() <= query@.len(),
{
    match psl::Psl::domain(&psl::List, query) {
        Some(domain) => {
            let domain = domain.trim();
            Some(
                Resolved {
                    domain: domain.as_bytes().to_vec(),
                    suffix: domain.suffix().as_bytes().to_vec(),
                    known: domain.suffix().is_known(),
                },
            )
        },
        None => None,
    }
}

/// `String::from_utf8_lossy`: bytes below 128 are valid UTF-8, each the
/// character with its own code, so the string holds exactly those characters.
#[verifier::external_body]
fn ascii_string(bytes: &[u8]) -> (s: String)
    requires
        forall|i: int| 0 <= i < bytes@.len() ==> bytes@[i] < 128,
    ensures
        s@ == as_chars(bytes@),
{
    String::from_utf8_lossy(bytes).into_owned()
}

/// Whether `a` and `b` hold the same bytes.
fn bytes_eq(a: &[u8], b: &[u8]) -> (r: bool)
    ensures
        r == (a@ == b@),
{
    if a.len() != b.len() {
        return false;
    }
    let mut i: usize = 0;
    while i < a.len()
        invariant
            a.len() == b.len(),
            i <= a.len(),
            forall|j: int| 0 <= j < i ==> a@[j] == b@[j],
        decreases a.len() - i,
    {
        if a[i] != b[i] {
            return false;
        }
        i += 1;
    }
    assert(a@ =~= b@);
    true
}

/// Whether `s` ends with `tail`.
fn ends_with(s: &[u8], tail: &[u8]) -> (r: bool)
    ensures
        r == is_suffix(s@, tail@),
{
    if tail.len() > s.len() {
        return false;
    }
    let offset: usize = s.len() - tail.len();
    let mut i: usize = 0;
    while i < tail.len()
        invariant
            offset + tail.len() == s.len(),
            i <= tail.len(),
            forall|j: int| 0 <= j < i ==> s@[offset + j] == tail@[j],
        decreases tail.len() - i,
    {
        if s[offset + i] != tail[i] {
            assert(s@.skip(offset as int)[i as int] != tail@[i as int]);
            return false;
        }
        i += 1;
    }
    assert(s@.skip(offset as int) =~= tail@);
    true
}

/// Whether `suffix` ends with a name that is reserved for special use.
pub fn reserved_suffix(suffix: &[u8]) -> (r: bool)
    ensures
        r == is_reserved_suffix(suffix@),
{
    ends_with(suffix, "arpa".as_bytes()) || ends_with(suffix, "local".as_bytes()) || ends_with(
        suffix,
        "intranet".as_bytes(),
    ) || ends_with(suffix, "lan".as_bytes()) || ends_with(suffix, "localhost".as_bytes())
        || ends_with(suffix, "example.com".as_bytes()) || ends_with(
        suffix,
        "example.net".as_bytes(),
    ) || ends_with(suffix, "example.org".as_bytes()) || ends_with(suffix, "internal".as_bytes())
        || ends_with(suffix, "private".as_bytes()) || ends_with(suffix, "corp".as_bytes())
        || ends_with(suffix, "home".as_bytes()) || ends_with(suffix, "invalid".as_bytes())
        || ends_with(suffix, "test".as_bytes()) || ends_with(suffix, "example".as_bytes())
}

/// Whether `domain` is written as a primary domain is.
pub fn valid_primary(domain: &[u8]) -> (r: bool)
    ensures
        r == is_valid_primary(domain@),
{
    let n: usize = domain.len();
    let start: usize = if n > 0 && domain[0] == UNDERSCORE {
        1
    } else {
        0
    };
    let ghost body = domain@.skip(start as int);
    proof {
        if start == 0 {
            assert(body =~= domain@);
        }
        assert(is_valid_primary(domain@) == is_primary_body(body));
    }
    if n == start {
        return false;
    }
    assert(body[0] == domain@[start as int]);
    if !alphanumeric(domain[start]) {
        return false;
    }
    let mut i: usize = start;
    while i < n
        invariant
            start <= i <= n,
            start < n,
            n == domain.len(),
            body == domain@.skip(start as int),
            is_alphanumeric(body[0]),
            is_valid_primary(domain@) == is_primary_body(body),
            forall|j: int| 0 <= j < i - start ==> is_domain_byte(#[trigger] body[j]),
        decreases n - i,
    {
        let b: u8 = domain[i];
        assert(body[i - start] == b);
        if !(alphanumeric(b) || b == DOT || b == HYPHEN) {
            assert(!is_domain_byte(body[i - start]));
            return false;
        }
        i += 1;
    }
    assert(body.len() == n - start);
    assert(body.last() == domain@[n - 1]);
    domain[n - 1] != HYPHEN
}

/// The pieces of a sequence take, with the separators between them, as many
/// bytes as the sequence has.
pub proof fn lemma_split_len(s: Seq<u8>)
    ensures
        split(s).len() >= 1,
        encoded_len(split(s)) == s.len(),
    decreases s.len(),
{
    broadcast use Seq::lemma_flatten_push;

    if s.len() == 0 {
        assert(split(s) =~= Seq::<Seq<u8>>::empty().push(Seq::empty()));
        assert(Seq::<Seq<u8>>::empty().flatten() =~= Seq::<u8>::empty());
    } else {
        lemma_split_len(s.drop_last());
        let before = split(s.drop_last());
        assert(before =~= before.drop_last().push(before.last()));
        assert(before.flatten().len() == before.drop_last().flatten().len() + before.last().len());
    }
}

/// No piece of a sequence holds a separator.
pub proof fn lemma_split_pieces(s: Seq<u8>)
    ensures
        forall|i: int, j: int|
            0 <= i < split(s).len() && 0 <= j < split(s)[i].len() ==> #[trigger] split(s)[i][j]
                != LABEL_SEP,
    decreases s.len(),
{
    if s.len() > 0 {
        lemma_split_pieces(s.drop_last());
        lemma_split_len(s.drop_last());
    }
}

/// The pieces of `portion` between its dots.
pub fn split_labels(portion: &[u8]) -> (labels: Vec<Vec<u8>>)
    ensures
        labels_of(labels@) == split(portion@),
{
    let mut labels: Vec<Vec<u8>> = Vec::new();
    let mut current: Vec<u8> = Vec::new();
    let mut i: usize = 0;
    proof {
        assert(portion@.take(0) =~= Seq::<u8>::empty());
        assert(labels_of(labels@).push(current@) =~= split(portion@.take(0)));
    }
    while i < portion.len()
        invariant
            i <= portion.len(),
            labels_of(labels@).push(current@) == split(portion@.take(i as int)),
        decreases portion.len() - i,
    {
        let ghost done = labels_of(labels@);
        let ghost piece = current@;
        let b: u8 = portion[i];
        proof {
            assert(portion@.take(i + 1).drop_last() =~= portion@.take(i as int));
            assert(portion@.take(i + 1).last() == b);
            assert(done.push(piece).drop_last() =~= done);
        }
        if b == LABEL_SEP {
            labels.push(current);
            current = Vec::new();
            assert(labels_of(labels@) =~= done.push(piece));
        } else {
            current.push(b);
        }
        i += 1;
    }
    assert(portion@.take(i as int) =~= portion@);
    let ghost done = labels_of(labels@);
    labels.push(current);
    assert(labels_of(labels@) =~= done.push(current@));
    labels
}

/// A copy of `labels`.
pub fn clone_labels(labels: &Vec<Vec<u8>>) -> (r: Vec<Vec<u8>>)
    ensures
        labels_of(r@) == labels_of(labels@),
{
    let mut r: Vec<Vec<u8>> = Vec::with_capacity(labels.len());
    let mut i: usize = 0;
    while i < labels.len()
        invariant
            i <= labels.len(),
            labels_of(r@) == labels_of(labels@).take(i as int),
        decreases labels.len() - i,
    {
        let ghost before = labels_of(r@);
        let label = labels[i].clone();
        assert(label@ == labels@[i as int]@);
        r.push(label);
        assert(labels_of(r@) =~= before.push(labels@[i as int]@));
        assert(labels_of(labels@).take(i + 1) =~= labels_of(labels@).take(i as int).push(
            labels@[i as int]@,
        ));
        i += 1;
    }
    assert(labels_of(labels@).take(i as int) =~= labels_of(labels@));
    r
}

/// Whether each label has 1 to 63 bytes.
fn labels_in_bounds(labels: &Vec<Vec<u8>>) -> (r: bool)
    ensures
        r == !has_bad_label(labels_of(labels@)),
{
    let mut i: usize = 0;
    while i < labels.len()
        invariant
            i <= labels.len(),
            forall|j: int|
                0 <= j < i ==> 1 <= (#[trigger] labels_of(labels@)[j]).len() <= MAX_LABEL_LEN,
        decreases labels.len() - i,
    {
        if labels[i].len() == 0 || labels[i].len() > MAX_LABEL_LEN {
            assert(!(1 <= labels_of(labels@)[i as int].len() <= MAX_LABEL_LEN));
            return false;
        }
        i += 1;
    }
    true
}

/// Filters `dns_query`, given what the public suffix list says of it, and
/// splits it into its primary domain and its payload.
pub fn parse_resolved(dns_query: &[u8], resolved: Option<Resolved>) -> (r: Result<
    (String, DnsPayload),
    ParseDnsError,
>)
    ensures
        is_outcome(r, parse_outcome(dns_query@, resolved_view(resolved))),
{
    let q_len: usize = dns_query.len();
    if q_len < MIN_QUERY_LEN {
        return Err(ParseDnsError::QueryLength);
    }
    if q_len > MAX_QUERY_LEN {
        return Err(ParseDnsError::QueryLength);
    }
    let found = match resolved {
        Some(found) => found,
        None => {
            return Err(ParseDnsError::InvalidDnsName);
        },
    };
    let domain: &[u8] = found.domain.as_slice();
    let is_collection: bool = bytes_eq(domain, "tun.lan".as_bytes());
    if !found.known && !is_collection {
        return Err(ParseDnsError::UnknownSuffix);
    }
    if reserved_suffix(found.suffix.as_slice()) && !is_collection {
        return Err(ParseDnsError::ReservedSuffix);
    }
    if !valid_primary(domain) {
        return Err(ParseDnsError::InvalidPrim);
    }
    if domain.len() >= q_len || q_len - domain.len() <= 1 {
        return Err(ParseDnsError::NoLabels);
    }
    let portion: &[u8] = slice_subrange(dns_query, 0, q_len - domain.len() - 1);
    assert(portion@ == label_portion(dns_query@, domain@.len()));
    if bytes_eq(portion, "www".as_bytes()) {
        return Err(ParseDnsError::NoStorageChannel);
    }
    let labels = split_labels(portion);
    if !labels_in_bounds(&labels) {
        return Err(ParseDnsError::InvalidDnsName);
    }
    proof {
        lemma_split_len(portion@);
        lemma_primary_is_ascii(domain@);
    }
    let payload = DnsPayload { labels, payload_len: portion.len() as u8 };
    Ok((ascii_string(domain), payload))
}

/// The bytes of a primary domain that is written as one are all below 128.
pub proof fn lemma_primary_is_ascii(domain: Seq<u8>)
    requires
        is_valid_primary(domain),
    ensures
        forall|i: int| 0 <= i < domain.len() ==> domain[i] < 128,
{
    assert forall|i: int| 0 <= i < domain.len() implies domain[i] < 128 by {
        if domain[0] == UNDERSCORE {
            if i > 0 {
                assert(is_domain_byte(domain.skip(1)[i - 1]));
            }
        } else {
            assert(is_domain_byte(domain[i]));
        }
    }
}

/// Parses and filters `dns_query`: a query that passes every filter gives
/// its primary domain and the labels in front of it.
pub fn parse_dns(dns_query: &[u8]) -> (r: Result<(String, DnsPayload), ParseDnsError>)
    ensures
        is_outcome(r, parse_outcome(dns_query@, registrable_domain(dns_query@))),
        dns_query@.len() < MIN_QUERY_LEN || dns_query@.len() > MAX_QUERY_LEN ==> r == Err::<
            (String, DnsPayload),
            _,
        >(ParseDnsError::QueryLength),
        MIN_QUERY_LEN <= dns_query@.len() <= MAX_QUERY_LEN && (registrable_domain(
            dns_query@,
        ) matches Some(found) && !found.2 && !is_collection_domain(found.0)) ==> r == Err::<
            (String, DnsPayload),
            _,
        >(ParseDnsError::UnknownSuffix),
        reaches_labels(dns_query@, registrable_domain(dns_query@)) && has_bad_label(
            split(label_portion(dns_query@, registrable_domain(dns_query@).unwrap().0.len())),
        ) ==> r == Err::<(String, DnsPayload), _>(ParseDnsError::InvalidDnsName),
        r matches Ok(parsed) ==> parsed.1.wf(),
{
    let q_len: usize = dns_query.len();
    if q_len < MIN_QUERY_LEN {
        return Err(ParseDnsError::QueryLength);
    }
    if q_len > MAX_QUERY_LEN {
        return Err(ParseDnsError::QueryLength);
    }
    let resolved = resolve(dns_query);
    parse_resolved(dns_query, resolved)
}

} // verus!
