use dns_features::parse_dns::{
    clone_labels, parse_dns, parse_resolved, reserved_suffix, split_labels, valid_primary,
    DnsPayload, ParseDnsError, Resolved,
};

#[test]
fn test_valid_domain() {
    // Two labels of 12 bytes in all, and the separator between them.
    let expected = DnsPayload {
        labels: vec!["label1".as_bytes().into(), "label2".as_bytes().into()],
        payload_len: 12 + 1,
    };

    let q = b"label1.label2.example.com";
    let (_, result) = parse_dns(&q[..]).unwrap();

    assert_eq!(12, result.labels.iter().map(|label| label.len()).sum::<usize>());
    assert_eq!(expected, result)
}

#[test]
fn filter_empty_query() {
    let empty = vec![];
    assert!(parse_dns(&empty).is_err())
}

#[test]
fn filter_no_labels() {
    let no_label = b"example.com".as_ref();
    assert!(parse_dns(&no_label).is_err());
}

#[test]
fn filter_empty_label() {
    let empty_label = b".example.com".as_ref();
    assert!(parse_dns(&empty_label).is_err());
}

#[test]
fn filter_invalid_double_sep() {
    let double_sep_empty = b"..example.com".as_ref();
    assert!(parse_dns(&double_sep_empty).is_err())
}

#[test]
fn filter_invalid_double_sep_not_empty() {
    let double_sep_not_empty = b"test..test.example.com".as_ref();
    assert!(parse_dns(&double_sep_not_empty).is_err())
}

#[test]
fn filter_invalid_query_too_long() {
    let ll = "a".repeat(63);
    let too_long = format!("{}.{}.{}.{}.example.com", ll, ll, ll, ll);
    let too_long = too_long.as_bytes().to_owned();

    assert!(parse_dns(&too_long).is_err())
}

#[test]
fn filter_invalid_label_too_long() {
    let ll = "a".repeat(70);
    let one_long_label = format!("{}.example.com", ll);
    let one_long_label = one_long_label.as_bytes().to_owned();

    assert!(parse_dns(&one_long_label).is_err())
}

#[test]
fn filter_root_label() {
    let root_label = b".".as_ref();
    assert!(parse_dns(&root_label).is_err())
}

#[test]
fn filter_short_query_fast_path() {
    let short_query = b".a.b".as_ref();
    // Fast path by checking len <= 4 (these cannot have labels)
    assert!(parse_dns(&short_query).is_err())
}

#[test]
fn filter_unknown_prim() {
    let unknown_prim = b"label.domain.com".as_ref();
    let unknown_tld = b"label.domain.localtld".as_ref();

    // Make sure our query is valid with a known suffix...
    assert!(parse_dns(&unknown_prim).is_ok());

    // .. and rejected with an unknown suffix
    assert!(parse_dns(&unknown_tld).is_err());
}

#[test]
fn actual_bytes_in_primary_domain() {
    let bytes_in_domain = b"null\x00.linefeed\x0A.carriagereturn\x0D.com".as_ref();
    assert!(parse_dns(&bytes_in_domain).is_err());
}

#[test]
fn payload_lengths() {
    let one_label = b"one.domain.com".as_ref();
    let two_label = b"two.two.domain.com".as_ref();
    let ten_label = b"a.a.a.a.a.a.a.a.a.a.domain.com".as_ref();

    let (_, pl_one) = parse_dns(&one_label).unwrap();
    let (_, pl_two) = parse_dns(&two_label).unwrap();
    let (_, pl_ten) = parse_dns(&ten_label).unwrap();

    assert_eq!(3, pl_one.payload_len);
    assert_eq!(7, pl_two.payload_len);
    assert_eq!(19, pl_ten.payload_len);
}

fn resolved(domain: &[u8], suffix: &[u8], known: bool) -> Option<Resolved> {
    Some(Resolved { domain: domain.to_vec(), suffix: suffix.to_vec(), known })
}

#[test]
fn primary_domain_is_returned() {
    let (prim, payload) = parse_dns(b"a.b.example.co.uk").unwrap();
    assert_eq!(prim, "example.co.uk");
    assert_eq!(payload.labels, vec![b"a".to_vec(), b"b".to_vec()]);
    assert_eq!(payload.payload_len, 3);
}

#[test]
fn short_queries_are_query_length() {
    for q in [&b""[..], &b"a"[..], &b"a.b"[..], &b"a.de"[..], &b".a.b"[..]] {
        assert_eq!(parse_dns(q).unwrap_err(), ParseDnsError::QueryLength);
    }
    assert_eq!(
        parse_resolved(b"a.de", resolved(b"a.de", b"de", true)).unwrap_err(),
        ParseDnsError::QueryLength
    );
}

#[test]
fn long_queries_are_query_length() {
    let ll = "a".repeat(63);
    let q = format!("{}.{}.{}.{}.example.com", ll, ll, ll, ll);
    assert_eq!(q.len(), 267);
    assert_eq!(parse_dns(q.as_bytes()).unwrap_err(), ParseDnsError::QueryLength);
    let q = format!("{}.{}.{}.{}.ab.de", ll, ll, ll, &ll[..58]);
    assert_eq!(q.len(), 256);
    assert_eq!(parse_dns(q.as_bytes()).unwrap_err(), ParseDnsError::QueryLength);
    assert_eq!(parse_resolved(q.as_bytes(), None).unwrap_err(), ParseDnsError::QueryLength);
}

#[test]
fn longest_name_passes() {
    let ll = "a".repeat(63);
    let q = format!("{}.{}.{}.{}.ab.de", ll, ll, ll, &ll[..57]);
    assert_eq!(q.len(), 255);
    let (prim, payload) = parse_dns(q.as_bytes()).unwrap();
    assert_eq!(prim, "ab.de");
    assert_eq!(payload.labels.len(), 4);
    assert_eq!(payload.payload_len, 249);
}

#[test]
fn unresolvable_is_no_name() {
    assert_eq!(parse_dns(b"co.uk").unwrap_err(), ParseDnsError::InvalidDnsName);
    assert_eq!(parse_resolved(b"abcdef", None).unwrap_err(), ParseDnsError::InvalidDnsName);
}

#[test]
fn unknown_suffix_is_rejected() {
    assert_eq!(
        parse_dns(b"label.domain.localtld").unwrap_err(),
        ParseDnsError::UnknownSuffix
    );
    assert_eq!(
        parse_resolved(b"a.b.zz", resolved(b"b.zz", b"zz", false)).unwrap_err(),
        ParseDnsError::UnknownSuffix
    );
}

#[test]
fn collection_domain_is_let_through() {
    let (prim, payload) = parse_dns(b"data.tun.lan").unwrap();
    assert_eq!(prim, "tun.lan");
    assert_eq!(payload.labels, vec![b"data".to_vec()]);
    assert_eq!(parse_dns(b"data.fun.lan").unwrap_err(), ParseDnsError::UnknownSuffix);
}

#[test]
fn reserved_suffixes_are_rejected() {
    assert_eq!(parse_dns(b"1.0.0.127.in-addr.arpa").unwrap_err(), ParseDnsError::ReservedSuffix);
    for suffix in [
        "arpa", "local", "intranet", "lan", "localhost", "example.com", "example.net",
        "example.org", "internal", "private", "corp", "home", "invalid", "test", "example",
    ] {
        assert!(reserved_suffix(suffix.as_bytes()));
        let domain = format!("name.{}", suffix);
        let query = format!("label.{}", domain);
        assert_eq!(
            parse_resolved(query.as_bytes(), resolved(domain.as_bytes(), suffix.as_bytes(), true))
                .unwrap_err(),
            ParseDnsError::ReservedSuffix
        );
    }
    assert!(reserved_suffix(b"xlan"));
    assert!(!reserved_suffix(b"com"));
    assert!(!reserved_suffix(b"lanx"));
    assert!(!reserved_suffix(b""));
}

#[test]
fn primary_domain_charset() {
    assert!(valid_primary(b"example.com"));
    assert!(valid_primary(b"_example.com"));
    assert!(valid_primary(b"ex-ample.co.uk"));
    assert!(valid_primary(b"a"));
    assert!(valid_primary(b"9.9"));
    assert!(!valid_primary(b""));
    assert!(!valid_primary(b"_"));
    assert!(!valid_primary(b"__a.com"));
    assert!(!valid_primary(b"-example.com"));
    assert!(!valid_primary(b".example.com"));
    assert!(!valid_primary(b"example.com-"));
    assert!(!valid_primary(b"exa_mple.com"));
    assert!(!valid_primary(b"ex ample.com"));
    assert!(!valid_primary(b"ex\xc3\xa4mple.com"));
    assert_eq!(
        parse_resolved(b"a.b_c.com", resolved(b"b_c.com", b"com", true)).unwrap_err(),
        ParseDnsError::InvalidPrim
    );
}

#[test]
fn nothing_in_front_is_no_labels() {
    assert_eq!(parse_dns(b"example.com").unwrap_err(), ParseDnsError::NoLabels);
    assert_eq!(parse_dns(b".example.com").unwrap_err(), ParseDnsError::NoLabels);
}

#[test]
fn www_is_no_storage_channel() {
    assert_eq!(parse_dns(b"www.example.com").unwrap_err(), ParseDnsError::NoStorageChannel);
    assert!(parse_dns(b"www.a.example.com").is_ok());
    assert!(parse_dns(b"wwww.example.com").is_ok());
    assert!(parse_dns(b"WWW.example.com").is_ok());
}

#[test]
fn bad_labels_are_no_names() {
    assert_eq!(parse_dns(b"..example.com").unwrap_err(), ParseDnsError::InvalidDnsName);
    assert_eq!(parse_dns(b"a..b.example.com").unwrap_err(), ParseDnsError::InvalidDnsName);
    let long = format!("{}.example.com", "a".repeat(64));
    assert_eq!(parse_dns(long.as_bytes()).unwrap_err(), ParseDnsError::InvalidDnsName);
    let fits = format!("{}.example.com", "a".repeat(63));
    assert_eq!(parse_dns(fits.as_bytes()).unwrap().1.payload_len, 63);
}

#[test]
fn earlier_filter_wins() {
    assert_eq!(parse_dns(b"x..y.domain.localtld").unwrap_err(), ParseDnsError::UnknownSuffix);
}

#[test]
fn labels_are_split_at_dots() {
    assert_eq!(split_labels(b""), vec![Vec::<u8>::new()]);
    assert_eq!(split_labels(b"a"), vec![b"a".to_vec()]);
    assert_eq!(split_labels(b"a."), vec![b"a".to_vec(), vec![]]);
    assert_eq!(split_labels(b".a"), vec![vec![], b"a".to_vec()]);
    assert_eq!(split_labels(b"ab..c"), vec![b"ab".to_vec(), vec![], b"c".to_vec()]);
}

#[test]
fn payloads_are_copied() {
    let payload = DnsPayload { labels: vec![b"ab".to_vec(), b"c".to_vec()], payload_len: 4 };
    assert_eq!(payload.duplicate(), payload);
    assert_eq!(clone_labels(&payload.labels), payload.labels);
}
