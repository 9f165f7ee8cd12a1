use teca::address::AtomId;
use teca::codec::ContentCodecDescriptor;
use teca::neighborhood::{
    InsertStatus, Neighborhood, NeighborhoodAddress, NeighborhoodError, NeighborhoodRow, Resolution,
};
use teca::scheme::Scheme;
use teca::snapshot::{decode_neighborhood, encode_neighborhood};
use teca::artifact::ArtifactError;

fn small_scheme() -> Scheme {
    Scheme::fallback_only(11, ContentCodecDescriptor::BinaryMsb0).expect("valid small scheme")
}

fn tiny_scheme() -> Scheme {
    Scheme::fallback_only(3, ContentCodecDescriptor::BinaryMsb0).expect("valid tiny scheme")
}

fn first_atom(scheme: &Scheme, bytes: &[u8]) -> AtomId {
    scheme.address(bytes).unwrap().next().expect("stream nonempty")
}

/// Brute-force reference: `1 + max LCP` (exactly one atom for singletons).
fn brute_addresses(scheme: &Scheme, members: &[Vec<u8>], mine: &[u8]) -> Vec<AtomId> {
    if members.len() == 1 {
        return vec![first_atom(scheme, mine)];
    }
    let mut max_lcp = 0usize;
    for other in members.iter().filter(|o| o.as_slice() != mine) {
        let mut a = scheme.address(mine).unwrap();
        let mut b = scheme.address(other).unwrap();
        let mut lcp = 0usize;
        loop {
            match (a.next(), b.next()) {
                (Some(x), Some(y)) if x == y => lcp += 1,
                _ => break,
            }
        }
        max_lcp = max_lcp.max(lcp);
    }
    scheme.prefix(mine, max_lcp + 1).unwrap()
}

type Snapshot = Vec<(Vec<u8>, Vec<AtomId>, Option<Vec<u8>>)>;

fn snapshot(n: &Neighborhood) -> Snapshot {
    n.entries()
        .iter()
        .map(|e| {
            (
                e.bytes().to_vec(),
                e.address().atoms().to_vec(),
                e.identifier().map(<[u8]>::to_vec),
            )
        })
        .collect()
}

fn tiny_permutations(n: usize) -> Vec<Vec<usize>> {
    fn rec(k: usize, set: &mut Vec<usize>, acc: &mut Vec<Vec<usize>>) {
        if k == set.len() {
            acc.push(set.clone());
            return;
        }
        for i in k..set.len() {
            set.swap(i, k);
            rec(k + 1, set, acc);
        }
    }
    let mut set: Vec<usize> = (0..n).collect();
    let mut acc = Vec::new();
    rec(0, &mut set, &mut acc);
    acc
}

fn permute<T: Clone>(v: &[T], perm: &[usize]) -> Vec<T> {
    perm.iter().map(|&i| v[i].clone()).collect()
}

struct Lcg(u64);
impl Lcg {
    fn new(seed: u64) -> Self {
        Self(seed)
    }
    fn next_u64(&mut self) -> u64 {
        self.0 = self
            .0
            .wrapping_mul(6364136223846793005)
            .wrapping_add(1442695040888963407);
        self.0
    }
}

#[test]
fn empty_neighborhood_validates() {
    let n = Neighborhood::new(small_scheme()).unwrap();
    assert!(n.is_empty());
    assert_eq!(n.len(), 0);
    n.validate().unwrap();
}

#[test]
fn first_distinct_content_gets_one_atom() {
    let mut n = Neighborhood::new(small_scheme()).unwrap();
    let res = n.insert(b"alpha".to_vec()).unwrap();
    assert_eq!(res.status, InsertStatus::Inserted);
    assert_eq!(res.address.len(), 1);
    assert!(res.changes.is_empty());
    assert_eq!(
        res.address.atoms(),
        brute_addresses(n.scheme(), &[b"alpha".to_vec()], b"alpha")
    );
}

#[test]
fn colliding_contents_extend_to_shortest_distinct_prefixes() {
    let mut n = Neighborhood::new(tiny_scheme()).unwrap();
    let a = b"aa".to_vec();
    let b = b"bb".to_vec();
    n.insert(a.clone()).unwrap();
    n.insert(b.clone()).unwrap();
    let got_a = n.get_by_bytes(&a).unwrap().address().atoms().to_vec();
    let got_b = n.get_by_bytes(&b).unwrap().address().atoms().to_vec();
    assert_eq!(got_a, brute_addresses(n.scheme(), &[a.clone(), b.clone()], &a));
    assert_eq!(got_b, brute_addresses(n.scheme(), &[a.clone(), b.clone()], &b));
    assert!(got_a.len() > 1 || got_b.len() > 1);
    n.validate().unwrap();
}

#[test]
fn inserting_collision_lengthens_affected_entries_only() {
    let mut n = Neighborhood::new(tiny_scheme()).unwrap();
    let members = [b"aaaa".to_vec(), b"aaab".to_vec(), b"bbbb".to_vec()];
    for m in &members {
        n.insert(m.clone()).unwrap();
    }
    let before: Vec<(Vec<u8>, Vec<AtomId>)> =
        snapshot(&n).into_iter().map(|(b, a, _)| (b, a)).collect();
    let blocker = b"aacc".to_vec();
    n.insert(blocker.clone()).unwrap();
    let mut all: Vec<Vec<u8>> = before.iter().map(|(b, _)| b.clone()).collect();
    all.push(blocker.clone());
    for (bytes, address) in &before {
        let expect = brute_addresses(n.scheme(), &all, bytes);
        let actual = n.get_by_bytes(bytes).unwrap().address().atoms().to_vec();
        if bytes.as_slice() == b"aaaa" || bytes.as_slice() == b"aaab" {
            assert!(actual.len() >= address.len(), "{bytes:?} lengthened");
        }
        assert_eq!(actual, expect);
    }
    assert_eq!(
        n.get_by_bytes(b"bbbb").unwrap().address().atoms(),
        before
            .iter()
            .find(|(b, _)| b == b"bbbb")
            .map(|(_, a)| a.as_slice())
            .unwrap()
    );
}

#[test]
fn noncolliding_entries_do_not_change() {
    let mut n = Neighborhood::new(small_scheme()).unwrap();
    n.insert(b"a".to_vec()).unwrap();
    n.insert(b"bb".to_vec()).unwrap();
    let before = snapshot(&n);
    n.insert(b"ccc".to_vec()).unwrap();
    n.insert(b"dddd".to_vec()).unwrap();
    for (bytes, address, _) in &before {
        assert_eq!(
            n.get_by_bytes(bytes).unwrap().address().atoms(),
            address.as_slice(),
            "{bytes:?}"
        );
    }
    assert_eq!(n.get_by_bytes(b"ccc").unwrap().address().len(), 5);
    n.validate().unwrap();
}

#[test]
fn every_permutation_produces_identical_final_addresses() {
    let set: Vec<Vec<u8>> = (0..5)
        .map(|i| format!("payload-{i}").into_bytes())
        .collect();
    let mut reference: Option<Vec<_>> = None;
    for perm in tiny_permutations(set.len()) {
        let mut n = Neighborhood::new(tiny_scheme()).unwrap();
        for bytes in permute(&set, &perm) {
            n.insert(bytes).unwrap();
        }
        let got = snapshot(&n);
        match &reference {
            None => reference = Some(got),
            Some(expected) => assert_eq!(expected, &got),
        }
    }
}

#[test]
fn duplicate_bytes_insertion_is_idempotent() {
    let mut n = Neighborhood::new(small_scheme()).unwrap();
    let first = n.insert(b"x".to_vec()).unwrap();
    let second = n.insert(b"x".to_vec()).unwrap();
    assert_eq!(second.status, InsertStatus::Existing);
    assert_eq!(second.address, first.address);
    assert!(second.changes.is_empty());
    assert_eq!(n.len(), 1);
}

#[test]
fn identifiers_never_affect_addresses() {
    let rows = [b"foo".to_vec(), b"bar".to_vec(), b"baz".to_vec()];
    let mut plain = Neighborhood::new(tiny_scheme()).unwrap();
    let mut tagged = Neighborhood::new(tiny_scheme()).unwrap();
    for (i, bytes) in rows.iter().enumerate() {
        plain.insert(bytes.clone()).unwrap();
        tagged
            .insert_with_identifier(bytes.clone(), format!("id-{i}").into_bytes())
            .unwrap();
    }
    let p = snapshot(&plain);
    let t = snapshot(&tagged);
    for ((pb, pa, _), (tb, ta, _)) in p.iter().zip(&t) {
        assert_eq!(pb, tb);
        assert_eq!(pa, ta);
    }
}

#[test]
fn duplicate_identifier_on_different_content_rejected_transactionally() {
    let mut n = Neighborhood::new(small_scheme()).unwrap();
    n.insert_with_identifier(b"one".to_vec(), b"shared".to_vec())
        .unwrap();
    let before = n.duplicate();
    let err = n
        .insert_with_identifier(b"two".to_vec(), b"shared".to_vec())
        .unwrap_err();
    assert!(matches!(err, NeighborhoodError::IdentifierAlreadyAssigned(_)));
    assert_eq!(n, before);
}

#[test]
fn conflicting_identifiers_for_identical_content_rejected() {
    let mut n = Neighborhood::new(small_scheme()).unwrap();
    n.insert_with_identifier(b"same".to_vec(), b"id-a".to_vec())
        .unwrap();
    let before = n.duplicate();
    let err = n
        .insert_with_identifier(b"same".to_vec(), b"id-b".to_vec())
        .unwrap_err();
    assert!(matches!(
        err,
        NeighborhoodError::ConflictingIdentifierForContent(_)
    ));
    assert_eq!(n, before);
    assert_eq!(n.get_by_identifier(b"id-a").unwrap().bytes(), b"same");
}

#[test]
fn attaching_identifier_to_existing_content_is_existing() {
    let mut n = Neighborhood::new(small_scheme()).unwrap();
    n.insert(b"k".to_vec()).unwrap();
    let before = n.get_by_bytes(b"k").unwrap().address().clone();
    let res = n
        .insert_with_identifier(b"k".to_vec(), b"late-id".to_vec())
        .unwrap();
    assert_eq!(res.status, InsertStatus::Existing);
    assert!(res.changes.is_empty());
    assert_eq!(n.get_by_bytes(b"k").unwrap().address(), &before);
    assert_eq!(n.get_by_identifier(b"late-id").unwrap().bytes(), b"k");
    n.validate().unwrap();
}

#[test]
fn removal_restores_canonical_shortest_prefixes_and_reports_changes() {
    let mut n = Neighborhood::new(tiny_scheme()).unwrap();
    let members: Vec<Vec<u8>> = (0..5).map(|i| format!("m{i}").into_bytes()).collect();
    for bytes in &members {
        n.insert(bytes.clone()).unwrap();
    }
    for b in &members {
        assert_eq!(
            n.get_by_bytes(b).unwrap().address().atoms(),
            &brute_addresses(n.scheme(), &members, b)[..]
        );
    }
    let removed = members[2].clone();
    let result = n.remove_by_bytes(&removed).unwrap().unwrap();
    assert_eq!(result.removed.bytes(), &removed[..]);
    let remaining: Vec<Vec<u8>> = members
        .iter()
        .filter(|b| b.as_slice() != removed.as_slice())
        .cloned()
        .collect();
    for b in &remaining {
        assert_eq!(
            n.get_by_bytes(b).unwrap().address().atoms(),
            &brute_addresses(n.scheme(), &remaining, b)[..],
            "{b:?}"
        );
    }
    for change in &result.changes {
        assert!(remaining.contains(&change.bytes));
        assert!(change.new.len() <= change.old.len());
    }
    n.validate().unwrap();
}

#[test]
fn removal_shortens_one_member_to_single_atom() {
    let mut n = Neighborhood::new(small_scheme()).unwrap();
    n.insert(b"solo".to_vec()).unwrap();
    n.insert(b"duo".to_vec()).unwrap();
    n.remove_by_bytes(b"solo").unwrap().unwrap();
    assert_eq!(n.get_by_bytes(b"duo").unwrap().address().len(), 1);
    n.validate().unwrap();
}

#[test]
fn arbitrary_prefix_resolution_unique_and_ambiguous() {
    let mut n = Neighborhood::new(tiny_scheme()).unwrap();
    n.insert(b"aaaa".to_vec()).unwrap();
    n.insert(b"aaab".to_vec()).unwrap();
    n.insert(b"bbbb".to_vec()).unwrap();

    let mut shared = Vec::new();
    let mut a = n.scheme().address(b"aaaa").unwrap();
    let mut b = n.scheme().address(b"aaab").unwrap();
    while let (Some(x), Some(y)) = (a.next(), b.next()) {
        if x != y {
            break;
        }
        shared.push(x);
    }
    assert!(!shared.is_empty());
    assert!(matches!(
        n.resolve(&NeighborhoodAddress::new(shared.clone()).unwrap()),
        Ok(Resolution::Ambiguous { matches: 2 })
    ));

    let full_a = n.get_by_bytes(b"aaaa").unwrap().address().clone();
    assert!(matches!(n.resolve(&full_a), Ok(Resolution::Unique(e)) if e.bytes() == b"aaaa"));
}

#[test]
fn prefix_mismatching_stream_continuation_is_notfound() {
    let mut n = Neighborhood::new(tiny_scheme()).unwrap();
    n.insert(b"aaaa".to_vec()).unwrap();
    n.insert(b"aaab".to_vec()).unwrap();
    let addr = n.get_by_bytes(b"aaaa").unwrap().address().clone();
    let next = n.scheme().prefix(b"aaaa", addr.len() + 1).unwrap()[addr.len()];
    let mut bogus = AtomId((next.0 + 1) % 3);
    if bogus == next {
        bogus = AtomId((next.0 + 2) % 3);
    }
    let mut extended = addr.atoms().to_vec();
    extended.push(bogus);
    assert!(matches!(
        n.resolve(&NeighborhoodAddress::new(extended).unwrap()),
        Ok(Resolution::NotFound)
    ));
    let mut genuine = addr.atoms().to_vec();
    genuine.push(next);
    assert!(matches!(
        n.resolve(&NeighborhoodAddress::new(genuine).unwrap()),
        Ok(Resolution::Unique(e)) if e.bytes() == b"aaaa"
    ));
}

#[test]
fn old_shorter_address_becomes_ambiguous_after_colliding_insertion() {
    let mut n = Neighborhood::new(tiny_scheme()).unwrap();
    n.insert(b"zapp".to_vec()).unwrap();
    let old = n.get_by_bytes(b"zapp").unwrap().address().clone();
    assert_eq!(old.len(), 1);
    n.insert(b"zbur".to_vec()).unwrap();
    assert!(matches!(
        n.resolve(&old),
        Ok(Resolution::Ambiguous { matches: 2 })
    ));
}

#[test]
fn old_longer_address_still_resolves_after_deletion_shortens() {
    let mut n = Neighborhood::new(tiny_scheme()).unwrap();
    n.insert(b"qaaa".to_vec()).unwrap();
    n.insert(b"qabb".to_vec()).unwrap();
    n.insert(b"qccc".to_vec()).unwrap();
    let before = n.duplicate();
    let long = before.get_by_bytes(b"qccc").unwrap().address().clone();
    n.remove_by_bytes(b"qaaa").unwrap().unwrap();
    n.remove_by_bytes(b"qabb").unwrap().unwrap();
    assert!(n.get_by_bytes(b"qccc").unwrap().address().len() < long.len());
    assert!(matches!(
        n.resolve(&long),
        Ok(Resolution::Unique(e)) if e.bytes() == b"qccc"
    ));
}

#[test]
fn from_rows_is_permutation_independent() {
    let rows: Vec<NeighborhoodRow> = (0..7)
        .map(|i| NeighborhoodRow {
            bytes: format!("row-{i}").into_bytes(),
            identifier: None,
        })
        .collect();
    let base = Neighborhood::from_rows(tiny_scheme(), rows.clone()).unwrap();
    for perm in tiny_permutations(rows.len()) {
        let built = Neighborhood::from_rows(tiny_scheme(), permute(&rows, &perm)).unwrap();
        assert_eq!(snapshot(&built), snapshot(&base));
    }
}

#[test]
fn merge_equals_fresh_construction_over_union() {
    let mut left = Neighborhood::new(tiny_scheme()).unwrap();
    left.insert(b"merge-a".to_vec()).unwrap();
    left.insert(b"merge-b".to_vec()).unwrap();
    let mut right = Neighborhood::new(tiny_scheme()).unwrap();
    right.insert(b"merge-b".to_vec()).unwrap();
    right.insert(b"merge-c".to_vec()).unwrap();

    let union: std::collections::BTreeMap<Vec<u8>, Option<Vec<u8>>> = snapshot(&left)
        .into_iter()
        .chain(snapshot(&right))
        .map(|(b, _, id)| (b, id))
        .collect();
    let merged = Neighborhood::from_rows(
        tiny_scheme(),
        union
            .into_iter()
            .map(|(bytes, identifier)| NeighborhoodRow { bytes, identifier })
            .collect(),
    )
    .unwrap();

    let mut subject = Neighborhood::new(tiny_scheme()).unwrap();
    subject.insert(b"merge-a".to_vec()).unwrap();
    subject.insert(b"merge-b".to_vec()).unwrap();
    subject.merge(&right).unwrap();
    subject.validate().unwrap();
    assert_eq!(snapshot(&subject), snapshot(&merged));
}

#[test]
fn scheme_mismatch_merge_rejected_without_mutation() {
    let mut n = Neighborhood::new(small_scheme()).unwrap();
    n.insert(b"x".to_vec()).unwrap();
    let other = Neighborhood::new(tiny_scheme()).unwrap();
    let before = n.duplicate();
    let err = n.merge(&other).unwrap_err();
    assert_eq!(err, NeighborhoodError::SchemeMismatch);
    assert_eq!(n, before);
}

#[test]
fn merge_identifier_conflict_is_transactional() {
    let mut left = Neighborhood::new(small_scheme()).unwrap();
    left.insert_with_identifier(b"alpha".to_vec(), b"row-1".to_vec())
        .unwrap();
    let mut right = Neighborhood::new(small_scheme()).unwrap();
    right
        .insert_with_identifier(b"beta".to_vec(), b"row-1".to_vec())
        .unwrap();
    let before = left.duplicate();
    let err = left.merge(&right).unwrap_err();
    assert!(matches!(err, NeighborhoodError::IdentifierAlreadyAssigned(_)));
    assert_eq!(left, before);
}

#[test]
fn custom_schemes_work_not_only_embedded_default() {
    let mut n = Neighborhood::new(tiny_scheme()).unwrap();
    n.insert(b"c1".to_vec()).unwrap();
    n.insert(b"c2".to_vec()).unwrap();
    n.insert(b"c3".to_vec()).unwrap();
    n.validate().unwrap();
    let bytes = encode_neighborhood(&n).unwrap();
    let decoded = decode_neighborhood(&bytes).unwrap();
    assert_eq!(decoded.scheme(), n.scheme());
    assert_eq!(decoded.len(), n.len());
}

#[test]
fn artifact_round_trip_preserves_neighborhood() {
    let mut n = Neighborhood::new(small_scheme()).unwrap();
    n.insert_with_identifier(b"art-a".to_vec(), b"id-a".to_vec())
        .unwrap();
    n.insert(b"art-b".to_vec()).unwrap();
    n.insert_with_identifier(b"art-c".to_vec(), b"id-c".to_vec())
        .unwrap();
    let bytes = encode_neighborhood(&n).unwrap();
    let decoded = decode_neighborhood(&bytes).unwrap();
    assert_eq!(snapshot(&n), snapshot(&decoded));
    decoded.validate().unwrap();
}

#[test]
fn artifact_bytes_identical_across_insertion_permutations() {
    let set: Vec<Vec<u8>> = (0..5).map(|i| format!("perm-{i}").into_bytes()).collect();
    let mut encoded = Vec::new();
    for perm in tiny_permutations(set.len()) {
        let mut n = Neighborhood::new(small_scheme()).unwrap();
        for bytes in permute(&set, &perm) {
            n.insert(bytes).unwrap();
        }
        encoded.push(encode_neighborhood(&n).unwrap());
    }
    for other in &encoded[1..] {
        assert_eq!(&encoded[0], other);
    }
}

#[test]
fn decoder_rejects_bad_magic_truncation_and_trailing() {
    let n = Neighborhood::from_rows(
        small_scheme(),
        vec![NeighborhoodRow {
            bytes: b"magic".to_vec(),
            identifier: None,
        }],
    )
    .unwrap();
    let bytes = encode_neighborhood(&n).unwrap();
    let mut bad = bytes.clone();
    bad[0] = b'X';
    assert!(matches!(
        decode_neighborhood(&bad),
        Err(ArtifactError::BadMagic)
    ));
    for cut in [0, 1, 7, bytes.len() - 1] {
        assert!(matches!(
            decode_neighborhood(&bytes[..cut]),
            Err(ArtifactError::Truncated) | Err(ArtifactError::BadMagic)
        ));
    }
    let mut trailing = bytes.clone();
    trailing.push(0);
    assert!(matches!(
        decode_neighborhood(&trailing),
        Err(ArtifactError::TrailingBytes)
    ));
}

#[test]
fn decoder_rejects_noncanonical_addresses() {
    let n = Neighborhood::from_rows(
        small_scheme(),
        vec![NeighborhoodRow {
            bytes: b"noncanonical".to_vec(),
            identifier: None,
        }],
    )
    .unwrap();
    let bytes = encode_neighborhood(&n).unwrap();
    // Corrupt the last serialized address atom into another capacity-valid
    // atom so the canonical comparison must fail.
    let last = bytes.len() - 1;
    let mut corrupted = bytes.clone();
    corrupted[last] = if corrupted[last] == 0 {
        1
    } else {
        corrupted[last] - 1
    };
    assert!(matches!(
        decode_neighborhood(&corrupted),
        Err(ArtifactError::InvalidNeighborhood(_))
    ));
}

#[test]
fn empty_addresses_are_rejected_at_construction() {
    assert!(matches!(
        NeighborhoodAddress::new(vec![]),
        Err(NeighborhoodError::EmptyAddress)
    ));
    let mut n = Neighborhood::new(small_scheme()).unwrap();
    n.insert(b"cap".to_vec()).unwrap();
    let out_of_range = NeighborhoodAddress::new(vec![AtomId(u32::MAX)]).unwrap();
    assert!(matches!(
        n.resolve(&out_of_range),
        Err(NeighborhoodError::AtomOutOfCapacity { .. })
    ));
}

#[test]
fn resolve_prefix_longer_than_canonical_address() {
    let mut n = Neighborhood::new(small_scheme()).unwrap();
    n.insert(b"long-a".to_vec()).unwrap();
    n.insert(b"long-b".to_vec()).unwrap();
    let entry = n.get_by_bytes(b"long-a").unwrap();
    let extended: Vec<AtomId> = n
        .scheme()
        .prefix(b"long-a", entry.address().len() + 2)
        .unwrap();
    let addr = NeighborhoodAddress::new(extended).unwrap();
    assert!(matches!(n.resolve(&addr), Ok(Resolution::Unique(e)) if e.bytes() == b"long-a"));
}

#[test]
fn properties_hold_for_deterministic_sets() {
    let mut rng = Lcg::new(0x5eed_2026);
    let mut rounds = 0;
    while rounds < 200 {
        let count = 1 + rng.next_u64() as usize % 6;
        let mut set: Vec<Vec<u8>> = (0..count)
            .map(|_| {
                let len = 3 + rng.next_u64() as usize % 4;
                (0..len).map(|_| (rng.next_u64() & 0xff) as u8).collect()
            })
            .collect();
        set.sort();
        set.dedup();
        if set.is_empty() {
            continue;
        }
        rounds += 1;

        let mut n = Neighborhood::new(tiny_scheme()).unwrap();
        for b in &set {
            n.insert(b.clone()).unwrap();
        }
        n.validate().unwrap();

        let addrs: Vec<Vec<AtomId>> = set
            .iter()
            .map(|b| n.get_by_bytes(b).unwrap().address().atoms().to_vec())
            .collect();
        for (i, a) in addrs.iter().enumerate() {
            for (j, other) in addrs.iter().enumerate() {
                if i != j {
                    assert!(!a.starts_with(other), "prefix-free violated");
                    assert!(!other.starts_with(a));
                }
            }
            let entry = n.get_by_bytes(&set[i]).unwrap();
            let stream: Vec<AtomId> = n.scheme().prefix(&set[i], entry.address().len()).unwrap();
            assert_eq!(stream, *a);
            assert_eq!(
                entry.address().atoms(),
                &brute_addresses(n.scheme(), &set.to_vec(), &set[i])[..]
            );
            if entry.address().len() > 1 {
                let shorter = NeighborhoodAddress::new(a[..a.len() - 1].to_vec()).unwrap();
                match n.resolve(&shorter).unwrap() {
                    Resolution::Unique(other) => {
                        assert_ne!(other.bytes(), set[i].as_slice());
                    }
                    Resolution::Ambiguous { .. } | Resolution::NotFound => {}
                }
            }
        }
    }
}

#[test]
fn removal_property_across_sets() {
    let mut rng = Lcg::new(0xabc_123);
    let mut rounds = 0;
    while rounds < 120 {
        rounds += 1;
        let count = 2 + rng.next_u64() as usize % 5;
        let mut set: Vec<Vec<u8>> = (0..count)
            .map(|_| {
                let len = 4 + rng.next_u64() as usize % 3;
                (0..len).map(|_| (rng.next_u64() & 0xff) as u8).collect()
            })
            .collect();
        set.sort();
        set.dedup();
        if set.len() < 2 {
            continue;
        }
        let mut n = Neighborhood::new(tiny_scheme()).unwrap();
        for b in &set {
            n.insert(b.clone()).unwrap();
        }
        let victim_index = (rng.next_u64() as usize) % set.len();
        let victim = set[victim_index].clone();
        n.remove_by_bytes(&victim).unwrap().unwrap();
        n.validate().unwrap();
        let mut remaining: Vec<Vec<u8>> = set
            .iter()
            .filter(|b| b.as_slice() != victim.as_slice())
            .cloned()
            .collect();
        remaining.sort();
        remaining.dedup();
        for b in &remaining {
            assert_eq!(
                n.get_by_bytes(b).unwrap().address().atoms(),
                &brute_addresses(n.scheme(), &remaining, b)[..],
                "remaining {b:?}"
            );
        }
    }
}

#[test]
fn canonical_scheme_neighborhood_works() {
    let mut n = Neighborhood::canonical().unwrap();
    n.insert(b"north".to_vec()).unwrap();
    n.insert(b"south".to_vec()).unwrap();
    n.insert(b"east".to_vec()).unwrap();
    n.insert(b"west".to_vec()).unwrap();
    assert_eq!(n.len(), 4);
    n.validate().unwrap();
    let bytes = encode_neighborhood(&n).unwrap();
    assert_eq!(
        snapshot(&decode_neighborhood(&bytes).unwrap()),
        snapshot(&n)
    );
}

#[test]
fn set_identifier_replaces_clears_and_refuses_taken_ones() {
    let mut n = Neighborhood::new(small_scheme()).unwrap();
    n.insert_with_identifier(b"one".to_vec(), b"id-1".to_vec()).unwrap();
    n.insert(b"two".to_vec()).unwrap();
    let before = snapshot(&n);
    n.set_identifier(b"two", Some(b"id-2".to_vec())).unwrap();
    assert_eq!(n.get_by_identifier(b"id-2").unwrap().bytes(), b"two");
    // Replacing an identifier frees the old one.
    n.set_identifier(b"two", Some(b"id-3".to_vec())).unwrap();
    assert!(n.get_by_identifier(b"id-2").is_none());
    assert_eq!(n.get_by_identifier(b"id-3").unwrap().bytes(), b"two");
    assert!(matches!(
        n.set_identifier(b"two", Some(b"id-1".to_vec())),
        Err(NeighborhoodError::IdentifierAlreadyAssigned(id)) if id == b"id-1".to_vec()
    ));
    n.set_identifier(b"two", None).unwrap();
    assert!(n.get_by_identifier(b"id-3").is_none());
    assert!(matches!(
        n.set_identifier(b"three", None),
        Err(NeighborhoodError::ContentNotFound)
    ));
    // Identifiers never move addresses.
    let after: Vec<_> = snapshot(&n).into_iter().map(|(b, a, _)| (b, a)).collect();
    let expected: Vec<_> = before.into_iter().map(|(b, a, _)| (b, a)).collect();
    assert_eq!(after, expected);
    n.validate().unwrap();
}

#[test]
fn remove_by_identifier_removes_only_its_content() {
    let mut n = Neighborhood::new(tiny_scheme()).unwrap();
    n.insert_with_identifier(b"aa".to_vec(), b"x".to_vec()).unwrap();
    n.insert(b"bb".to_vec()).unwrap();
    assert!(n.remove_by_identifier(b"missing").unwrap().is_none());
    let removed = n.remove_by_identifier(b"x").unwrap().unwrap();
    assert_eq!(removed.removed.bytes(), b"aa");
    assert_eq!(n.len(), 1);
    assert!(n.get_by_bytes(b"aa").is_none());
    assert!(n.get_by_identifier(b"x").is_none());
    assert_eq!(
        n.get_by_bytes(b"bb").unwrap().address().atoms(),
        brute_addresses(n.scheme(), &[b"bb".to_vec()], b"bb")
    );
    n.validate().unwrap();
}

#[test]
fn rebuild_of_a_canonical_neighborhood_changes_nothing() {
    let mut n = Neighborhood::new(tiny_scheme()).unwrap();
    for i in 0..6u8 {
        n.insert(vec![b'r', i]).unwrap();
    }
    let before = snapshot(&n);
    let changes = n.rebuild().unwrap();
    assert!(changes.is_empty());
    assert_eq!(snapshot(&n), before);
    n.validate().unwrap();
}

#[test]
fn addresses_grow_with_members_and_shrink_back() {
    let mut n = Neighborhood::new(tiny_scheme()).unwrap();
    n.insert(b"base".to_vec()).unwrap();
    let alone = n.get_by_bytes(b"base").unwrap().address().len();
    for i in 0..8u8 {
        n.insert(vec![b'm', i]).unwrap();
        assert!(n.get_by_bytes(b"base").unwrap().address().len() >= alone);
    }
    let crowded = n.get_by_bytes(b"base").unwrap().address().len();
    for i in 0..8u8 {
        n.remove_by_bytes(&[b'm', i]).unwrap();
        assert!(n.get_by_bytes(b"base").unwrap().address().len() <= crowded);
    }
    assert_eq!(n.get_by_bytes(b"base").unwrap().address().len(), alone);
}

#[test]
fn snapshot_of_empty_neighborhood_round_trips() {
    let n = Neighborhood::new(small_scheme()).unwrap();
    let bytes = encode_neighborhood(&n).unwrap();
    assert_eq!(&bytes[..8], b"TECANB01");
    let decoded = decode_neighborhood(&bytes).unwrap();
    assert!(decoded.is_empty());
    assert_eq!(decoded.scheme(), n.scheme());
}

#[test]
fn removal_reports_one_change_per_collapsed_level() {
    // Over a capacity of 3, find two contents whose streams share at least
    // two atoms; the survivor collapses level by level after the removal.
    let s = tiny_scheme();
    let mut pair = None;
    'outer: for i in 0..64u8 {
        for j in (i + 1)..64u8 {
            let a = s.prefix(&[i], 8).unwrap();
            let b = s.prefix(&[j], 8).unwrap();
            if a[..2] == b[..2] && a != b {
                pair = Some((vec![i], vec![j]));
                break 'outer;
            }
        }
    }
    let (a, b) = pair.expect("two streams sharing two atoms");
    let mut n = Neighborhood::new(s).unwrap();
    n.insert(a.clone()).unwrap();
    n.insert(b.clone()).unwrap();
    let before = n.get_by_bytes(&a).unwrap().address().len();
    assert!(before >= 3);
    let result = n.remove_by_bytes(&b).unwrap().unwrap();
    assert_eq!(result.changes.len(), before - 1);
    for (k, change) in result.changes.iter().enumerate() {
        assert_eq!(change.bytes, a);
        assert_eq!(change.old.len(), before - k);
        assert_eq!(change.new.len(), before - k - 1);
        assert_eq!(change.new.atoms(), &change.old.atoms()[..change.new.len()]);
    }
    assert_eq!(n.get_by_bytes(&a).unwrap().address().len(), 1);
}
