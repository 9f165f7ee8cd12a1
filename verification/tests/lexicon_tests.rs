use teca::address::AtomId;
use teca::artifact::{decode_lexicon, encode_lexicon, ArtifactError, LexiconArtifact};
use teca::codec::ContentCodecDescriptor;
use teca::lexicon::{Lexicon, LexiconError};
use teca::neighborhood::NeighborhoodAddress;
use teca::prior::ProvenanceRecord;
use teca::render::{render_neighborhood_address, render_text_prefix};
use teca::scheme::Scheme;

fn sample_artifact() -> LexiconArtifact {
    LexiconArtifact {
        lexicon: Lexicon::new(vec![b"a".to_vec(), b"bc".to_vec()]).unwrap(),
        renderer: "length-hex-v1".into(),
        profile: "test".into(),
        validation: vec!["distinct atoms".into()],
        tokenizer_families: vec!["test/tokenizer".into()],
        provenance: vec![ProvenanceRecord {
            name: "x".into(),
            source: "y".into(),
            license: "z".into(),
        }],
    }
}

#[test]
fn lexicon_round_trip_preserves_order() {
    let artifact = sample_artifact();
    let bytes = encode_lexicon(&artifact).unwrap();
    assert_eq!(decode_lexicon(&bytes).unwrap(), artifact);
}

#[test]
fn lexicon_rejects_small_and_duplicate_atom_lists() {
    assert_eq!(Lexicon::new(vec![b"a".to_vec()]), Err(LexiconError::TooSmall(1)));
    assert_eq!(
        Lexicon::new(vec![b"a".to_vec(), b"b".to_vec(), b"a".to_vec(), b"b".to_vec()]),
        Err(LexiconError::DuplicateAtom(b"a".to_vec()))
    );
}

#[test]
fn lexicon_atom_lookup_and_range() {
    let l = Lexicon::new(vec![b"x".to_vec(), b"yz".to_vec(), b"w".to_vec()]).unwrap();
    assert_eq!(l.capacity(), 3);
    assert_eq!(l.atom(AtomId(1)).unwrap(), b"yz");
    assert_eq!(
        l.atom(AtomId(3)),
        Err(LexiconError::AtomOutOfRange { atom: 3, capacity: 3 })
    );
}

#[test]
fn lexicon_metadata_is_checked_on_encode() {
    let mut artifact = sample_artifact();
    artifact.renderer = String::new();
    assert!(matches!(
        encode_lexicon(&artifact),
        Err(ArtifactError::InvalidLexiconMetadata(_))
    ));
    let mut dup = sample_artifact();
    dup.tokenizer_families = vec!["t".into(), "t".into()];
    assert!(matches!(
        encode_lexicon(&dup),
        Err(ArtifactError::InvalidLexiconMetadata(_))
    ));
}

#[test]
fn lexicon_decoder_rejects_magic_truncation_and_trailing() {
    let bytes = encode_lexicon(&sample_artifact()).unwrap();
    assert_eq!(&bytes[..8], b"TECALX02");
    assert!(matches!(decode_lexicon(&bytes[..5]), Err(ArtifactError::Truncated)));
    let mut bad = bytes.clone();
    bad[0] = b'X';
    assert!(matches!(decode_lexicon(&bad), Err(ArtifactError::BadMagic)));
    assert!(matches!(
        decode_lexicon(&bytes[..bytes.len() - 1]),
        Err(ArtifactError::Truncated)
    ));
    let mut trailing = bytes.clone();
    trailing.push(0);
    assert!(matches!(decode_lexicon(&trailing), Err(ArtifactError::TrailingBytes)));
}

#[test]
fn lexicon_encoding_layout_is_big_endian_length_prefixed() {
    let bytes = encode_lexicon(&sample_artifact()).unwrap();
    // count 2, then "a" and "bc"
    assert_eq!(&bytes[8..12], &[0, 0, 0, 2]);
    assert_eq!(&bytes[12..17], &[0, 0, 0, 1, b'a']);
    assert_eq!(&bytes[17..23], &[0, 0, 0, 2, b'b', b'c']);
}

#[test]
fn neighborhood_address_renders_length_and_hex() {
    let l = Lexicon::new(vec![b"a".to_vec(), b"\x01\xff".to_vec(), b"zz".to_vec()]).unwrap();
    let addr = NeighborhoodAddress::new(vec![AtomId(1), AtomId(0)]).unwrap();
    assert_eq!(render_neighborhood_address(&addr, &l).unwrap(), "2:01ff/1:61");
    let bad = NeighborhoodAddress::new(vec![AtomId(0), AtomId(9)]).unwrap();
    assert_eq!(
        render_neighborhood_address(&bad, &l),
        Err(LexiconError::AtomOutOfRange { atom: 9, capacity: 3 })
    );
}

#[test]
fn text_prefix_renders_stream_atoms() {
    let scheme = Scheme::fallback_only(3, ContentCodecDescriptor::BinaryMsb0).unwrap();
    let l = Lexicon::new(vec![b"p".to_vec(), b"q".to_vec(), b"rr".to_vec()]).unwrap();
    let atoms = scheme.prefix(b"hi", 3).unwrap();
    let expected: Vec<String> = atoms
        .iter()
        .map(|a| {
            let bytes = l.atom(*a).unwrap();
            let hex: String = bytes.iter().map(|b| format!("{b:02x}")).collect();
            format!("{}:{}", bytes.len(), hex)
        })
        .collect();
    let mut address = scheme.address(b"hi").unwrap();
    assert_eq!(
        render_text_prefix(&mut address, &l, 3).unwrap(),
        expected.join("/")
    );
    let mut tokens = scheme.address(b"hi").unwrap().tokens(&l).unwrap();
    assert_eq!(tokens.next().unwrap(), l.atom(atoms[0]).unwrap());
    let wrong = Lexicon::new(vec![b"p".to_vec(), b"q".to_vec()]).unwrap();
    assert!(scheme.address(b"hi").unwrap().tokens(&wrong).is_err());
}
