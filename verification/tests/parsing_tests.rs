use dtw::dtw::Accesor;
use dtw::parsing::{parse_trace, serialize_trace, CodecError, ToMemoryParser, TraceEncoder};

#[test]
fn test_parsing_unparsing() {
    let mut parser = ToMemoryParser::default();

    let mut tokens = vec![
        String::from("add 2,2"),
        String::from("sub 2 2"),
        String::from("mul 2,2"),
    ];
    for _ in 0..117 {
        tokens.push(String::from("sub 2 2"));
    }

    let (tokens, bin) = parser.create_bin(tokens);

    println!("{:?}", tokens);

    let accessor = parser.deserialize(&bin).unwrap();

    for i in 0..tokens.len() {
        assert_eq!(tokens[i], accessor.get(i));
    }
}

// Ids are dense, first-seen: repeats map to the id of the first
// occurrence.
#[test]
fn ids_are_dense_and_stable() {
    let mut parser = ToMemoryParser::default();
    assert_eq!(parser.token_to_id("load"), 0);
    assert_eq!(parser.token_to_id("store"), 1);
    assert_eq!(parser.token_to_id("load"), 0);
    assert_eq!(parser.token_to_id("jump"), 2);
    assert_eq!(parser.id_to_token(0), "load");
    assert_eq!(parser.id_to_token(1), "store");
    assert_eq!(parser.id_to_token(2), "jump");
}

#[test]
fn largest_token_tracks_maximum() {
    let mut parser = ToMemoryParser::default();
    assert_eq!(parser.get_largest_token(), 0);
    parser.token_to_id("ab");
    assert_eq!(parser.get_largest_token(), 2);
    parser.token_to_id("a much longer token");
    assert_eq!(parser.get_largest_token(), 19);
    parser.token_to_id("x");
    assert_eq!(parser.get_largest_token(), 19);
}

// The codec round-trips arbitrary id streams through the binary
// layout.
#[test]
fn serialize_parse_round_trip() {
    let ids: Vec<u64> = vec![0, 1, 2, 1, 0, u64::MAX, 42];
    let bin = serialize_trace(&ids);
    assert_eq!(bin.len(), 12 + 8 * ids.len());
    let back = parse_trace(&bin).unwrap();
    assert_eq!(back, ids);

    let empty: Vec<u64> = vec![];
    let bin2 = serialize_trace(&empty);
    assert_eq!(parse_trace(&bin2).unwrap(), empty);
}

#[test]
fn header_layout_is_normative() {
    let ids: Vec<u64> = vec![3];
    let bin = serialize_trace(&ids);
    assert_eq!(&bin[0..4], b"dtw\0");
    assert_eq!(&bin[4..8], &[0x00, 0x00, 0x00, 0x01]);
    assert_eq!(&bin[8..12], &[0x01, 0x00, 0x00, 0x00]);
    assert_eq!(&bin[12..20], &[0x03, 0, 0, 0, 0, 0, 0, 0]);
}

#[test]
fn rejects_bad_magic() {
    let ids: Vec<u64> = vec![1, 2];
    let mut bin = serialize_trace(&ids);
    bin[0] = b'x';
    assert_eq!(parse_trace(&bin), Err(CodecError::InvalidMagic));
}

#[test]
fn rejects_unknown_version() {
    let ids: Vec<u64> = vec![1, 2];
    let mut bin = serialize_trace(&ids);
    bin[7] = 0x02;
    assert_eq!(parse_trace(&bin), Err(CodecError::UnsupportedVersion));
}

#[test]
fn rejects_truncated_data() {
    assert_eq!(parse_trace(&vec![]), Err(CodecError::Truncated));
    assert_eq!(parse_trace(&vec![b'd', b't']), Err(CodecError::Truncated));

    let ids: Vec<u64> = vec![1, 2, 3];
    let bin = serialize_trace(&ids);
    let short = bin[..bin.len() - 1].to_vec();
    assert_eq!(parse_trace(&short), Err(CodecError::Truncated));
    let header_only = bin[..10].to_vec();
    assert_eq!(parse_trace(&header_only), Err(CodecError::Truncated));
}
