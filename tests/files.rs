use dazone::files::{
    codec_for, compression_for, data_dir_for, extension_for, file_pattern, order_files,
    parse_format, Codec, Compression, Format, FormatError,
};

#[test]
fn data_dir_joins_state_set_and_table() {
    assert_eq!(data_dir_for("cap-gz", "5nodes", "rankings"), "data/cap-gz/5nodes/rankings");
    assert_eq!(data_dir_for("", "", ""), "data///");
}

#[test]
fn raw_text_files_use_the_deflate_extension() {
    assert_eq!(extension_for("text-deflate"), "deflate");
    assert_eq!(extension_for("rmp-gz"), "rmp-gz");
    assert_eq!(
        file_pattern("tiny", "uservisits", "text-deflate"),
        "data/text-deflate/tiny/uservisits/*.deflate"
    );
    assert_eq!(file_pattern("5nodes", "rankings", "cap-gz"), "data/cap-gz/5nodes/rankings/*.cap-gz");
}

#[test]
fn format_tags_resolve_to_codec_and_compression() {
    assert_eq!(
        parse_format("cap-gz").unwrap(),
        Format { codec: Codec::Capnp, compression: Compression::Gzip }
    );
    assert_eq!(
        parse_format("text-deflate").unwrap(),
        Format { codec: Codec::Csv, compression: Compression::Deflate }
    );
    assert_eq!(
        parse_format("rmp-snz").unwrap(),
        Format { codec: Codec::Rmp, compression: Compression::Snappy }
    );
    assert_eq!(
        parse_format("bincode").unwrap(),
        Format { codec: Codec::Bincode, compression: Compression::Plain }
    );
    assert_eq!(codec_for("pbuf"), Some(Codec::Protobuf));
    assert_eq!(codec_for("cbor"), Some(Codec::Cbor));
    assert_eq!(codec_for("json"), None);
    assert_eq!(compression_for("lz4"), None);
}

#[test]
fn unknown_codec_is_reported_with_its_tag() {
    match parse_format("xml-gz") {
        Err(FormatError::UnsupportedFormat(t)) => assert_eq!(t, "xml"),
        other => panic!("unexpected {:?}", other),
    }
}

#[test]
fn unknown_compression_is_reported_with_its_tag() {
    match parse_format("csv-bz2") {
        Err(FormatError::UnsupportedCompression(t)) => assert_eq!(t, "bz2"),
        other => panic!("unexpected {:?}", other),
    }
    match parse_format("csv-") {
        Err(FormatError::UnsupportedCompression(t)) => assert_eq!(t, ""),
        other => panic!("unexpected {:?}", other),
    }
}

#[test]
fn files_are_ordered_lexicographically() {
    let paths = vec![
        "data/x/b.csv".to_string(),
        "data/x/a10.csv".to_string(),
        "data/x/a1.csv".to_string(),
        "data/x/a2.csv".to_string(),
    ];
    let r = order_files(paths).unwrap();
    assert_eq!(r, vec!["data/x/a1.csv", "data/x/a10.csv", "data/x/a2.csv", "data/x/b.csv"]);
}

#[test]
fn no_matching_file_is_not_found() {
    assert!(matches!(order_files(Vec::new()), Err(FormatError::NotFound)));
}
