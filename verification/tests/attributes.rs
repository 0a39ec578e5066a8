use indexmap::IndexMap;
use m3u8_parser::error::M3U8ParserError;
use m3u8_parser::{
    attribute_key_val, attributes, comma_sep_pair, ext_type, read_quoted_attribute,
    rejoin_attributes, PlaylistExtType,
};

fn pairs<'a>(map: &IndexMap<&'a str, &'a str>) -> Vec<(&'a str, &'a str)> {
    map.iter().map(|(key, value)| (*key, *value)).collect()
}

#[test]
fn codecs_in_quotes_keep_their_comma() {
    let (rest, map) = attributes("CODECS=\"avc1.4D401F,mp4a.40.2\"").unwrap();
    assert_eq!(rest, "");
    assert_eq!(pairs(&map), vec![("CODECS", "\"avc1.4D401F,mp4a.40.2\"")]);
}

#[test]
fn attributes_keep_their_order_and_their_quotes() {
    let (_, map) =
        attributes(r#"TYPE=VIDEO,GROUP-ID="720p60",NAME="720p60",AUTOSELECT=YES,DEFAULT=YES"#)
            .unwrap();
    assert_eq!(
        pairs(&map),
        vec![
            ("TYPE", "VIDEO"),
            ("GROUP-ID", "\"720p60\""),
            ("NAME", "\"720p60\""),
            ("AUTOSELECT", "YES"),
            ("DEFAULT", "YES"),
        ]
    );
}

#[test]
fn empty_remainder_has_no_attributes() {
    assert_eq!(attributes(""), Ok(("", IndexMap::new())));
}

#[test]
fn a_later_value_takes_the_place_of_the_first() {
    let (_, map) = attributes("A=1,B=2,A=3,C=4,B=5").unwrap();
    assert_eq!(pairs(&map), vec![("A", "3"), ("B", "5"), ("C", "4")]);
}

#[test]
fn a_pair_without_an_equals_sign_is_malformed() {
    assert_eq!(attributes("3"), Err(M3U8ParserError::Malformed("3")));
    assert_eq!(attributes("A=1,B"), Err(M3U8ParserError::Malformed("B")));
    assert_eq!(attributes("A=1,"), Err(M3U8ParserError::Malformed("")));
    assert_eq!(attributes(","), Err(M3U8ParserError::Malformed(",")));
    assert_eq!(
        attribute_key_val("NAME"),
        Err(M3U8ParserError::Malformed("NAME"))
    );
    assert_eq!(attribute_key_val(""), Err(M3U8ParserError::Malformed("")));
}

#[test]
fn what_follows_a_quoted_value_and_is_no_comma_is_malformed() {
    assert_eq!(
        attributes("A=\"x\"y,B=1"),
        Err(M3U8ParserError::Malformed("y,B=1"))
    );
    assert_eq!(
        attributes("A=\"x\"\"y\""),
        Err(M3U8ParserError::Malformed("\"y\""))
    );
}

#[test]
fn values_end_with_their_second_quote_or_before_a_comma() {
    assert_eq!(
        attribute_key_val("A=\"x,y\",B=1"),
        Ok((",B=1", ("A", "\"x,y\"")))
    );
    assert_eq!(attribute_key_val("A=x,B=1"), Ok((",B=1", ("A", "x"))));
    assert_eq!(attribute_key_val("A=\"\",B"), Ok((",B", ("A", "\"\""))));
    assert_eq!(attribute_key_val("A=\"x,B=1"), Ok((",B=1", ("A", "\"x"))));
    assert_eq!(attribute_key_val("A=x\"y\",B"), Ok((",B", ("A", "x\"y\""))));
    assert_eq!(attribute_key_val("A=\""), Ok(("", ("A", "\""))));
    assert_eq!(attribute_key_val("A=b=c"), Ok(("", ("A", "b=c"))));
    assert_eq!(attribute_key_val("A,B=c"), Ok(("", ("A,B", "c"))));
    assert_eq!(
        attribute_key_val("K=\"é,ü\"ß"),
        Ok(("ß", ("K", "\"é,ü\"")))
    );
}

#[test]
fn a_pair_without_a_key_or_without_a_value_is_malformed() {
    assert_eq!(attribute_key_val("=x"), Err(M3U8ParserError::Malformed("=x")));
    assert_eq!(attribute_key_val("="), Err(M3U8ParserError::Malformed("=")));
    assert_eq!(attribute_key_val("A="), Err(M3U8ParserError::Malformed("A=")));
    assert_eq!(
        attribute_key_val("A=,B=1"),
        Err(M3U8ParserError::Malformed("A=,B=1"))
    );
    assert_eq!(attributes("=x"), Err(M3U8ParserError::Malformed("=x")));
    assert_eq!(attributes("A=1,=b"), Err(M3U8ParserError::Malformed("=b")));
    assert_eq!(attributes("A=1,B="), Err(M3U8ParserError::Malformed("B=")));
    assert_eq!(
        attributes("A=,B=1"),
        Err(M3U8ParserError::Malformed("A=,B=1"))
    );
    assert_eq!(attributes("A=1,,B=2"), Ok(("", {
        let mut map = IndexMap::new();
        map.insert("A", "1");
        map.insert(",B", "2");
        map
    })));
}

#[test]
fn a_value_in_quotes_may_be_empty() {
    let (_, map) = attributes("A=\"\",C=\"\"").unwrap();
    assert_eq!(pairs(&map), vec![("A", "\"\""), ("C", "\"\"")]);
}

#[test]
fn pairs_of_what_is_read_are_proper() {
    for text in [
        "A=1",
        "A=1,B=2,A=3",
        "CODECS=\"avc1.4D401F,mp4a.40.2\",BANDWIDTH=1",
        "A=\"x,B=1",
        "A,B=c",
        "A=b=c,D=\"\"",
    ] {
        let (rest, map) = attributes(text).unwrap();
        assert_eq!(rest, "");
        for (key, value) in map.iter() {
            assert!(!key.is_empty() && !key.contains('='), "{:?}", text);
            assert!(!value.is_empty(), "{:?}", text);
            assert!(
                !value.contains(',') || (value.starts_with('"') && value.ends_with('"')),
                "{:?}",
                text
            );
            assert!(text.contains(key) && text.contains(value), "{:?}", text);
        }
    }
}

#[test]
fn rejoin_writes_the_pairs_with_commas() {
    assert_eq!(rejoin_attributes(&IndexMap::new()), "");
    let mut one = IndexMap::new();
    one.insert("A", "1");
    assert_eq!(rejoin_attributes(&one), "A=1");
    let mut unknown_among_others = IndexMap::new();
    unknown_among_others.insert("UNKNOWN", "1");
    unknown_among_others.insert("B", "\"2,3\"");
    assert_eq!(rejoin_attributes(&unknown_among_others), "UNKNOWN=1,B=\"2,3\"");
    let mut unknown = IndexMap::new();
    unknown.insert("UNKNOWN", "a=b,c");
    assert_eq!(rejoin_attributes(&unknown), "a=b,c");
}

#[test]
fn rejoin_of_what_was_read_is_read_as_the_same() {
    for text in [
        "A=1",
        "A=1,B=2,A=3",
        "CODECS=\"avc1.4D401F,mp4a.40.2\",BANDWIDTH=1",
        "A=\"\",B=c",
    ] {
        let (_, map) = attributes(text).unwrap();
        let written = rejoin_attributes(&map);
        assert_eq!(attributes(&written), Ok(("", map)));
    }
}

#[test]
fn one_marker_is_stripped_from_the_raw_name() {
    assert_eq!(PlaylistExtType::from("-X-MEDIA"), PlaylistExtType::Media);
    assert_eq!(PlaylistExtType::from("MEDIA"), PlaylistExtType::Media);
    assert_eq!(
        PlaylistExtType::from("-X--X-MEDIA"),
        PlaylistExtType::Unknown("-X-MEDIA".to_owned())
    );
    assert_eq!(
        PlaylistExtType::from("-X--X-STREAM-INF"),
        PlaylistExtType::Unknown("-X-STREAM-INF".to_owned())
    );
    assert_eq!(PlaylistExtType::from("STREAM-INF"), PlaylistExtType::StreamInf);
    assert_eq!(
        PlaylistExtType::from("-X-TWITCH-INFO"),
        PlaylistExtType::Unknown("TWITCH-INFO".to_owned())
    );
    assert_eq!(
        PlaylistExtType::from("-X-media"),
        PlaylistExtType::Unknown("media".to_owned())
    );
    assert_eq!(
        PlaylistExtType::from("-X-STREAM-INF"),
        PlaylistExtType::StreamInf
    );
    assert_eq!(
        PlaylistExtType::from("-X"),
        PlaylistExtType::Unknown("-X".to_owned())
    );
    assert_eq!(
        PlaylistExtType::from("-X-"),
        PlaylistExtType::Unknown("".to_owned())
    );
    assert_eq!(
        PlaylistExtType::from("-X-MEDIA-X-"),
        PlaylistExtType::Unknown("MEDIA-X-".to_owned())
    );
    assert_eq!(
        PlaylistExtType::from("-x-MEDIA"),
        PlaylistExtType::Unknown("-x-MEDIA".to_owned())
    );
}

#[test]
fn tag_lines_are_taken_apart_at_the_first_colon() {
    assert_eq!(
        ext_type("#EXT-X-MEDIA:A=1:2"),
        Ok(("A=1:2", PlaylistExtType::Media))
    );
    assert_eq!(
        ext_type("#EXT:A"),
        Ok(("A", PlaylistExtType::Unknown("".to_owned())))
    );
    assert_eq!(
        ext_type("#EXT"),
        Ok(("", PlaylistExtType::Unknown("".to_owned())))
    );
    assert_eq!(
        ext_type("#EXTM3U"),
        Ok(("", PlaylistExtType::Unknown("M3U".to_owned())))
    );
    assert_eq!(
        ext_type("#EXT-X-MEDIA\nA:B"),
        Ok(("B", PlaylistExtType::Unknown("MEDIA\nA".to_owned())))
    );
    assert_eq!(
        ext_type("#EXT-X-MEDIA\nAB"),
        Ok(("\nAB", PlaylistExtType::Media))
    );
    assert_eq!(
        ext_type::<PlaylistExtType>("#EXt-X-MEDIA"),
        Err(M3U8ParserError::Malformed("#EXt-X-MEDIA"))
    );
    assert_eq!(
        ext_type::<PlaylistExtType>(" #EXT-X-MEDIA"),
        Err(M3U8ParserError::Malformed(" #EXT-X-MEDIA"))
    );
    assert_eq!(
        ext_type::<PlaylistExtType>(""),
        Err(M3U8ParserError::Malformed(""))
    );
}

#[test]
fn messages_of_errors() {
    assert_eq!(
        M3U8ParserError::Malformed("EXTM3U").message(),
        "malformed input at: EXTM3U"
    );
    assert_eq!(
        M3U8ParserError::<&str>::IoError("disk full".to_owned()).message(),
        "IO Error: disk full"
    );
    assert_eq!(
        M3U8ParserError::<&str>::ParseFloatError("invalid float literal".to_owned()).message(),
        "ParseFloat Error: invalid float literal"
    );
    assert_eq!(
        M3U8ParserError::<&str>::ParseIntError("invalid digit found in string".to_owned())
            .message(),
        "ParseInt Error: invalid digit found in string"
    );
}

#[test]
fn quoted_values_end_with_their_second_quote() {
    assert_eq!(
        read_quoted_attribute("\"720p60\""),
        Ok(("", "\"720p60\""))
    );
    assert_eq!(
        read_quoted_attribute("\"a,b\",C=1"),
        Ok((",C=1", "\"a,b\""))
    );
    assert_eq!(read_quoted_attribute("\"\"x\""), Ok(("x\"", "\"\"")));
    assert_eq!(
        read_quoted_attribute("abc"),
        Err(M3U8ParserError::Malformed("abc"))
    );
    assert_eq!(
        read_quoted_attribute("\"abc"),
        Err(M3U8ParserError::Malformed("\"abc"))
    );
    assert_eq!(
        read_quoted_attribute("a\"bc\""),
        Err(M3U8ParserError::Malformed("a\"bc\""))
    );
    assert_eq!(read_quoted_attribute(""), Err(M3U8ParserError::Malformed("")));
}

#[test]
fn duration_and_title_are_split_at_the_first_comma() {
    assert_eq!(comma_sep_pair("2.000,live"), Ok(("2.000", "live")));
    assert_eq!(comma_sep_pair("2.000,"), Ok(("2.000", "")));
    assert_eq!(comma_sep_pair(","), Ok(("", "")));
    assert_eq!(comma_sep_pair("1,a,b"), Ok(("1", "a,b")));
    assert_eq!(
        comma_sep_pair("2.000"),
        Err(M3U8ParserError::Malformed("2.000"))
    );
    assert_eq!(comma_sep_pair(""), Err(M3U8ParserError::Malformed("")));
}
