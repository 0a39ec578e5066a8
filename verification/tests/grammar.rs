use indexmap::IndexMap;
use m3u8_parser::error::M3U8ParserError;
use m3u8_parser::{
    attribute_key_val, attributes, ext_identifier, ext_type, rejoin_attributes, MediaExtType,
    PlaylistExtType,
};

#[test]
fn test_ext_identifier() {
    assert_eq!(ext_identifier("#EXTM3U\n"), Ok(("", "#EXTM3U\n")));
    assert_eq!(
        ext_identifier("EXTM3U"),
        Err(M3U8ParserError::Malformed("EXTM3U"))
    );
}

#[test]
fn test_attribute_key_val() {
    assert_eq!(
        attribute_key_val("TYPE=VIDEO"),
        Ok(("", ("TYPE", "VIDEO")))
    );
    assert_eq!(
        attribute_key_val(r#"GROUP-ID="720p60""#),
        Ok(("", ("GROUP-ID", "\"720p60\"")))
    );
    assert_eq!(
        attribute_key_val("CODECS=\"avc1.4D401F,mp4a.40.2\""),
        Ok(("", ("CODECS", "\"avc1.4D401F,mp4a.40.2\"")))
    );
}

#[test]
fn test_attributes() {
    let mut attributes_map = IndexMap::new();

    attributes_map.insert("TYPE", "VIDEO");
    attributes_map.insert("GROUP-ID", "\"720p60\"");
    attributes_map.insert("NAME", "\"720p60\"");
    attributes_map.insert("AUTOSELECT", "YES");
    attributes_map.insert("DEFAULT", "YES");

    assert_eq!(
        attributes(r#"TYPE=VIDEO,GROUP-ID="720p60",NAME="720p60",AUTOSELECT=YES,DEFAULT=YES"#),
        Ok(("", attributes_map))
    );
}

#[test]
fn test_rejoin_attributes() {
    let mut attributes_map = IndexMap::new();

    attributes_map.insert("TYPE", "VIDEO");
    attributes_map.insert("GROUP-ID", "\"720p60\"");
    attributes_map.insert("NAME", "\"720p60\"");
    attributes_map.insert("AUTOSELECT", "YES");
    attributes_map.insert("DEFAULT", "YES");

    assert_eq!(
        rejoin_attributes(&attributes_map),
        r#"TYPE=VIDEO,GROUP-ID="720p60",NAME="720p60",AUTOSELECT=YES,DEFAULT=YES"#.to_owned()
    );

    let mut attributes_map_unknown = IndexMap::new();

    attributes_map_unknown.insert("UNKNOWN", "33064.367");

    assert_eq!(
        rejoin_attributes(&attributes_map_unknown),
        "33064.367".to_owned()
    );
}

#[test]
fn test_ext_type() {
    assert_eq!(
        ext_type("#EXT-X-TWITCH-INFO:NODE="),
        Ok(("NODE=", PlaylistExtType::Unknown("TWITCH-INFO".to_owned())))
    );
    assert_eq!(
        ext_type("#EXT-X-MEDIA:TYPE=VIDEO"),
        Ok(("TYPE=VIDEO", PlaylistExtType::Media))
    );
    assert_eq!(
        ext_type("#EXT-X-STREAM-INF:BANDWIDTH=1430857,RESOLUTION=852x480\nhttps://video-weaver.lhr04.hls.ttvnw.net/v1/playlist/abc123.m3u8"),
        Ok(("BANDWIDTH=1430857,RESOLUTION=852x480\nhttps://video-weaver.lhr04.hls.ttvnw.net/v1/playlist/abc123.m3u8", PlaylistExtType::StreamInf))
    );
    assert_eq!(
        ext_type::<PlaylistExtType>("#EXT-XBANDWIDTH=630000"),
        Ok((
            "",
            PlaylistExtType::Unknown("-XBANDWIDTH=630000".to_owned())
        ))
    );
}

#[test]
fn ext_type_of_a_media_playlist() {
    assert_eq!(
        ext_type("#EXTINF:2.000,live"),
        Ok(("2.000,live", MediaExtType::Inf))
    );
    assert_eq!(
        ext_type("#EXT-X-DISCONTINUITY"),
        Ok(("", MediaExtType::Discontinuity))
    );
    assert_eq!(
        ext_type::<MediaExtType>("EXTINF:2.000,live"),
        Err(M3U8ParserError::Malformed("EXTINF:2.000,live"))
    );
}
