use m3u8_parser::error::M3U8ParserError;
use m3u8_parser::{read_playlist, PlaylistExtType};

const PLAYLIST: &str = "#EXTM3U\n\
#EXT-X-TWITCH-INFO:NODE=\"video-edge-c6d608.lhr04\",MANIFEST-NODE-TYPE=\"weaver_cluster\",MANIFEST-NODE=\"video-weaver.lhr04\",SUPPRESS=\"true\",SERVER-TIME=\"1605717776.77\",USER-IP=\"0.0.0.0\",CLUSTER=\"lhr04\",ABS=\"true\",BROADCAST-ID=\"40032678348\",STREAM-TIME=\"9016.772081\",USER-COUNTRY=\"GB\",ORIGIN=\"lhr04\"\n\
#EXT-X-MEDIA:TYPE=VIDEO,GROUP-ID=\"chunked\",NAME=\"1080p60 (source)\",AUTOSELECT=YES,DEFAULT=YES\n\
#EXT-X-STREAM-INF:PROGRAM-ID=1,BANDWIDTH=8534030,RESOLUTION=1920x1080,CODECS=\"avc1.64002A,mp4a.40.2\",VIDEO=\"chunked\",FRAME-RATE=60.000\n\
https://video-weaver.lhr04.hls.ttvnw.net/v1/playlist/chunked.m3u8\n\
#EXT-X-MEDIA:TYPE=VIDEO,GROUP-ID=\"720p60\",NAME=\"720p60\",AUTOSELECT=YES,DEFAULT=YES\n\
#EXT-X-STREAM-INF:PROGRAM-ID=1,BANDWIDTH=3422999,RESOLUTION=1280x720,CODECS=\"avc1.4D401F,mp4a.40.2\",VIDEO=\"720p60\",FRAME-RATE=60.000\n\
https://video-weaver.lhr04.hls.ttvnw.net/v1/playlist/720p60.m3u8\n";

#[test]
fn test_read_playlist() {
    let playlist = read_playlist(PLAYLIST).unwrap();
    let first_ext_info = playlist.ext_infos.get(0).unwrap();

    assert_eq!(
        first_ext_info.ext_type,
        PlaylistExtType::Unknown("TWITCH-INFO".to_owned())
    );
    assert_eq!(
        first_ext_info.attributes.get("MANIFEST-NODE-TYPE"),
        Some(&"\"weaver_cluster\"")
    );
    assert_eq!(
        first_ext_info.attributes.get("BROADCAST-ID"),
        Some(&"\"40032678348\"")
    );
    assert_eq!(
        first_ext_info.attributes.get("USER-COUNTRY"),
        Some(&"\"GB\"")
    );

    let media_1080p = playlist.ext_infos.get(1).unwrap();
    assert_eq!(media_1080p.ext_type, PlaylistExtType::Media);
    assert_eq!(media_1080p.attributes.get("TYPE"), Some(&"VIDEO"));
    assert_eq!(
        media_1080p.attributes.get("NAME"),
        Some(&"\"1080p60 (source)\"")
    );
    assert_eq!(media_1080p.attributes.get("GROUP-ID"), Some(&"\"chunked\""));

    let stream_inf_1080p = playlist.ext_infos.get(2).unwrap();

    assert_eq!(stream_inf_1080p.ext_type, PlaylistExtType::StreamInf);
    assert_eq!(
        stream_inf_1080p.attributes.get("RESOLUTION"),
        Some(&"1920x1080")
    );
    assert_eq!(
        stream_inf_1080p.attributes.get("VIDEO"),
        Some(&"\"chunked\"")
    );
}

#[test]
fn stream_inf_takes_the_next_line_as_uri() {
    let playlist = read_playlist(PLAYLIST).unwrap();
    assert_eq!(playlist.ext_infos.len(), 5);
    let stream = &playlist.ext_infos[2];
    assert_eq!(
        stream.attributes.get("URI"),
        Some(&"https://video-weaver.lhr04.hls.ttvnw.net/v1/playlist/chunked.m3u8")
    );
    assert_eq!(stream.attributes.get_index(6).map(|(key, _)| *key), Some("URI"));
    assert_eq!(stream.attributes.len(), 7);
    assert_eq!(
        stream.attributes.get("CODECS"),
        Some(&"\"avc1.64002A,mp4a.40.2\"")
    );
}

#[test]
fn stream_inf_takes_any_next_line() {
    let playlist =
        read_playlist("#EXTM3U\n#EXT-X-STREAM-INF:BANDWIDTH=1\n#EXT-X-MEDIA:NAME=a\n").unwrap();
    assert_eq!(playlist.ext_infos.len(), 1);
    assert_eq!(
        playlist.ext_infos[0].attributes.get("URI"),
        Some(&"#EXT-X-MEDIA:NAME=a")
    );
}

#[test]
fn stream_inf_as_last_line_has_no_uri() {
    let playlist = read_playlist("#EXTM3U\n#EXT-X-STREAM-INF:BANDWIDTH=1").unwrap();
    assert_eq!(playlist.ext_infos.len(), 1);
    assert_eq!(playlist.ext_infos[0].ext_type, PlaylistExtType::StreamInf);
    assert_eq!(playlist.ext_infos[0].attributes.get("URI"), None);
    assert_eq!(playlist.ext_infos[0].attributes.len(), 1);
    assert_eq!(playlist.first_playlist_link(), None);
}

#[test]
fn uri_of_a_stream_inf_overwrites_an_attribute_of_that_name() {
    let playlist = read_playlist("#EXTM3U\n#EXT-X-STREAM-INF:URI=a,BANDWIDTH=1\nb\n").unwrap();
    let attributes = &playlist.ext_infos[0].attributes;
    assert_eq!(attributes.len(), 2);
    assert_eq!(attributes.get_index(0), Some((&"URI", &"b")));
    assert_eq!(attributes.get_index(1), Some((&"BANDWIDTH", &"1")));
}

#[test]
fn playlist_names_lists_the_media_entries() {
    let playlist = read_playlist(PLAYLIST).unwrap();
    assert_eq!(
        playlist.playlist_names(),
        vec!["\"1080p60 (source)\"", "\"720p60\""]
    );
    let unnamed = read_playlist("#EXTM3U\n#EXT-X-MEDIA:TYPE=VIDEO\n#EXT-X-MEDIA:NAME=b\n").unwrap();
    assert_eq!(unnamed.playlist_names(), vec!["Unknown", "b"]);
    let none = read_playlist("#EXTM3U\n").unwrap();
    assert_eq!(none.playlist_names(), Vec::<&str>::new());
}

#[test]
fn first_playlist_link_is_the_uri_of_the_first_stream() {
    let playlist = read_playlist(PLAYLIST).unwrap();
    assert_eq!(
        playlist.first_playlist_link(),
        Some("https://video-weaver.lhr04.hls.ttvnw.net/v1/playlist/chunked.m3u8")
    );
    let none = read_playlist("#EXTM3U\n#EXT-X-MEDIA:NAME=b\n").unwrap();
    assert_eq!(none.first_playlist_link(), None);
}

#[test]
fn playlist_link_goes_by_name_and_group() {
    let playlist = read_playlist(PLAYLIST).unwrap();
    assert_eq!(
        playlist.playlist_link("\"720p60\""),
        Some("https://video-weaver.lhr04.hls.ttvnw.net/v1/playlist/720p60.m3u8")
    );
    assert_eq!(
        playlist.playlist_link("\"1080p60 (source)\""),
        Some("https://video-weaver.lhr04.hls.ttvnw.net/v1/playlist/chunked.m3u8")
    );
    assert_eq!(playlist.playlist_link("720p60"), None);
    assert_eq!(playlist.playlist_link("\"480p\""), None);
}

#[test]
fn playlist_link_misses_without_group_or_stream() {
    let no_group = read_playlist("#EXTM3U\n#EXT-X-MEDIA:NAME=a\n#EXT-X-STREAM-INF:VIDEO=g\nu\n")
        .unwrap();
    assert_eq!(no_group.playlist_link("a"), None);
    let no_stream = read_playlist(
        "#EXTM3U\n#EXT-X-MEDIA:NAME=a,GROUP-ID=g\n#EXT-X-STREAM-INF:VIDEO=h\nu\n",
    )
    .unwrap();
    assert_eq!(no_stream.playlist_link("a"), None);
    let first_of_two = read_playlist(
        "#EXTM3U\n#EXT-X-MEDIA:NAME=a,GROUP-ID=g\n#EXT-X-MEDIA:NAME=a,GROUP-ID=h\n#EXT-X-STREAM-INF:VIDEO=h\nu1\n#EXT-X-STREAM-INF:VIDEO=g\nu2\n#EXT-X-STREAM-INF:VIDEO=g\nu3\n",
    )
    .unwrap();
    assert_eq!(first_of_two.playlist_link("a"), Some("u2"));
}

#[test]
fn read_playlist_without_header_is_malformed() {
    assert_eq!(
        read_playlist("#EXT-X-MEDIA:NAME=a\n"),
        Err(M3U8ParserError::Malformed("#EXT-X-MEDIA:NAME=a\n"))
    );
    assert_eq!(
        read_playlist("#EXTM3U"),
        Err(M3U8ParserError::Malformed("#EXTM3U"))
    );
    assert_eq!(read_playlist(""), Err(M3U8ParserError::Malformed("")));
}

#[test]
fn read_playlist_stops_at_the_first_bad_line() {
    assert_eq!(
        read_playlist("#EXTM3U\n#EXT-X-MEDIA:NAME=a\nhttps://a\n#EXT-X-MEDIA:NAME\n"),
        Err(M3U8ParserError::Malformed("https://a"))
    );
    assert_eq!(
        read_playlist("#EXTM3U\n#EXT-X-MEDIA:NAME=a\n\n"),
        Err(M3U8ParserError::Malformed(""))
    );
    assert_eq!(
        read_playlist("#EXTM3U\n#EXT-X-MEDIA:NAME=a,GROUP\n"),
        Err(M3U8ParserError::Malformed("GROUP"))
    );
    assert_eq!(
        read_playlist("#EXTM3U\n#EXT-X-MEDIA:NAME=\"a\"b,GROUP-ID=c\n"),
        Err(M3U8ParserError::Malformed("b,GROUP-ID=c"))
    );
}

#[test]
fn bare_tags_have_no_attributes() {
    let playlist = read_playlist("#EXTM3U\n#EXT-X-INDEPENDENT-SEGMENTS\r\n#EXT-X-MEDIA\n").unwrap();
    assert_eq!(playlist.ext_infos.len(), 2);
    assert_eq!(
        playlist.ext_infos[0].ext_type,
        PlaylistExtType::Unknown("INDEPENDENT-SEGMENTS".to_owned())
    );
    assert!(playlist.ext_infos[0].attributes.is_empty());
    assert_eq!(playlist.ext_infos[1].ext_type, PlaylistExtType::Media);
}
