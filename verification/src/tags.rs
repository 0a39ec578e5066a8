//! Tag lines: the scanner that takes a tag line apart, and the kinds of tag
//! that a master and a media playlist know.
use vstd::prelude::*;
use vstd::string::*;

use crate::error::M3U8ParserError;
use crate::text::{
    lemma_contains_part, lemma_position, lemma_position_after, plain, position, same_text,
    split_before, split_first, strip_prefix, COLON, LINE_FEED,
};

verus! {

/// The first line of every playlist, with its line feed.
pub open spec fn header() -> Seq<char> {
    "#EXTM3U\n"@
}

/// What every tag line starts with.
pub open spec fn tag_prefix() -> Seq<char> {
    seq!['#', 'E', 'X', 'T']
}

/// The marker that stands between the prefix and the name of most tags.
pub open spec fn marker() -> Seq<char> {
    seq!['-', 'X', '-']
}

/// The raw name of the tag of `line` and the remainder of the line, or `None`
/// where `line` does not start with the prefix. The name ends before the first
/// colon, which belongs to neither; where there is no colon, the name is the
/// rest of the line.
pub open spec fn scan_tag(line: Seq<char>) -> Option<(Seq<char>, Seq<char>)> {
    if tag_prefix().is_prefix_of(line) {
        let body = line.skip(tag_prefix().len() as int);
        let colon = position(body, ':');
        if colon < body.len() {
            Some((body.take(colon), body.skip(colon + 1)))
        } else {
            let end = position(body, '\n');
            Some((body.take(end), body.skip(end)))
        }
    } else {
        None
    }
}

/// The name of the tag with the raw name `raw`: `raw` without the one marker
/// that it may start with.
pub open spec fn strip_marker(raw: Seq<char>) -> Seq<char> {
    if marker().is_prefix_of(raw) {
        raw.skip(marker().len() as int)
    } else {
        raw
    }
}

/// The kinds of tag of a master playlist.
pub enum TagKind {
    Media,
    StreamInf,
    Unknown(Seq<char>),
}

/// The kind of the master playlist tag with the name `name`. The name of a
/// kind is matched letter for letter; any other name is kept as it is.
pub open spec fn master_kind(name: Seq<char>) -> TagKind {
    if name == "MEDIA"@ {
        TagKind::Media
    } else if name == "STREAM-INF"@ {
        TagKind::StreamInf
    } else {
        TagKind::Unknown(name)
    }
}

/// The kind of the master playlist tag with the raw name `raw`.
pub open spec fn master_tag(raw: Seq<char>) -> TagKind {
    master_kind(strip_marker(raw))
}

/// The kinds of tag of a media playlist.
pub enum MediaTagKind {
    Version,
    TargetDuration,
    MediaSequence,
    DateRange,
    Discontinuity,
    Inf,
    ProgramDateTime,
    Unknown(Seq<char>),
}

/// The kind of the media playlist tag with the name `name`. The name of a
/// kind is matched letter for letter; any other name is kept as it is.
pub open spec fn media_kind(name: Seq<char>) -> MediaTagKind {
    if name == "VERSION"@ {
        MediaTagKind::Version
    } else if name == "TARGETDURATION"@ {
        MediaTagKind::TargetDuration
    } else if name == "MEDIA-SEQUENCE"@ {
        MediaTagKind::MediaSequence
    } else if name == "DATERANGE"@ {
        MediaTagKind::DateRange
    } else if name == "DISCONTINUITY"@ {
        MediaTagKind::Discontinuity
    } else if name == "INF"@ {
        MediaTagKind::Inf
    } else if name == "PROGRAM-DATE-TIME"@ {
        MediaTagKind::ProgramDateTime
    } else {
        MediaTagKind::Unknown(name)
    }
}

/// The kind of the media playlist tag with the raw name `raw`.
pub open spec fn media_tag(raw: Seq<char>) -> MediaTagKind {
    media_kind(strip_marker(raw))
}

impl MediaTagKind {
    /// The name of the kind, as a tag line holds it after the marker.
    pub open spec fn name(self) -> Seq<char> {
        match self {
            MediaTagKind::Version => "VERSION"@,
            MediaTagKind::TargetDuration => "TARGETDURATION"@,
            MediaTagKind::MediaSequence => "MEDIA-SEQUENCE"@,
            MediaTagKind::DateRange => "DATERANGE"@,
            MediaTagKind::Discontinuity => "DISCONTINUITY"@,
            MediaTagKind::Inf => "INF"@,
            MediaTagKind::ProgramDateTime => "PROGRAM-DATE-TIME"@,
            MediaTagKind::Unknown(name) => name,
        }
    }
}

/// A type of tags that can be made from the raw name of a tag line.
pub trait TagName: Sized {
    /// Whether `self` is the tag with the raw name `raw`.
    spec fn is_tag_of(&self, raw: Seq<char>) -> bool;

    /// The tag with the raw name `raw`.
    fn from_raw(raw: &str) -> (tag: Self)
        ensures
            tag.is_tag_of(raw@),
    ;
}

/// The name of the tag with the raw name `raw`: `raw` without the one marker
/// that it may start with.
pub fn without_marker<'a>(raw: &'a str) -> (name: &'a str)
    ensures
        name@ == strip_marker(raw@),
{
    proof {
        reveal_strlit("-X-");
        assert("-X-"@ =~= marker());
    }
    match strip_prefix(raw, "-X-") {
        Some(name) => name,
        None => raw,
    }
}

/// The tag of a line of a master playlist.
#[derive(Debug, PartialEq, Clone)]
pub enum PlaylistExtType {
    Media,
    StreamInf,
    Unknown(String),
}

impl View for PlaylistExtType {
    type V = TagKind;

    open spec fn view(&self) -> TagKind {
        match self {
            PlaylistExtType::Media => TagKind::Media,
            PlaylistExtType::StreamInf => TagKind::StreamInf,
            PlaylistExtType::Unknown(name) => TagKind::Unknown(name@),
        }
    }
}

impl TagName for PlaylistExtType {
    open spec fn is_tag_of(&self, raw: Seq<char>) -> bool {
        self@ == master_tag(raw)
    }

    fn from_raw(raw: &str) -> (tag: Self) {
        let name = without_marker(raw);
        if same_text(name, "MEDIA") {
            PlaylistExtType::Media
        } else if same_text(name, "STREAM-INF") {
            PlaylistExtType::StreamInf
        } else {
            PlaylistExtType::Unknown(name.to_owned())
        }
    }
}

impl<'a> From<&'a str> for PlaylistExtType {
    fn from(raw: &'a str) -> (tag: Self)
        ensures
            tag@ == master_tag(raw@),
    {
        PlaylistExtType::from_raw(raw)
    }
}


impl<'a> vstd::std_specs::convert::FromSpecImpl<&'a str> for PlaylistExtType {
    open spec fn obeys_from_spec() -> bool {
        false
    }

    open spec fn from_spec(raw: &'a str) -> Self {
        PlaylistExtType::Media
    }
}

/// The tag of a line of a media playlist.
#[derive(Debug, PartialEq, Clone)]
pub enum MediaExtType {
    Version,
    TargetDuration,
    MediaSequence,
    DateRange,
    Discontinuity,
    Inf,
    ProgramDateTime,
    Unknown(String),
}

impl View for MediaExtType {
    type V = MediaTagKind;

    open spec fn view(&self) -> MediaTagKind {
        match self {
            MediaExtType::Version => MediaTagKind::Version,
            MediaExtType::TargetDuration => MediaTagKind::TargetDuration,
            MediaExtType::MediaSequence => MediaTagKind::MediaSequence,
            MediaExtType::DateRange => MediaTagKind::DateRange,
            MediaExtType::Discontinuity => MediaTagKind::Discontinuity,
            MediaExtType::Inf => MediaTagKind::Inf,
            MediaExtType::ProgramDateTime => MediaTagKind::ProgramDateTime,
            MediaExtType::Unknown(name) => MediaTagKind::Unknown(name@),
        }
    }
}

impl MediaExtType {
    /// The name of the tag, as a tag line holds it after the marker.
    pub fn name(&self) -> (name: &str)
        ensures
            name@ == self@.name(),
    {
        match self {
            MediaExtType::Version => "VERSION",
            MediaExtType::TargetDuration => "TARGETDURATION",
            MediaExtType::MediaSequence => "MEDIA-SEQUENCE",
            MediaExtType::DateRange => "DATERANGE",
            MediaExtType::Discontinuity => "DISCONTINUITY",
            MediaExtType::Inf => "INF",
            MediaExtType::ProgramDateTime => "PROGRAM-DATE-TIME",
            MediaExtType::Unknown(name) => name.as_str(),
        }
    }
}

impl TagName for MediaExtType {
    open spec fn is_tag_of(&self, raw: Seq<char>) -> bool {
        self@ == media_tag(raw)
    }

    fn from_raw(raw: &str) -> (tag: Self) {
        let name = without_marker(raw);
        if same_text(name, "VERSION") {
            MediaExtType::Version
        } else if same_text(name, "TARGETDURATION") {
            MediaExtType::TargetDuration
        } else if same_text(name, "MEDIA-SEQUENCE") {
            MediaExtType::MediaSequence
        } else if same_text(name, "DATERANGE") {
            MediaExtType::DateRange
        } else if same_text(name, "DISCONTINUITY") {
            MediaExtType::Discontinuity
        } else if same_text(name, "INF") {
            MediaExtType::Inf
        } else if same_text(name, "PROGRAM-DATE-TIME") {
            MediaExtType::ProgramDateTime
        } else {
            MediaExtType::Unknown(name.to_owned())
        }
    }
}

impl<'a> From<&'a str> for MediaExtType {
    fn from(raw: &'a str) -> (tag: Self)
        ensures
            tag@ == media_tag(raw@),
    {
        MediaExtType::from_raw(raw)
    }
}

impl<'a> vstd::std_specs::convert::FromSpecImpl<&'a str> for MediaExtType {
    open spec fn obeys_from_spec() -> bool {
        false
    }

    open spec fn from_spec(raw: &'a str) -> Self {
        MediaExtType::Version
    }
}

/// The rest of `input` after the header and the header, or `Malformed` with
/// `input` where it does not start with the header.
pub fn ext_identifier<'a>(input: &'a str) -> (scanned: Result<
    (&'a str, &'a str),
    M3U8ParserError<&'a str>,
>)
    ensures
        match scanned {
            Ok((rest, matched)) => header().is_prefix_of(input@) && matched@ == header() && rest@
                == input@.skip(header().len() as int),
            Err(error) => !header().is_prefix_of(input@) && error == M3U8ParserError::Malformed(
                input,
            ),
        },
{
    match strip_prefix(input, "#EXTM3U\n") {
        Some(rest) => Ok((rest, "#EXTM3U\n")),
        None => Err(M3U8ParserError::Malformed(input)),
    }
}

/// Takes the tag line `line` apart: the remainder of the line and its tag, or
/// `Malformed` with the line where it does not start with the prefix.
pub fn ext_type<'a, T: TagName>(line: &'a str) -> (scanned: Result<
    (&'a str, T),
    M3U8ParserError<&'a str>,
>)
    ensures
        match scanned {
            Ok((rest, tag)) => scan_tag(line@) matches Some((raw, remainder)) && rest@ == remainder
                && tag.is_tag_of(raw),
            Err(error) => scan_tag(line@) is None && error == M3U8ParserError::Malformed(line),
        },
{
    proof {
        reveal_strlit("#EXT");
        assert("#EXT"@ =~= tag_prefix());
    }
    match strip_prefix(line, "#EXT") {
        None => Err(M3U8ParserError::Malformed(line)),
        Some(body) => {
            proof {
                lemma_position(body@, ':');
            }
            match split_first(body, COLON) {
                Some((raw, rest)) => Ok((rest, T::from_raw(raw))),
                None => {
                    let (raw, rest) = split_before(body, LINE_FEED);
                    Ok((rest, T::from_raw(raw)))
                },
            }
        },
    }
}

/// The name of a tag is the end of its raw name.
pub proof fn lemma_strip_marker(raw: Seq<char>)
    ensures
        exists|k: int| 0 <= k <= raw.len() && strip_marker(raw) == raw.skip(k),
{
    if marker().is_prefix_of(raw) {
        assert(strip_marker(raw) == raw.skip(3));
    } else {
        assert(raw.skip(0) =~= raw);
    }
}

/// A name after a marker is read as the name itself, whatever it starts
/// with.
pub proof fn lemma_marked(name: Seq<char>)
    ensures
        strip_marker(marker() + name) == name,
{
    assert((marker() + name).skip(3) =~= name);
}

/// The name of each kind of tag but `Unknown` holds no colon and no line
/// feed, and is read back as its kind with a marker and without.
pub proof fn lemma_kind_name(kind: MediaTagKind)
    requires
        !(kind is Unknown),
    ensures
        !kind.name().contains(':'),
        !kind.name().contains('\n'),
        kind.name().len() > 0,
        kind.name().last() != '\r',
        media_kind(kind.name()) == kind,
        media_tag(kind.name()) == kind,
        media_tag(marker() + kind.name()) == kind,
{
    reveal_strlit("VERSION");
    reveal_strlit("TARGETDURATION");
    reveal_strlit("MEDIA-SEQUENCE");
    reveal_strlit("DATERANGE");
    reveal_strlit("DISCONTINUITY");
    reveal_strlit("INF");
    reveal_strlit("PROGRAM-DATE-TIME");
    let name = kind.name();
    lemma_marked(name);
    assert(name[0] != '-');
    assert(strip_marker(name) == name);
    assert("TARGETDURATION"@[0] != "MEDIA-SEQUENCE"@[0]);
    assert forall|i: int| 0 <= i < name.len() implies name[i] != ':' && name[i] != '\n' by {
        assert(name[i] == '-' || ('A' <= name[i] && name[i] <= 'Z'));
    }
}

/// A tag line with a colon is taken apart at its first colon.
pub proof fn lemma_scan_tag_line(raw: Seq<char>, rest: Seq<char>)
    requires
        !raw.contains(':'),
    ensures
        scan_tag(tag_prefix() + raw + seq![':'] + rest) == Some((raw, rest)),
{
    let line = tag_prefix() + raw + seq![':'] + rest;
    let body = line.skip(4);
    assert(body =~= raw + seq![':'] + rest);
    lemma_position_after(raw, ':', rest);
}

/// A tag line without a colon is its name.
pub proof fn lemma_scan_bare_tag(raw: Seq<char>)
    requires
        !raw.contains(':'),
        !raw.contains('\n'),
    ensures
        scan_tag(tag_prefix() + raw) == Some((raw, Seq::<char>::empty())),
{
    let line = tag_prefix() + raw;
    let body = line.skip(4);
    assert(body =~= raw);
    lemma_position(raw, ':');
    lemma_position(raw, '\n');
    assert(raw.take(raw.len() as int) =~= raw);
    assert(raw.skip(raw.len() as int) =~= Seq::<char>::empty());
}

/// What a plain tag line is taken apart into is plain, and the raw name
/// holds no colon.
pub proof fn lemma_scan_tag_plain(line: Seq<char>)
    requires
        plain(line),
    ensures
        scan_tag(line) matches Some((raw, rest)) ==> plain(raw) && plain(rest) && !raw.contains(
            ':',
        ),
{
    if tag_prefix().is_prefix_of(line) {
        let body = line.skip(4);
        lemma_contains_part(line, 4, line.len() as int, '\n');
        assert(body =~= line.subrange(4, line.len() as int));
        lemma_position(body, ':');
        lemma_position(body, '\n');
        let colon = position(body, ':');
        if colon < body.len() {
            lemma_contains_part(body, 0, colon, '\n');
            lemma_contains_part(body, colon + 1, body.len() as int, '\n');
            let raw = body.take(colon);
            if raw.contains(':') {
                let i = choose|i: int| 0 <= i < raw.len() && raw[i] == ':';
                assert(body[i] == ':');
            }
        } else {
            assert(body.take(body.len() as int) =~= body);
            assert(body.skip(body.len() as int) =~= Seq::<char>::empty());
        }
    }
}

} // verus!
