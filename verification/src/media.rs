//! Media playlists: the segments of a stream in their order, with the tags
//! that stand between them.
use indexmap::IndexMap;
use vstd::prelude::*;
use vstd::string::*;

use crate::attrs::{
    attribute_pairs, attributes, insert_attribute, new_attributes, parse_attributes,
    rejoin_attributes, rejoined,
};
use crate::error::{Failure, M3U8ParserError};
use crate::numbers::{
    decimal, float_sentence, is_float, is_float_literal, parse_u32, parse_u8, push_decimal,
    unsigned, NumberError,
};
use crate::tags::{
    ext_identifier, ext_type, header, marker, media_tag, scan_tag, tag_prefix, MediaExtType,
    MediaTagKind,
};
use crate::text::{
    lemma_position, line, lines_of, position, split_first, split_lines, texts, COMMA,
};

verus! {

/// One segment of a stream, each text as its characters. The duration is the
/// floating-point literal that the playlist gives.
pub struct Segment {
    pub duration: Seq<char>,
    pub title: Option<Seq<char>>,
    pub uri: Seq<char>,
    pub program_date_time: Option<Seq<char>>,
}

/// One tag of a media playlist that is neither a segment nor one of the three
/// numbers of the playlist.
pub struct MediaExtEntry {
    pub tag: MediaTagKind,
    pub attributes: Seq<(Seq<char>, Seq<char>)>,
}

/// What a media playlist holds.
pub struct MediaPlaylist {
    pub version: u8,
    pub target_duration: u8,
    pub media_sequence: u32,
    pub segments: Seq<Segment>,
    pub ext_entries: Seq<MediaExtEntry>,
}

/// What reading a media playlist has found up to some line: the playlist so
/// far, and the date and time that wait for the next segment.
pub struct MediaState {
    pub playlist: MediaPlaylist,
    pub pending: Option<Seq<char>>,
}

/// The state before the first line.
pub open spec fn initial_state() -> MediaState {
    MediaState {
        playlist: MediaPlaylist {
            version: 0,
            target_duration: 0,
            media_sequence: 0,
            segments: Seq::empty(),
            ext_entries: Seq::empty(),
        },
        pending: None,
    }
}

impl MediaState {
    /// The state with one more entry.
    pub open spec fn with_entry(
        self,
        tag: MediaTagKind,
        attributes: Seq<(Seq<char>, Seq<char>)>,
    ) -> MediaState {
        MediaState {
            playlist: MediaPlaylist {
                ext_entries: self.playlist.ext_entries.push(MediaExtEntry { tag, attributes }),
                ..self.playlist
            },
            ..self
        }
    }

    /// The state with one more segment, which takes the date and time that
    /// waited.
    pub open spec fn with_segment(
        self,
        duration: Seq<char>,
        title: Seq<char>,
        uri: Seq<char>,
    ) -> MediaState {
        MediaState {
            playlist: MediaPlaylist {
                segments: self.playlist.segments.push(
                    Segment {
                        duration,
                        title: if title.len() == 0 {
                            None
                        } else {
                            Some(title)
                        },
                        uri,
                        program_date_time: self.pending,
                    },
                ),
                ..self.playlist
            },
            pending: None,
        }
    }
}

/// The failure of a text that is no integer.
pub open spec fn integer_failure(error: NumberError) -> Failure {
    Failure::ParseInt(error.sentence())
}

/// Whether `line` is the tag of a segment, which takes the line after it.
pub open spec fn takes_next(line: Seq<char>) -> bool {
    scan_tag(line) matches Some((raw, rest)) && media_tag(raw) is Inf
}

/// The state after the tag line `line`, which `next` follows if any line does.
pub open spec fn media_step(state: MediaState, line: Seq<char>, next: Option<Seq<char>>) -> Result<
    MediaState,
    Failure,
> {
    match scan_tag(line) {
        None => Err(Failure::Malformed(line)),
        Some((raw, rest)) => match media_tag(raw) {
            MediaTagKind::DateRange => match parse_attributes(rest) {
                Ok(pairs) => Ok(state.with_entry(MediaTagKind::DateRange, pairs)),
                Err(at) => Err(Failure::Malformed(at)),
            },
            MediaTagKind::Unknown(name) => Ok(
                state.with_entry(MediaTagKind::Unknown(name), seq![("UNKNOWN"@, rest)]),
            ),
            MediaTagKind::ProgramDateTime => Ok(MediaState { pending: Some(rest), ..state }),
            MediaTagKind::Inf => {
                let comma = position(rest, ',');
                if comma == rest.len() {
                    Err(Failure::Malformed(rest))
                } else {
                    match next {
                        None => Ok(state),
                        Some(uri) => {
                            let duration = rest.take(comma);
                            if is_float_literal(duration) {
                                Ok(state.with_segment(duration, rest.skip(comma + 1), uri))
                            } else {
                                Err(Failure::ParseFloat(float_sentence(duration)))
                            }
                        },
                    }
                }
            },
            MediaTagKind::Version => match unsigned(rest, u8::MAX as nat) {
                Ok(number) => Ok(
                    MediaState {
                        playlist: MediaPlaylist { version: number as u8, ..state.playlist },
                        ..state
                    },
                ),
                Err(error) => Err(integer_failure(error)),
            },
            MediaTagKind::TargetDuration => match unsigned(rest, u8::MAX as nat) {
                Ok(number) => Ok(
                    MediaState {
                        playlist: MediaPlaylist { target_duration: number as u8, ..state.playlist },
                        ..state
                    },
                ),
                Err(error) => Err(integer_failure(error)),
            },
            MediaTagKind::MediaSequence => match unsigned(rest, u32::MAX as nat) {
                Ok(number) => Ok(
                    MediaState {
                        playlist: MediaPlaylist { media_sequence: number as u32, ..state.playlist },
                        ..state
                    },
                ),
                Err(error) => Err(integer_failure(error)),
            },
            MediaTagKind::Discontinuity => Ok(
                state.with_entry(MediaTagKind::Discontinuity, Seq::empty()),
            ),
        },
    }
}

/// The state after the lines `lines`, read one tag after the other from
/// `state`.
pub open spec fn media_run(state: MediaState, lines: Seq<Seq<char>>) -> Result<MediaState, Failure>
    decreases lines.len(),
{
    if lines.len() == 0 {
        Ok(state)
    } else if lines.len() == 1 {
        media_step(state, lines[0], None)
    } else {
        match media_step(state, lines[0], Some(lines[1])) {
            Ok(after) => media_run(
                after,
                lines.skip(
                    if takes_next(lines[0]) {
                        2
                    } else {
                        1
                    },
                ),
            ),
            Err(failure) => Err(failure),
        }
    }
}

/// The playlist of the state that reading ended in, or why it failed.
pub open spec fn outcome(end: Result<MediaState, Failure>) -> Result<MediaPlaylist, Failure> {
    match end {
        Ok(state) => Ok(state.playlist),
        Err(failure) => Err(failure),
    }
}

/// The media playlist that `text` holds, or why it holds none.
pub open spec fn parse_media(text: Seq<char>) -> Result<MediaPlaylist, Failure> {
    if header().is_prefix_of(text) {
        outcome(media_run(initial_state(), lines_of(text.skip(header().len() as int))))
    } else {
        Err(Failure::Malformed(text))
    }
}

/// One segment of a stream. The duration is the floating-point literal that
/// the playlist gives, as text.
#[derive(Debug, PartialEq, Clone)]
pub struct MediaSegment {
    pub duration: String,
    pub title: Option<String>,
    pub uri: String,
    pub program_date_time: Option<String>,
}

/// The characters of a text that may be missing.
pub open spec fn text_of(text: Option<String>) -> Option<Seq<char>> {
    match text {
        Some(text) => Some(text@),
        None => None,
    }
}

impl View for MediaSegment {
    type V = Segment;

    open spec fn view(&self) -> Segment {
        Segment {
            duration: self.duration@,
            title: text_of(self.title),
            uri: self.uri@,
            program_date_time: text_of(self.program_date_time),
        }
    }
}

/// One tag of a media playlist with its attributes.
#[derive(Debug, PartialEq)]
pub struct MediaExtInfo<'a> {
    pub ext_type: MediaExtType,
    pub attributes: IndexMap<&'a str, &'a str>,
}

impl<'a> View for MediaExtInfo<'a> {
    type V = MediaExtEntry;

    open spec fn view(&self) -> MediaExtEntry {
        MediaExtEntry { tag: self.ext_type@, attributes: attribute_pairs(self.attributes) }
    }
}

/// A media playlist.
#[derive(Debug, PartialEq)]
pub struct MediaList<'a> {
    pub version: u8,
    pub target_duration: u8,
    pub media_sequence: u32,
    pub media_segments: Vec<MediaSegment>,
    pub ext_infos: Vec<MediaExtInfo<'a>>,
}

/// The segments of `list`, each as what it holds.
pub open spec fn segments_of(list: Seq<MediaSegment>) -> Seq<Segment> {
    Seq::new(list.len(), |i: int| list[i]@)
}

/// The entries of `list`, each as what it holds.
pub open spec fn entries_of(list: Seq<MediaExtInfo>) -> Seq<MediaExtEntry> {
    Seq::new(list.len(), |i: int| list[i]@)
}

impl<'a> View for MediaList<'a> {
    type V = MediaPlaylist;

    open spec fn view(&self) -> MediaPlaylist {
        MediaPlaylist {
            version: self.version,
            target_duration: self.target_duration,
            media_sequence: self.media_sequence,
            segments: segments_of(self.media_segments@),
            ext_entries: entries_of(self.ext_infos@),
        }
    }
}

/// The duration and the title that the remainder `input` of the tag of a
/// segment holds, with the first comma between them, or `Malformed` with
/// `input` where it holds no comma.
pub fn comma_sep_pair<'a>(input: &'a str) -> (scanned: Result<
    (&'a str, &'a str),
    M3U8ParserError<&'a str>,
>)
    ensures
        match scanned {
            Ok((duration, title)) => input@.contains(',') && duration@ == input@.take(
                position(input@, ','),
            ) && title@ == input@.skip(position(input@, ',') + 1),
            Err(error) => !input@.contains(',') && error == M3U8ParserError::Malformed(input),
        },
{
    match split_first(input, COMMA) {
        Some(pair) => Ok(pair),
        None => Err(M3U8ParserError::Malformed(input)),
    }
}

/// The error of a text that is no integer.
fn integer_error<'a>(error: NumberError) -> (failed: M3U8ParserError<&'a str>)
    ensures
        failed@ == integer_failure(error),
{
    M3U8ParserError::ParseIntError(error.message().to_owned())
}

/// The error of a duration that is no floating-point literal.
fn float_error<'a>(duration: &str) -> (failed: M3U8ParserError<&'a str>)
    ensures
        failed@ == Failure::ParseFloat(float_sentence(duration@)),
{
    if duration.is_empty() {
        M3U8ParserError::ParseFloatError("cannot parse float from empty string".to_owned())
    } else {
        M3U8ParserError::ParseFloatError("invalid float literal".to_owned())
    }
}

/// The media playlist that `data` holds. Reading stops at the first line that
/// fails, with the error of that line.
pub fn read_media_list<'a>(data: &'a str) -> (parsed: Result<
    MediaList<'a>,
    M3U8ParserError<&'a str>,
>)
    ensures
        match parsed {
            Ok(list) => parse_media(data@) == Ok::<_, Failure>(list@),
            Err(error) => parse_media(data@) == Err::<MediaPlaylist, _>(error@),
        },
        !header().is_prefix_of(data@) ==> parsed == Err::<MediaList, M3U8ParserError<&str>>(
            M3U8ParserError::Malformed(data),
        ),
{
    let body = match ext_identifier(data) {
        Ok((rest, _)) => rest,
        Err(error) => {
            return Err(error);
        },
    };
    let lines = split_lines(body);
    let ghost all = lines_of(body@);

    let mut media_segments: Vec<MediaSegment> = Vec::new();
    let mut ext_infos: Vec<MediaExtInfo<'a>> = Vec::new();
    let mut version: u8 = 0;
    let mut target_duration: u8 = 0;
    let mut media_sequence: u32 = 0;
    let mut pending: Option<String> = None;

    let mut i: usize = 0;
    proof {
        assert(all.skip(0) =~= all);
        assert(segments_of(media_segments@) =~= Seq::<Segment>::empty());
        assert(entries_of(ext_infos@) =~= Seq::<MediaExtEntry>::empty());
    }
    while i < lines.len()
        invariant
            0 <= i <= lines@.len(),
            texts(lines@) == all,
            header().is_prefix_of(data@),
            parse_media(data@) == outcome(media_run(initial_state(), all)),
            media_run(initial_state(), all) == media_run(
                MediaState {
                    playlist: MediaPlaylist {
                        version,
                        target_duration,
                        media_sequence,
                        segments: segments_of(media_segments@),
                        ext_entries: entries_of(ext_infos@),
                    },
                    pending: text_of(pending),
                },
                all.skip(i as int),
            ),
        decreases lines@.len() - i,
    {
        let ghost state = MediaState {
            playlist: MediaPlaylist {
                version,
                target_duration,
                media_sequence,
                segments: segments_of(media_segments@),
                ext_entries: entries_of(ext_infos@),
            },
            pending: text_of(pending),
        };
        let ghost left = all.skip(i as int);
        let ghost next = if left.len() == 1 {
            None
        } else {
            Some(left[1])
        };
        let ghost before_entries = entries_of(ext_infos@);
        let ghost before_segments = segments_of(media_segments@);
        let line = lines[i];
        proof {
            assert(left[0] == line@);
            assert(left.skip(1) =~= all.skip(i + 1));
            if left.len() > 1 {
                assert(left.skip(2) =~= all.skip(i + 2));
                assert(left[1] == lines@[i + 1]@);
            }
            assert(media_run(state, left) == if left.len() == 1 {
                media_step(state, line@, None)
            } else {
                match media_step(state, line@, Some(left[1])) {
                    Ok(after) => media_run(
                        after,
                        left.skip(
                            if takes_next(line@) {
                                2
                            } else {
                                1
                            },
                        ),
                    ),
                    Err(failure) => Err(failure),
                }
            });
        }
        let (rest, tag) = match ext_type::<MediaExtType>(line) {
            Ok(scanned) => scanned,
            Err(error) => {
                return Err(error);
            },
        };
        let mut taken: usize = 1;
        match tag {
            MediaExtType::DateRange => {
                let attributes = match attributes(rest) {
                    Ok((_, map)) => map,
                    Err(error) => {
                        return Err(error);
                    },
                };
                ext_infos.push(MediaExtInfo { ext_type: tag, attributes });
                proof {
                    assert(entries_of(ext_infos@) =~= before_entries.push(
                        MediaExtEntry {
                            tag: MediaTagKind::DateRange,
                            attributes: attribute_pairs(attributes),
                        },
                    ));
                }
            },
            MediaExtType::Unknown(_) => {
                let mut attributes = new_attributes();
                insert_attribute(&mut attributes, "UNKNOWN", rest);
                let ghost kind = tag@;
                ext_infos.push(MediaExtInfo { ext_type: tag, attributes });
                proof {
                    assert(attribute_pairs(attributes) =~= seq![("UNKNOWN"@, rest@)]);
                    assert(entries_of(ext_infos@) =~= before_entries.push(
                        MediaExtEntry { tag: kind, attributes: attribute_pairs(attributes) },
                    ));
                }
            },
            MediaExtType::ProgramDateTime => {
                pending = Some(rest.to_owned());
            },
            MediaExtType::Inf => {
                proof {
                    lemma_position(rest@, ',');
                }
                let (duration, title) = match comma_sep_pair(rest) {
                    Ok(pair) => pair,
                    Err(error) => {
                        return Err(error);
                    },
                };
                if i + 1 < lines.len() {
                    let uri = lines[i + 1];
                    if !is_float(duration) {
                        return Err(float_error(duration));
                    }
                    let date = pending;
                    pending = None;
                    media_segments.push(
                        MediaSegment {
                            duration: duration.to_owned(),
                            title: if title.is_empty() {
                                None
                            } else {
                                Some(title.to_owned())
                            },
                            uri: uri.to_owned(),
                            program_date_time: date,
                        },
                    );
                    proof {
                        assert(segments_of(media_segments@) =~= before_segments.push(
                            media_segments@.last()@,
                        ));
                    }
                    taken = 2;
                }
            },
            MediaExtType::Version => {
                version =
                match parse_u8(rest) {
                    Ok(number) => number,
                    Err(error) => {
                        return Err(integer_error(error));
                    },
                };
            },
            MediaExtType::TargetDuration => {
                target_duration =
                match parse_u8(rest) {
                    Ok(number) => number,
                    Err(error) => {
                        return Err(integer_error(error));
                    },
                };
            },
            MediaExtType::MediaSequence => {
                media_sequence =
                match parse_u32(rest) {
                    Ok(number) => number,
                    Err(error) => {
                        return Err(integer_error(error));
                    },
                };
            },
            MediaExtType::Discontinuity => {
                let attributes = new_attributes();
                ext_infos.push(MediaExtInfo { ext_type: tag, attributes });
                proof {
                    assert(entries_of(ext_infos@) =~= before_entries.push(
                        MediaExtEntry {
                            tag: MediaTagKind::Discontinuity,
                            attributes: Seq::empty(),
                        },
                    ));
                }
            },
        }
        proof {
            if left.len() == 1 {
                assert(all.skip(i + taken) =~= Seq::<Seq<char>>::empty());
            }
        }
        i += taken;
    }
    proof {
        assert(all.skip(i as int) =~= Seq::<Seq<char>>::empty());
    }
    Ok(MediaList { version, target_duration, media_sequence, media_segments, ext_infos })
}

/// The tag line with the raw name `raw` and the remainder `rest`.
pub open spec fn tag_line(raw: Seq<char>, rest: Seq<char>) -> Seq<char> {
    line(tag_prefix() + raw + seq![':'] + rest)
}

/// The lines that an entry is written as: none for the tags that are written
/// with the segments, the bare tag for a discontinuity, and the tag with its
/// attributes for every other.
pub open spec fn entry_text(entry: MediaExtEntry) -> Seq<char> {
    match entry.tag {
        MediaTagKind::Inf | MediaTagKind::ProgramDateTime => Seq::empty(),
        MediaTagKind::Discontinuity => line(tag_prefix() + marker() + entry.tag.name()),
        _ => tag_line(marker() + entry.tag.name(), rejoined(entry.attributes)),
    }
}

/// The lines that the entries are written as, in their order.
pub open spec fn entries_text(entries: Seq<MediaExtEntry>) -> Seq<char>
    decreases entries.len(),
{
    if entries.len() == 0 {
        Seq::empty()
    } else {
        entries_text(entries.drop_last()) + entry_text(entries.last())
    }
}

/// The title of a segment as it is written: nothing where there is none.
pub open spec fn title_text(title: Option<Seq<char>>) -> Seq<char> {
    match title {
        Some(title) => title,
        None => Seq::empty(),
    }
}

/// The lines that a segment is written as: its date and time if it has one,
/// its duration and title, and its URI.
pub open spec fn segment_text(segment: Segment) -> Seq<char> {
    (match segment.program_date_time {
        Some(date) => tag_line(marker() + MediaTagKind::ProgramDateTime.name(), date),
        None => Seq::empty(),
    }) + tag_line(
        MediaTagKind::Inf.name(),
        segment.duration + seq![','] + title_text(segment.title),
    ) + line(segment.uri)
}

/// The lines that the segments are written as, in their order.
pub open spec fn segments_text(segments: Seq<Segment>) -> Seq<char>
    decreases segments.len(),
{
    if segments.len() == 0 {
        Seq::empty()
    } else {
        segments_text(segments.drop_last()) + segment_text(segments.last())
    }
}

/// The line that gives one of the three numbers of a playlist.
pub open spec fn number_line(kind: MediaTagKind, number: nat) -> Seq<char> {
    tag_line(marker() + kind.name(), decimal(number))
}

/// The lines that come first in every media playlist: the header and the
/// three numbers.
pub open spec fn head_text(list: MediaPlaylist) -> Seq<char> {
    header() + number_line(MediaTagKind::Version, list.version as nat) + number_line(
        MediaTagKind::TargetDuration,
        list.target_duration as nat,
    ) + number_line(MediaTagKind::MediaSequence, list.media_sequence as nat)
}

/// The text that a media playlist is written as: the header, the three
/// numbers, the entries and then the segments.
pub open spec fn media_text(list: MediaPlaylist) -> Seq<char> {
    head_text(list) + entries_text(list.ext_entries) + segments_text(list.segments)
}

/// Appends to `output` the start of a tag line up to its colon, or up to its
/// end where `colon` is false.
fn push_tag(output: &mut String, marked: bool, name: &str, colon: bool)
    ensures
        final(output)@ == old(output)@ + tag_prefix() + (if marked {
            marker()
        } else {
            Seq::empty()
        }) + name@ + (if colon {
            seq![':']
        } else {
            seq!['\n']
        }),
{
    proof {
        reveal_strlit("#EXT");
        reveal_strlit("-X-");
        reveal_strlit(":");
        reveal_strlit("\n");
        assert("#EXT"@ =~= tag_prefix());
        assert("-X-"@ =~= marker());
        assert(":"@ =~= seq![':']);
        assert("\n"@ =~= seq!['\n']);
    }
    output.append("#EXT");
    if marked {
        output.append("-X-");
    }
    output.append(name);
    if colon {
        output.append(":");
    } else {
        output.append("\n");
    }
    proof {
        assert(output@ =~= old(output)@ + tag_prefix() + (if marked {
            marker()
        } else {
            Seq::empty()
        }) + name@ + (if colon {
            seq![':']
        } else {
            seq!['\n']
        }));
    }
}

/// Appends to `output` the end of a line.
fn push_end(output: &mut String)
    ensures
        final(output)@ == old(output)@ + seq!['\n'],
{
    proof {
        reveal_strlit("\n");
        assert("\n"@ =~= seq!['\n']);
    }
    output.append("\n");
}

/// Appends to `output` the line that gives one of the three numbers.
fn push_number(output: &mut String, kind: &MediaExtType, number: u32)
    ensures
        final(output)@ == old(output)@ + number_line(kind@, number as nat),
{
    push_tag(output, true, kind.name(), true);
    push_decimal(output, number);
    push_end(output);
    proof {
        assert(output@ =~= old(output)@ + number_line(kind@, number as nat));
    }
}

/// Appends to `output` the lines that `entry` is written as.
fn push_entry(output: &mut String, entry: &MediaExtInfo)
    ensures
        final(output)@ == old(output)@ + entry_text(entry@),
{
    match &entry.ext_type {
        MediaExtType::Inf | MediaExtType::ProgramDateTime => {
            proof {
                assert(output@ =~= old(output)@ + entry_text(entry@));
            }
        },
        MediaExtType::Discontinuity => {
            push_tag(output, true, entry.ext_type.name(), false);
            proof {
                assert(output@ =~= old(output)@ + entry_text(entry@));
            }
        },
        _ => {
            push_tag(output, true, entry.ext_type.name(), true);
            let rest = rejoin_attributes(&entry.attributes);
            output.append(rest.as_str());
            push_end(output);
            proof {
                assert(output@ =~= old(output)@ + entry_text(entry@));
            }
        },
    }
}

/// Appends to `output` the lines that `segment` is written as.
fn push_segment(output: &mut String, segment: &MediaSegment)
    ensures
        final(output)@ == old(output)@ + segment_text(segment@),
{
    let date_kind = MediaExtType::ProgramDateTime;
    let kind = MediaExtType::Inf;
    let ghost start = output@;
    match &segment.program_date_time {
        Some(date) => {
            push_tag(output, true, date_kind.name(), true);
            output.append(date.as_str());
            push_end(output);
            proof {
                assert(output@ =~= start + tag_line(
                    marker() + MediaTagKind::ProgramDateTime.name(),
                    date@,
                ));
            }
        },
        None => {
            proof {
                assert(output@ =~= start + Seq::<char>::empty());
            }
        },
    }
    let ghost middle = output@;
    push_tag(output, false, kind.name(), true);
    output.append(segment.duration.as_str());
    proof {
        reveal_strlit(",");
        assert(","@ =~= seq![',']);
    }
    output.append(",");
    match &segment.title {
        Some(title) => {
            output.append(title.as_str());
        },
        None => {},
    }
    push_end(output);
    output.append(segment.uri.as_str());
    push_end(output);
    proof {
        assert(output@ =~= middle + tag_line(
            MediaTagKind::Inf.name(),
            segment@.duration + seq![','] + title_text(segment@.title),
        ) + line(segment@.uri));
        assert(output@ =~= start + segment_text(segment@));
    }
}

impl<'a> MediaList<'a> {
    /// Appends to `output` the text that the playlist is written as.
    pub fn save(&self, output: &mut String)
        ensures
            final(output)@ == old(output)@ + media_text(self@),
    {
        let ghost start = output@;
        output.append("#EXTM3U\n");
        push_number(output, &MediaExtType::Version, self.version as u32);
        push_number(output, &MediaExtType::TargetDuration, self.target_duration as u32);
        push_number(output, &MediaExtType::MediaSequence, self.media_sequence);
        let ghost head = start + head_text(self@);
        proof {
            assert(output@ =~= head);
        }
        let ghost entries = entries_of(self.ext_infos@);
        let mut i: usize = 0;
        while i < self.ext_infos.len()
            invariant
                0 <= i <= self.ext_infos@.len(),
                entries == entries_of(self.ext_infos@),
                output@ == head + entries_text(entries.take(i as int)),
            decreases self.ext_infos@.len() - i,
        {
            push_entry(output, &self.ext_infos[i]);
            proof {
                let next = entries.take(i + 1);
                assert(next.drop_last() =~= entries.take(i as int));
                assert(next.last() == self.ext_infos@[i as int]@);
                assert(output@ =~= head + entries_text(next));
            }
            i += 1;
        }
        let ghost middle = output@;
        let ghost segments = segments_of(self.media_segments@);
        proof {
            assert(entries.take(i as int) =~= entries);
            assert(middle =~= middle + segments_text(segments.take(0)));
        }
        let mut j: usize = 0;
        while j < self.media_segments.len()
            invariant
                0 <= j <= self.media_segments@.len(),
                segments == segments_of(self.media_segments@),
                output@ == middle + segments_text(segments.take(j as int)),
            decreases self.media_segments@.len() - j,
        {
            push_segment(output, &self.media_segments[j]);
            proof {
                let next = segments.take(j + 1);
                assert(next.drop_last() =~= segments.take(j as int));
                assert(next.last() == self.media_segments@[j as int]@);
                assert(output@ =~= middle + segments_text(next));
            }
            j += 1;
        }
        proof {
            assert(segments.take(j as int) =~= segments);
            assert(output@ =~= start + media_text(self@));
        }
    }
}

} // verus!
