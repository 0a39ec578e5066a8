//! What a media playlist is read back as from the text that it was written
//! as: the lemmas behind the law of the round trip.
use vstd::prelude::*;

use crate::attrs::{
    distinct_keys, lemma_attributes_distinct, lemma_attributes_plain, lemma_attributes_proper,
    lemma_joined_plain, parse_attributes, proper_pairs, rejoined,
};
use crate::media::{
    entries_text, initial_state, media_run, media_step, media_text, parse_media, segment_text,
    segments_text, takes_next, title_text, MediaExtEntry, MediaPlaylist, MediaState, Segment,
};
use crate::numbers::{
    decimal, is_digit, is_float_literal, lemma_decimal, lemma_unsigned_decimal,
};
use crate::tags::{
    header, lemma_kind_name, lemma_marked, lemma_scan_bare_tag, lemma_scan_tag_line,
    lemma_scan_tag_plain, lemma_strip_marker, marker, media_kind, media_tag, scan_tag,
    strip_marker,
    tag_prefix, MediaTagKind,
};
use crate::text::{
    lemma_contains_concat, lemma_contains_part, lemma_lines_of_text, lemma_lines_plain,
    lemma_lines_text_concat, lemma_position, lemma_position_after, line, lines_of, lines_text,
    plain, position, read_back, without_return,
};

verus! {

/// Whether `entry` is one that reading yields. It is a date range, with
/// proper pairs and no key twice; or a discontinuity, with no attributes; or
/// of an unknown kind,
/// with a name that a tag line can hold and that is the name of no other
/// kind, and with the remainder of its line as its only attribute, `UNKNOWN`.
/// Its attributes are written on one line.
pub open spec fn sound_entry(entry: MediaExtEntry) -> bool {
    plain(rejoined(entry.attributes)) && match entry.tag {
        MediaTagKind::DateRange => distinct_keys(entry.attributes) && proper_pairs(
            entry.attributes,
        ),
        MediaTagKind::Discontinuity => entry.attributes.len() == 0,
        MediaTagKind::Unknown(name) => {
            &&& !name.contains(':')
            &&& plain(name)
            &&& media_kind(name) == MediaTagKind::Unknown(name)
            &&& entry.attributes.len() == 1
            &&& entry.attributes[0].0 == "UNKNOWN"@
        },
        _ => false,
    }
}

/// Whether `segment` is one that reading yields: its duration is a
/// floating-point literal, its title is not empty if it has one, and each of
/// its texts can stand on one line.
pub open spec fn sound_segment(segment: Segment) -> bool {
    &&& plain(segment.duration)
    &&& !segment.duration.contains(',')
    &&& is_float_literal(segment.duration)
    &&& segment.title matches Some(title) ==> title.len() > 0 && plain(title)
    &&& plain(segment.uri)
    &&& segment.program_date_time matches Some(date) ==> plain(date)
}

/// Whether `list` is a playlist that reading yields.
pub open spec fn sound(list: MediaPlaylist) -> bool {
    &&& forall|i: int|
        0 <= i < list.ext_entries.len() ==> sound_entry(#[trigger] list.ext_entries[i])
    &&& forall|i: int| 0 <= i < list.segments.len() ==> sound_segment(#[trigger] list.segments[i])
}

/// Whether `state` is a state that reading is in after some lines.
pub open spec fn sound_state(state: MediaState) -> bool {
    &&& sound(state.playlist)
    &&& state.pending matches Some(date) ==> plain(date)
}

/// One plain tag line leads from a sound state to a sound state.
pub proof fn lemma_step_sound(state: MediaState, line: Seq<char>, next: Option<Seq<char>>)
    requires
        sound_state(state),
        plain(line),
        next matches Some(uri) ==> plain(uri),
    ensures
        media_step(state, line, next) matches Ok(after) ==> sound_state(after),
{
    lemma_scan_tag_plain(line);
    match scan_tag(line) {
        None => {},
        Some((raw, rest)) => {
            let entries = state.playlist.ext_entries;
            let segments = state.playlist.segments;
            match media_tag(raw) {
                MediaTagKind::DateRange => {
                    lemma_attributes_plain(rest);
                    lemma_attributes_distinct(rest);
                    lemma_attributes_proper(rest);
                    match parse_attributes(rest) {
                        Ok(pairs) => {
                            let after = state.with_entry(MediaTagKind::DateRange, pairs);
                            assert forall|i: int|
                                0 <= i < after.playlist.ext_entries.len() implies sound_entry(
                                #[trigger] after.playlist.ext_entries[i],
                            ) by {
                                if i < entries.len() {
                                    assert(after.playlist.ext_entries[i] == entries[i]);
                                }
                            }
                        },
                        Err(at) => {},
                    }
                },
                MediaTagKind::Unknown(name) => {
                    lemma_strip_marker(raw);
                    let k = choose|k: int| 0 <= k <= raw.len() && strip_marker(raw) == raw.skip(k);
                    assert(raw.skip(k) =~= raw.subrange(k, raw.len() as int));
                    lemma_contains_part(raw, k, raw.len() as int, ':');
                    lemma_contains_part(raw, k, raw.len() as int, '\n');
                    let pairs = seq![("UNKNOWN"@, rest)];
                    assert(rejoined(pairs) == rest);
                    let after = state.with_entry(MediaTagKind::Unknown(name), pairs);
                    assert forall|i: int|
                        0 <= i < after.playlist.ext_entries.len() implies sound_entry(
                        #[trigger] after.playlist.ext_entries[i],
                    ) by {
                        if i < entries.len() {
                            assert(after.playlist.ext_entries[i] == entries[i]);
                        }
                    }
                },
                MediaTagKind::ProgramDateTime => {},
                MediaTagKind::Inf => {
                    lemma_position(rest, ',');
                    let comma = position(rest, ',');
                    if comma < rest.len() {
                        match next {
                            None => {},
                            Some(uri) => {
                                let duration = rest.take(comma);
                                let title = rest.skip(comma + 1);
                                assert(duration =~= rest.subrange(0, comma));
                                assert(title =~= rest.subrange(comma + 1, rest.len() as int));
                                lemma_contains_part(rest, 0, comma, '\n');
                                lemma_contains_part(rest, comma + 1, rest.len() as int, '\n');
                                if duration.contains(',') {
                                    let i = choose|i: int|
                                        0 <= i < duration.len() && duration[i] == ',';
                                    assert(rest[i] == ',');
                                }
                                if is_float_literal(duration) {
                                    let after = state.with_segment(duration, title, uri);
                                    assert forall|i: int|
                                        0 <= i
                                            < after.playlist.segments.len() implies sound_segment(
                                        #[trigger] after.playlist.segments[i],
                                    ) by {
                                        if i < segments.len() {
                                            assert(after.playlist.segments[i] == segments[i]);
                                        }
                                    }
                                }
                            },
                        }
                    }
                },
                MediaTagKind::Version => {},
                MediaTagKind::TargetDuration => {},
                MediaTagKind::MediaSequence => {},
                MediaTagKind::Discontinuity => {
                    lemma_joined_plain(Seq::empty());
                    let after = state.with_entry(MediaTagKind::Discontinuity, Seq::empty());
                    assert forall|i: int|
                        0 <= i < after.playlist.ext_entries.len() implies sound_entry(
                        #[trigger] after.playlist.ext_entries[i],
                    ) by {
                        if i < entries.len() {
                            assert(after.playlist.ext_entries[i] == entries[i]);
                        }
                    }
                },
            }
        },
    }
}

/// Plain tag lines lead from a sound state to a sound state.
pub proof fn lemma_run_sound(state: MediaState, lines: Seq<Seq<char>>)
    requires
        sound_state(state),
        forall|i: int| 0 <= i < lines.len() ==> plain(#[trigger] lines[i]),
    ensures
        media_run(state, lines) matches Ok(end) ==> sound_state(end),
    decreases lines.len(),
{
    if lines.len() == 0 {
    } else if lines.len() == 1 {
        lemma_step_sound(state, lines[0], None);
    } else {
        lemma_step_sound(state, lines[0], Some(lines[1]));
        match media_step(state, lines[0], Some(lines[1])) {
            Ok(after) => {
                let k: int = if takes_next(lines[0]) {
                    2
                } else {
                    1
                };
                let rest = lines.skip(k);
                assert forall|i: int| 0 <= i < rest.len() implies plain(#[trigger] rest[i]) by {
                    assert(rest[i] == lines[i + k]);
                }
                lemma_run_sound(after, rest);
            },
            Err(failure) => {},
        }
    }
}

/// The playlist that a text holds is sound.
pub proof fn lemma_parse_sound(text: Seq<char>)
    ensures
        parse_media(text) matches Ok(list) ==> sound(list),
{
    if header().is_prefix_of(text) {
        let lines = lines_of(text.skip(header().len() as int));
        lemma_lines_plain(text.skip(header().len() as int));
        lemma_run_sound(initial_state(), lines);
    }
}

/// A tag line without its line feed.
pub open spec fn tag_text(raw: Seq<char>, rest: Seq<char>) -> Seq<char> {
    tag_prefix() + raw + seq![':'] + rest
}

/// The lines that an entry is written as.
pub open spec fn entry_lines(entry: MediaExtEntry) -> Seq<Seq<char>> {
    match entry.tag {
        MediaTagKind::Inf | MediaTagKind::ProgramDateTime => Seq::empty(),
        MediaTagKind::Discontinuity => seq![tag_prefix() + marker() + entry.tag.name()],
        _ => seq![tag_text(marker() + entry.tag.name(), rejoined(entry.attributes))],
    }
}

/// The lines that the entries are written as.
pub open spec fn entries_lines(entries: Seq<MediaExtEntry>) -> Seq<Seq<char>>
    decreases entries.len(),
{
    if entries.len() == 0 {
        Seq::empty()
    } else {
        entries_lines(entries.drop_last()) + entry_lines(entries.last())
    }
}

/// The line that gives the duration and the title of a segment.
pub open spec fn segment_line(segment: Segment) -> Seq<char> {
    tag_text(
        MediaTagKind::Inf.name(),
        segment.duration + seq![','] + title_text(segment.title),
    )
}

/// The lines that a segment is written as.
pub open spec fn segment_lines(segment: Segment) -> Seq<Seq<char>> {
    (match segment.program_date_time {
        Some(date) => seq![tag_text(marker() + MediaTagKind::ProgramDateTime.name(), date)],
        None => Seq::empty(),
    }) + seq![segment_line(segment), segment.uri]
}

/// The lines that the segments are written as.
pub open spec fn segments_lines(segments: Seq<Segment>) -> Seq<Seq<char>>
    decreases segments.len(),
{
    if segments.len() == 0 {
        Seq::empty()
    } else {
        segments_lines(segments.drop_last()) + segment_lines(segments.last())
    }
}

/// The line that gives one of the three numbers of a playlist.
pub open spec fn number_text(kind: MediaTagKind, number: nat) -> Seq<char> {
    tag_text(marker() + kind.name(), decimal(number))
}

/// The lines of the three numbers of a playlist.
pub open spec fn head_lines(list: MediaPlaylist) -> Seq<Seq<char>> {
    seq![
        number_text(MediaTagKind::Version, list.version as nat),
        number_text(MediaTagKind::TargetDuration, list.target_duration as nat),
        number_text(MediaTagKind::MediaSequence, list.media_sequence as nat),
    ]
}

/// The lines that a playlist is written as after the header.
pub open spec fn media_lines(list: MediaPlaylist) -> Seq<Seq<char>> {
    head_lines(list) + entries_lines(list.ext_entries) + segments_lines(list.segments)
}

proof fn lemma_lines_text_one(first: Seq<char>)
    ensures
        lines_text(seq![first]) == line(first),
{
    assert(seq![first].drop_last() =~= Seq::<Seq<char>>::empty());
    assert(lines_text(Seq::<Seq<char>>::empty()) =~= Seq::<char>::empty());
    assert(lines_text(seq![first]) =~= line(first));
}

proof fn lemma_entries_text(entries: Seq<MediaExtEntry>)
    ensures
        entries_text(entries) == lines_text(entries_lines(entries)),
    decreases entries.len(),
{
    if entries.len() > 0 {
        let last = entries.last();
        lemma_entries_text(entries.drop_last());
        lemma_lines_text_concat(entries_lines(entries.drop_last()), entry_lines(last));
        match last.tag {
            MediaTagKind::Inf | MediaTagKind::ProgramDateTime => {},
            MediaTagKind::Discontinuity => {
                lemma_lines_text_one(tag_prefix() + marker() + last.tag.name());
            },
            _ => {
                lemma_lines_text_one(
                    tag_text(marker() + last.tag.name(), rejoined(last.attributes)),
                );
            },
        }
    }
}

proof fn lemma_segment_text(segment: Segment)
    ensures
        segment_text(segment) == lines_text(segment_lines(segment)),
{
    let two = seq![segment_line(segment), segment.uri];
    lemma_lines_text_one(segment_line(segment));
    lemma_lines_text_one(segment.uri);
    assert(two =~= seq![segment_line(segment)] + seq![segment.uri]);
    lemma_lines_text_concat(seq![segment_line(segment)], seq![segment.uri]);
    match segment.program_date_time {
        Some(date) => {
            let first = tag_text(marker() + MediaTagKind::ProgramDateTime.name(), date);
            lemma_lines_text_one(first);
            lemma_lines_text_concat(seq![first], two);
        },
        None => {
            assert(Seq::<Seq<char>>::empty() + two =~= two);
            assert(Seq::<char>::empty() + lines_text(two) =~= lines_text(two));
        },
    }
}

proof fn lemma_segments_text(segments: Seq<Segment>)
    ensures
        segments_text(segments) == lines_text(segments_lines(segments)),
    decreases segments.len(),
{
    if segments.len() > 0 {
        let last = segments.last();
        lemma_segments_text(segments.drop_last());
        lemma_lines_text_concat(segments_lines(segments.drop_last()), segment_lines(last));
        lemma_segment_text(last);
    }
}

/// A playlist is written as the header and its lines.
pub proof fn lemma_media_text(list: MediaPlaylist)
    ensures
        media_text(list) == header() + lines_text(media_lines(list)),
{
    let v = number_text(MediaTagKind::Version, list.version as nat);
    let t = number_text(MediaTagKind::TargetDuration, list.target_duration as nat);
    let s = number_text(MediaTagKind::MediaSequence, list.media_sequence as nat);
    lemma_lines_text_one(v);
    lemma_lines_text_one(t);
    lemma_lines_text_one(s);
    assert(head_lines(list) =~= seq![v] + seq![t] + seq![s]);
    lemma_lines_text_concat(seq![v], seq![t]);
    lemma_lines_text_concat(seq![v] + seq![t], seq![s]);
    lemma_entries_text(list.ext_entries);
    lemma_segments_text(list.segments);
    lemma_lines_text_concat(head_lines(list), entries_lines(list.ext_entries));
    lemma_lines_text_concat(
        head_lines(list) + entries_lines(list.ext_entries),
        segments_lines(list.segments),
    );
    assert(media_text(list) =~= header() + lines_text(media_lines(list)));
}

/// Reading back goes through concatenation.
proof fn lemma_read_back_concat(a: Seq<Seq<char>>, b: Seq<Seq<char>>)
    ensures
        read_back(a + b) == read_back(a) + read_back(b),
{
    assert(read_back(a + b) =~= read_back(a) + read_back(b));
}

/// A tag line is read back with its remainder read back.
proof fn lemma_tag_text_back(raw: Seq<char>, rest: Seq<char>)
    ensures
        without_return(tag_text(raw, rest)) == tag_text(raw, without_return(rest)),
{
    let text = tag_text(raw, rest);
    if rest.len() > 0 {
        assert(text.last() == rest.last());
        if rest.last() == '\r' {
            assert(text.drop_last() =~= tag_text(raw, rest.drop_last()));
        }
    } else {
        assert(text.last() == ':');
    }
}

/// A tag that is no tag of a segment is read without a look at the next line.
proof fn lemma_run_one(state: MediaState, first: Seq<char>, rest: Seq<Seq<char>>)
    requires
        !takes_next(first),
    ensures
        media_run(state, seq![first] + rest) == match media_step(state, first, None) {
            Ok(after) => media_run(after, rest),
            Err(failure) => Err(failure),
        },
{
    let lines = seq![first] + rest;
    assert(lines[0] == first);
    if lines.len() == 1 {
        assert(rest =~= Seq::<Seq<char>>::empty());
    } else {
        assert(lines.skip(1) =~= rest);
        assert(media_step(state, first, Some(lines[1])) == media_step(state, first, None));
    }
}

/// The tag of a segment is read with the line after it.
proof fn lemma_run_two(state: MediaState, first: Seq<char>, uri: Seq<char>, rest: Seq<Seq<char>>)
    requires
        takes_next(first),
    ensures
        media_run(state, seq![first, uri] + rest) == match media_step(state, first, Some(uri)) {
            Ok(after) => media_run(after, rest),
            Err(failure) => Err(failure),
        },
{
    let lines = seq![first, uri] + rest;
    assert(lines[0] == first);
    assert(lines[1] == uri);
    assert(lines.skip(2) =~= rest);
}

/// Whether the attributes of `entry` can be read back from the line that
/// they are written on. Every entry but a date range can.
pub open spec fn legible(entry: MediaExtEntry) -> bool {
    entry.tag is DateRange ==> parse_attributes(without_return(rejoined(entry.attributes))) is Ok
}

/// The state after `entry` is read back from its lines.
pub open spec fn with_entry_back(state: MediaState, entry: MediaExtEntry) -> MediaState {
    let rest = without_return(rejoined(entry.attributes));
    match entry.tag {
        MediaTagKind::DateRange => match parse_attributes(rest) {
            Ok(pairs) => state.with_entry(MediaTagKind::DateRange, pairs),
            Err(at) => state,
        },
        MediaTagKind::Discontinuity => state.with_entry(MediaTagKind::Discontinuity, Seq::empty()),
        MediaTagKind::Unknown(name) => state.with_entry(
            MediaTagKind::Unknown(name),
            seq![("UNKNOWN"@, rest)],
        ),
        _ => state,
    }
}

/// The state after `entries` are read back from their lines.
pub open spec fn with_entries_back(state: MediaState, entries: Seq<MediaExtEntry>) -> MediaState
    decreases entries.len(),
{
    if entries.len() == 0 {
        state
    } else {
        with_entry_back(with_entries_back(state, entries.drop_last()), entries.last())
    }
}

/// The lines of a sound and legible entry are read back as one entry.
proof fn lemma_entry_back(state: MediaState, entry: MediaExtEntry, rest: Seq<Seq<char>>)
    requires
        sound_entry(entry),
        legible(entry),
    ensures
        media_run(state, read_back(entry_lines(entry)) + rest) == media_run(
            with_entry_back(state, entry),
            rest,
        ),
{
    let back = read_back(entry_lines(entry));
    let name = entry.tag.name();
    let text = without_return(rejoined(entry.attributes));
    match entry.tag {
        MediaTagKind::DateRange => {
            lemma_kind_name(entry.tag);
            let raw = marker() + name;
            lemma_contains_concat(marker(), name, ':');
            lemma_tag_text_back(raw, rejoined(entry.attributes));
            lemma_scan_tag_line(raw, text);
            assert(back =~= seq![tag_text(raw, text)]);
            lemma_run_one(state, tag_text(raw, text), rest);
        },
        MediaTagKind::Discontinuity => {
            lemma_kind_name(entry.tag);
            let raw = marker() + name;
            lemma_contains_concat(marker(), name, ':');
            lemma_contains_concat(marker(), name, '\n');
            lemma_scan_bare_tag(raw);
            let bare = tag_prefix() + marker() + name;
            assert(bare =~= tag_prefix() + raw);
            assert(bare.last() == name.last());
            assert(back =~= seq![bare]);
            lemma_run_one(state, bare, rest);
        },
        MediaTagKind::Unknown(unknown) => {
            let raw = marker() + name;
            lemma_marked(name);
            lemma_contains_concat(marker(), name, ':');
            lemma_tag_text_back(raw, rejoined(entry.attributes));
            lemma_scan_tag_line(raw, text);
            assert(back =~= seq![tag_text(raw, text)]);
            lemma_run_one(state, tag_text(raw, text), rest);
        },
        _ => {},
    }
}

/// The lines of sound and legible entries are read back as the entries.
proof fn lemma_entries_back(state: MediaState, entries: Seq<MediaExtEntry>, rest: Seq<Seq<char>>)
    requires
        forall|i: int|
            0 <= i < entries.len() ==> sound_entry(#[trigger] entries[i]) && legible(entries[i]),
    ensures
        media_run(state, read_back(entries_lines(entries)) + rest) == media_run(
            with_entries_back(state, entries),
            rest,
        ),
    decreases entries.len(),
{
    if entries.len() == 0 {
        assert(read_back(entries_lines(entries)) + rest =~= rest);
    } else {
        let before = entries.drop_last();
        let last = entries.last();
        assert forall|i: int| 0 <= i < before.len() implies sound_entry(#[trigger] before[i])
            && legible(before[i]) by {
            assert(before[i] == entries[i]);
        }
        lemma_read_back_concat(entries_lines(before), entry_lines(last));
        let tail = read_back(entry_lines(last)) + rest;
        assert(read_back(entries_lines(entries)) + rest =~= read_back(entries_lines(before))
            + tail);
        lemma_entries_back(state, before, tail);
        lemma_entry_back(with_entries_back(state, before), last, rest);
    }
}

/// Reading entries back changes neither the numbers, nor the segments, nor
/// the date and time that wait.
proof fn lemma_entries_back_keep(state: MediaState, entries: Seq<MediaExtEntry>)
    ensures
        with_entries_back(state, entries).pending == state.pending,
        with_entries_back(state, entries).playlist.segments == state.playlist.segments,
        with_entries_back(state, entries).playlist.version == state.playlist.version,
        with_entries_back(state, entries).playlist.target_duration
            == state.playlist.target_duration,
        with_entries_back(state, entries).playlist.media_sequence
            == state.playlist.media_sequence,
    decreases entries.len(),
{
    if entries.len() > 0 {
        lemma_entries_back_keep(state, entries.drop_last());
    }
}

/// Whether `s` ends with a carriage return.
pub open spec fn ends_with_return(s: Seq<char>) -> bool {
    s.len() > 0 && s.last() == '\r'
}

/// Whether the texts of `segment` are read back as they are from the lines
/// that they are written on: none that ends a line ends with a carriage
/// return, which would be read as a part of the end of the line.
pub open spec fn lasting(segment: Segment) -> bool {
    &&& !ends_with_return(segment.uri)
    &&& segment.title matches Some(title) ==> !ends_with_return(title)
    &&& segment.program_date_time matches Some(date) ==> !ends_with_return(date)
}

/// The state with one more segment and no date and time that wait.
pub open spec fn with_segment_back(state: MediaState, segment: Segment) -> MediaState {
    MediaState {
        playlist: MediaPlaylist {
            segments: state.playlist.segments.push(segment),
            ..state.playlist
        },
        pending: None,
    }
}

/// The state with more segments and no date and time that wait.
pub open spec fn with_segments_back(state: MediaState, segments: Seq<Segment>) -> MediaState {
    MediaState {
        playlist: MediaPlaylist {
            segments: state.playlist.segments + segments,
            ..state.playlist
        },
        pending: None,
    }
}

/// The lines of a sound and lasting segment are read back as the segment.
proof fn lemma_segment_back(state: MediaState, segment: Segment, rest: Seq<Seq<char>>)
    requires
        sound_segment(segment),
        lasting(segment),
        state.pending is None,
    ensures
        media_run(state, read_back(segment_lines(segment)) + rest) == media_run(
            with_segment_back(state, segment),
            rest,
        ),
{
    let name = MediaTagKind::Inf.name();
    let title = title_text(segment.title);
    let remainder = segment.duration + seq![','] + title;
    let first = segment_line(segment);
    let two = seq![first, segment.uri];
    lemma_kind_name(MediaTagKind::Inf);
    lemma_tag_text_back(name, remainder);
    assert(without_return(remainder) == remainder) by {
        if title.len() > 0 {
            assert(remainder.last() == title.last());
        } else {
            assert(remainder.last() == ',');
        }
    }
    lemma_scan_tag_line(name, remainder);
    lemma_position_after(segment.duration, ',', title);
    assert(read_back(two) =~= two);
    match segment.program_date_time {
        Some(date) => {
            let kind = MediaTagKind::ProgramDateTime;
            let raw = marker() + kind.name();
            lemma_kind_name(kind);
            lemma_contains_concat(marker(), kind.name(), ':');
            lemma_tag_text_back(raw, date);
            lemma_scan_tag_line(raw, date);
            let dated = tag_text(raw, date);
            let waiting = MediaState { pending: Some(date), ..state };
            lemma_read_back_concat(seq![dated], two);
            assert(read_back(seq![dated]) =~= seq![dated]);
            assert(read_back(segment_lines(segment)) + rest =~= seq![dated] + (two + rest));
            lemma_run_one(state, dated, two + rest);
            lemma_run_two(waiting, first, segment.uri, rest);
        },
        None => {
            assert(segment_lines(segment) =~= two);
            lemma_run_two(state, first, segment.uri, rest);
        },
    }
}

/// The lines of sound and lasting segments are read back as the segments.
proof fn lemma_segments_back(state: MediaState, segments: Seq<Segment>, rest: Seq<Seq<char>>)
    requires
        forall|i: int|
            0 <= i < segments.len() ==> sound_segment(#[trigger] segments[i]) && lasting(
                segments[i],
            ),
        state.pending is None,
    ensures
        media_run(state, read_back(segments_lines(segments)) + rest) == media_run(
            with_segments_back(state, segments),
            rest,
        ),
    decreases segments.len(),
{
    if segments.len() == 0 {
        assert(read_back(segments_lines(segments)) + rest =~= rest);
        assert(state.playlist.segments + segments =~= state.playlist.segments);
    } else {
        let before = segments.drop_last();
        let last = segments.last();
        assert forall|i: int| 0 <= i < before.len() implies sound_segment(#[trigger] before[i])
            && lasting(before[i]) by {
            assert(before[i] == segments[i]);
        }
        lemma_read_back_concat(segments_lines(before), segment_lines(last));
        let tail = read_back(segment_lines(last)) + rest;
        assert(read_back(segments_lines(segments)) + rest =~= read_back(segments_lines(before))
            + tail);
        lemma_segments_back(state, before, tail);
        let middle = with_segments_back(state, before);
        lemma_segment_back(middle, last, rest);
        assert((state.playlist.segments + before).push(last) =~= state.playlist.segments
            + segments);
    }
}

/// The state with the numbers of `list` and nothing else.
pub open spec fn numbers_state(list: MediaPlaylist) -> MediaState {
    MediaState {
        playlist: MediaPlaylist {
            version: list.version,
            target_duration: list.target_duration,
            media_sequence: list.media_sequence,
            segments: Seq::empty(),
            ext_entries: Seq::empty(),
        },
        pending: None,
    }
}

/// The line of a number is read back as the tag of its kind with the digits
/// of the number.
proof fn lemma_number_back(kind: MediaTagKind, number: nat)
    requires
        kind is Version || kind is TargetDuration || kind is MediaSequence,
    ensures
        without_return(number_text(kind, number)) == number_text(kind, number),
        scan_tag(number_text(kind, number)) == Some((marker() + kind.name(), decimal(number))),
        media_tag(marker() + kind.name()) == kind,
        !takes_next(number_text(kind, number)),
{
    let raw = marker() + kind.name();
    lemma_kind_name(kind);
    lemma_contains_concat(marker(), kind.name(), ':');
    lemma_decimal(number);
    lemma_tag_text_back(raw, decimal(number));
    lemma_scan_tag_line(raw, decimal(number));
}

/// The lines of the three numbers are read back as the three numbers.
proof fn lemma_head_back(list: MediaPlaylist, rest: Seq<Seq<char>>)
    ensures
        media_run(initial_state(), read_back(head_lines(list)) + rest) == media_run(
            numbers_state(list),
            rest,
        ),
{
    let v = number_text(MediaTagKind::Version, list.version as nat);
    let t = number_text(MediaTagKind::TargetDuration, list.target_duration as nat);
    let s = number_text(MediaTagKind::MediaSequence, list.media_sequence as nat);
    lemma_number_back(MediaTagKind::Version, list.version as nat);
    lemma_number_back(MediaTagKind::TargetDuration, list.target_duration as nat);
    lemma_number_back(MediaTagKind::MediaSequence, list.media_sequence as nat);
    lemma_unsigned_decimal(list.version as nat, u8::MAX as nat);
    lemma_unsigned_decimal(list.target_duration as nat, u8::MAX as nat);
    lemma_unsigned_decimal(list.media_sequence as nat, u32::MAX as nat);
    let first = initial_state();
    let second = MediaState {
        playlist: MediaPlaylist { version: list.version, ..first.playlist },
        ..first
    };
    let third = MediaState {
        playlist: MediaPlaylist { target_duration: list.target_duration, ..second.playlist },
        ..second
    };
    assert(read_back(head_lines(list)) + rest =~= seq![v] + (seq![t] + (seq![s] + rest)));
    lemma_run_one(first, v, seq![t] + (seq![s] + rest));
    lemma_run_one(second, t, seq![s] + rest);
    lemma_run_one(third, s, rest);
}

/// Whether every line of `lines` is plain.
pub open spec fn all_plain(lines: Seq<Seq<char>>) -> bool {
    forall|i: int| 0 <= i < lines.len() ==> plain(#[trigger] lines[i])
}

proof fn lemma_all_plain_concat(a: Seq<Seq<char>>, b: Seq<Seq<char>>)
    requires
        all_plain(a),
        all_plain(b),
    ensures
        all_plain(a + b),
{
    assert forall|i: int| 0 <= i < (a + b).len() implies plain(#[trigger] (a + b)[i]) by {
        if i < a.len() {
            assert((a + b)[i] == a[i]);
        } else {
            assert((a + b)[i] == b[i - a.len()]);
        }
    }
}

proof fn lemma_tag_text_plain(raw: Seq<char>, rest: Seq<char>)
    requires
        plain(raw),
        plain(rest),
    ensures
        plain(tag_text(raw, rest)),
        plain(tag_prefix() + raw),
{
    lemma_contains_concat(tag_prefix(), raw, '\n');
    lemma_contains_concat(tag_prefix() + raw, seq![':'], '\n');
    lemma_contains_concat(tag_prefix() + raw + seq![':'], rest, '\n');
}

proof fn lemma_marked_plain(kind: MediaTagKind)
    requires
        plain(kind.name()),
    ensures
        plain(marker() + kind.name()),
{
    lemma_contains_concat(marker(), kind.name(), '\n');
}

proof fn lemma_entries_plain(entries: Seq<MediaExtEntry>)
    requires
        forall|i: int| 0 <= i < entries.len() ==> sound_entry(#[trigger] entries[i]),
    ensures
        all_plain(entries_lines(entries)),
    decreases entries.len(),
{
    if entries.len() > 0 {
        let before = entries.drop_last();
        let last = entries.last();
        assert forall|i: int| 0 <= i < before.len() implies sound_entry(#[trigger] before[i]) by {
            assert(before[i] == entries[i]);
        }
        lemma_entries_plain(before);
        if !(last.tag is Unknown) {
            lemma_kind_name(last.tag);
        }
        lemma_marked_plain(last.tag);
        lemma_tag_text_plain(marker() + last.tag.name(), rejoined(last.attributes));
        assert(tag_prefix() + (marker() + last.tag.name()) =~= tag_prefix() + marker()
            + last.tag.name());
        lemma_all_plain_concat(entries_lines(before), entry_lines(last));
    }
}

proof fn lemma_segments_plain(segments: Seq<Segment>)
    requires
        forall|i: int| 0 <= i < segments.len() ==> sound_segment(#[trigger] segments[i]),
    ensures
        all_plain(segments_lines(segments)),
    decreases segments.len(),
{
    if segments.len() > 0 {
        let before = segments.drop_last();
        let last = segments.last();
        assert forall|i: int| 0 <= i < before.len() implies sound_segment(
            #[trigger] before[i],
        ) by {
            assert(before[i] == segments[i]);
        }
        lemma_segments_plain(before);
        lemma_kind_name(MediaTagKind::Inf);
        lemma_kind_name(MediaTagKind::ProgramDateTime);
        lemma_marked_plain(MediaTagKind::ProgramDateTime);
        let title = title_text(last.title);
        lemma_contains_concat(last.duration, seq![','], '\n');
        lemma_contains_concat(last.duration + seq![','], title, '\n');
        lemma_tag_text_plain(MediaTagKind::Inf.name(), last.duration + seq![','] + title);
        match last.program_date_time {
            Some(date) => {
                lemma_tag_text_plain(marker() + MediaTagKind::ProgramDateTime.name(), date);
            },
            None => {},
        }
        lemma_all_plain_concat(segments_lines(before), segment_lines(last));
    }
}

proof fn lemma_number_plain(kind: MediaTagKind, number: nat)
    requires
        !(kind is Unknown),
    ensures
        plain(number_text(kind, number)),
{
    lemma_kind_name(kind);
    lemma_marked_plain(kind);
    lemma_decimal(number);
    let digits = decimal(number);
    if digits.contains('\n') {
        let i = choose|i: int| 0 <= i < digits.len() && digits[i] == '\n';
        assert(is_digit(digits[i]));
    }
    lemma_tag_text_plain(marker() + kind.name(), digits);
}

/// A sound playlist whose entries are legible and whose segments are lasting
/// is read back from the text that it is written as with its numbers and its
/// segments as they are.
pub proof fn lemma_read_back(list: MediaPlaylist)
    requires
        sound(list),
        forall|i: int| 0 <= i < list.ext_entries.len() ==> legible(#[trigger] list.ext_entries[i]),
        forall|i: int| 0 <= i < list.segments.len() ==> lasting(#[trigger] list.segments[i]),
    ensures
        parse_media(media_text(list)) matches Ok(again) && again.segments == list.segments
            && again.version == list.version && again.target_duration == list.target_duration
            && again.media_sequence == list.media_sequence,
{
    let text = media_text(list);
    let lines = media_lines(list);
    lemma_media_text(list);
    let body = lines_text(lines);
    assert(text.skip(header().len() as int) =~= body);
    lemma_number_plain(MediaTagKind::Version, list.version as nat);
    lemma_number_plain(MediaTagKind::TargetDuration, list.target_duration as nat);
    lemma_number_plain(MediaTagKind::MediaSequence, list.media_sequence as nat);
    lemma_entries_plain(list.ext_entries);
    lemma_segments_plain(list.segments);
    lemma_all_plain_concat(head_lines(list), entries_lines(list.ext_entries));
    lemma_all_plain_concat(
        head_lines(list) + entries_lines(list.ext_entries),
        segments_lines(list.segments),
    );
    lemma_lines_of_text(lines);
    let entries = read_back(entries_lines(list.ext_entries));
    let segments = read_back(segments_lines(list.segments));
    lemma_read_back_concat(head_lines(list), entries_lines(list.ext_entries));
    lemma_read_back_concat(
        head_lines(list) + entries_lines(list.ext_entries),
        segments_lines(list.segments),
    );
    let none = Seq::<Seq<char>>::empty();
    assert(read_back(lines) =~= read_back(head_lines(list)) + (entries + (segments + none)));
    lemma_head_back(list, entries + (segments + none));
    let first = numbers_state(list);
    lemma_entries_back(first, list.ext_entries, segments + none);
    let second = with_entries_back(first, list.ext_entries);
    lemma_entries_back_keep(first, list.ext_entries);
    lemma_segments_back(second, list.segments, none);
    assert(second.playlist.segments + list.segments =~= list.segments);
}

} // verus!
