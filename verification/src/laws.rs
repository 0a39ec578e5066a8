//! What holds of reading and writing playlists beyond the contract of each
//! function.
use vstd::prelude::*;

use crate::attrs::{
    distinct_keys, lemma_attributes_distinct, lemma_attributes_proper, lemma_key_index,
    lemma_put, parse_attributes, proper_pair, value_of,
};
use crate::error::Failure;
use crate::master::{master_entry, master_run, parse_master, MasterEntry};
use crate::media::{
    entries_text, entry_text, head_text, media_run, media_step, media_text, parse_media,
    segment_text, segments_text, takes_next, MediaExtEntry, MediaPlaylist, MediaState, Segment,
};
use crate::reread::{lasting, legible, lemma_parse_sound, lemma_read_back};
use crate::tags::{header, media_tag, scan_tag};
use crate::text::{lemma_position, lines_of};

verus! {

/// The lines of those of `entries` that `keep` holds of, in the order of
/// `entries`.
pub open spec fn kept_entries_text(
    entries: Seq<MediaExtEntry>,
    keep: spec_fn(MediaExtEntry) -> bool,
) -> Seq<char>
    decreases entries.len(),
{
    if entries.len() == 0 {
        Seq::empty()
    } else {
        kept_entries_text(entries.drop_last(), keep) + (if keep(entries.last()) {
            entry_text(entries.last())
        } else {
            Seq::empty()
        })
    }
}

/// The lines of those of `segments` that `keep` holds of, in the order of
/// `segments`.
pub open spec fn kept_segments_text(segments: Seq<Segment>, keep: spec_fn(Segment) -> bool) -> Seq<
    char,
>
    decreases segments.len(),
{
    if segments.len() == 0 {
        Seq::empty()
    } else {
        kept_segments_text(segments.drop_last(), keep) + (if keep(segments.last()) {
            segment_text(segments.last())
        } else {
            Seq::empty()
        })
    }
}

/// A playlist from which entries and segments were filtered out is written as
/// the playlist itself but for the lines of what was filtered out: the lines
/// of what is kept stay as they are and in their order.
pub proof fn lemma_filtered_text(
    list: MediaPlaylist,
    keep_entry: spec_fn(MediaExtEntry) -> bool,
    keep_segment: spec_fn(Segment) -> bool,
)
    ensures
        media_text(
            MediaPlaylist {
                ext_entries: list.ext_entries.filter(keep_entry),
                segments: list.segments.filter(keep_segment),
                ..list
            },
        ) == head_text(list) + kept_entries_text(list.ext_entries, keep_entry)
            + kept_segments_text(list.segments, keep_segment),
{
    lemma_filtered_entries(list.ext_entries, keep_entry);
    lemma_filtered_segments(list.segments, keep_segment);
}

proof fn lemma_filtered_entries(entries: Seq<MediaExtEntry>, keep: spec_fn(MediaExtEntry) -> bool)
    ensures
        entries_text(entries.filter(keep)) == kept_entries_text(entries, keep),
    decreases entries.len(),
{
    reveal(Seq::filter);
    if entries.len() > 0 {
        let before = entries.drop_last();
        lemma_filtered_entries(before, keep);
        if keep(entries.last()) {
            assert(entries.filter(keep).drop_last() =~= before.filter(keep));
        } else {
            assert(kept_entries_text(entries, keep) =~= kept_entries_text(before, keep));
        }
    }
}

proof fn lemma_filtered_segments(segments: Seq<Segment>, keep: spec_fn(Segment) -> bool)
    ensures
        segments_text(segments.filter(keep)) == kept_segments_text(segments, keep),
    decreases segments.len(),
{
    reveal(Seq::filter);
    if segments.len() > 0 {
        let before = segments.drop_last();
        lemma_filtered_segments(before, keep);
        if keep(segments.last()) {
            assert(segments.filter(keep).drop_last() =~= before.filter(keep));
        } else {
            assert(kept_segments_text(segments, keep) =~= kept_segments_text(before, keep));
        }
    }
}

/// Whether reading `lines` takes the line at `index` as a tag line: whether
/// no tag of a segment takes it as the line of its URI.
pub open spec fn read_as_tag(lines: Seq<Seq<char>>, index: int) -> bool
    decreases lines.len(),
{
    let step: int = if takes_next(lines[0]) {
        2
    } else {
        1
    };
    0 <= index < lines.len() && (index == 0 || (index >= step && read_as_tag(
        lines.skip(step),
        index - step,
    )))
}

/// The tag of a segment that is the last line, with no line for its URI
/// after it, adds no segment and is no failure: where its remainder holds the
/// comma that ends the duration, reading the lines with this last line ends
/// as reading the lines without it.
pub proof fn lemma_last_segment_tag(state: MediaState, lines: Seq<Seq<char>>, last: Seq<char>)
    requires
        read_as_tag(lines.push(last), lines.len() as int),
        scan_tag(last) matches Some((raw, rest)) && media_tag(raw) is Inf && rest.contains(','),
    ensures
        media_run(state, lines.push(last)) == media_run(state, lines),
    decreases lines.len(),
{
    let all = lines.push(last);
    let (raw, rest) = scan_tag(last).unwrap();
    lemma_position(rest, ',');
    if lines.len() > 0 {
        let first = lines[0];
        assert(all[0] == first);
        let step: int = if takes_next(first) {
            2
        } else {
            1
        };
        let left = lines.skip(step);
        assert(all.skip(step) =~= left.push(last));
        if lines.len() > 1 {
            assert(all[1] == lines[1]);
        } else {
            assert(media_step(state, first, Some(all[1])) == media_step(state, first, None));
        }
        match media_step(state, first, Some(all[1])) {
            Ok(after) => {
                lemma_last_segment_tag(after, left, last);
                if left.len() == 0 {
                    assert(left =~= Seq::<Seq<char>>::empty());
                }
            },
            Err(failure) => {},
        }
    } else {
        assert(all =~= seq![last]);
    }
}

/// A media playlist that was read from a text, then written, and then read
/// from what was written has the numbers and the segments of the first
/// reading. This holds where the written text can be read at all and keeps
/// the texts of the segments: where the attributes of every date range can
/// be read back from their line, and no title, URI or date and time of a
/// segment ends with a carriage return.
pub proof fn lemma_round_trip(text: Seq<char>, list: MediaPlaylist)
    requires
        parse_media(text) == Ok::<_, Failure>(list),
        forall|i: int| 0 <= i < list.ext_entries.len() ==> legible(#[trigger] list.ext_entries[i]),
        forall|i: int| 0 <= i < list.segments.len() ==> lasting(#[trigger] list.segments[i]),
    ensures
        parse_media(media_text(list)) matches Ok(again) && again.segments == list.segments
            && again.version == list.version && again.target_duration == list.target_duration
            && again.media_sequence == list.media_sequence,
{
    lemma_parse_sound(text);
    lemma_read_back(list);
}

/// Whether every pair of `pairs` but that of the key `URI` is proper.
pub open spec fn proper_but_uri(pairs: Seq<(Seq<char>, Seq<char>)>) -> bool {
    forall|i: int|
        0 <= i < pairs.len() && (#[trigger] pairs[i]).0 != "URI"@ ==> proper_pair(pairs[i])
}

/// The entry of a tag line of a master playlist holds no key twice and proper
/// pairs, but for the `URI` that it took from the next line, and the entry of
/// a variant stream that a line follows holds that line as its `URI`.
pub proof fn lemma_master_entry(line: Seq<char>, next: Option<Seq<char>>, entry: MasterEntry)
    requires
        master_entry(line, next) == Ok::<_, Failure>(entry),
    ensures
        distinct_keys(entry.attributes),
        proper_but_uri(entry.attributes),
        entry.tag is StreamInf && next is Some ==> value_of(entry.attributes, "URI"@) == next,
{
    let (raw, rest) = scan_tag(line).unwrap();
    let pairs = parse_attributes(rest)->Ok_0;
    lemma_attributes_distinct(rest);
    lemma_attributes_proper(rest);
    lemma_key_index(pairs, "URI"@);
    match next {
        Some(uri) => {
            lemma_put(pairs, "URI"@, uri, "URI"@);
        },
        None => {},
    }
}

/// Whether `entries` are such as reading a master playlist yields: no entry
/// holds a key twice or a pair that is not proper, but for its `URI`, and
/// every variant stream holds a `URI`, but for one that is the last entry,
/// which no line may have followed.
pub open spec fn sound_master(entries: Seq<MasterEntry>) -> bool {
    &&& forall|i: int| 0 <= i < entries.len() ==> distinct_keys((#[trigger] entries[i]).attributes)
    &&& forall|i: int| 0 <= i < entries.len() ==> proper_but_uri((#[trigger] entries[i]).attributes)
    &&& forall|i: int|
        0 <= i < entries.len() - 1 && (#[trigger] entries[i]).tag is StreamInf ==> value_of(
            entries[i].attributes,
            "URI"@,
        ) is Some
}

proof fn lemma_master_run(lines: Seq<Seq<char>>)
    ensures
        master_run(lines) matches Ok(entries) ==> sound_master(entries) && (lines.len() > 0
            ==> entries.len() > 0),
    decreases lines.len(),
{
    if lines.len() == 0 {
    } else if lines.len() == 1 {
        match master_entry(lines[0], None) {
            Ok(entry) => lemma_master_entry(lines[0], None, entry),
            Err(failure) => {},
        }
    } else {
        match master_entry(lines[0], Some(lines[1])) {
            Ok(entry) => {
                lemma_master_entry(lines[0], Some(lines[1]), entry);
                let rest = lines.skip(
                    if entry.tag is StreamInf {
                        2
                    } else {
                        1
                    },
                );
                lemma_master_run(rest);
                match master_run(rest) {
                    Ok(more) => {
                        let entries = seq![entry] + more;
                        assert forall|i: int| 0 <= i < entries.len() implies distinct_keys(
                            (#[trigger] entries[i]).attributes,
                        ) by {
                            if i > 0 {
                                assert(entries[i] == more[i - 1]);
                            }
                        }
                        assert forall|i: int| 0 <= i < entries.len() implies proper_but_uri(
                            (#[trigger] entries[i]).attributes,
                        ) by {
                            if i > 0 {
                                assert(entries[i] == more[i - 1]);
                            }
                        }
                        assert forall|i: int|
                            0 <= i < entries.len() - 1 && (
                            #[trigger] entries[i]).tag is StreamInf implies value_of(
                            entries[i].attributes,
                            "URI"@,
                        ) is Some by {
                            if i > 0 {
                                assert(entries[i] == more[i - 1]);
                            }
                        }
                    },
                    Err(failure) => {},
                }
            },
            Err(failure) => {},
        }
    }
}

/// The entries of the master playlist that a text holds are sound.
pub proof fn lemma_master_sound(text: Seq<char>)
    ensures
        parse_master(text) matches Ok(entries) ==> sound_master(entries),
{
    if header().is_prefix_of(text) {
        lemma_master_run(lines_of(text.skip(header().len() as int)));
    }
}

} // verus!
