//! Master playlists: the variant streams and the renditions of a stream, as
//! the tags of the playlist in their order.
use indexmap::IndexMap;
use vstd::prelude::*;
use vstd::string::*;

use crate::attrs::{
    attribute_pairs, attributes, get_attribute, insert_attribute, parse_attributes, put, value_of,
};
use crate::error::{Failure, M3U8ParserError};
use crate::tags::{
    ext_identifier, ext_type, header, master_tag, scan_tag, PlaylistExtType, TagKind,
};
use crate::text::{lines_of, same_text, split_lines, texts};

verus! {

/// One tag of a master playlist with its attributes, each text as its
/// characters.
pub struct MasterEntry {
    pub tag: TagKind,
    pub attributes: Seq<(Seq<char>, Seq<char>)>,
}

/// The entry of the tag line `line`, which `next` follows if any line does.
/// The tag of a variant stream takes the line after it as its `URI`.
pub open spec fn master_entry(line: Seq<char>, next: Option<Seq<char>>) -> Result<
    MasterEntry,
    Failure,
> {
    match scan_tag(line) {
        None => Err(Failure::Malformed(line)),
        Some((raw, rest)) => match parse_attributes(rest) {
            Err(at) => Err(Failure::Malformed(at)),
            Ok(pairs) => Ok(
                MasterEntry {
                    tag: master_tag(raw),
                    attributes: match next {
                        Some(uri) if master_tag(raw) is StreamInf => put(pairs, "URI"@, uri),
                        _ => pairs,
                    },
                },
            ),
        },
    }
}

/// `first` and then the entries of the lines after it.
pub open spec fn and_then(first: MasterEntry, rest: Result<Seq<MasterEntry>, Failure>) -> Result<
    Seq<MasterEntry>,
    Failure,
> {
    match rest {
        Ok(more) => Ok(seq![first] + more),
        Err(failure) => Err(failure),
    }
}

/// The entries of the lines `lines`, read one tag after the other.
pub open spec fn master_run(lines: Seq<Seq<char>>) -> Result<Seq<MasterEntry>, Failure>
    decreases lines.len(),
{
    if lines.len() == 0 {
        Ok(Seq::empty())
    } else if lines.len() == 1 {
        match master_entry(lines[0], None) {
            Ok(entry) => Ok(seq![entry]),
            Err(failure) => Err(failure),
        }
    } else {
        match master_entry(lines[0], Some(lines[1])) {
            Ok(entry) => and_then(
                entry,
                master_run(
                    lines.skip(
                        if entry.tag is StreamInf {
                            2
                        } else {
                            1
                        },
                    ),
                ),
            ),
            Err(failure) => Err(failure),
        }
    }
}

/// The entries of the master playlist that `text` holds, or why it holds
/// none.
pub open spec fn parse_master(text: Seq<char>) -> Result<Seq<MasterEntry>, Failure> {
    if header().is_prefix_of(text) {
        master_run(lines_of(text.skip(header().len() as int)))
    } else {
        Err(Failure::Malformed(text))
    }
}

/// One tag of a master playlist with its attributes.
#[derive(Debug, PartialEq)]
pub struct PlaylistExtInfo<'a> {
    pub ext_type: PlaylistExtType,
    pub attributes: IndexMap<&'a str, &'a str>,
}

impl<'a> View for PlaylistExtInfo<'a> {
    type V = MasterEntry;

    open spec fn view(&self) -> MasterEntry {
        MasterEntry { tag: self.ext_type@, attributes: attribute_pairs(self.attributes) }
    }
}

/// A master playlist.
#[derive(Debug, PartialEq)]
pub struct Playlist<'a> {
    pub ext_infos: Vec<PlaylistExtInfo<'a>>,
}

impl<'a> View for Playlist<'a> {
    type V = Seq<MasterEntry>;

    open spec fn view(&self) -> Seq<MasterEntry> {
        Seq::new(self.ext_infos@.len(), |i: int| self.ext_infos@[i]@)
    }
}

/// `done` and then what the rest of the lines hold.
spec fn after(done: Seq<MasterEntry>, rest: Result<Seq<MasterEntry>, Failure>) -> Result<
    Seq<MasterEntry>,
    Failure,
> {
    match rest {
        Ok(more) => Ok(done + more),
        Err(failure) => Err(failure),
    }
}

/// The master playlist that `data` holds. Reading stops at the first line
/// that fails, with the error of that line.
pub fn read_playlist<'a>(data: &'a str) -> (parsed: Result<Playlist<'a>, M3U8ParserError<&'a str>>)
    ensures
        match parsed {
            Ok(playlist) => parse_master(data@) == Ok::<_, Failure>(playlist@),
            Err(error) => parse_master(data@) == Err::<Seq<MasterEntry>, _>(error@),
        },
        !header().is_prefix_of(data@) ==> parsed == Err::<Playlist, M3U8ParserError<&str>>(
            M3U8ParserError::Malformed(data),
        ),
{
    let body = match ext_identifier(data) {
        Ok((rest, _)) => rest,
        Err(error) => {
            return Err(error);
        },
    };
    let lines = split_lines(body);
    let ghost all = lines_of(body@);
    let mut ext_infos: Vec<PlaylistExtInfo<'a>> = Vec::new();
    let ghost mut done = Seq::<MasterEntry>::empty();
    let mut i: usize = 0;
    proof {
        assert(all.skip(0) =~= all);
        match master_run(all) {
            Ok(more) => assert(done + more =~= more),
            Err(failure) => {},
        }
    }
    while i < lines.len()
        invariant
            0 <= i <= lines@.len(),
            texts(lines@) == all,
            header().is_prefix_of(data@),
            parse_master(data@) == master_run(all),
            done == Seq::new(ext_infos@.len(), |k: int| ext_infos@[k]@),
            master_run(all) == after(done, master_run(all.skip(i as int))),
        decreases lines@.len() - i,
    {
        let ghost left = all.skip(i as int);
        let line = lines[i];
        proof {
            assert(left[0] == line@);
            assert(left.skip(1) =~= all.skip(i + 1));
            if left.len() > 1 {
                assert(left.skip(2) =~= all.skip(i + 2));
                assert(left[1] == lines@[i + 1]@);
            }
        }
        let (rest, tag) = match ext_type::<PlaylistExtType>(line) {
            Ok(scanned) => scanned,
            Err(error) => {
                return Err(error);
            },
        };
        let mut attributes = match attributes(rest) {
            Ok((_, map)) => map,
            Err(error) => {
                return Err(error);
            },
        };
        let mut taken: usize = 1;
        match tag {
            PlaylistExtType::StreamInf => {
                if i + 1 < lines.len() {
                    insert_attribute(&mut attributes, "URI", lines[i + 1]);
                    taken = 2;
                }
            },
            _ => {},
        }
        ext_infos.push(PlaylistExtInfo { ext_type: tag, attributes });
        proof {
            let entry = ext_infos@.last()@;
            let now = Seq::new(ext_infos@.len(), |k: int| ext_infos@[k]@);
            assert(now =~= done.push(entry));
            if left.len() == 1 {
                assert(all.skip(i + taken) =~= Seq::<Seq<char>>::empty());
                assert(done + seq![entry] =~= now);
                assert(now + Seq::<MasterEntry>::empty() =~= now);
            } else {
                match master_run(all.skip(i + taken)) {
                    Ok(more) => assert(done + (seq![entry] + more) =~= now + more),
                    Err(failure) => {},
                }
            }
            done = now;
        }
        i += taken;
    }
    proof {
        assert(all.skip(i as int) =~= Seq::<Seq<char>>::empty());
        assert(done + Seq::<MasterEntry>::empty() =~= done);
    }
    Ok(Playlist { ext_infos })
}

/// The name of a rendition that gives none.
pub open spec fn unnamed() -> Seq<char> {
    "Unknown"@
}

/// The names of the renditions among `entries`, in their order: of each
/// `Media` entry its attribute `NAME`, or `Unknown` where it has none.
pub open spec fn rendition_names(entries: Seq<MasterEntry>) -> Seq<Seq<char>>
    decreases entries.len(),
{
    if entries.len() == 0 {
        Seq::empty()
    } else {
        let before = rendition_names(entries.drop_last());
        if entries.last().tag is Media {
            before.push(
                match value_of(entries.last().attributes, "NAME"@) {
                    Some(name) => name,
                    None => unnamed(),
                },
            )
        } else {
            before
        }
    }
}

/// Whether an entry is a variant stream.
pub open spec fn is_stream() -> spec_fn(MasterEntry) -> bool {
    |entry: MasterEntry| entry.tag is StreamInf
}

/// Whether an entry is a variant stream, where `stream` is true, or else a
/// rendition, and holds the value `value` for `key`.
pub open spec fn has_value(stream: bool, key: Seq<char>, value: Seq<char>) -> spec_fn(
    MasterEntry,
) -> bool {
    |entry: MasterEntry|
        (if stream {
            entry.tag is StreamInf
        } else {
            entry.tag is Media
        }) && value_of(entry.attributes, key) == Some(value)
}

/// Whether an entry is a rendition with the name `name`.
pub open spec fn is_rendition(name: Seq<char>) -> spec_fn(MasterEntry) -> bool {
    has_value(false, "NAME"@, name)
}

/// Whether an entry is a variant stream that shows the group `group`.
pub open spec fn is_stream_of(group: Seq<char>) -> spec_fn(MasterEntry) -> bool {
    has_value(true, "VIDEO"@, group)
}

/// The index of the first of `entries` that `wanted` holds of, or their
/// number where it holds of none.
pub open spec fn first_index(entries: Seq<MasterEntry>, wanted: spec_fn(MasterEntry) -> bool) -> int
    decreases entries.len(),
{
    if entries.len() == 0 || wanted(entries[0]) {
        0
    } else {
        1 + first_index(entries.drop_first(), wanted)
    }
}

/// An index below which `wanted` holds of no entry and at which, if it is
/// inside `entries`, it holds, is `first_index`.
pub proof fn lemma_first_index_is(
    entries: Seq<MasterEntry>,
    wanted: spec_fn(MasterEntry) -> bool,
    i: int,
)
    requires
        0 <= i <= entries.len(),
        forall|j: int| 0 <= j < i ==> !wanted(#[trigger] entries[j]),
        i < entries.len() ==> wanted(entries[i]),
    ensures
        first_index(entries, wanted) == i,
    decreases entries.len(),
{
    if i > 0 {
        let rest = entries.drop_first();
        assert(!wanted(entries[0]));
        assert forall|j: int| 0 <= j < i - 1 implies !wanted(#[trigger] rest[j]) by {
            assert(rest[j] == entries[j + 1]);
        }
        if i - 1 < rest.len() {
            assert(rest[i - 1] == entries[i]);
        }
        lemma_first_index_is(rest, wanted, i - 1);
    }
}

/// The URI of the first variant stream among `entries`.
pub open spec fn first_link(entries: Seq<MasterEntry>) -> Option<Seq<char>> {
    let stream = first_index(entries, is_stream());
    if stream < entries.len() {
        value_of(entries[stream].attributes, "URI"@)
    } else {
        None
    }
}

/// The URI of the rendition `name`: of the first variant stream whose `VIDEO`
/// is the `GROUP-ID` of the first rendition with that name.
pub open spec fn link_of(entries: Seq<MasterEntry>, name: Seq<char>) -> Option<Seq<char>> {
    let rendition = first_index(entries, is_rendition(name));
    if rendition < entries.len() {
        match value_of(entries[rendition].attributes, "GROUP-ID"@) {
            Some(group) => {
                let stream = first_index(entries, is_stream_of(group));
                if stream < entries.len() {
                    value_of(entries[stream].attributes, "URI"@)
                } else {
                    None
                }
            },
            None => None,
        }
    } else {
        None
    }
}

impl<'a> Playlist<'a> {
    /// The names of the renditions of the playlist, in their order.
    pub fn playlist_names(&self) -> (names: Vec<&str>)
        ensures
            texts(names@) == rendition_names(self@),
    {
        let mut names: Vec<&str> = Vec::new();
        let mut i: usize = 0;
        assert(texts(names@) =~= rendition_names(self@.take(0)));
        while i < self.ext_infos.len()
            invariant
                0 <= i <= self.ext_infos@.len(),
                texts(names@) == rendition_names(self@.take(i as int)),
            decreases self.ext_infos@.len() - i,
        {
            let entry = &self.ext_infos[i];
            let ghost before = texts(names@);
            proof {
                let next = self@.take(i + 1);
                assert(next.drop_last() =~= self@.take(i as int));
                assert(next.last() == entry@);
            }
            match entry.ext_type {
                PlaylistExtType::Media => {
                    let name = match get_attribute(&entry.attributes, "NAME") {
                        Some(name) => name,
                        None => "Unknown",
                    };
                    names.push(name);
                    proof {
                        assert(texts(names@) =~= before.push(name@));
                    }
                },
                _ => {},
            }
            i += 1;
        }
        proof {
            assert(self@.take(i as int) =~= self@);
        }
        names
    }

    /// The URI of the first variant stream of the playlist.
    pub fn first_playlist_link(&self) -> (link: Option<&str>)
        ensures
            match link {
                Some(uri) => first_link(self@) == Some(uri@),
                None => first_link(self@) is None,
            },
    {
        let mut i: usize = 0;
        while i < self.ext_infos.len()
            invariant
                0 <= i <= self.ext_infos@.len(),
                forall|j: int| 0 <= j < i ==> !is_stream()(#[trigger] self@[j]),
            decreases self.ext_infos@.len() - i,
        {
            let entry = &self.ext_infos[i];
            assert(self@[i as int] == entry@);
            match entry.ext_type {
                PlaylistExtType::StreamInf => {
                    proof {
                        lemma_first_index_is(self@, is_stream(), i as int);
                    }
                    return get_attribute(&entry.attributes, "URI");
                },
                _ => {},
            }
            i += 1;
        }
        proof {
            lemma_first_index_is(self@, is_stream(), i as int);
        }
        None
    }

    /// The index of the first entry with the value `value` for `key` among
    /// the variant streams, where `stream` is true, or among the renditions.
    fn find(&self, stream: bool, key: &str, value: &str) -> (found: Option<usize>)
        ensures
            match found {
                Some(i) => i < self@.len() && i == first_index(
                    self@,
                    has_value(stream, key@, value@),
                ),
                None => first_index(self@, has_value(stream, key@, value@)) == self@.len(),
            },
    {
        let ghost wanted = has_value(stream, key@, value@);
        let mut i: usize = 0;
        while i < self.ext_infos.len()
            invariant
                0 <= i <= self.ext_infos@.len(),
                wanted == has_value(stream, key@, value@),
                forall|j: int| 0 <= j < i ==> !wanted(#[trigger] self@[j]),
            decreases self.ext_infos@.len() - i,
        {
            let entry = &self.ext_infos[i];
            assert(self@[i as int] == entry@);
            let kind = match entry.ext_type {
                PlaylistExtType::StreamInf => stream,
                PlaylistExtType::Media => !stream,
                _ => false,
            };
            if kind {
                match get_attribute(&entry.attributes, key) {
                    Some(held) => {
                        if same_text(held, value) {
                            proof {
                                lemma_first_index_is(self@, wanted, i as int);
                            }
                            return Some(i);
                        }
                    },
                    None => {},
                }
            }
            i += 1;
        }
        proof {
            lemma_first_index_is(self@, wanted, i as int);
        }
        None
    }

    /// The URI of the rendition `name`.
    pub fn playlist_link(&self, name: &str) -> (link: Option<&str>)
        ensures
            match link {
                Some(uri) => link_of(self@, name@) == Some(uri@),
                None => link_of(self@, name@) is None,
            },
    {
        let rendition = match self.find(false, "NAME", name) {
            Some(i) => i,
            None => {
                return None;
            },
        };
        let group = match get_attribute(&self.ext_infos[rendition].attributes, "GROUP-ID") {
            Some(group) => group,
            None => {
                return None;
            },
        };
        match self.find(true, "VIDEO", group) {
            Some(stream) => get_attribute(&self.ext_infos[stream].attributes, "URI"),
            None => None,
        }
    }
}

} // verus!
