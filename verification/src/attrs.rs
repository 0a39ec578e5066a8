//! Attribute lists: the pairs of key and value that follow the colon of a tag,
//! kept in the order in which their keys first came.
use indexmap::IndexMap;
use vstd::prelude::*;
use vstd::string::*;

use crate::error::M3U8ParserError;
use crate::text::{
    closing, delimited, lemma_contains_concat, lemma_contains_part, lemma_position, plain,
    position, same_text, split_before, split_delimited, split_first, strip_char, COMMA, EQUALS,
    QUOTE,
};

verus! {

/// `indexmap::IndexMap`, a hash map that keeps its pairs in the order in which
/// their keys were first inserted.
#[verifier::external_type_specification]
#[verifier::external_body]
#[verifier::reject_recursive_types(K)]
#[verifier::reject_recursive_types(V)]
#[verifier::reject_recursive_types(S)]
pub struct ExIndexMap<K, V, S>(IndexMap<K, V, S>);

/// The pairs that a map of attributes holds, in its order, each text as its
/// characters.
pub uninterp spec fn attribute_pairs(map: IndexMap<&str, &str>) -> Seq<(Seq<char>, Seq<char>)>;

/// The index of the first pair of `pairs` with the key `key`, or the length of
/// `pairs` where no pair has it.
pub open spec fn key_index(pairs: Seq<(Seq<char>, Seq<char>)>, key: Seq<char>) -> int
    decreases pairs.len(),
{
    if pairs.len() == 0 || pairs[0].0 == key {
        0
    } else {
        1 + key_index(pairs.drop_first(), key)
    }
}

/// The value that `pairs` hold for `key`.
pub open spec fn value_of(pairs: Seq<(Seq<char>, Seq<char>)>, key: Seq<char>) -> Option<
    Seq<char>,
> {
    let i = key_index(pairs, key);
    if i < pairs.len() {
        Some(pairs[i].1)
    } else {
        None
    }
}

/// `pairs` after `value` is inserted for `key`: in the place of the value that
/// `key` had, or as a new pair at the end.
pub open spec fn put(pairs: Seq<(Seq<char>, Seq<char>)>, key: Seq<char>, value: Seq<char>) -> Seq<
    (Seq<char>, Seq<char>),
> {
    let i = key_index(pairs, key);
    if i < pairs.len() {
        pairs.update(i, (key, value))
    } else {
        pairs.push((key, value))
    }
}

/// The map that holds `pairs` after they are inserted one by one.
pub open spec fn collect(pairs: Seq<(Seq<char>, Seq<char>)>) -> Seq<(Seq<char>, Seq<char>)>
    decreases pairs.len(),
{
    if pairs.len() == 0 {
        Seq::empty()
    } else {
        put(collect(pairs.drop_last()), pairs.last().0, pairs.last().1)
    }
}

/// `key_index` is within `pairs`, or their length.
pub proof fn lemma_key_index(pairs: Seq<(Seq<char>, Seq<char>)>, key: Seq<char>)
    ensures
        0 <= key_index(pairs, key) <= pairs.len(),
        key_index(pairs, key) < pairs.len() ==> pairs[key_index(pairs, key)].0 == key,
        forall|j: int| 0 <= j < key_index(pairs, key) ==> (#[trigger] pairs[j]).0 != key,
    decreases pairs.len(),
{
    if pairs.len() == 0 || pairs[0].0 == key {
    } else {
        let rest = pairs.drop_first();
        lemma_key_index(rest, key);
        assert forall|j: int| 0 <= j < key_index(pairs, key) implies (#[trigger] pairs[j]).0
            != key by {
            if j > 0 {
                assert(rest[j - 1] == pairs[j]);
            }
        }
    }
}

/// `IndexMap::new`: a map that holds no pair.
#[verifier::external_body]
pub(crate) fn new_attributes<'a>() -> (map: IndexMap<&'a str, &'a str>)
    ensures
        attribute_pairs(map) == Seq::<(Seq<char>, Seq<char>)>::empty(),
{
    IndexMap::new()
}

/// `IndexMap::insert`: where the map holds a pair with an equal key, that pair
/// keeps its place and gets the new value; where it holds none, the new pair
/// comes last.
#[verifier::external_body]
pub(crate) fn insert_attribute<'a>(
    map: &mut IndexMap<&'a str, &'a str>,
    key: &'a str,
    value: &'a str,
)
    ensures
        attribute_pairs(*final(map)) == put(attribute_pairs(*old(map)), key@, value@),
{
    map.insert(key, value);
}

/// `IndexMap::get`: the value of the pair with an equal key, if the map holds
/// one.
#[verifier::external_body]
pub(crate) fn get_attribute<'a>(map: &IndexMap<&'a str, &'a str>, key: &str) -> (value: Option<
    &'a str,
>)
    ensures
        match value {
            Some(text) => value_of(attribute_pairs(*map), key@) == Some(text@),
            None => value_of(attribute_pairs(*map), key@) is None,
        },
{
    map.get(key).copied()
}

/// `IndexMap::iter`: the pairs of the map in its order.
#[verifier::external_body]
pub(crate) fn attribute_list<'a>(map: &IndexMap<&'a str, &'a str>) -> (list: Vec<
    (&'a str, &'a str),
>)
    ensures
        list@.len() == attribute_pairs(*map).len(),
        forall|i: int|
            0 <= i < list@.len() ==> (#[trigger] list@[i]).0@ == attribute_pairs(*map)[i].0
                && list@[i].1@ == attribute_pairs(*map)[i].1,
{
    map.iter().map(|(key, value)| (*key, *value)).collect()
}

/// The value that `s` starts with, and what follows it, or `None` where `s`
/// starts with no value. A value in quotes ends with its second quote and
/// keeps both; any other value ends before the next comma and is not empty.
pub open spec fn scan_value(s: Seq<char>) -> Option<(Seq<char>, Seq<char>)> {
    if delimited(s, '"') {
        Some((s.take(closing(s, '"') + 1), s.skip(closing(s, '"') + 1)))
    } else if position(s, ',') > 0 {
        Some((s.take(position(s, ',')), s.skip(position(s, ','))))
    } else {
        None
    }
}

/// The pair that `s` starts with, and what follows it, or `None` where `s`
/// starts with no pair: where it holds no equals sign, no key before it or no
/// value after it. The key ends before the first equals sign.
pub open spec fn scan_pair(s: Seq<char>) -> Option<((Seq<char>, Seq<char>), Seq<char>)> {
    let equals = position(s, '=');
    if 0 < equals < s.len() {
        match scan_value(s.skip(equals + 1)) {
            Some((value, rest)) => Some(((s.take(equals), value), rest)),
            None => None,
        }
    } else {
        None
    }
}

/// Whether `pair` is such as an attribute list holds: its key is not empty
/// and holds no equals sign, and its value is not empty and holds a comma
/// only where it stands in quotes.
pub open spec fn proper_pair(pair: (Seq<char>, Seq<char>)) -> bool {
    &&& pair.0.len() > 0
    &&& !pair.0.contains('=')
    &&& pair.1.len() > 0
    &&& pair.1.contains(',') ==> pair.1.first() == '"' && pair.1.last() == '"'
}

/// The pair that `s` starts with is proper, `s` is the pair as it is written
/// and what follows it, and what follows it is shorter than `s`.
pub proof fn lemma_scan_pair(s: Seq<char>)
    ensures
        scan_pair(s) matches Some((pair, rest)) ==> rest.len() < s.len() && s == pair.0 + seq!['=']
            + pair.1 + rest && proper_pair(pair),
{
    lemma_position(s, '=');
    let equals = position(s, '=');
    if 0 < equals < s.len() {
        let t = s.skip(equals + 1);
        lemma_position(t, ',');
        lemma_position(t.skip(1), '"');
        let key = s.take(equals);
        assert(!key.contains('=')) by {
            if key.contains('=') {
                let i = choose|i: int| 0 <= i < key.len() && key[i] == '=';
                assert(s[i] == '=');
            }
        }
        match scan_value(t) {
            Some((value, rest)) => {
                assert(t =~= value + rest);
                assert(s =~= key + seq!['='] + value + rest);
                if delimited(t, '"') {
                    assert(value.first() == t[0]);
                    assert(value.last() == t.skip(1)[position(t.skip(1), '"')]);
                } else {
                    assert(!value.contains(',')) by {
                        if value.contains(',') {
                            let i = choose|i: int| 0 <= i < value.len() && value[i] == ',';
                            assert(t[i] == ',');
                        }
                    }
                }
            },
            None => {},
        }
    }
}

/// The pairs of the list `s`, which is not empty and holds pairs with a comma
/// between each two, or the text at which `s` is no such list: what is no
/// pair, or what follows a value and is no comma.
pub open spec fn scan_pairs(s: Seq<char>) -> Result<Seq<(Seq<char>, Seq<char>)>, Seq<char>>
    decreases s.len(),
    via scan_pairs_decreases
{
    match scan_pair(s) {
        None => Err(s),
        Some((pair, rest)) => {
            if rest.len() == 0 {
                Ok(seq![pair])
            } else if rest[0] == ',' {
                match scan_pairs(rest.skip(1)) {
                    Ok(more) => Ok(seq![pair] + more),
                    Err(at) => Err(at),
                }
            } else {
                Err(rest)
            }
        },
    }
}

#[via_fn]
proof fn scan_pairs_decreases(s: Seq<char>) {
    lemma_scan_pair(s);
}

/// The attributes that the remainder `s` of a tag line holds, or the text at
/// which `s` is no attribute list. A key that comes again gets the later
/// value and keeps its place.
pub open spec fn parse_attributes(s: Seq<char>) -> Result<Seq<(Seq<char>, Seq<char>)>, Seq<char>> {
    if s.len() == 0 {
        Ok(Seq::empty())
    } else {
        match scan_pairs(s) {
            Ok(pairs) => Ok(collect(pairs)),
            Err(at) => Err(at),
        }
    }
}

/// What follows the value in quotes that `input` starts with and the value,
/// with its quotes, or `Malformed` with `input` where it starts with no quote
/// or holds no second one.
pub fn read_quoted_attribute<'a>(input: &'a str) -> (scanned: Result<
    (&'a str, &'a str),
    M3U8ParserError<&'a str>,
>)
    ensures
        match scanned {
            Ok((rest, value)) => delimited(input@, '"') && value@ == input@.take(
                closing(input@, '"') + 1,
            ) && rest@ == input@.skip(closing(input@, '"') + 1),
            Err(error) => !delimited(input@, '"') && error == M3U8ParserError::Malformed(input),
        },
{
    match split_delimited(input, QUOTE) {
        Some((value, rest)) => Ok((rest, value)),
        None => Err(M3U8ParserError::Malformed(input)),
    }
}

/// What follows the pair that `input` starts with and the pair, or
/// `Malformed` with `input` where it starts with no pair: where it holds no
/// equals sign, no key before it or no value after it.
pub fn attribute_key_val<'a>(input: &'a str) -> (scanned: Result<
    (&'a str, (&'a str, &'a str)),
    M3U8ParserError<&'a str>,
>)
    ensures
        match scanned {
            Ok((rest, (key, value))) => scan_pair(input@) == Some(((key@, value@), rest@)),
            Err(error) => scan_pair(input@) is None && error == M3U8ParserError::Malformed(input),
        },
{
    proof {
        lemma_position(input@, '=');
    }
    let (key, after) = match split_first(input, EQUALS) {
        Some(parts) => parts,
        None => {
            return Err(M3U8ParserError::Malformed(input));
        },
    };
    if key.is_empty() {
        return Err(M3U8ParserError::Malformed(input));
    }
    match read_quoted_attribute(after) {
        Ok((rest, value)) => Ok((rest, (key, value))),
        Err(_) => {
            proof {
                lemma_position(after@, ',');
            }
            let (value, rest) = split_before(after, COMMA);
            if value.is_empty() {
                Err(M3U8ParserError::Malformed(input))
            } else {
                Ok((rest, (key, value)))
            }
        },
    }
}

/// `done` and then what the rest of a list holds.
spec fn after(done: Seq<(Seq<char>, Seq<char>)>, rest: Result<
    Seq<(Seq<char>, Seq<char>)>,
    Seq<char>,
>) -> Result<Seq<(Seq<char>, Seq<char>)>, Seq<char>> {
    match rest {
        Ok(more) => Ok(done + more),
        Err(at) => Err(at),
    }
}

/// What is left of the remainder `input` of a tag line, which is nothing, and
/// the attributes that `input` holds, or `Malformed` with the text at which
/// `input` is no attribute list.
pub fn attributes<'a>(input: &'a str) -> (parsed: Result<
    (&'a str, IndexMap<&'a str, &'a str>),
    M3U8ParserError<&'a str>,
>)
    ensures
        match parsed {
            Ok((rest, map)) => rest@.len() == 0 && parse_attributes(input@) == Ok::<_, Seq<char>>(
                attribute_pairs(map),
            ),
            Err(error) => error matches M3U8ParserError::Malformed(at) && parse_attributes(input@)
                == Err::<Seq<(Seq<char>, Seq<char>)>, _>(at@),
        },
{
    let mut map = new_attributes();
    if input.is_empty() {
        return Ok((input, map));
    }
    let mut rest = input;
    let ghost mut done = Seq::<(Seq<char>, Seq<char>)>::empty();
    assert(after(done, scan_pairs(rest@)) == scan_pairs(input@)) by {
        match scan_pairs(rest@) {
            Ok(more) => assert(done + more =~= more),
            Err(at) => {},
        }
    }
    loop
        invariant
            input@.len() > 0,
            attribute_pairs(map) == collect(done),
            after(done, scan_pairs(rest@)) == scan_pairs(input@),
        decreases rest@.len(),
    {
        proof {
            lemma_scan_pair(rest@);
        }
        match attribute_key_val(rest) {
            Err(error) => {
                return Err(error);
            },
            Ok((following, (key, value))) => {
                insert_attribute(&mut map, key, value);
                let ghost pair = (key@, value@);
                proof {
                    assert(done.push(pair).drop_last() =~= done);
                    assert(done + seq![pair] =~= done.push(pair));
                }
                if following.is_empty() {
                    return Ok((following, map));
                }
                match strip_char(following, COMMA) {
                    None => {
                        return Err(M3U8ParserError::Malformed(following));
                    },
                    Some(next) => {
                        proof {
                            match scan_pairs(next@) {
                                Ok(more) => assert(done + (seq![pair] + more) =~= done.push(pair)
                                    + more),
                                Err(at) => {},
                            }
                            done = done.push(pair);
                        }
                        rest = next;
                    },
                }
            },
        }
    }
}

/// A pair as text: the key, an equals sign and the value.
pub open spec fn pair_text(pair: (Seq<char>, Seq<char>)) -> Seq<char> {
    pair.0 + seq!['='] + pair.1
}

/// The pairs as text, with a comma between each two.
pub open spec fn joined(pairs: Seq<(Seq<char>, Seq<char>)>) -> Seq<char>
    decreases pairs.len(),
{
    if pairs.len() == 0 {
        Seq::empty()
    } else if pairs.len() == 1 {
        pair_text(pairs[0])
    } else {
        joined(pairs.drop_last()) + seq![','] + pair_text(pairs.last())
    }
}

/// The attributes as the text that follows the colon of a tag: the value
/// alone where `UNKNOWN` is the only key, the pairs with commas otherwise.
pub open spec fn rejoined(pairs: Seq<(Seq<char>, Seq<char>)>) -> Seq<char> {
    if pairs.len() == 1 && pairs[0].0 == "UNKNOWN"@ {
        pairs[0].1
    } else {
        joined(pairs)
    }
}

/// The attributes as the text that follows the colon of a tag.
pub fn rejoin_attributes(attributes: &IndexMap<&str, &str>) -> (text: String)
    ensures
        text@ == rejoined(attribute_pairs(*attributes)),
{
    let list = attribute_list(attributes);
    let ghost pairs = attribute_pairs(*attributes);
    if list.len() == 1 && same_text(list[0].0, "UNKNOWN") {
        return list[0].1.to_owned();
    }
    let mut text = String::new();
    let mut i: usize = 0;
    while i < list.len()
        invariant
            0 <= i <= list@.len(),
            list@.len() == pairs.len(),
            forall|k: int|
                0 <= k < list@.len() ==> (#[trigger] list@[k]).0@ == pairs[k].0 && list@[k].1@
                    == pairs[k].1,
            text@ == joined(pairs.take(i as int)),
        decreases list@.len() - i,
    {
        proof {
            let next = pairs.take(i + 1);
            assert(next.drop_last() =~= pairs.take(i as int));
            assert(next.last() == pairs[i as int]);
            reveal_strlit(",");
            reveal_strlit("=");
            assert(","@ =~= seq![',']);
            assert("="@ =~= seq!['=']);
        }
        if i > 0 {
            text.append(",");
        }
        let pair = &list[i];
        text.append(pair.0);
        text.append("=");
        text.append(pair.1);
        proof {
            assert(text@ =~= joined(pairs.take(i + 1)));
        }
        i += 1;
    }
    proof {
        assert(pairs.take(list@.len() as int) =~= pairs);
    }
    text
}

/// Whether every key and every value of `pairs` is plain.
pub open spec fn plain_pairs(pairs: Seq<(Seq<char>, Seq<char>)>) -> bool {
    forall|i: int| 0 <= i < pairs.len() ==> plain((#[trigger] pairs[i]).0) && plain(pairs[i].1)
}

/// The pairs of a plain list are plain.
pub proof fn lemma_scan_pairs_plain(s: Seq<char>)
    requires
        plain(s),
    ensures
        scan_pairs(s) matches Ok(pairs) ==> plain_pairs(pairs),
    decreases s.len(),
{
    lemma_scan_pair(s);
    match scan_pair(s) {
        None => {},
        Some((pair, rest)) => {
            lemma_contains_concat(pair.0 + seq!['='] + pair.1, rest, '\n');
            lemma_contains_concat(pair.0 + seq!['='], pair.1, '\n');
            lemma_contains_concat(pair.0, seq!['='], '\n');
            if rest.len() > 0 && rest[0] == ',' {
                let following = rest.skip(1);
                lemma_contains_part(rest, 1, rest.len() as int, '\n');
                assert(following =~= rest.subrange(1, rest.len() as int));
                lemma_scan_pairs_plain(following);
                match scan_pairs(following) {
                    Ok(more) => {
                        let pairs = seq![pair] + more;
                        assert forall|i: int| 0 <= i < pairs.len() implies plain(
                            (#[trigger] pairs[i]).0,
                        ) && plain(pairs[i].1) by {
                            if i > 0 {
                                assert(pairs[i] == more[i - 1]);
                            }
                        }
                    },
                    Err(at) => {},
                }
            }
        },
    }
}

/// Plain pairs stay plain when a plain value is inserted for a plain key.
pub proof fn lemma_put_plain(pairs: Seq<(Seq<char>, Seq<char>)>, key: Seq<char>, value: Seq<char>)
    requires
        plain_pairs(pairs),
        plain(key),
        plain(value),
    ensures
        plain_pairs(put(pairs, key, value)),
{
    lemma_key_index(pairs, key);
}

/// The map of plain pairs holds plain pairs.
pub proof fn lemma_collect_plain(pairs: Seq<(Seq<char>, Seq<char>)>)
    requires
        plain_pairs(pairs),
    ensures
        plain_pairs(collect(pairs)),
    decreases pairs.len(),
{
    if pairs.len() > 0 {
        let before = pairs.drop_last();
        assert forall|i: int| 0 <= i < before.len() implies plain((#[trigger] before[i]).0)
            && plain(before[i].1) by {
            assert(before[i] == pairs[i]);
        }
        lemma_collect_plain(before);
        lemma_put_plain(collect(before), pairs.last().0, pairs.last().1);
    }
}

/// Plain pairs are joined to a plain text.
pub proof fn lemma_joined_plain(pairs: Seq<(Seq<char>, Seq<char>)>)
    requires
        plain_pairs(pairs),
    ensures
        plain(joined(pairs)),
        plain(rejoined(pairs)),
    decreases pairs.len(),
{
    if pairs.len() > 0 {
        let last = pairs.last();
        lemma_contains_concat(last.0 + seq!['='], last.1, '\n');
        lemma_contains_concat(last.0, seq!['='], '\n');
        if pairs.len() > 1 {
            let before = pairs.drop_last();
            assert forall|i: int| 0 <= i < before.len() implies plain((#[trigger] before[i]).0)
                && plain(before[i].1) by {
                assert(before[i] == pairs[i]);
            }
            lemma_joined_plain(before);
            lemma_contains_concat(joined(before) + seq![','], pair_text(last), '\n');
            lemma_contains_concat(joined(before), seq![','], '\n');
        }
    }
}

/// The attributes of a plain remainder are written as a plain remainder.
pub proof fn lemma_attributes_plain(s: Seq<char>)
    requires
        plain(s),
    ensures
        parse_attributes(s) matches Ok(pairs) ==> plain_pairs(pairs) && plain(rejoined(pairs)),
{
    if s.len() > 0 {
        lemma_scan_pairs_plain(s);
        match scan_pairs(s) {
            Ok(pairs) => {
                lemma_collect_plain(pairs);
                lemma_joined_plain(collect(pairs));
            },
            Err(at) => {},
        }
    } else {
        lemma_joined_plain(Seq::empty());
    }
}

/// Whether no two of `pairs` have the same key.
pub open spec fn distinct_keys(pairs: Seq<(Seq<char>, Seq<char>)>) -> bool {
    forall|i: int, j: int|
        0 <= i < j < pairs.len() ==> (#[trigger] pairs[i]).0 != (#[trigger] pairs[j]).0
}

/// After a value is inserted for a key, the key has that value, every other
/// key has the value that it had, and no key comes twice if none did.
pub proof fn lemma_put(
    pairs: Seq<(Seq<char>, Seq<char>)>,
    key: Seq<char>,
    value: Seq<char>,
    other: Seq<char>,
)
    ensures
        value_of(put(pairs, key, value), key) == Some(value),
        other != key ==> value_of(put(pairs, key, value), other) == value_of(pairs, other),
        distinct_keys(pairs) ==> distinct_keys(put(pairs, key, value)),
{
    let after = put(pairs, key, value);
    let i = key_index(pairs, key);
    lemma_key_index(pairs, key);
    lemma_key_index(after, key);
    lemma_key_index(pairs, other);
    lemma_key_index(after, other);
    assert(after[i].0 == key);
    assert(key_index(after, key) == i) by {
        if key_index(after, key) < i {
            assert(pairs[key_index(after, key)] == after[key_index(after, key)]);
        }
    }
    if other != key {
        let a = key_index(pairs, other);
        let b = key_index(after, other);
        if a < pairs.len() {
            assert(after[a] == pairs[a]);
            if b < a {
                assert(after[b].0 == other);
                assert(pairs[b].0 == other);
            }
        } else if b < after.len() {
            assert(after[b].0 == other);
            if b < pairs.len() {
                assert(pairs[b].0 == other);
            }
        }
    }
}

/// The attributes of a remainder hold no key twice.
pub proof fn lemma_attributes_distinct(s: Seq<char>)
    ensures
        parse_attributes(s) matches Ok(pairs) ==> distinct_keys(pairs),
{
    if s.len() > 0 {
        match scan_pairs(s) {
            Ok(pairs) => lemma_collect_distinct(pairs),
            Err(at) => {},
        }
    }
}

proof fn lemma_collect_distinct(pairs: Seq<(Seq<char>, Seq<char>)>)
    ensures
        distinct_keys(collect(pairs)),
    decreases pairs.len(),
{
    if pairs.len() > 0 {
        lemma_collect_distinct(pairs.drop_last());
        lemma_put(collect(pairs.drop_last()), pairs.last().0, pairs.last().1, pairs.last().0);
    }
}

/// Whether every pair of `pairs` is proper.
pub open spec fn proper_pairs(pairs: Seq<(Seq<char>, Seq<char>)>) -> bool {
    forall|i: int| 0 <= i < pairs.len() ==> proper_pair(#[trigger] pairs[i])
}

proof fn lemma_scan_pairs_proper(s: Seq<char>)
    ensures
        scan_pairs(s) matches Ok(pairs) ==> proper_pairs(pairs),
    decreases s.len(),
{
    lemma_scan_pair(s);
    match scan_pair(s) {
        None => {},
        Some((pair, rest)) => {
            if rest.len() > 0 && rest[0] == ',' {
                lemma_scan_pairs_proper(rest.skip(1));
                match scan_pairs(rest.skip(1)) {
                    Ok(more) => {
                        let pairs = seq![pair] + more;
                        assert forall|i: int| 0 <= i < pairs.len() implies proper_pair(
                            #[trigger] pairs[i],
                        ) by {
                            if i > 0 {
                                assert(pairs[i] == more[i - 1]);
                            }
                        }
                    },
                    Err(at) => {},
                }
            }
        },
    }
}

/// Proper pairs stay proper when the value of a proper pair is inserted for
/// its key.
pub proof fn lemma_put_proper(
    pairs: Seq<(Seq<char>, Seq<char>)>,
    key: Seq<char>,
    value: Seq<char>,
)
    requires
        proper_pairs(pairs),
        proper_pair((key, value)),
    ensures
        proper_pairs(put(pairs, key, value)),
{
    lemma_key_index(pairs, key);
}

proof fn lemma_collect_proper(pairs: Seq<(Seq<char>, Seq<char>)>)
    requires
        proper_pairs(pairs),
    ensures
        proper_pairs(collect(pairs)),
    decreases pairs.len(),
{
    if pairs.len() > 0 {
        let before = pairs.drop_last();
        assert forall|i: int| 0 <= i < before.len() implies proper_pair(#[trigger] before[i]) by {
            assert(before[i] == pairs[i]);
        }
        lemma_collect_proper(before);
        assert(proper_pair(pairs.last()));
        lemma_put_proper(collect(before), pairs.last().0, pairs.last().1);
    }
}

/// Every pair of the attributes of a remainder is proper: no key is empty or
/// holds an equals sign, and no value is empty or holds a comma outside
/// quotes.
pub proof fn lemma_attributes_proper(s: Seq<char>)
    ensures
        parse_attributes(s) matches Ok(pairs) ==> proper_pairs(pairs),
{
    if s.len() > 0 {
        lemma_scan_pairs_proper(s);
        match scan_pairs(s) {
            Ok(pairs) => lemma_collect_proper(pairs),
            Err(at) => {},
        }
    }
}

} // verus!
