//! The key-value message format of commit and tag payloads.
//!
//! A message is a run of `key value` lines followed, after a blank line, by a
//! free-text body. A value that spans several lines is written with a space at
//! the start of each continuation line. A key that occurs more than once
//! collects its values in the order in which they occur.
//!
//! Reading goes over the bytes once, from the first to the last, and finds
//! the place of a key that it has seen through a hash map.

use crate::buffer::{bytes_as_slice, bytes_from_vec, bytes_slice, contents};
use crate::error::GitError;
use crate::lookup::{first_at, lemma_first_at};
use crate::message_laws::lemma_parse_is_well_formed;
use crate::text::{find_byte, scan_byte, utf8_to_string, LINE_BREAK, SPACE};
use bytes::Bytes;
use vstd::hash_map::StringHashMap;
use vstd::prelude::*;
use vstd::utf8::{decode_utf8, encode_utf8, valid_utf8};

verus! {

/// What a lookup in a message asks for: the body, or the values of a key.
#[derive(Debug, PartialEq, Eq, Hash, Clone)]
pub enum KeyValuePairKey {
    Contents,
    Key(String),
}

/// What a lookup finds: one value, or the values of a key that occurred more
/// than once.
#[derive(Debug, PartialEq, Clone)]
pub enum KeyValuePairEntry {
    Singleton(Bytes),
    List(Vec<Bytes>),
}

/// A key with the values that were given for it, oldest first.
#[derive(Debug, PartialEq, Clone)]
pub struct KeyValuePair {
    pub key: String,
    pub values: Vec<Bytes>,
}

/// A message: its keys in the order in which each was first seen, and its body.
#[derive(Debug, PartialEq, Clone)]
pub struct KeyValuePairList {
    pub data: Vec<KeyValuePair>,
    pub contents: Option<Bytes>,
}

/// A key and its values, as mathematics.
pub struct Header {
    pub key: Seq<char>,
    pub values: Seq<Seq<u8>>,
}

/// A message, as mathematics.
pub struct Message {
    pub headers: Seq<Header>,
    pub body: Option<Seq<u8>>,
}

/// The bytes behind each handle of a list of values.
pub open spec fn values_of(handles: Seq<Bytes>) -> Seq<Seq<u8>> {
    handles.map_values(|b: Bytes| contents(b))
}

impl View for KeyValuePair {
    type V = Header;

    open spec fn view(&self) -> Header {
        Header { key: self.key@, values: values_of(self.values@) }
    }
}

impl View for KeyValuePairList {
    type V = Message;

    open spec fn view(&self) -> Message {
        Message {
            headers: self.data@.map_values(|p: KeyValuePair| p@),
            body: match self.contents {
                Some(b) => Some(contents(b)),
                None => None,
            },
        }
    }
}

impl KeyValuePairEntry {
    /// The values that the entry holds.
    pub open spec fn values(&self) -> Seq<Seq<u8>> {
        match self {
            KeyValuePairEntry::Singleton(b) => seq![contents(*b)],
            KeyValuePairEntry::List(l) => values_of(l@),
        }
    }
}

/// The keys of the headers, in order.
pub open spec fn keys_of(headers: Seq<Header>) -> Seq<Seq<char>> {
    headers.map_values(|h: Header| h.key)
}

/// The index of the first header with the key `key`, or the number of headers
/// when there is none.
pub open spec fn key_index(headers: Seq<Header>, key: Seq<char>) -> int {
    first_at(keys_of(headers), key, 0)
}

impl Message {
    /// The message without keys and without a body.
    pub open spec fn empty() -> Message {
        Message { headers: Seq::empty(), body: None }
    }

    /// The message after one more value was given for `key`: the value joins
    /// those of the key where the message has it, and else the key is added
    /// after all others.
    pub open spec fn with_pair(self, key: Seq<char>, value: Seq<u8>) -> Message {
        let i = key_index(self.headers, key);
        if i < self.headers.len() {
            Message {
                headers: self.headers.update(
                    i,
                    Header { key: key, values: self.headers[i].values.push(value) },
                ),
                body: self.body,
            }
        } else {
            Message {
                headers: self.headers.push(Header { key: key, values: seq![value] }),
                body: self.body,
            }
        }
    }

    /// The message with `body` as its body.
    pub open spec fn with_body(self, body: Seq<u8>) -> Message {
        Message { headers: self.headers, body: Some(body) }
    }

    /// The values of `key`, in the order in which they were given.
    pub open spec fn values(self, key: Seq<char>) -> Option<Seq<Seq<u8>>> {
        let i = key_index(self.headers, key);
        if i < self.headers.len() {
            Some(self.headers[i].values)
        } else {
            None
        }
    }
}

impl KeyValuePairList {
    /// A message without keys and without a body.
    pub fn new() -> (list: Self)
        ensures
            list@ == Message::empty(),
    {
        let list = KeyValuePairList { data: Vec::new(), contents: None };
        assert(list@.headers =~= Seq::<Header>::empty());
        list
    }

    /// Where the key `key` stands in `data`.
    fn position(&self, key: &String) -> (at: usize)
        ensures
            at == key_index(self@.headers, key@),
            at <= self.data@.len(),
    {
        let ghost keys = keys_of(self@.headers);
        let mut i: usize = 0;
        while i < self.data.len()
            invariant
                i <= self.data@.len(),
                keys == keys_of(self@.headers),
                keys.len() == self.data@.len(),
                first_at(keys, key@, 0) == first_at(keys, key@, i as int),
            decreases self.data@.len() - i,
        {
            assert(keys[i as int] == self.data@[i as int].key@);
            if self.data[i].key == *key {
                return i;
            }
            i += 1;
        }
        i
    }

    /// Looks up the body or the values of a key. A key with one value gives a
    /// `Singleton`, a key with several a `List`.
    pub fn get(&self, key: KeyValuePairKey) -> (entry: Option<KeyValuePairEntry>)
        ensures
            match key {
                KeyValuePairKey::Contents => match self@.body {
                    Some(body) => entry matches Some(KeyValuePairEntry::Singleton(b))
                        && contents(b) == body,
                    None => entry is None,
                },
                KeyValuePairKey::Key(k) => match self@.values(k@) {
                    Some(values) => entry matches Some(e) && e.values() == values && (e
                        is Singleton <==> values.len() == 1),
                    None => entry is None,
                },
            },
    {
        match key {
            KeyValuePairKey::Contents => match &self.contents {
                Some(b) => Some(KeyValuePairEntry::Singleton(b.clone())),
                None => None,
            },
            KeyValuePairKey::Key(k) => {
                let at = self.position(&k);
                if at < self.data.len() {
                    let pair = &self.data[at];
                    assert(self@.headers[at as int] == pair@);
                    if pair.values.len() == 1 {
                        let e = KeyValuePairEntry::Singleton(pair.values[0].clone());
                        assert(e.values() =~= pair@.values);
                        Some(e)
                    } else {
                        let copy = clone_handles(&pair.values);
                        Some(KeyValuePairEntry::List(copy))
                    }
                } else {
                    None
                }
            },
        }
    }

    /// Sets the body of the message.
    pub fn insert_contents(&mut self, body: Bytes)
        ensures
            final(self)@ == old(self)@.with_body(contents(body)),
    {
        self.contents = Some(body);
    }

    /// Gives one more value for a key.
    pub fn insert_pair(&mut self, key_string: String, val_to_add: Bytes)
        ensures
            final(self)@ == old(self)@.with_pair(key_string@, contents(val_to_add)),
    {
        let at = self.position(&key_string);
        self.push_value(at, key_string, val_to_add);
    }

    /// Gives one more value for a key, given where the key stands in `data`.
    fn push_value(&mut self, at: usize, key_string: String, val_to_add: Bytes)
        requires
            at == key_index(old(self)@.headers, key_string@),
        ensures
            final(self)@ == old(self)@.with_pair(key_string@, contents(val_to_add)),
    {
        if at < self.data.len() {
            let ghost before = self.data@;
            self.data[at].values.push(val_to_add);
            assert(self@.headers =~= old(self)@.headers.update(
                at as int,
                Header {
                    key: key_string@,
                    values: old(self)@.headers[at as int].values.push(contents(val_to_add)),
                },
            )) by {
                assert(old(self)@.headers[at as int] == before[at as int]@);
                assert(self.data@[at as int].values@ == before[at as int].values@.push(val_to_add));
                assert(values_of(before[at as int].values@.push(val_to_add)) =~= values_of(
                    before[at as int].values@,
                ).push(contents(val_to_add)));
                lemma_first_at(keys_of(old(self)@.headers), key_string@, 0);
            }
        } else {
            let mut values: Vec<Bytes> = Vec::new();
            values.push(val_to_add);
            assert(values_of(values@) =~= seq![contents(val_to_add)]);
            self.data.push(KeyValuePair { key: key_string, values });
            assert(self@.headers =~= old(self)@.headers.push(
                Header { key: key_string@, values: seq![contents(val_to_add)] },
            ));
        }
    }
}

/// A value as it stands on the wire: a space follows each line break, so that
/// the lines after the first read as continuation lines.
pub open spec fn indent(value: Seq<u8>) -> Seq<u8>
    decreases value.len(),
{
    if value.len() == 0 {
        Seq::empty()
    } else if value[0] == LINE_BREAK {
        seq![LINE_BREAK, SPACE] + indent(value.skip(1))
    } else {
        seq![value[0]] + indent(value.skip(1))
    }
}

/// The value that a stretch of the wire stands for: the space after each line
/// break is dropped.
pub open spec fn unindent(raw: Seq<u8>) -> Seq<u8>
    decreases raw.len(),
{
    if raw.len() == 0 {
        Seq::empty()
    } else if raw[0] == LINE_BREAK && raw.len() > 1 && raw[1] == SPACE {
        seq![LINE_BREAK] + unindent(raw.skip(2))
    } else {
        seq![raw[0]] + unindent(raw.skip(1))
    }
}

/// One line of the header block: the key, a space, the value and a line break.
pub open spec fn line(key: Seq<char>, value: Seq<u8>) -> Seq<u8> {
    encode_utf8(key) + seq![SPACE] + indent(value) + seq![LINE_BREAK]
}

/// The lines of one key: one line for each of its values, in order.
pub open spec fn lines(key: Seq<char>, values: Seq<Seq<u8>>) -> Seq<u8>
    decreases values.len(),
{
    if values.len() == 0 {
        Seq::empty()
    } else {
        line(key, values[0]) + lines(key, values.skip(1))
    }
}

/// The header block: the lines of each key, in the order of the keys.
pub open spec fn header_block(headers: Seq<Header>) -> Seq<u8>
    decreases headers.len(),
{
    if headers.len() == 0 {
        Seq::empty()
    } else {
        lines(headers[0].key, headers[0].values) + header_block(headers.skip(1))
    }
}

impl Message {
    /// The message on the wire: the header block, and where there is a body a
    /// blank line and the body.
    pub open spec fn serialize(self) -> Seq<u8> {
        header_block(self.headers) + match self.body {
            Some(body) => seq![LINE_BREAK] + body,
            None => Seq::empty(),
        }
    }
}

/// Where the value that starts at `from` ends: the index of the first line
/// break from there on that no space follows, or the length of `s` when the
/// value is not closed by a line break.
pub open spec fn value_end(s: Seq<u8>, from: int) -> int
    decreases s.len() - from,
{
    let e = find_byte(s, from, LINE_BREAK);
    if e < from || e >= s.len() {
        s.len() as int
    } else if e + 1 < s.len() && s[e + 1] == SPACE {
        value_end(s, e + 1)
    } else {
        e
    }
}

/// A key and a value as they were cut out of the wire.
pub struct RawPair {
    pub key: Seq<u8>,
    pub value: Seq<u8>,
}

/// The pairs of a header block in the order of their lines, and the body.
pub struct RawMessage {
    pub pairs: Seq<RawPair>,
    pub body: Option<Seq<u8>>,
}

/// Cuts the part of `s` from `pos` on into pairs and body. At the end of `s`
/// nothing is left. A line break at `pos` opens the body, which runs to the end.
/// Otherwise a line starts at `pos`: its key runs to the first space, which has
/// to come before any line break, and its value to the line break that ends it.
/// There is no result where a line has no space or a value is not closed.
pub open spec fn parse_at(s: Seq<u8>, pos: int) -> Option<RawMessage>
    decreases s.len() - pos,
{
    if pos < 0 || pos >= s.len() {
        Some(RawMessage { pairs: Seq::empty(), body: None })
    } else {
        let sp = find_byte(s, pos, SPACE);
        let nl = find_byte(s, pos, LINE_BREAK);
        if nl < sp {
            if nl == pos {
                Some(RawMessage { pairs: Seq::empty(), body: Some(s.skip(pos + 1)) })
            } else {
                None
            }
        } else if sp >= s.len() {
            None
        } else {
            let e = value_end(s, sp + 1);
            if e < pos || e >= s.len() {
                None
            } else {
                match parse_at(s, e + 1) {
                    Some(rest) => Some(
                        RawMessage {
                            pairs: seq![
                                RawPair {
                                    key: s.subrange(pos, sp),
                                    value: unindent(s.subrange(sp + 1, e)),
                                },
                            ] + rest.pairs,
                            body: rest.body,
                        },
                    ),
                    None => None,
                }
            }
        }
    }
}

/// Whether every key is valid UTF-8.
pub open spec fn keys_are_text(pairs: Seq<RawPair>) -> bool {
    forall|i: int| 0 <= i < pairs.len() ==> valid_utf8(#[trigger] pairs[i].key)
}

/// The message that holds `body` and to which the pairs were given one after
/// the other.
pub open spec fn collect(pairs: Seq<RawPair>, body: Option<Seq<u8>>) -> Message
    decreases pairs.len(),
{
    if pairs.len() == 0 {
        Message { headers: Seq::empty(), body: body }
    } else {
        collect(pairs.drop_last(), body).with_pair(
            decode_utf8(pairs.last().key),
            pairs.last().value,
        )
    }
}

/// The message that the bytes `s` stand for, where they are well formed.
pub open spec fn parse(s: Seq<u8>) -> Option<Message> {
    match parse_at(s, 0) {
        Some(raw) => if keys_are_text(raw.pairs) {
            Some(collect(raw.pairs, raw.body))
        } else {
            None
        },
        None => None,
    }
}

/// The body does not bear on how pairs are collected.
pub proof fn lemma_collect_body(pairs: Seq<RawPair>, body: Seq<u8>)
    ensures
        collect(pairs, Some(body)) == collect(pairs, None).with_body(body),
    decreases pairs.len(),
{
    if pairs.len() > 0 {
        lemma_collect_body(pairs.drop_last(), body);
    }
}

/// Whether `index` tells of each key whether the headers have it, and where.
pub open spec fn is_index_of(index: Map<Seq<char>, usize>, headers: Seq<Header>) -> bool {
    forall|k: Seq<char>|
        (#[trigger] index.contains_key(k)) == (key_index(headers, k) < headers.len()) && (
        index.contains_key(k) ==> index[k] == key_index(headers, k))
}

/// An index of the headers stays one when a value is given for a key, once the
/// place of a new key is entered in it.
proof fn lemma_index_after_pair(
    index: Map<Seq<char>, usize>,
    m: Message,
    key: Seq<char>,
    value: Seq<u8>,
)
    requires
        is_index_of(index, m.headers),
        m.headers.len() <= usize::MAX,
    ensures
        index.contains_key(key) ==> is_index_of(index, m.with_pair(key, value).headers),
        !index.contains_key(key) ==> is_index_of(
            index.insert(key, m.headers.len() as usize),
            m.with_pair(key, value).headers,
        ),
{
    let keys = keys_of(m.headers);
    let after = m.with_pair(key, value).headers;
    lemma_first_at(keys, key, 0);
    if index.contains_key(key) {
        assert(keys_of(after) =~= keys);
    } else {
        assert(keys_of(after) =~= keys.push(key));
        let grown = index.insert(key, m.headers.len() as usize);
        assert forall|k: Seq<char>|
            (#[trigger] grown.contains_key(k)) == (key_index(after, k) < after.len()) && (
            grown.contains_key(k) ==> grown[k] == key_index(after, k)) by {
            crate::lookup::lemma_first_at_push(keys, key, k);
            assert(index.contains_key(k) == (key_index(m.headers, k) < m.headers.len()));
        }
    }
}

/// Appends the bytes of `src` to `out`.
pub fn append(out: &mut Vec<u8>, src: &[u8])
    ensures
        final(out)@ == old(out)@ + src@,
{
    let mut i: usize = 0;
    while i < src.len()
        invariant
            i <= src@.len(),
            out@ == old(out)@ + src@.take(i as int),
        decreases src@.len() - i,
    {
        out.push(src[i]);
        assert(src@.take(i + 1) =~= src@.take(i as int).push(src@[i as int]));
        i += 1;
    }
    assert(src@.take(src@.len() as int) =~= src@);
}

/// Appends `value` to `out` as it stands on the wire.
fn push_indented(out: &mut Vec<u8>, value: &[u8])
    ensures
        final(out)@ == old(out)@ + indent(value@),
{
    let mut i: usize = 0;
    assert(value@.skip(0) =~= value@);
    while i < value.len()
        invariant
            i <= value@.len(),
            out@ + indent(value@.skip(i as int)) == old(out)@ + indent(value@),
        decreases value@.len() - i,
    {
        let ghost before = out@;
        let ghost rest = value@.skip(i as int);
        assert(rest.skip(1) =~= value@.skip(i + 1));
        let b = value[i];
        out.push(b);
        if b == LINE_BREAK {
            out.push(SPACE);
            assert(out@ + indent(rest.skip(1)) =~= before + (seq![LINE_BREAK, SPACE] + indent(
                rest.skip(1),
            )));
        } else {
            assert(out@ + indent(rest.skip(1)) =~= before + (seq![b] + indent(rest.skip(1))));
        }
        i += 1;
    }
    assert(value@.skip(value@.len() as int) =~= Seq::<u8>::empty());
    assert(out@ + Seq::<u8>::empty() =~= out@);
}

/// Finds where the value that starts at `from` ends.
fn scan_value_end(s: &[u8], from: usize) -> (end: usize)
    requires
        from <= s@.len(),
    ensures
        end == value_end(s@, from as int),
        from <= end <= s@.len(),
{
    let mut f: usize = from;
    loop
        invariant
            from <= f <= s@.len(),
            value_end(s@, from as int) == value_end(s@, f as int),
        decreases s@.len() - f,
    {
        let e = scan_byte(s, f, LINE_BREAK);
        if e >= s.len() {
            return s.len();
        }
        if e + 1 < s.len() && s[e + 1] == SPACE {
            f = e + 1;
        } else {
            return e;
        }
    }
}

/// Copies the value that lies between `from` and `to` on the wire.
fn copy_unindented(s: &[u8], from: usize, to: usize) -> (value: Vec<u8>)
    requires
        from <= to <= s@.len(),
    ensures
        value@ == unindent(s@.subrange(from as int, to as int)),
{
    let mut value: Vec<u8> = Vec::new();
    let mut i: usize = from;
    while i < to
        invariant
            from <= i <= to <= s@.len(),
            value@ + unindent(s@.subrange(i as int, to as int)) == unindent(
                s@.subrange(from as int, to as int),
            ),
        decreases to - i,
    {
        let ghost before = value@;
        let ghost raw = s@.subrange(i as int, to as int);
        let b = s[i];
        value.push(b);
        if b == LINE_BREAK && i + 1 < to && s[i + 1] == SPACE {
            assert(raw.skip(2) =~= s@.subrange(i + 2, to as int));
            assert(value@ + unindent(raw.skip(2)) =~= before + (seq![LINE_BREAK] + unindent(
                raw.skip(2),
            )));
            i += 2;
        } else {
            assert(raw.skip(1) =~= s@.subrange(i + 1, to as int));
            assert(value@ + unindent(raw.skip(1)) =~= before + (seq![b] + unindent(raw.skip(1))));
            i += 1;
        }
    }
    assert(s@.subrange(to as int, to as int) =~= Seq::<u8>::empty());
    assert(value@ + Seq::<u8>::empty() =~= value@);
    value
}

/// Appends the lines of one key to `out`.
fn push_lines(out: &mut Vec<u8>, pair: &KeyValuePair)
    ensures
        final(out)@ == old(out)@ + lines(pair@.key, pair@.values),
{
    let key = pair.key.as_str().as_bytes();
    let mut j: usize = 0;
    assert(pair@.values.skip(0) =~= pair@.values);
    while j < pair.values.len()
        invariant
            j <= pair.values@.len(),
            pair@.values.len() == pair.values@.len(),
            key@ == encode_utf8(pair@.key),
            out@ + lines(pair@.key, pair@.values.skip(j as int)) == old(out)@ + lines(
                pair@.key,
                pair@.values,
            ),
        decreases pair.values@.len() - j,
    {
        let ghost before = out@;
        let ghost rest = pair@.values.skip(j as int);
        assert(rest.skip(1) =~= pair@.values.skip(j + 1));
        assert(rest[0] == contents(pair.values@[j as int]));
        append(out, key);
        out.push(SPACE);
        push_indented(out, bytes_as_slice(&pair.values[j]));
        out.push(LINE_BREAK);
        assert(out@ + lines(pair@.key, rest.skip(1)) =~= before + (line(pair@.key, rest[0])
            + lines(pair@.key, rest.skip(1))));
        j += 1;
    }
    assert(pair@.values.skip(pair@.values.len() as int) =~= Seq::<Seq<u8>>::empty());
    assert(out@ + Seq::<u8>::empty() =~= out@);
}

impl KeyValuePairList {
    /// Reads a message from its bytes on the wire. Bytes that `parse` cannot
    /// read, or in which a key is not valid UTF-8, are refused. A message that
    /// was read is well formed: writing it gives bytes that read as the same
    /// message.
    pub fn from(input: Bytes) -> (result: Result<Self, GitError>)
        ensures
            match parse(contents(input)) {
                Some(message) => result matches Ok(list) && list@ == message
                    && list@.well_formed(),
                None => result == Err::<Self, GitError>(GitError::Format),
            },
    {
        proof {
            if parse(contents(input)) is Some {
                lemma_parse_is_well_formed(contents(input));
            }
        }
        let s = bytes_as_slice(&input);
        let mut list = KeyValuePairList::new();
        let mut index: StringHashMap<usize> = StringHashMap::new();
        let mut pos: usize = 0;
        let ghost mut done: Seq<RawPair> = Seq::empty();
        while pos < s.len()
            invariant
                pos <= s@.len(),
                list@.headers.len() == list.data@.len(),
                is_index_of(index@, list@.headers),
                s@ == contents(input),
                parse(s@) is Some ==> parse(s@)->0.well_formed(),
                keys_are_text(done),
                list@ == collect(done, None),
                match parse_at(s@, pos as int) {
                    Some(rest) => parse_at(s@, 0) == Some(
                        RawMessage { pairs: done + rest.pairs, body: rest.body },
                    ),
                    None => parse_at(s@, 0) is None,
                },
            decreases s@.len() - pos,
        {
            let sp = scan_byte(s, pos, SPACE);
            let nl = scan_byte(s, pos, LINE_BREAK);
            if nl < sp {
                if nl == pos {
                    let body = bytes_slice(&input, pos + 1, s.len());
                    list.insert_contents(body);
                    proof {
                        assert(done + Seq::<RawPair>::empty() =~= done);
                        lemma_collect_body(done, s@.skip(pos + 1));
                    }
                    return Ok(list);
                }
                return Err(GitError::Format);
            }
            if sp >= s.len() {
                return Err(GitError::Format);
            }
            let end = scan_value_end(s, sp + 1);
            if end >= s.len() {
                return Err(GitError::Format);
            }
            let ghost pair = RawPair {
                key: s@.subrange(pos as int, sp as int),
                value: unindent(s@.subrange(sp + 1, end as int)),
            };
            proof {
                match parse_at(s@, end + 1) {
                    Some(rest) => {
                        assert(done + (seq![pair] + rest.pairs) =~= done.push(pair) + rest.pairs);
                        assert((done + (seq![pair] + rest.pairs))[done.len() as int] == pair);
                    },
                    None => {},
                }
            }
            let key = match utf8_to_string(vstd::slice::slice_subrange(s, pos, sp)) {
                Some(key) => key,
                None => {
                    proof {
                        if parse_at(s@, 0) is Some {
                            let raw = parse_at(s@, 0)->0;
                            assert(raw.pairs[done.len() as int] == pair);
                            assert(!valid_utf8(raw.pairs[done.len() as int].key));
                        }
                    }
                    return Err(GitError::Format);
                },
            };
            let value = bytes_from_vec(copy_unindented(s, sp + 1, end));
            let count = list.data.len();
            proof {
                lemma_index_after_pair(index@, list@, key@, contents(value));
                lemma_first_at(keys_of(list@.headers), key@, 0);
            }
            let at = match index.get(key.as_str()) {
                Some(at) => *at,
                None => {
                    index.insert(key.clone(), count);
                    count
                },
            };
            list.push_value(at, key, value);
            proof {
                assert(done.push(pair).drop_last() =~= done);
                done = done.push(pair);
            }
            pos = end + 1;
        }
        proof {
            assert(done + Seq::<RawPair>::empty() =~= done);
        }
        Ok(list)
    }

    /// Writes the message as bytes on the wire.
    pub fn into_bytes(&self) -> (wire: Bytes)
        ensures
            contents(wire) == self@.serialize(),
    {
        let mut out: Vec<u8> = Vec::new();
        let mut i: usize = 0;
        assert(self@.headers.skip(0) =~= self@.headers);
        while i < self.data.len()
            invariant
                i <= self.data@.len(),
                self@.headers.len() == self.data@.len(),
                out@ + header_block(self@.headers.skip(i as int)) == header_block(self@.headers),
            decreases self.data@.len() - i,
        {
            let ghost before = out@;
            let ghost rest = self@.headers.skip(i as int);
            assert(rest.skip(1) =~= self@.headers.skip(i + 1));
            assert(rest[0] == self.data@[i as int]@);
            push_lines(&mut out, &self.data[i]);
            assert(out@ + header_block(rest.skip(1)) =~= before + (lines(
                rest[0].key,
                rest[0].values,
            ) + header_block(rest.skip(1))));
            i += 1;
        }
        assert(self@.headers.skip(self@.headers.len() as int) =~= Seq::<Header>::empty());
        assert(out@ + Seq::<u8>::empty() =~= out@);
        match &self.contents {
            Some(body) => {
                let ghost block = out@;
                out.push(LINE_BREAK);
                append(&mut out, bytes_as_slice(body));
                assert(out@ =~= block + (seq![LINE_BREAK] + contents(*body)));
            },
            None => {
                assert(out@ + Seq::<u8>::empty() =~= out@);
            },
        }
        bytes_from_vec(out)
    }

    /// Writes the message as text. A message whose bytes on the wire are not
    /// valid UTF-8 has no text.
    pub fn into_string(&self) -> (result: Result<String, GitError>)
        ensures
            match result {
                Ok(text) => valid_utf8(self@.serialize()) && text@ == decode_utf8(
                    self@.serialize(),
                ),
                Err(e) => !valid_utf8(self@.serialize()) && e == GitError::Format,
            },
    {
        let wire = self.into_bytes();
        match utf8_to_string(bytes_as_slice(&wire)) {
            Some(text) => Ok(text),
            None => Err(GitError::Format),
        }
    }
}

/// A second handle to each of `handles`.
fn clone_handles(handles: &Vec<Bytes>) -> (copy: Vec<Bytes>)
    ensures
        values_of(copy@) == values_of(handles@),
{
    let mut copy: Vec<Bytes> = Vec::new();
    let mut i: usize = 0;
    while i < handles.len()
        invariant
            i <= handles@.len(),
            copy@.len() == i,
            forall|j: int| 0 <= j < i ==> contents(copy@[j]) == contents(handles@[j]),
        decreases handles@.len() - i,
    {
        copy.push(handles[i].clone());
        i += 1;
    }
    assert(values_of(copy@) =~= values_of(handles@));
    copy
}

/// Whether `header` has the key `key` and one value, which is valid UTF-8.
pub open spec fn is_field(header: Header, key: Seq<char>) -> bool {
    header.key == key && header.values.len() == 1 && valid_utf8(header.values[0])
}

/// The bytes of a text as a value of a message.
pub fn text_value(text: &String) -> (value: Bytes)
    ensures
        contents(value) == encode_utf8(text@),
{
    bytes_from_vec(vstd::slice::slice_to_vec(text.as_str().as_bytes()))
}

/// The text of the one value of the pair at `at`, where there is such a pair
/// and it has the key `key` and one value, which is valid UTF-8.
pub fn field_text(list: &KeyValuePairList, at: usize, key: &str) -> (text: Option<String>)
    ensures
        match text {
            Some(t) => at < list@.headers.len() && is_field(list@.headers[at as int], key@) && t@
                == decode_utf8(list@.headers[at as int].values[0]),
            None => at >= list@.headers.len() || !is_field(list@.headers[at as int], key@),
        },
{
    if at >= list.data.len() {
        return None;
    }
    let pair = &list.data[at];
    assert(list@.headers[at as int] == pair@);
    let wanted = key.to_owned();
    if pair.key == wanted && pair.values.len() == 1 {
        utf8_to_string(bytes_as_slice(&pair.values[0]))
    } else {
        None
    }
}

} // verus!
