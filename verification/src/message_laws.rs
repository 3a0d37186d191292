//! Laws of the key-value message format: reading what was written gives the
//! message back.

use crate::key_value_list_message::{
    collect, header_block, indent, keys_are_text, line, lines, parse, parse_at, unindent,
    value_end, Header, Message, RawMessage, RawPair,
};
use crate::key_value_list_message::{key_index, keys_of};
use crate::lookup::{lemma_first_at, lemma_first_at_is};
use crate::text::{find_byte, lemma_find_byte, lemma_find_byte_is, LINE_BREAK, SPACE};
use vstd::prelude::*;
use vstd::utf8::{
    decode_utf8, decode_utf8_encode_utf8, encode_utf8, encode_utf8_decode_utf8,
    encode_utf8_valid_utf8, valid_utf8,
};

verus! {

/// Whether a key can stand at the start of a line: its bytes hold neither a
/// space nor a line break.
pub open spec fn key_is_plain(key: Seq<char>) -> bool {
    forall|i: int|
        0 <= i < encode_utf8(key).len() ==> #[trigger] encode_utf8(key)[i] != SPACE && encode_utf8(
            key,
        )[i] != LINE_BREAK
}

impl Message {
    /// Whether the message is one that reads back as it was written: every key
    /// is plain and has a value, no key occurs twice, and a key is empty at most
    /// where it is the first key and has one value.
    pub open spec fn well_formed(self) -> bool {
        &&& forall|i: int|
            0 <= i < self.headers.len() ==> key_is_plain(#[trigger] self.headers[i].key)
        &&& forall|i: int|
            0 <= i < self.headers.len() ==> (#[trigger] self.headers[i]).values.len() > 0
        &&& forall|i: int|
            0 <= i < self.headers.len() ==> (#[trigger] self.headers[i]).key.len() > 0 || (i == 0
                && self.headers[i].values.len() == 1)
        &&& forall|i: int, j: int|
            0 <= i < j < self.headers.len() ==> (#[trigger] self.headers[i]).key != (
            #[trigger] self.headers[j]).key
    }
}

/// The pairs that the lines of one key stand for.
pub open spec fn pairs_of_key(key: Seq<char>, values: Seq<Seq<u8>>) -> Seq<RawPair> {
    values.map_values(|v: Seq<u8>| RawPair { key: encode_utf8(key), value: v })
}

/// The pairs that a header block stands for, line by line.
pub open spec fn pairs_of(headers: Seq<Header>) -> Seq<RawPair>
    decreases headers.len(),
{
    if headers.len() == 0 {
        Seq::empty()
    } else {
        pairs_of_key(headers[0].key, headers[0].values) + pairs_of(headers.skip(1))
    }
}

/// What was cut from a later position, with `pairs` put before its pairs.
pub open spec fn prepend(pairs: Seq<RawPair>, rest: Option<RawMessage>) -> Option<RawMessage> {
    match rest {
        Some(r) => Some(RawMessage { pairs: pairs + r.pairs, body: r.body }),
        None => None,
    }
}

/// Dropping the spaces that `indent` added gives the value back.
pub proof fn lemma_unindent_indent(v: Seq<u8>)
    ensures
        unindent(indent(v)) == v,
    decreases v.len(),
{
    if v.len() > 0 {
        lemma_unindent_indent(v.skip(1));
        let rest = indent(v.skip(1));
        if v[0] == LINE_BREAK {
            let w = seq![LINE_BREAK, SPACE] + rest;
            assert(w.skip(2) =~= rest);
            assert(seq![LINE_BREAK] + v.skip(1) =~= v);
        } else {
            let w = seq![v[0]] + rest;
            assert(w.skip(1) =~= rest);
            assert(seq![v[0]] + v.skip(1) =~= v);
        }
    }
}

proof fn lemma_value_end_step(s: Seq<u8>, f: int)
    requires
        0 <= f < s.len(),
        s[f] != LINE_BREAK || (f + 1 < s.len() && s[f + 1] == SPACE),
    ensures
        value_end(s, f) == value_end(s, f + 1),
{
    lemma_find_byte(s, f, LINE_BREAK);
    lemma_find_byte(s, f + 1, LINE_BREAK);
}

proof fn lemma_value_end_indent(s: Seq<u8>, from: int, v: Seq<u8>)
    requires
        0 <= from,
        from + indent(v).len() < s.len(),
        s.subrange(from, from + indent(v).len()) == indent(v),
        s[from + indent(v).len()] == LINE_BREAK,
        from + indent(v).len() + 1 < s.len() ==> s[from + indent(v).len() + 1] != SPACE,
    ensures
        value_end(s, from) == from + indent(v).len(),
    decreases v.len(),
{
    let n = indent(v).len() as int;
    let part = s.subrange(from, from + n);
    if v.len() == 0 {
        lemma_find_byte_is(s, from, LINE_BREAK, from);
    } else {
        let rest = indent(v.skip(1));
        assert(part[0] == s[from]);
        if v[0] == LINE_BREAK {
            assert(part[1] == s[from + 1]);
            lemma_value_end_step(s, from);
            lemma_value_end_step(s, from + 1);
            assert(s.subrange(from + 2, from + 2 + rest.len()) =~= part.skip(2));
            assert(part.skip(2) =~= rest);
            lemma_value_end_indent(s, from + 2, v.skip(1));
        } else {
            lemma_value_end_step(s, from);
            assert(s.subrange(from + 1, from + 1 + rest.len()) =~= part.skip(1));
            assert(part.skip(1) =~= rest);
            lemma_value_end_indent(s, from + 1, v.skip(1));
        }
    }
}

proof fn lemma_encode_nonempty(key: Seq<char>)
    requires
        key.len() > 0,
    ensures
        encode_utf8(key).len() > 0,
{
}

/// A line that stands at `pos` is cut into its key and its value, and cutting
/// goes on behind it.
proof fn lemma_parse_line(s: Seq<u8>, pos: int, key: Seq<char>, v: Seq<u8>)
    requires
        0 <= pos,
        pos + line(key, v).len() <= s.len(),
        s.subrange(pos, pos + line(key, v).len()) == line(key, v),
        key_is_plain(key),
        pos + line(key, v).len() < s.len() ==> s[pos + line(key, v).len()] != SPACE,
    ensures
        parse_at(s, pos) == prepend(
            seq![RawPair { key: encode_utf8(key), value: v }],
            parse_at(s, pos + line(key, v).len()),
        ),
{
    let kb = encode_utf8(key);
    let l = line(key, v);
    let part = s.subrange(pos, pos + l.len());
    let sp = pos + kb.len();
    let n = indent(v).len() as int;
    assert forall|i: int| 0 <= i < l.len() implies s[pos + i] == l[i] by {
        assert(part[i] == s[pos + i]);
    }
    assert forall|i: int| pos <= i < sp implies s[i] != SPACE && s[i] != LINE_BREAK by {
        assert(s[i] == l[i - pos]);
        assert(l[i - pos] == kb[i - pos]);
    }
    assert(s[sp] == SPACE) by {
        assert(s[sp] == l[sp - pos]);
    }
    lemma_find_byte_is(s, pos, SPACE, sp);
    lemma_find_byte(s, pos, LINE_BREAK);
    let nl = find_byte(s, pos, LINE_BREAK);
    assert(nl > sp);
    assert(s.subrange(sp + 1, sp + 1 + n) =~= indent(v)) by {
        assert forall|i: int| 0 <= i < n implies s[sp + 1 + i] == indent(v)[i] by {
            assert(s[sp + 1 + i] == l[kb.len() + 1 + i]);
        }
    }
    assert(s[sp + 1 + n] == LINE_BREAK) by {
        assert(s[sp + 1 + n] == l[kb.len() + 1 + n]);
    }
    lemma_value_end_indent(s, sp + 1, v);
    let e = sp + 1 + n;
    assert(e + 1 == pos + l.len());
    assert(s.subrange(pos, sp) =~= kb);
    assert(s.subrange(sp + 1, e) =~= indent(v));
    lemma_unindent_indent(v);
}

/// The lines of one key that stand at `pos` are cut into one pair for each
/// value, and cutting goes on behind them.
proof fn lemma_parse_lines(s: Seq<u8>, pos: int, key: Seq<char>, values: Seq<Seq<u8>>)
    requires
        0 <= pos,
        pos + lines(key, values).len() <= s.len(),
        s.subrange(pos, pos + lines(key, values).len()) == lines(key, values),
        key_is_plain(key),
        key.len() > 0 || values.len() <= 1,
        pos + lines(key, values).len() < s.len() ==> s[pos + lines(key, values).len()] != SPACE,
    ensures
        parse_at(s, pos) == prepend(
            pairs_of_key(key, values),
            parse_at(s, pos + lines(key, values).len()),
        ),
    decreases values.len(),
{
    let all = lines(key, values);
    let part = s.subrange(pos, pos + all.len());
    let behind = parse_at(s, pos + all.len());
    if values.len() == 0 {
        match behind {
            Some(r) => {
                assert(pairs_of_key(key, values) + r.pairs =~= r.pairs);
            },
            None => {},
        }
    } else {
        let first = line(key, values[0]);
        let more = lines(key, values.skip(1));
        assert forall|i: int| 0 <= i < all.len() implies s[pos + i] == all[i] by {
            assert(part[i] == s[pos + i]);
        }
        assert(s.subrange(pos, pos + first.len()) =~= first);
        assert(all == first + more);
        assert(s.subrange(pos + first.len(), pos + first.len() + more.len()) =~= more) by {
            assert forall|i: int| 0 <= i < more.len() implies s[pos + first.len() + i]
                == more[i] by {
                assert(s[pos + (first.len() + i)] == all[first.len() + i]);
            }
        }
        if pos + first.len() < s.len() {
            if values.len() > 1 {
                lemma_encode_nonempty(key);
                let next = line(key, values.skip(1)[0]);
                assert(more == next + lines(key, values.skip(1).skip(1)));
                assert(s[pos + first.len()] == all[first.len() as int]);
                assert(all[first.len() as int] == more[0]);
                assert(more[0] == encode_utf8(key)[0]);
            } else {
                assert(values.skip(1).len() == 0);
                assert(more.len() == 0);
            }
        }
        lemma_parse_line(s, pos, key, values[0]);
        lemma_parse_lines(s, pos + first.len(), key, values.skip(1));
        let head = seq![RawPair { key: encode_utf8(key), value: values[0] }];
        assert(head + pairs_of_key(key, values.skip(1)) =~= pairs_of_key(key, values));
        match behind {
            Some(r) => {
                assert(head + (pairs_of_key(key, values.skip(1)) + r.pairs) =~= pairs_of_key(
                    key,
                    values,
                ) + r.pairs);
            },
            None => {},
        }
    }
}

/// Whether the lines of `headers` can stand one after the other: every key is
/// plain and has a value, and a key is empty at most where it is the first and
/// has one value.
pub open spec fn block_is_plain(headers: Seq<Header>) -> bool {
    &&& forall|i: int| 0 <= i < headers.len() ==> key_is_plain(#[trigger] headers[i].key)
    &&& forall|i: int| 0 <= i < headers.len() ==> (#[trigger] headers[i]).values.len() > 0
    &&& forall|i: int|
        0 <= i < headers.len() ==> (#[trigger] headers[i]).key.len() > 0 || (i == 0
            && headers[i].values.len() == 1)
}

proof fn lemma_lines_start(key: Seq<char>, values: Seq<Seq<u8>>)
    requires
        values.len() > 0,
    ensures
        lines(key, values).len() > 0,
        key.len() > 0 ==> lines(key, values)[0] == encode_utf8(key)[0],
        key.len() == 0 ==> lines(key, values)[0] == SPACE,
{
    if key.len() > 0 {
        lemma_encode_nonempty(key);
    }
}

/// A header block that stands at `pos` is cut into its pairs, and cutting goes
/// on behind it.
proof fn lemma_parse_block(s: Seq<u8>, pos: int, headers: Seq<Header>)
    requires
        0 <= pos,
        pos + header_block(headers).len() <= s.len(),
        s.subrange(pos, pos + header_block(headers).len()) == header_block(headers),
        block_is_plain(headers),
        pos + header_block(headers).len() < s.len() ==> s[pos + header_block(headers).len()]
            != SPACE,
    ensures
        parse_at(s, pos) == prepend(
            pairs_of(headers),
            parse_at(s, pos + header_block(headers).len()),
        ),
    decreases headers.len(),
{
    let all = header_block(headers);
    let part = s.subrange(pos, pos + all.len());
    let behind = parse_at(s, pos + all.len());
    if headers.len() == 0 {
        match behind {
            Some(r) => {
                assert(pairs_of(headers) + r.pairs =~= r.pairs);
            },
            None => {},
        }
    } else {
        let h = headers[0];
        let first = lines(h.key, h.values);
        let tail = headers.skip(1);
        let more = header_block(tail);
        assert forall|i: int| 0 <= i < all.len() implies s[pos + i] == all[i] by {
            assert(part[i] == s[pos + i]);
        }
        assert(s.subrange(pos, pos + first.len()) =~= first);
        assert(all == first + more);
        assert(s.subrange(pos + first.len(), pos + first.len() + more.len()) =~= more) by {
            assert forall|i: int| 0 <= i < more.len() implies s[pos + first.len() + i]
                == more[i] by {
                assert(s[pos + (first.len() + i)] == all[first.len() + i]);
            }
        }
        assert(block_is_plain(tail)) by {
            assert forall|i: int| 0 <= i < tail.len() implies key_is_plain(
                #[trigger] tail[i].key,
            ) && tail[i].values.len() > 0 && tail[i].key.len() > 0 by {
                assert(tail[i] == headers[i + 1]);
            }
        }
        if pos + first.len() < s.len() {
            if tail.len() > 0 {
                assert(tail[0] == headers[1]);
                lemma_lines_start(tail[0].key, tail[0].values);
                assert(s[pos + first.len()] == all[first.len() as int]);
                assert(all[first.len() as int] == more[0]);
                assert(more[0] == lines(tail[0].key, tail[0].values)[0]);
                assert(key_is_plain(tail[0].key));
            } else {
                assert(more.len() == 0);
            }
        }
        lemma_parse_lines(s, pos, h.key, h.values);
        lemma_parse_block(s, pos + first.len(), tail);
        match behind {
            Some(r) => {
                assert(pairs_of_key(h.key, h.values) + (pairs_of(tail) + r.pairs) =~= pairs_of(
                    headers,
                ) + r.pairs);
            },
            None => {},
        }
    }
}

proof fn lemma_pairs_of_concat(a: Seq<Header>, b: Seq<Header>)
    ensures
        pairs_of(a + b) == pairs_of(a) + pairs_of(b),
    decreases a.len(),
{
    if a.len() == 0 {
        assert(a + b =~= b);
        assert(pairs_of(a) + pairs_of(b) =~= pairs_of(b));
    } else {
        lemma_pairs_of_concat(a.skip(1), b);
        assert((a + b).skip(1) =~= a.skip(1) + b);
        assert((a + b)[0] == a[0]);
        assert(pairs_of_key(a[0].key, a[0].values) + (pairs_of(a.skip(1)) + pairs_of(b))
            =~= pairs_of(a) + pairs_of(b));
    }
}

proof fn lemma_keys_are_text(headers: Seq<Header>)
    ensures
        keys_are_text(pairs_of(headers)),
    decreases headers.len(),
{
    if headers.len() > 0 {
        lemma_keys_are_text(headers.skip(1));
        let first = pairs_of_key(headers[0].key, headers[0].values);
        let more = pairs_of(headers.skip(1));
        assert forall|i: int| 0 <= i < pairs_of(headers).len() implies vstd::utf8::valid_utf8(
            #[trigger] pairs_of(headers)[i].key,
        ) by {
            if i < first.len() {
                assert(pairs_of(headers)[i] == first[i]);
                encode_utf8_valid_utf8(headers[0].key);
            } else {
                assert(pairs_of(headers)[i] == more[i - first.len()]);
            }
        }
    }
}

/// Giving the values of a new key one after the other adds one header that
/// holds them in order.
proof fn lemma_collect_key(
    before: Seq<RawPair>,
    body: Option<Seq<u8>>,
    key: Seq<char>,
    values: Seq<Seq<u8>>,
    j: int,
)
    requires
        1 <= j <= values.len(),
        key_index(collect(before, body).headers, key) == collect(before, body).headers.len(),
    ensures
        collect(before + pairs_of_key(key, values.take(j)), body) == (Message {
            headers: collect(before, body).headers.push(
                Header { key: key, values: values.take(j) },
            ),
            body: collect(before, body).body,
        }),
    decreases j,
{
    let m = collect(before, body);
    let pair = RawPair { key: encode_utf8(key), value: values[j - 1] };
    let sofar = before + pairs_of_key(key, values.take(j - 1));
    let now = before + pairs_of_key(key, values.take(j));
    assert(now =~= sofar.push(pair));
    assert(now.drop_last() =~= sofar);
    assert(now.last() == pair);
    encode_utf8_decode_utf8(key);
    if j == 1 {
        assert(sofar =~= before);
        assert(values.take(1) =~= seq![values[0]]);
    } else {
        lemma_collect_key(before, body, key, values, j - 1);
        let grown = m.headers.push(Header { key: key, values: values.take(j - 1) });
        lemma_first_at(keys_of(m.headers), key, 0);
        assert(keys_of(grown) =~= keys_of(m.headers).push(key));
        lemma_first_at_is(keys_of(grown), key, 0, m.headers.len() as int);
        assert(values.take(j - 1).push(values[j - 1]) =~= values.take(j));
        assert(grown.update(
            m.headers.len() as int,
            Header { key: key, values: values.take(j) },
        ) =~= m.headers.push(Header { key: key, values: values.take(j) }));
    }
}

/// Collecting the pairs of a header block gives its headers back.
proof fn lemma_collect_block(headers: Seq<Header>, body: Option<Seq<u8>>, i: int)
    requires
        0 <= i <= headers.len(),
        (Message { headers: headers, body: body }).well_formed(),
    ensures
        collect(pairs_of(headers.take(i)), body) == (Message {
            headers: headers.take(i),
            body: body,
        }),
    decreases i,
{
    if i == 0 {
        assert(headers.take(0) =~= Seq::<Header>::empty());
    } else {
        lemma_collect_block(headers, body, i - 1);
        let done = headers.take(i - 1);
        let h = headers[i - 1];
        assert(headers.take(i) =~= done + seq![h]);
        lemma_pairs_of_concat(done, seq![h]);
        assert(pairs_of(seq![h]) =~= pairs_of_key(h.key, h.values)) by {
            assert(seq![h].skip(1) =~= Seq::<Header>::empty());
            assert(pairs_of(seq![h].skip(1)) =~= Seq::<RawPair>::empty());
        }
        let m = Message { headers: headers, body: body };
        assert(h == m.headers[i - 1]);
        assert(h.values.len() > 0);
        assert(h.values.take(h.values.len() as int) =~= h.values);
        assert forall|k: int| 0 <= k < done.len() implies done[k].key != h.key by {
            assert(done[k] == m.headers[k]);
        }
        lemma_first_at_is(keys_of(done), h.key, 0, done.len() as int);
        lemma_collect_key(pairs_of(done), body, h.key, h.values, h.values.len() as int);
        assert(done.push(h) =~= headers.take(i));
    }
}

/// Reading the bytes that a well-formed message is written as gives the
/// message back, whatever its values hold.
pub proof fn lemma_parse_serialize(m: Message)
    requires
        m.well_formed(),
    ensures
        parse(m.serialize()) == Some(m),
{
    let s = m.serialize();
    let block = header_block(m.headers);
    let pos = block.len() as int;
    assert(s.subrange(0, pos) =~= block);
    assert(block_is_plain(m.headers));
    let behind = RawMessage { pairs: Seq::empty(), body: m.body };
    match m.body {
        Some(b) => {
            assert(s[pos] == LINE_BREAK);
            lemma_find_byte_is(s, pos, LINE_BREAK, pos);
            lemma_find_byte(s, pos, SPACE);
            assert(s.skip(pos + 1) =~= b);
        },
        None => {
            assert(s =~= block);
        },
    }
    assert(parse_at(s, pos) == Some(behind));
    lemma_parse_block(s, 0, m.headers);
    assert(pairs_of(m.headers) + behind.pairs =~= pairs_of(m.headers));
    lemma_keys_are_text(m.headers);
    lemma_collect_block(m.headers, m.body, m.headers.len() as int);
    assert(m.headers.take(m.headers.len() as int) =~= m.headers);
}

/// Where a value ends: at a line break that no space follows.
proof fn lemma_value_end(s: Seq<u8>, from: int)
    requires
        0 <= from <= s.len(),
    ensures
        from <= value_end(s, from) <= s.len(),
        value_end(s, from) < s.len() ==> s[value_end(s, from)] == LINE_BREAK,
        value_end(s, from) + 1 < s.len() ==> s[value_end(s, from) + 1] != SPACE,
    decreases s.len() - from,
{
    lemma_find_byte(s, from, LINE_BREAK);
    let e = find_byte(s, from, LINE_BREAK);
    if e < s.len() && e + 1 < s.len() && s[e + 1] == SPACE {
        lemma_value_end(s, e + 1);
    }
}

/// Whether the keys are such as lines can give: no key holds a space or a line
/// break, and every key but the first has a byte.
pub open spec fn keys_are_cut(pairs: Seq<RawPair>) -> bool {
    &&& forall|i: int, j: int|
        0 <= i < pairs.len() && 0 <= j < pairs[i].key.len() ==> (#[trigger] pairs[i].key[j])
            != SPACE && pairs[i].key[j] != LINE_BREAK
    &&& forall|i: int| 1 <= i < pairs.len() ==> (#[trigger] pairs[i]).key.len() > 0
}

/// The keys that are cut out of bytes hold neither a space nor a line break,
/// and only the key of a first line that starts with a space is empty.
proof fn lemma_parse_at_keys(s: Seq<u8>, pos: int)
    requires
        0 <= pos <= s.len(),
        parse_at(s, pos) is Some,
    ensures
        keys_are_cut(parse_at(s, pos)->0.pairs),
        pos < s.len() && s[pos] != SPACE && parse_at(s, pos)->0.pairs.len() > 0 ==> parse_at(
            s,
            pos,
        )->0.pairs[0].key.len() > 0,
    decreases s.len() - pos,
{
    let raw = parse_at(s, pos)->0;
    if pos < s.len() {
        lemma_find_byte(s, pos, SPACE);
        lemma_find_byte(s, pos, LINE_BREAK);
        let sp = find_byte(s, pos, SPACE);
        let nl = find_byte(s, pos, LINE_BREAK);
        if nl < sp {
        } else {
            lemma_value_end(s, sp + 1);
            let e = value_end(s, sp + 1);
            lemma_parse_at_keys(s, e + 1);
            let rest = parse_at(s, e + 1)->0;
            let key = s.subrange(pos, sp);
            assert forall|j: int| 0 <= j < key.len() implies key[j] != SPACE && key[j]
                != LINE_BREAK by {
                assert(key[j] == s[pos + j]);
            }
            assert forall|i: int, j: int|
                0 <= i < raw.pairs.len() && 0 <= j < raw.pairs[i].key.len() implies (
            #[trigger] raw.pairs[i].key[j]) != SPACE && raw.pairs[i].key[j] != LINE_BREAK by {
                if i > 0 {
                    assert(raw.pairs[i] == rest.pairs[i - 1]);
                }
            }
            assert forall|i: int| 1 <= i < raw.pairs.len() implies (
            #[trigger] raw.pairs[i]).key.len() > 0 by {
                assert(raw.pairs[i] == rest.pairs[i - 1]);
            }
        }
    }
}

/// The text of a key that was cut out of bytes is plain, and has a character
/// where the key has a byte.
proof fn lemma_cut_key(key: Seq<u8>)
    requires
        valid_utf8(key),
        forall|j: int| 0 <= j < key.len() ==> key[j] != SPACE && key[j] != LINE_BREAK,
    ensures
        key_is_plain(decode_utf8(key)),
        key.len() > 0 ==> decode_utf8(key).len() > 0,
{
    decode_utf8_encode_utf8(key);
}

/// Collecting keys that were cut out of bytes gives a well-formed message.
proof fn lemma_collect_is_well_formed(pairs: Seq<RawPair>, body: Option<Seq<u8>>)
    requires
        keys_are_text(pairs),
        keys_are_cut(pairs),
    ensures
        collect(pairs, body).well_formed(),
        pairs.len() == 0 ==> collect(pairs, body).headers.len() == 0,
    decreases pairs.len(),
{
    if pairs.len() > 0 {
        let front = pairs.drop_last();
        let last = pairs.last();
        assert forall|i: int| 0 <= i < front.len() implies valid_utf8(#[trigger] front[i].key) by {
            assert(front[i] == pairs[i]);
        }
        assert(keys_are_cut(front)) by {
            assert forall|i: int, j: int|
                0 <= i < front.len() && 0 <= j < front[i].key.len() implies (
            #[trigger] front[i].key[j]) != SPACE && front[i].key[j] != LINE_BREAK by {
                assert(front[i] == pairs[i]);
                assert(pairs[i].key[j] != SPACE);
            }
            assert forall|i: int| 1 <= i < front.len() implies (#[trigger] front[i]).key.len()
                > 0 by {
                assert(front[i] == pairs[i]);
            }
        }
        lemma_collect_is_well_formed(front, body);
        let m = collect(front, body);
        let key = decode_utf8(last.key);
        let after = m.with_pair(key, last.value);
        assert(valid_utf8(pairs[pairs.len() - 1].key));
        assert forall|j: int| 0 <= j < last.key.len() implies last.key[j] != SPACE && last.key[j]
            != LINE_BREAK by {
            assert(pairs[pairs.len() - 1].key[j] != SPACE);
        }
        lemma_cut_key(last.key);
        lemma_first_at(keys_of(m.headers), key, 0);
        let at = key_index(m.headers, key);
        if pairs.len() > 1 {
            assert(pairs[pairs.len() - 1].key.len() > 0);
        }
        if at < m.headers.len() {
            assert(keys_of(m.headers)[at] == m.headers[at].key);
            assert forall|i: int| 0 <= i < after.headers.len() implies key_is_plain(
                #[trigger] after.headers[i].key,
            ) && after.headers[i].values.len() > 0 && (after.headers[i].key.len() > 0 || (i == 0
                && after.headers[i].values.len() == 1)) by {
                if i != at {
                    assert(after.headers[i] == m.headers[i]);
                } else if pairs.len() == 1 {
                    assert(front.len() == 0);
                }
            }
            assert forall|i: int, j: int| 0 <= i < j < after.headers.len() implies (
            #[trigger] after.headers[i]).key != (#[trigger] after.headers[j]).key by {
                assert(after.headers[i].key == m.headers[i].key);
                assert(after.headers[j].key == m.headers[j].key);
            }
        } else {
            assert forall|i: int| 0 <= i < after.headers.len() implies key_is_plain(
                #[trigger] after.headers[i].key,
            ) && after.headers[i].values.len() > 0 && (after.headers[i].key.len() > 0 || (i == 0
                && after.headers[i].values.len() == 1)) by {
                if i < m.headers.len() {
                    assert(after.headers[i] == m.headers[i]);
                }
            }
            assert forall|i: int, j: int| 0 <= i < j < after.headers.len() implies (
            #[trigger] after.headers[i]).key != (#[trigger] after.headers[j]).key by {
                assert(after.headers[i] == m.headers[i]);
                assert(keys_of(m.headers)[i] == m.headers[i].key);
                if j < m.headers.len() {
                    assert(after.headers[j] == m.headers[j]);
                }
            }
        }
    }
}

/// A message that was read from bytes is well formed, so that writing it and
/// reading it again gives the same message.
pub proof fn lemma_parse_is_well_formed(s: Seq<u8>)
    requires
        parse(s) is Some,
    ensures
        parse(s)->0.well_formed(),
        parse(parse(s)->0.serialize()) == parse(s),
{
    let raw = parse_at(s, 0)->0;
    lemma_parse_at_keys(s, 0);
    lemma_collect_is_well_formed(raw.pairs, raw.body);
    lemma_parse_serialize(parse(s)->0);
}

} // verus!
