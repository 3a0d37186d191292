//! Laws of the object store: an object that was written reads back, and the
//! bytes of a tree do not depend on the order in which its leaves were added.

use crate::error::GitError;
use crate::git_object::{Leaf, ObjectModel, TagModel};
use crate::key_value_list_message::{is_field, keys_of, Header, Message};
use crate::lookup::{lemma_first_at, lemma_first_at_is, lemma_first_at_push};
use crate::message_laws::{key_is_plain, lemma_parse_serialize};
use crate::object_utils::{
    hashes_of, kind_name, objects_with, payload_of, read_payload, read_stored, sha1_hex,
    stored_bytes, stored_form, stored_object, Stored,
};
use crate::text::{decimal, lemma_decimal, lemma_find_byte_is, NUL, SPACE};
use crate::tree_format::{
    canonical_order, frame, frame_at, leaf_at, leaf_order, leaf_record, leaf_records, leaves_at,
    lemma_canonical_order, lemma_leaf_order_total, text_at, tree_payload,
};
use vstd::prelude::*;
use vstd::seq_lib::lemma_sorted_unique;
use vstd::utf8::{
    encode_utf8, encode_utf8_decode_utf8, encode_utf8_valid_utf8, is_ascii_chars_encode_utf8,
};

verus! {

/// The bytes of the names of the four kinds.
proof fn lemma_kind_names()
    ensures
        encode_utf8("blob"@) == seq![98u8, 108u8, 111u8, 98u8],
        encode_utf8("commit"@) == seq![99u8, 111u8, 109u8, 109u8, 105u8, 116u8],
        encode_utf8("tree"@) == seq![116u8, 114u8, 101u8, 101u8],
        encode_utf8("tag"@) == seq![116u8, 97u8, 103u8],
{
    reveal_strlit("blob");
    reveal_strlit("commit");
    reveal_strlit("tree");
    reveal_strlit("tag");
    is_ascii_chars_encode_utf8("blob"@);
    is_ascii_chars_encode_utf8("commit"@);
    is_ascii_chars_encode_utf8("tree"@);
    is_ascii_chars_encode_utf8("tag"@);
    assert(encode_utf8("blob"@) =~= seq![98u8, 108u8, 111u8, 98u8]);
    assert(encode_utf8("commit"@) =~= seq![99u8, 111u8, 109u8, 109u8, 105u8, 116u8]);
    assert(encode_utf8("tree"@) =~= seq![116u8, 114u8, 101u8, 101u8]);
    assert(encode_utf8("tag"@) =~= seq![116u8, 97u8, 103u8]);
}

/// A framed field that stands at `pos` is read as the field.
proof fn lemma_frame_at(s: Seq<u8>, pos: int, field: Seq<u8>)
    requires
        0 <= pos,
        pos + frame(field).len() <= s.len(),
        s.subrange(pos, pos + frame(field).len()) == frame(field),
        field.len() <= usize::MAX,
    ensures
        frame_at(s, pos) == Some((field, pos + frame(field).len())),
{
    let digits = decimal(field.len());
    let f = frame(field);
    let part = s.subrange(pos, pos + f.len());
    lemma_decimal(field.len());
    assert forall|i: int| 0 <= i < f.len() implies s[pos + i] == f[i] by {
        assert(part[i] == s[pos + i]);
    }
    let nul = pos + digits.len();
    assert forall|i: int| pos <= i < nul implies s[i] != NUL by {
        assert(s[i] == f[i - pos]);
        assert(f[i - pos] == digits[i - pos]);
    }
    assert(s[nul] == NUL) by {
        assert(s[nul] == f[nul - pos]);
    }
    lemma_find_byte_is(s, pos, NUL, nul);
    assert(s.subrange(pos, nul) =~= digits) by {
        assert forall|i: int| 0 <= i < digits.len() implies s[pos + i] == digits[i] by {
            assert(s[pos + i] == f[i]);
        }
    }
    assert(s.subrange(nul + 1, nul + 1 + field.len()) =~= field) by {
        assert forall|i: int| 0 <= i < field.len() implies s[nul + 1 + i] == field[i] by {
            assert(s[pos + (digits.len() + 1 + i)] == f[digits.len() + 1 + i]);
        }
    }
}

/// A framed text that stands at `pos` is read as the text.
proof fn lemma_text_at(s: Seq<u8>, pos: int, text: Seq<char>)
    requires
        0 <= pos,
        pos + frame(encode_utf8(text)).len() <= s.len(),
        s.subrange(pos, pos + frame(encode_utf8(text)).len()) == frame(encode_utf8(text)),
        encode_utf8(text).len() <= usize::MAX,
    ensures
        text_at(s, pos) == Some((text, pos + frame(encode_utf8(text)).len())),
{
    lemma_frame_at(s, pos, encode_utf8(text));
    encode_utf8_valid_utf8(text);
    encode_utf8_decode_utf8(text);
}

/// Whether the fields of a leaf are short enough for their lengths to be
/// written down on this machine.
pub open spec fn leaf_fits(leaf: Leaf) -> bool {
    &&& encode_utf8(leaf.mode).len() <= usize::MAX
    &&& encode_utf8(leaf.path).len() <= usize::MAX
    &&& encode_utf8(leaf.sha).len() <= usize::MAX
    &&& encode_utf8(leaf.sort_key).len() <= usize::MAX
}

/// The record of a leaf that stands at `pos` is read as the leaf.
proof fn lemma_leaf_at(s: Seq<u8>, pos: int, leaf: Leaf)
    requires
        0 <= pos,
        pos + leaf_record(leaf).len() <= s.len(),
        s.subrange(pos, pos + leaf_record(leaf).len()) == leaf_record(leaf),
        leaf_fits(leaf),
    ensures
        leaf_at(s, pos) == Some((leaf, pos + leaf_record(leaf).len())),
        leaf_record(leaf).len() > 0,
{
    let r = leaf_record(leaf);
    let part = s.subrange(pos, pos + r.len());
    let f1 = frame(encode_utf8(leaf.mode));
    let f2 = frame(encode_utf8(leaf.path));
    let f3 = frame(encode_utf8(leaf.sha));
    let f4 = frame(encode_utf8(leaf.sort_key));
    assert forall|i: int| 0 <= i < r.len() implies s[pos + i] == r[i] by {
        assert(part[i] == s[pos + i]);
    }
    let at_path = pos + f1.len();
    let at_sha = at_path + f2.len();
    let at_key = at_sha + f3.len();
    assert(s.subrange(pos, at_path) =~= f1) by {
        assert forall|i: int| 0 <= i < f1.len() implies s[pos + i] == f1[i] by {
            assert(s[pos + i] == r[i]);
        }
    }
    assert(s.subrange(at_path, at_sha) =~= f2) by {
        assert forall|i: int| 0 <= i < f2.len() implies s[at_path + i] == f2[i] by {
            assert(s[pos + (f1.len() + i)] == r[f1.len() + i]);
        }
    }
    assert(s.subrange(at_sha, at_key) =~= f3) by {
        assert forall|i: int| 0 <= i < f3.len() implies s[at_sha + i] == f3[i] by {
            assert(s[pos + (f1.len() + f2.len() + i)] == r[f1.len() + f2.len() + i]);
        }
    }
    assert(s.subrange(at_key, at_key + f4.len()) =~= f4) by {
        assert forall|i: int| 0 <= i < f4.len() implies s[at_key + i] == f4[i] by {
            assert(s[pos + (f1.len() + f2.len() + f3.len() + i)] == r[f1.len() + f2.len()
                + f3.len() + i]);
        }
    }
    lemma_text_at(s, pos, leaf.mode);
    lemma_text_at(s, at_path, leaf.path);
    lemma_text_at(s, at_sha, leaf.sha);
    lemma_text_at(s, at_key, leaf.sort_key);
}

/// Records that fill `s` from `pos` on are read as their leaves.
proof fn lemma_leaves_at(s: Seq<u8>, pos: int, leaves: Seq<Leaf>)
    requires
        0 <= pos <= s.len(),
        s.skip(pos) == leaf_records(leaves),
        forall|i: int| 0 <= i < leaves.len() ==> leaf_fits(#[trigger] leaves[i]),
    ensures
        leaves_at(s, pos) == Some(leaves),
    decreases leaves.len(),
{
    if leaves.len() == 0 {
        assert(s.skip(pos).len() == 0);
        assert(leaves =~= Seq::<Leaf>::empty());
    } else {
        let first = leaf_record(leaves[0]);
        let more = leaf_records(leaves.skip(1));
        let all = s.skip(pos);
        assert(all == first + more);
        assert(s.subrange(pos, pos + first.len()) =~= first) by {
            assert forall|i: int| 0 <= i < first.len() implies s[pos + i] == first[i] by {
                assert(all[i] == s[pos + i]);
            }
        }
        lemma_leaf_at(s, pos, leaves[0]);
        assert(s.skip(pos + first.len()) =~= more) by {
            assert forall|i: int| 0 <= i < more.len() implies s[pos + first.len() + i]
                == more[i] by {
                assert(all[first.len() + i] == s[pos + (first.len() + i)]);
            }
        }
        assert forall|i: int| 0 <= i < leaves.skip(1).len() implies leaf_fits(
            #[trigger] leaves.skip(1)[i],
        ) by {
            assert(leaves.skip(1)[i] == leaves[i + 1]);
        }
        lemma_leaves_at(s, pos + first.len(), leaves.skip(1));
        assert(seq![leaves[0]] + leaves.skip(1) =~= leaves);
    }
}

/// Reading the payload of a tree gives its leaves in canonical order.
pub proof fn lemma_read_tree(leaves: Seq<Leaf>)
    requires
        forall|i: int| 0 <= i < leaves.len() ==> leaf_fits(#[trigger] leaves[i]),
    ensures
        leaves_at(tree_payload(leaves), 0) == Some(canonical_order(leaves)),
{
    broadcast use vstd::seq_lib::group_to_multiset_ensures;

    let sorted = canonical_order(leaves);
    lemma_canonical_order(leaves);
    assert forall|i: int| 0 <= i < sorted.len() implies leaf_fits(#[trigger] sorted[i]) by {
        assert(sorted.to_multiset().contains(sorted[i]));
        assert(leaves.to_multiset().contains(sorted[i]));
        let k = choose|k: int| 0 <= k < leaves.len() && leaves[k] == sorted[i];
        assert(leaf_fits(leaves[k]));
    }
    assert(tree_payload(leaves).skip(0) =~= leaf_records(sorted));
    lemma_leaves_at(tree_payload(leaves), 0, sorted);
}

/// Trees with the same leaves have the same payload, the same stored form and
/// the same hash, in whatever order the leaves were added.
pub proof fn lemma_tree_order_is_immaterial(a: Seq<Leaf>, b: Seq<Leaf>)
    requires
        a.to_multiset() == b.to_multiset(),
    ensures
        canonical_order(a) == canonical_order(b),
        tree_payload(a) == tree_payload(b),
        stored_form(ObjectModel::Tree(a)) == stored_form(ObjectModel::Tree(b)),
        sha1_hex(stored_form(ObjectModel::Tree(a))) == sha1_hex(
            stored_form(ObjectModel::Tree(b)),
        ),
{
    lemma_canonical_order(a);
    lemma_canonical_order(b);
    lemma_leaf_order_total();
    lemma_sorted_unique(canonical_order(a), canonical_order(b), leaf_order());
}

/// The keys of a tag's message are plain, not empty and differ from each other.
proof fn lemma_tag_keys()
    ensures
        key_is_plain("object"@),
        key_is_plain("tag"@),
        key_is_plain("tagger"@),
        "object"@.len() > 0,
        "tag"@.len() > 0,
        "tagger"@.len() > 0,
        "object"@ != "tag"@,
        "object"@ != "tagger"@,
        "tag"@ != "tagger"@,
{
    reveal_strlit("object");
    reveal_strlit("tag");
    reveal_strlit("tagger");
    is_ascii_chars_encode_utf8("object"@);
    is_ascii_chars_encode_utf8("tag"@);
    is_ascii_chars_encode_utf8("tagger"@);
    assert("object"@[0] != "tagger"@[0]);
}

/// The message of a tag, header by header.
proof fn lemma_tag_message(t: TagModel)
    ensures
        t.message().body is None,
        t.message().well_formed(),
        t.message().headers == match t {
            TagModel::Lightweight { tag, object } => seq![
                Header { key: "object"@, values: seq![encode_utf8(object)] },
                Header { key: "tag"@, values: seq![encode_utf8(tag)] },
            ],
            TagModel::Object { tag, object, tagger } => seq![
                Header { key: "object"@, values: seq![encode_utf8(object)] },
                Header { key: "tag"@, values: seq![encode_utf8(tag)] },
                Header { key: "tagger"@, values: seq![encode_utf8(tagger)] },
            ],
        },
{
    lemma_tag_keys();
    let h0 = Header { key: "object"@, values: seq![encode_utf8(t.object())] };
    let h1 = Header { key: "tag"@, values: seq![encode_utf8(t.tag())] };
    let m0 = Message::empty();
    let m1 = m0.with_pair("object"@, encode_utf8(t.object()));
    assert(m1.headers =~= seq![h0]);
    let m2 = m1.with_pair("tag"@, encode_utf8(t.tag()));
    assert(keys_of(m1.headers) =~= seq!["object"@]);
    lemma_first_at_is(keys_of(m1.headers), "tag"@, 0, 1);
    assert(m2.headers =~= seq![h0, h1]);
    match t {
        TagModel::Lightweight { .. } => {
            assert(t.message() == m2);
        },
        TagModel::Object { tagger, .. } => {
            let h2 = Header { key: "tagger"@, values: seq![encode_utf8(tagger)] };
            let m3 = m2.with_pair("tagger"@, encode_utf8(tagger));
            assert(keys_of(m2.headers) =~= seq!["object"@, "tag"@]);
            lemma_first_at_is(keys_of(m2.headers), "tagger"@, 0, 2);
            assert(m3.headers =~= seq![h0, h1, h2]);
            assert(t.message() == m3);
        },
    }
}

/// Reading the payload of a tag gives the tag back.
pub proof fn lemma_read_tag(t: TagModel)
    ensures
        TagModel::of_payload(t.message().serialize()) == Some(t),
{
    lemma_tag_message(t);
    lemma_parse_serialize(t.message());
    let m = t.message();
    encode_utf8_valid_utf8(t.object());
    encode_utf8_valid_utf8(t.tag());
    encode_utf8_decode_utf8(t.object());
    encode_utf8_decode_utf8(t.tag());
    assert(is_field(m.headers[0], "object"@));
    assert(is_field(m.headers[1], "tag"@));
    match t {
        TagModel::Lightweight { .. } => {},
        TagModel::Object { tagger, .. } => {
            encode_utf8_valid_utf8(tagger);
            encode_utf8_decode_utf8(tagger);
            assert(is_field(m.headers[2], "tagger"@));
        },
    }
}

/// An object as it reads back: a tree has its leaves in canonical order, and
/// every other object is as it was.
pub open spec fn canonical(object: ObjectModel) -> ObjectModel {
    match object {
        ObjectModel::Tree(leaves) => ObjectModel::Tree(canonical_order(leaves)),
        _ => object,
    }
}

/// Whether an object reads back from its stored form: its payload and the
/// fields of its leaves are short enough for their lengths to be written down
/// on this machine, and a commit's message is well formed.
pub open spec fn storable(object: ObjectModel) -> bool {
    &&& payload_of(object).len() <= usize::MAX
    &&& match object {
        ObjectModel::Commit(message) => message.well_formed(),
        ObjectModel::Tree(leaves) => forall|i: int|
            0 <= i < leaves.len() ==> leaf_fits(#[trigger] leaves[i]),
        _ => true,
    }
}

/// Reading the payload of an object under the name of its kind gives the
/// object back.
proof fn lemma_read_payload(object: ObjectModel)
    requires
        storable(object),
    ensures
        read_payload(encode_utf8(kind_name(object)), payload_of(object)) == Ok::<
            ObjectModel,
            GitError,
        >(canonical(object)),
{
    lemma_kind_names();
    let blob = encode_utf8("blob"@);
    let commit = encode_utf8("commit"@);
    let tree = encode_utf8("tree"@);
    let tag = encode_utf8("tag"@);
    assert(blob[0] != commit[0] && blob[0] != tree[0] && blob[0] != tag[0]);
    assert(commit[0] != tree[0] && commit[0] != tag[0]);
    assert(tree.len() != tag.len());
    match object {
        ObjectModel::Commit(message) => {
            lemma_parse_serialize(message);
        },
        ObjectModel::Tree(leaves) => {
            lemma_read_tree(leaves);
        },
        ObjectModel::Tag(t) => {
            lemma_read_tag(t);
        },
        ObjectModel::Blob(_) => {},
    }
}

/// Reading the stored form of an object gives the object back: a blob, a
/// commit and a tag as they were, and a tree with its leaves in canonical
/// order.
pub proof fn lemma_read_write(object: ObjectModel)
    requires
        storable(object),
    ensures
        read_stored(stored_form(object)) == Ok::<ObjectModel, GitError>(canonical(object)),
{
    lemma_kind_names();
    let kind = encode_utf8(kind_name(object));
    let payload = payload_of(object);
    let digits = decimal(payload.len());
    let s = stored_form(object);
    lemma_decimal(payload.len());
    let sp = kind.len() as int;
    assert forall|i: int| 0 <= i < sp implies s[i] != SPACE by {
        assert(s[i] == kind[i]);
    }
    assert(s[sp] == SPACE);
    lemma_find_byte_is(s, 0, SPACE, sp);
    let nul = sp + 1 + digits.len();
    assert forall|i: int| sp + 1 <= i < nul implies s[i] != NUL by {
        assert(s[i] == digits[i - sp - 1]);
    }
    assert(s[nul] == NUL);
    lemma_find_byte_is(s, sp + 1, NUL, nul);
    assert(s.subrange(sp + 1, nul) =~= digits);
    assert(s.subrange(0, sp) =~= kind);
    assert(s.skip(nul + 1) =~= payload);
    lemma_read_payload(object);
}

/// An object that was written to a store reads back from it under its hash,
/// as long as nothing else was stored under that hash before.
pub proof fn lemma_store_read_write(objects: Seq<Stored>, object: ObjectModel)
    requires
        storable(object),
        stored_bytes(objects, sha1_hex(stored_form(object))) is None || stored_bytes(
            objects,
            sha1_hex(stored_form(object)),
        ) == Some(stored_form(object)),
    ensures
        stored_object(
            objects_with(objects, sha1_hex(stored_form(object)), stored_form(object)),
            sha1_hex(stored_form(object)),
        ) == Ok::<ObjectModel, GitError>(canonical(object)),
{
    let sha = sha1_hex(stored_form(object));
    let form = stored_form(object);
    lemma_read_write(object);
    if stored_bytes(objects, sha) is None {
        let after = objects.push(Stored { sha: sha, data: form });
        lemma_first_at(hashes_of(objects), sha, 0);
        assert(hashes_of(after) =~= hashes_of(objects).push(sha));
        lemma_first_at_is(hashes_of(after), sha, 0, objects.len() as int);
    }
}

/// Writing under a hash changes nothing that was stored: what was stored
/// under any hash stays, and the written bytes are found under the hash only
/// where nothing was stored under it.
pub proof fn lemma_stored_bytes_after_write(
    objects: Seq<Stored>,
    sha: Seq<char>,
    data: Seq<u8>,
    other: Seq<char>,
)
    ensures
        stored_bytes(objects_with(objects, sha, data), other) == if stored_bytes(objects, other)
            is Some {
            stored_bytes(objects, other)
        } else if other == sha {
            Some(data)
        } else {
            None
        },
{
    let hashes = hashes_of(objects);
    lemma_first_at(hashes, sha, 0);
    lemma_first_at(hashes, other, 0);
    if stored_bytes(objects, sha) is None {
        let after = objects.push(Stored { sha: sha, data: data });
        assert(hashes_of(after) =~= hashes.push(sha));
        lemma_first_at_push(hashes, sha, other);
    }
}

/// Writing the same hash twice is writing it once.
pub proof fn lemma_write_is_idempotent(
    objects: Seq<Stored>,
    sha: Seq<char>,
    first: Seq<u8>,
    second: Seq<u8>,
)
    ensures
        objects_with(objects_with(objects, sha, first), sha, second) == objects_with(
            objects,
            sha,
            first,
        ),
{
    lemma_stored_bytes_after_write(objects, sha, first, sha);
}

} // verus!
