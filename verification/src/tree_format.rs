//! The payload of a tree: the records of its leaves in canonical order.
//!
//! A leaf record is the leaf's mode, path, hash and sort key, each written as
//! its decimal length, a NUL byte and its bytes. Leaves are ordered by the
//! bytes of their paths, and leaves of one path by the bytes of their records,
//! so that trees with the same leaves have the same payload.

use crate::git_object::{GitLeaf, GitTree, Leaf};
use crate::key_value_list_message::append;
use crate::text::{
    bytes_equal, decimal, find_byte, lex_le, lex_le_bytes, parse_decimal, push_decimal,
    read_decimal, scan_byte, utf8_to_string, NUL,
};
use vstd::prelude::*;
use vstd::relations::{sorted_by, total_ordering};
use vstd::seq_lib::lemma_sorted_unique;
use vstd::utf8::{decode_utf8, encode_utf8, valid_utf8};

verus! {

/// A field with its length before it: the decimal length, a NUL byte and the
/// bytes.
pub open spec fn frame(field: Seq<u8>) -> Seq<u8> {
    decimal(field.len()) + seq![NUL] + field
}

/// The record of a leaf: its mode, path, hash and sort key, each framed.
pub open spec fn leaf_record(leaf: Leaf) -> Seq<u8> {
    frame(encode_utf8(leaf.mode)) + frame(encode_utf8(leaf.path)) + frame(encode_utf8(leaf.sha))
        + frame(encode_utf8(leaf.sort_key))
}

/// The records of `leaves` one after the other.
pub open spec fn leaf_records(leaves: Seq<Leaf>) -> Seq<u8>
    decreases leaves.len(),
{
    if leaves.len() == 0 {
        Seq::empty()
    } else {
        leaf_record(leaves[0]) + leaf_records(leaves.skip(1))
    }
}

/// The order of leaves: by the bytes of the path in dictionary order, and
/// among leaves of one path by the bytes of the record.
pub open spec fn leaf_le(x: Leaf, y: Leaf) -> bool {
    if encode_utf8(x.path) == encode_utf8(y.path) {
        lex_le(leaf_record(x), leaf_record(y))
    } else {
        lex_le(encode_utf8(x.path), encode_utf8(y.path))
    }
}

/// `sorted` with `leaf` put behind the last leaf that comes no later.
pub open spec fn insert_leaf(sorted: Seq<Leaf>, leaf: Leaf) -> Seq<Leaf>
    decreases sorted.len(),
{
    if sorted.len() == 0 {
        seq![leaf]
    } else if leaf_le(sorted.last(), leaf) {
        sorted.push(leaf)
    } else {
        insert_leaf(sorted.drop_last(), leaf).push(sorted.last())
    }
}

/// The leaves in canonical order.
pub open spec fn canonical_order(leaves: Seq<Leaf>) -> Seq<Leaf>
    decreases leaves.len(),
{
    if leaves.len() == 0 {
        Seq::empty()
    } else {
        insert_leaf(canonical_order(leaves.drop_last()), leaves.last())
    }
}

/// The payload of a tree: the records of its leaves in canonical order.
pub open spec fn tree_payload(leaves: Seq<Leaf>) -> Seq<u8> {
    leaf_records(canonical_order(leaves))
}

/// The field that is framed at `pos`, and the position behind it. There is
/// none where no NUL byte follows, where the bytes before the NUL byte declare
/// no length, or where fewer bytes are left than the length declares.
pub open spec fn frame_at(s: Seq<u8>, pos: int) -> Option<(Seq<u8>, int)> {
    let nul = find_byte(s, pos, NUL);
    if pos < 0 || nul >= s.len() {
        None
    } else {
        match parse_decimal(s.subrange(pos, nul)) {
            Some(n) => if nul + 1 + n <= s.len() {
                Some((s.subrange(nul + 1, nul + 1 + n), nul + 1 + n))
            } else {
                None
            },
            None => None,
        }
    }
}

/// The text that is framed at `pos`, and the position behind it.
pub open spec fn text_at(s: Seq<u8>, pos: int) -> Option<(Seq<char>, int)> {
    match frame_at(s, pos) {
        Some((field, next)) => if valid_utf8(field) {
            Some((decode_utf8(field), next))
        } else {
            None
        },
        None => None,
    }
}

/// The leaf whose record stands at `pos`, and the position behind it.
pub open spec fn leaf_at(s: Seq<u8>, pos: int) -> Option<(Leaf, int)> {
    match text_at(s, pos) {
        Some((mode, at_path)) => match text_at(s, at_path) {
            Some((path, at_sha)) => match text_at(s, at_sha) {
                Some((sha, at_key)) => match text_at(s, at_key) {
                    Some((sort_key, at_end)) => Some(
                        (Leaf { mode: mode, path: path, sha: sha, sort_key: sort_key }, at_end),
                    ),
                    None => None,
                },
                None => None,
            },
            None => None,
        },
        None => None,
    }
}

/// The leaves whose records fill `s` from `pos` to its end.
pub open spec fn leaves_at(s: Seq<u8>, pos: int) -> Option<Seq<Leaf>>
    decreases s.len() - pos,
{
    if pos < 0 || pos >= s.len() {
        Some(Seq::empty())
    } else {
        match leaf_at(s, pos) {
            Some((leaf, next)) => if next <= pos {
                None
            } else {
                match leaves_at(s, next) {
                    Some(rest) => Some(seq![leaf] + rest),
                    None => None,
                }
            },
            None => None,
        }
    }
}

/// Appends `field` to `out`, framed.
fn push_frame(out: &mut Vec<u8>, field: &[u8])
    ensures
        final(out)@ == old(out)@ + frame(field@),
{
    push_decimal(out, field.len());
    out.push(NUL);
    append(out, field);
    assert(out@ =~= old(out)@ + frame(field@));
}

/// The record of a leaf.
fn record_of(leaf: &GitLeaf) -> (record: Vec<u8>)
    ensures
        record@ == leaf_record(leaf@),
{
    let mut record: Vec<u8> = Vec::new();
    push_frame(&mut record, leaf.mode.as_str().as_bytes());
    push_frame(&mut record, leaf.path.as_str().as_bytes());
    push_frame(&mut record, leaf.sha.as_str().as_bytes());
    push_frame(&mut record, leaf.sort_key.as_str().as_bytes());
    assert(record@ =~= leaf_record(leaf@));
    record
}

/// Reads the frame at `pos`: where its field starts and where it ends.
fn read_frame(s: &[u8], pos: usize) -> (found: Option<(usize, usize)>)
    requires
        pos <= s@.len(),
    ensures
        match frame_at(s@, pos as int) {
            Some((field, next)) => found matches Some((start, end)) && pos < start <= end
                && end == next && end <= s@.len() && s@.subrange(start as int, end as int)
                == field,
            None => found is None,
        },
{
    let nul = scan_byte(s, pos, NUL);
    if nul >= s.len() {
        return None;
    }
    match read_decimal(vstd::slice::slice_subrange(s, pos, nul)) {
        Some(n) => {
            if n <= s.len() - (nul + 1) {
                Some((nul + 1, nul + 1 + n))
            } else {
                None
            }
        },
        None => None,
    }
}

/// Reads the text that is framed at `pos`.
fn read_text(s: &[u8], pos: usize) -> (found: Option<(String, usize)>)
    requires
        pos <= s@.len(),
    ensures
        match text_at(s@, pos as int) {
            Some((text, next)) => found matches Some((t, end)) && t@ == text && end == next
                && pos < end <= s@.len(),
            None => found is None,
        },
{
    match read_frame(s, pos) {
        Some((start, end)) => {
            match utf8_to_string(vstd::slice::slice_subrange(s, start, end)) {
                Some(text) => Some((text, end)),
                None => None,
            }
        },
        None => None,
    }
}

/// Reads the leaf whose record stands at `pos`.
fn read_leaf(s: &[u8], pos: usize) -> (found: Option<(GitLeaf, usize)>)
    requires
        pos <= s@.len(),
    ensures
        match leaf_at(s@, pos as int) {
            Some((leaf, next)) => found matches Some((l, end)) && l@ == leaf && end == next
                && pos < end <= s@.len(),
            None => found is None,
        },
{
    let (mode, at_path) = match read_text(s, pos) {
        Some(found) => found,
        None => {
            return None;
        },
    };
    let (path, at_sha) = match read_text(s, at_path) {
        Some(found) => found,
        None => {
            return None;
        },
    };
    let (sha, at_key) = match read_text(s, at_sha) {
        Some(found) => found,
        None => {
            return None;
        },
    };
    let (sort_key, at_end) = match read_text(s, at_key) {
        Some(found) => found,
        None => {
            return None;
        },
    };
    Some((GitLeaf { mode, path, sha, sort_key }, at_end))
}

/// The order of leaves as a relation.
pub open spec fn leaf_order() -> spec_fn(Leaf, Leaf) -> bool {
    |x: Leaf, y: Leaf| leaf_le(x, y)
}

/// Two framed fields that start two equal byte strings are equal, and so is
/// what follows them.
proof fn lemma_frame_unique(a: Seq<u8>, x: Seq<u8>, b: Seq<u8>, y: Seq<u8>)
    requires
        frame(a) + x == frame(b) + y,
    ensures
        a == b,
        x == y,
{
    let s = frame(a) + x;
    let da = decimal(a.len());
    let db = decimal(b.len());
    crate::text::lemma_decimal(a.len());
    crate::text::lemma_decimal(b.len());
    assert forall|i: int| 0 <= i < da.len() implies s[i] != NUL by {
        assert(s[i] == da[i]);
    }
    assert(s[da.len() as int] == NUL);
    crate::text::lemma_find_byte_is(s, 0, NUL, da.len() as int);
    let t = frame(b) + y;
    assert forall|i: int| 0 <= i < db.len() implies t[i] != NUL by {
        assert(t[i] == db[i]);
    }
    assert(t[db.len() as int] == NUL);
    crate::text::lemma_find_byte_is(t, 0, NUL, db.len() as int);
    assert(da.len() == db.len());
    assert(da =~= s.subrange(0, da.len() as int));
    assert(db =~= t.subrange(0, db.len() as int));
    assert(a.len() == b.len());
    let n = da.len() as int + 1;
    let m = n + a.len() as int;
    assert(a =~= s.subrange(n, m));
    assert(b =~= t.subrange(n, m));
    assert(x =~= s.skip(m));
    assert(y =~= t.skip(m));
}

/// Two leaves with the same record are the same leaf.
pub proof fn lemma_leaf_record_unique(x: Leaf, y: Leaf)
    requires
        leaf_record(x) == leaf_record(y),
    ensures
        x == y,
{
    let (xm, xp, xs, xk) = (
        encode_utf8(x.mode),
        encode_utf8(x.path),
        encode_utf8(x.sha),
        encode_utf8(x.sort_key),
    );
    let (ym, yp, ys, yk) = (
        encode_utf8(y.mode),
        encode_utf8(y.path),
        encode_utf8(y.sha),
        encode_utf8(y.sort_key),
    );
    let e = Seq::<u8>::empty();
    assert(leaf_record(x) =~= frame(xm) + (frame(xp) + (frame(xs) + (frame(xk) + e))));
    assert(leaf_record(y) =~= frame(ym) + (frame(yp) + (frame(ys) + (frame(yk) + e))));
    lemma_frame_unique(xm, frame(xp) + (frame(xs) + (frame(xk) + e)), ym, frame(yp) + (frame(ys) + (
    frame(yk) + e)));
    lemma_frame_unique(xp, frame(xs) + (frame(xk) + e), yp, frame(ys) + (frame(yk) + e));
    lemma_frame_unique(xs, frame(xk) + e, ys, frame(yk) + e);
    lemma_frame_unique(xk, e, yk, e);
    vstd::utf8::encode_utf8_decode_utf8(x.mode);
    vstd::utf8::encode_utf8_decode_utf8(x.path);
    vstd::utf8::encode_utf8_decode_utf8(x.sha);
    vstd::utf8::encode_utf8_decode_utf8(x.sort_key);
    vstd::utf8::encode_utf8_decode_utf8(y.mode);
    vstd::utf8::encode_utf8_decode_utf8(y.path);
    vstd::utf8::encode_utf8_decode_utf8(y.sha);
    vstd::utf8::encode_utf8_decode_utf8(y.sort_key);
}

/// The order of leaves is total: any two leaves compare, and leaves that
/// compare both ways are the same leaf.
pub proof fn lemma_leaf_order_total()
    ensures
        total_ordering(leaf_order()),
{
    let f = leaf_order();
    assert forall|x: Leaf| #[trigger] f(x, x) by {
        crate::text::lemma_lex_le_reflexive(leaf_record(x));
    }
    assert forall|x: Leaf, y: Leaf| #[trigger] f(x, y) && #[trigger] f(y, x) implies x == y by {
        if encode_utf8(x.path) == encode_utf8(y.path) {
            crate::text::lemma_lex_le_antisymmetric(leaf_record(x), leaf_record(y));
            lemma_leaf_record_unique(x, y);
        } else {
            crate::text::lemma_lex_le_antisymmetric(encode_utf8(x.path), encode_utf8(y.path));
        }
    }
    assert forall|x: Leaf, y: Leaf, z: Leaf| #[trigger] f(x, y) && #[trigger] f(y, z) implies f(
        x,
        z,
    ) by {
        let (px, py, pz) = (encode_utf8(x.path), encode_utf8(y.path), encode_utf8(z.path));
        if px == py && py == pz {
            crate::text::lemma_lex_le_transitive(leaf_record(x), leaf_record(y), leaf_record(z));
        } else if px != py && py != pz {
            crate::text::lemma_lex_le_transitive(px, py, pz);
            if px == pz {
                crate::text::lemma_lex_le_antisymmetric(px, py);
            }
        }
    }
    assert forall|x: Leaf, y: Leaf| #[trigger] f(x, y) || #[trigger] f(y, x) by {
        crate::text::lemma_lex_le_total(leaf_record(x), leaf_record(y));
        crate::text::lemma_lex_le_total(encode_utf8(x.path), encode_utf8(y.path));
    }
}

/// Putting a leaf into sorted leaves keeps them sorted and adds the leaf.
proof fn lemma_insert_leaf(sorted: Seq<Leaf>, leaf: Leaf)
    requires
        sorted_by(sorted, leaf_order()),
    ensures
        sorted_by(insert_leaf(sorted, leaf), leaf_order()),
        insert_leaf(sorted, leaf).to_multiset() == sorted.to_multiset().insert(leaf),
        insert_leaf(sorted, leaf).len() == sorted.len() + 1,
        forall|i: int|
            0 <= i < insert_leaf(sorted, leaf).len() ==> #[trigger] insert_leaf(sorted, leaf)[i]
                == leaf || sorted.contains(insert_leaf(sorted, leaf)[i]),
    decreases sorted.len(),
{
    broadcast use vstd::seq_lib::group_to_multiset_ensures;

    lemma_leaf_order_total();
    let f = leaf_order();
    let out = insert_leaf(sorted, leaf);
    if sorted.len() == 0 {
        assert(out =~= sorted.push(leaf));
    } else if leaf_le(sorted.last(), leaf) {
        assert forall|i: int, j: int| 0 <= i < j < out.len() implies #[trigger] f(
            out[i],
            out[j],
        ) by {
            if j == sorted.len() {
                if i < sorted.len() - 1 {
                    assert(f(sorted[i], sorted[sorted.len() - 1]));
                    assert(f(sorted.last(), leaf));
                }
            } else {
                assert(f(sorted[i], sorted[j]));
            }
        }
        assert forall|i: int| 0 <= i < out.len() implies #[trigger] out[i] == leaf
            || sorted.contains(out[i]) by {
            if i < sorted.len() {
                assert(sorted[i] == out[i]);
            }
        }
    } else {
        let front = sorted.drop_last();
        let last = sorted.last();
        assert(sorted_by(front, f)) by {
            assert forall|i: int, j: int| 0 <= i < j < front.len() implies #[trigger] f(
                front[i],
                front[j],
            ) by {
                assert(f(sorted[i], sorted[j]));
            }
        }
        lemma_insert_leaf(front, leaf);
        let inner = insert_leaf(front, leaf);
        assert(f(last, leaf) || f(leaf, last));
        assert(f(leaf, last));
        assert forall|i: int, j: int| 0 <= i < j < out.len() implies #[trigger] f(
            out[i],
            out[j],
        ) by {
            if j == inner.len() {
                if inner[i] != leaf {
                    assert(front.contains(inner[i]));
                    let k = choose|k: int| 0 <= k < front.len() && front[k] == inner[i];
                    assert(f(sorted[k], sorted[sorted.len() - 1]));
                }
            } else {
                assert(f(inner[i], inner[j]));
            }
        }
        assert(sorted =~= front.push(last));
        assert(out.to_multiset() =~= sorted.to_multiset().insert(leaf));
        assert forall|i: int| 0 <= i < out.len() implies #[trigger] out[i] == leaf
            || sorted.contains(out[i]) by {
            if i < inner.len() {
                if inner[i] != leaf {
                    let k = choose|k: int| 0 <= k < front.len() && front[k] == inner[i];
                    assert(sorted[k] == out[i]);
                }
            } else {
                assert(sorted[sorted.len() - 1] == out[i]);
            }
        }
    }
}

/// The canonical order of leaves is sorted and holds the same leaves.
pub proof fn lemma_canonical_order(leaves: Seq<Leaf>)
    ensures
        sorted_by(canonical_order(leaves), leaf_order()),
        canonical_order(leaves).to_multiset() == leaves.to_multiset(),
    decreases leaves.len(),
{
    broadcast use vstd::seq_lib::group_to_multiset_ensures;

    if leaves.len() > 0 {
        lemma_canonical_order(leaves.drop_last());
        lemma_insert_leaf(canonical_order(leaves.drop_last()), leaves.last());
        assert(leaves =~= leaves.drop_last().push(leaves.last()));
    }
}

/// Putting a leaf at its place among sorted leaves keeps them sorted and adds
/// the leaf.
proof fn lemma_insert_at(cur: Seq<Leaf>, j: int, leaf: Leaf)
    requires
        sorted_by(cur, leaf_order()),
        0 <= j <= cur.len(),
        j > 0 ==> leaf_le(cur[j - 1], leaf),
        forall|k: int| j <= k < cur.len() ==> !leaf_le(#[trigger] cur[k], leaf),
    ensures
        sorted_by(cur.insert(j, leaf), leaf_order()),
        cur.insert(j, leaf).to_multiset() == cur.to_multiset().insert(leaf),
{
    broadcast use vstd::seq_lib::group_to_multiset_ensures;

    lemma_leaf_order_total();
    let f = leaf_order();
    let next = cur.insert(j, leaf);
    assert forall|a: int, b: int| 0 <= a < b < next.len() implies #[trigger] f(
        next[a],
        next[b],
    ) by {
        if b < j {
            assert(f(cur[a], cur[b]));
        } else if b == j {
            if a < j - 1 {
                assert(f(cur[a], cur[j - 1]));
                assert(f(cur[j - 1], leaf));
            }
        } else if a == j {
            assert(!leaf_le(cur[b - 1], leaf));
            assert(f(cur[b - 1], leaf) || f(leaf, cur[b - 1]));
        } else if a < j {
            assert(f(cur[a], cur[b - 1]));
        } else {
            assert(f(cur[a - 1], cur[b - 1]));
        }
    }
}

/// The first `i + 1` leaves are the first `i` and the leaf at `i`.
proof fn lemma_take_push(leaves: Seq<Leaf>, i: int)
    requires
        0 <= i < leaves.len(),
    ensures
        leaves.take(i + 1).to_multiset() == leaves.take(i).to_multiset().insert(leaves[i]),
{
    broadcast use vstd::seq_lib::group_to_multiset_ensures;

    assert(leaves.take(i + 1) =~= leaves.take(i).push(leaves[i]));
}

/// Whether `records` holds the record of each leaf of `tree`, in order.
pub open spec fn are_records_of(records: Seq<Vec<u8>>, tree: Seq<Leaf>) -> bool {
    &&& records.len() == tree.len()
    &&& forall|k: int| 0 <= k < tree.len() ==> (#[trigger] records[k])@ == leaf_record(tree[k])
}

/// Whether each of `order` is the place of one of `count` leaves.
pub open spec fn are_places(order: Seq<usize>, count: nat) -> bool {
    forall|k: int| 0 <= k < order.len() ==> (#[trigger] order[k]) < count
}

/// The leaves of `tree` at the places that `order` names.
pub open spec fn picked(tree: Seq<Leaf>, order: Seq<usize>) -> Seq<Leaf> {
    order.map_values(|k: usize| tree[k as int])
}

/// Whether leaf `a` comes no later than leaf `b`, given the record of each.
fn leaf_le_records(a: &GitLeaf, record_a: &[u8], b: &GitLeaf, record_b: &[u8]) -> (le: bool)
    requires
        record_a@ == leaf_record(a@),
        record_b@ == leaf_record(b@),
    ensures
        le == leaf_le(a@, b@),
{
    let path_a = a.path.as_str().as_bytes();
    let path_b = b.path.as_str().as_bytes();
    if bytes_equal(path_a, path_b) {
        lex_le_bytes(record_a, record_b)
    } else {
        lex_le_bytes(path_a, path_b)
    }
}

impl GitTree {
    /// The record of each leaf, in the order of the leaves.
    fn records(&self) -> (records: Vec<Vec<u8>>)
        ensures
            are_records_of(records@, self@),
    {
        let mut records: Vec<Vec<u8>> = Vec::new();
        let mut i: usize = 0;
        while i < self.items.len()
            invariant
                i <= self.items@.len(),
                self@.len() == self.items@.len(),
                records@.len() == i,
                forall|k: int| 0 <= k < i ==> (#[trigger] records@[k])@ == leaf_record(self@[k]),
            decreases self.items@.len() - i,
        {
            assert(self@[i as int] == self.items@[i as int]@);
            records.push(record_of(&self.items[i]));
            i += 1;
        }
        records
    }

    /// Where the leaf at place `i` belongs among the leaves at the places
    /// `order`, which are sorted: behind the last that comes no later.
    fn place_for(&self, records: &Vec<Vec<u8>>, order: &Vec<usize>, i: usize) -> (j: usize)
        requires
            i < self@.len(),
            are_records_of(records@, self@),
            are_places(order@, self@.len()),
        ensures
            j <= order@.len(),
            j > 0 ==> leaf_le(picked(self@, order@)[j - 1], self@[i as int]),
            forall|k: int|
                j <= k < order@.len() ==> !leaf_le(
                    #[trigger] picked(self@, order@)[k],
                    self@[i as int],
                ),
    {
        let ghost cur = picked(self@, order@);
        let ghost leaf = self@[i as int];
        assert(leaf == self.items@[i as int]@);
        let mut j: usize = order.len();
        while j > 0
            invariant
                j <= order@.len(),
                i < self.items@.len(),
                self@.len() == self.items@.len(),
                are_records_of(records@, self@),
                are_places(order@, self@.len()),
                cur == picked(self@, order@),
                leaf == self@[i as int],
                leaf == self.items@[i as int]@,
                forall|k: int| j <= k < cur.len() ==> !leaf_le(#[trigger] cur[k], leaf),
            decreases j,
        {
            let at = order[j - 1];
            assert(cur[j - 1] == self@[at as int]);
            assert(self@[at as int] == self.items@[at as int]@);
            if leaf_le_records(
                &self.items[at],
                records[at].as_slice(),
                &self.items[i],
                records[i].as_slice(),
            ) {
                return j;
            }
            j -= 1;
        }
        j
    }

    /// The places of the leaves in canonical order.
    fn canonical_places(&self, records: &Vec<Vec<u8>>) -> (order: Vec<usize>)
        requires
            are_records_of(records@, self@),
        ensures
            order@.len() == self@.len(),
            are_places(order@, self@.len()),
            picked(self@, order@) == canonical_order(self@),
    {
        let mut order: Vec<usize> = Vec::new();
        let mut i: usize = 0;
        proof {
            assert(picked(self@, order@) =~= Seq::<Leaf>::empty());
            assert(self@.take(0) =~= Seq::<Leaf>::empty());
        }
        while i < self.items.len()
            invariant
                i <= self.items@.len(),
                self@.len() == self.items@.len(),
                are_records_of(records@, self@),
                order@.len() == i,
                are_places(order@, self@.len()),
                sorted_by(picked(self@, order@), leaf_order()),
                picked(self@, order@).to_multiset() == self@.take(i as int).to_multiset(),
            decreases self.items@.len() - i,
        {
            let ghost cur = picked(self@, order@);
            let j = self.place_for(records, &order, i);
            order.insert(j, i);
            proof {
                assert(picked(self@, order@) =~= cur.insert(j as int, self@[i as int]));
                lemma_insert_at(cur, j as int, self@[i as int]);
                lemma_take_push(self@, i as int);
            }
            i += 1;
        }
        proof {
            assert(self@.take(self@.len() as int) =~= self@);
            lemma_canonical_order(self@);
            lemma_leaf_order_total();
            lemma_sorted_unique(picked(self@, order@), canonical_order(self@), leaf_order());
        }
        order
    }

    /// The payload of the tree: the records of its leaves in canonical order.
    pub fn payload(&self) -> (payload: Vec<u8>)
        ensures
            payload@ == tree_payload(self@),
    {
        let records = self.records();
        let order = self.canonical_places(&records);
        let ghost sorted = canonical_order(self@);
        let mut payload: Vec<u8> = Vec::new();
        let mut k: usize = 0;
        assert(sorted.skip(0) =~= sorted);
        while k < order.len()
            invariant
                k <= order@.len(),
                order@.len() == self@.len(),
                are_records_of(records@, self@),
                are_places(order@, self@.len()),
                sorted == picked(self@, order@),
                payload@ + leaf_records(sorted.skip(k as int)) == leaf_records(sorted),
            decreases order@.len() - k,
        {
            let ghost before = payload@;
            let ghost rest = sorted.skip(k as int);
            assert(rest.skip(1) =~= sorted.skip(k + 1));
            assert(rest[0] == self@[order@[k as int] as int]);
            append(&mut payload, records[order[k]].as_slice());
            assert(payload@ + leaf_records(rest.skip(1)) =~= before + (leaf_record(rest[0])
                + leaf_records(rest.skip(1))));
            k += 1;
        }
        assert(sorted.skip(sorted.len() as int) =~= Seq::<Leaf>::empty());
        assert(payload@ + Seq::<u8>::empty() =~= payload@);
        payload
    }

    /// Reads the leaves from the payload of a tree.
    pub fn read_payload(s: &[u8]) -> (found: Option<GitTree>)
        ensures
            match leaves_at(s@, 0) {
                Some(leaves) => found matches Some(tree) && tree@ == leaves,
                None => found is None,
            },
    {
        let mut items: Vec<GitLeaf> = Vec::new();
        let mut pos: usize = 0;
        let ghost mut done: Seq<Leaf> = Seq::empty();
        while pos < s.len()
            invariant
                pos <= s@.len(),
                done == items@.map_values(|leaf: GitLeaf| leaf@),
                match leaves_at(s@, pos as int) {
                    Some(rest) => leaves_at(s@, 0) == Some(done + rest),
                    None => leaves_at(s@, 0) is None,
                },
            decreases s@.len() - pos,
        {
            match read_leaf(s, pos) {
                Some((leaf, next)) => {
                    proof {
                        match leaves_at(s@, next as int) {
                            Some(rest) => {
                                assert(done + (seq![leaf@] + rest) =~= done.push(leaf@) + rest);
                            },
                            None => {},
                        }
                        done = done.push(leaf@);
                    }
                    items.push(leaf);
                    assert(done =~= items@.map_values(|leaf: GitLeaf| leaf@));
                    pos = next;
                },
                None => {
                    return None;
                },
            }
        }
        assert(done + Seq::<Leaf>::empty() =~= done);
        Some(GitTree { items })
    }
}

} // verus!
