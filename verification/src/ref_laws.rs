//! Laws of the reference graph.

use crate::key_value_list_message::{is_field, keys_of, Header, Message};
use crate::lookup::{first_at, lemma_first_at, lemma_first_at_is, lemma_first_at_push};
use crate::message_laws::{key_is_plain, lemma_parse_serialize};
use crate::refs::{names_of, refs_with, resolve, stored_target, Reference, Target};
use vstd::prelude::*;
use vstd::utf8::{
    encode_utf8, encode_utf8_decode_utf8, encode_utf8_valid_utf8, is_ascii_chars_encode_utf8,
};

verus! {

/// After a reference was stored, its name leads to its target, and every
/// other name leads to what it led to before.
pub proof fn lemma_stored_target_after_write(
    refs: Seq<Reference>,
    written: Reference,
    name: Seq<char>,
)
    ensures
        stored_target(refs_with(refs, written), name) == if name == written.name {
            written.target
        } else {
            stored_target(refs, name)
        },
{
    let names = names_of(refs);
    let at = first_at(names, written.name, 0);
    let after = refs_with(refs, written);
    lemma_first_at(names, written.name, 0);
    lemma_first_at(names, name, 0);
    if at < refs.len() {
        assert(names_of(after) =~= names);
    } else {
        assert(names_of(after) =~= names.push(written.name));
        lemma_first_at_push(names, written.name, name);
    }
}

/// A name that is not stored resolves to broken, however many hops are
/// allowed.
pub proof fn lemma_missing_is_broken(refs: Seq<Reference>, name: Seq<char>, hops: nat)
    requires
        first_at(names_of(refs), name, 0) >= refs.len(),
    ensures
        resolve(refs, name, hops) == Some(Target::Broken),
{
}

/// A reference to a reference with a hash resolves to that hash.
pub proof fn lemma_indirect_resolves(
    refs: Seq<Reference>,
    main: Seq<char>,
    other: Seq<char>,
    hash: Seq<char>,
)
    requires
        stored_target(refs, main) == Some(Target::Direct(hash)),
        stored_target(refs, other) == Some(Target::Indirect(main)),
    ensures
        resolve(refs, main, refs.len()) == Some(Target::Direct(hash)),
        resolve(refs, other, refs.len()) == Some(Target::Direct(hash)),
{
    lemma_first_at(names_of(refs), main, 0);
    assert(refs.len() >= 1);
    assert(resolve(refs, main, (refs.len() - 1) as nat) == Some(Target::Direct(hash)));
}

/// Where a name resolves within some number of hops, it resolves to the same
/// end within any greater number.
pub proof fn lemma_more_hops(refs: Seq<Reference>, name: Seq<char>, hops: nat, more: nat)
    requires
        resolve(refs, name, hops) is Some,
        hops <= more,
    ensures
        resolve(refs, name, more) == resolve(refs, name, hops),
    decreases hops,
{
    match stored_target(refs, name) {
        Some(Target::Indirect(next)) => {
            lemma_more_hops(refs, next, (hops - 1) as nat, (more - 1) as nat);
        },
        _ => {},
    }
}

/// The name that is reached from `name` after `k` indirect references, where
/// the way is that long.
pub open spec fn hop(refs: Seq<Reference>, name: Seq<char>, k: nat) -> Option<Seq<char>>
    decreases k,
{
    if k == 0 {
        Some(name)
    } else {
        match stored_target(refs, name) {
            Some(Target::Indirect(next)) => hop(refs, next, (k - 1) as nat),
            _ => None,
        }
    }
}

/// A name fails to resolve within `hops` hops exactly where its way is longer
/// than `hops` indirect references.
proof fn lemma_unresolved_is_long(refs: Seq<Reference>, name: Seq<char>, hops: nat)
    ensures
        resolve(refs, name, hops) is None <==> hop(refs, name, hops + 1) is Some,
    decreases hops,
{
    match stored_target(refs, name) {
        Some(Target::Indirect(next)) => {
            assert(hop(refs, name, hops + 1) == hop(refs, next, hops));
            if hops > 0 {
                lemma_unresolved_is_long(refs, next, (hops - 1) as nat);
                assert(((hops - 1) as nat) + 1 == hops);
            } else {
                assert(hop(refs, next, 0) == Some(next));
            }
        },
        _ => {},
    }
}

/// A way that is `k` references long is also `j` long, for every smaller `j`.
proof fn lemma_hop_shorter(refs: Seq<Reference>, name: Seq<char>, k: nat, j: nat)
    requires
        hop(refs, name, k) is Some,
        j <= k,
    ensures
        hop(refs, name, j) is Some,
    decreases j,
{
    if j > 0 {
        match stored_target(refs, name) {
            Some(Target::Indirect(next)) => {
                lemma_hop_shorter(refs, next, (k - 1) as nat, (j - 1) as nat);
            },
            _ => {},
        }
    }
}

/// Going `a` references and then `j` more is going `a + j` references.
proof fn lemma_hop_onward(refs: Seq<Reference>, name: Seq<char>, a: nat, j: nat)
    requires
        hop(refs, name, a) is Some,
    ensures
        hop(refs, name, a + j) == hop(refs, hop(refs, name, a)->0, j),
    decreases a,
{
    if a > 0 {
        match stored_target(refs, name) {
            Some(Target::Indirect(next)) => {
                lemma_hop_onward(refs, next, (a - 1) as nat, j);
            },
            _ => {},
        }
    }
}

/// Of `n + 1` numbers below `n`, two are equal.
proof fn lemma_two_are_equal(f: Seq<int>, n: nat)
    requires
        f.len() == n + 1,
        forall|i: int| 0 <= i < f.len() ==> 0 <= #[trigger] f[i] < n,
    ensures
        exists|a: int, b: int| 0 <= a < b < f.len() && #[trigger] f[a] == #[trigger] f[b],
    decreases n,
{
    if n == 0 {
        let first = f[0];
        assert(0 <= first && first < n);
    } else {
        let v = f[n as int];
        if exists|i: int| 0 <= i < n && f[i] == v {
            let i = choose|i: int| 0 <= i < n && f[i] == v;
            assert(f[i] == f[n as int]);
        } else {
            let g = Seq::new(
                n,
                |i: int|
                    if f[i] > v {
                        f[i] - 1
                    } else {
                        f[i]
                    },
            );
            assert forall|i: int| 0 <= i < g.len() implies 0 <= #[trigger] g[i] < n - 1 by {
                assert(0 <= f[i] < n);
                assert(f[i] != v);
            }
            lemma_two_are_equal(g, (n - 1) as nat);
            let (a, b) = choose|a: int, b: int|
                0 <= a < b < g.len() && #[trigger] g[a] == #[trigger] g[b];
            assert(f[a] != v && f[b] != v);
            assert(f[a] == f[b]);
        }
    }
}

/// From a name whose way comes back to it, the way never ends.
proof fn lemma_loop_is_endless(refs: Seq<Reference>, name: Seq<char>, period: nat, k: nat)
    requires
        period >= 1,
        hop(refs, name, period) == Some(name),
    ensures
        hop(refs, name, k) is Some,
    decreases k,
{
    if k <= period {
        lemma_hop_shorter(refs, name, period, k);
    } else {
        lemma_loop_is_endless(refs, name, period, (k - period) as nat);
        lemma_hop_onward(refs, name, period, (k - period) as nat);
    }
}

/// A name that does not resolve within as many hops as there are stored
/// references does not resolve within any number of hops: the references on
/// its way form a cycle.
pub proof fn lemma_cycle_is_real(refs: Seq<Reference>, name: Seq<char>, hops: nat)
    requires
        resolve(refs, name, refs.len()) is None,
    ensures
        resolve(refs, name, hops) is None,
{
    let n = refs.len();
    let names = names_of(refs);
    lemma_unresolved_is_long(refs, name, n);
    let place = |j: int| first_at(names, hop(refs, name, j as nat)->0, 0);
    let f = Seq::new(n + 1, place);
    assert forall|j: int| 0 <= j < f.len() implies 0 <= #[trigger] f[j] < n by {
        lemma_hop_shorter(refs, name, n + 1, j as nat);
        lemma_hop_shorter(refs, name, n + 1, (j + 1) as nat);
        lemma_hop_onward(refs, name, j as nat, 1);
        let x = hop(refs, name, j as nat)->0;
        assert(hop(refs, x, 1) is Some);
        lemma_first_at(names, x, 0);
    }
    lemma_two_are_equal(f, n);
    let (a, b) = choose|a: int, b: int| 0 <= a < b < f.len() && #[trigger] f[a] == #[trigger] f[b];
    lemma_hop_shorter(refs, name, n + 1, a as nat);
    lemma_hop_shorter(refs, name, n + 1, b as nat);
    let x = hop(refs, name, a as nat)->0;
    let y = hop(refs, name, b as nat)->0;
    assert(0 <= f[a] < n);
    lemma_first_at(names, x, 0);
    lemma_first_at(names, y, 0);
    assert(x == y);
    lemma_hop_onward(refs, name, a as nat, (b - a) as nat);
    lemma_loop_is_endless(refs, x, (b - a) as nat, hops + 1);
    lemma_hop_onward(refs, name, a as nat, hops + 1);
    lemma_hop_shorter(refs, name, a as nat + hops + 1, hops + 1);
    lemma_unresolved_is_long(refs, name, hops);
}

/// The keys of a reference's message are plain, not empty, and `name` differs
/// from the keys of a target.
proof fn lemma_ref_keys()
    ensures
        key_is_plain("name"@),
        key_is_plain("direct"@),
        key_is_plain("indirect"@),
        key_is_plain("broken"@),
        "name"@.len() > 0,
        "direct"@.len() > 0,
        "indirect"@.len() > 0,
        "broken"@.len() > 0,
        "name"@ != "direct"@,
        "name"@ != "indirect"@,
        "name"@ != "broken"@,
        "direct"@ != "indirect"@,
        "direct"@ != "broken"@,
        "indirect"@ != "broken"@,
{
    reveal_strlit("name");
    reveal_strlit("direct");
    reveal_strlit("indirect");
    reveal_strlit("broken");
    is_ascii_chars_encode_utf8("name"@);
    is_ascii_chars_encode_utf8("direct"@);
    is_ascii_chars_encode_utf8("indirect"@);
    is_ascii_chars_encode_utf8("broken"@);
    assert("direct"@[0] != "broken"@[0]);
}

/// The message of a reference, header by header.
proof fn lemma_ref_message(r: Reference)
    ensures
        r.message().body is None,
        r.message().well_formed(),
        r.message().headers == match r.target {
            Some(Target::Direct(hash)) => seq![
                Header { key: "name"@, values: seq![encode_utf8(r.name)] },
                Header { key: "direct"@, values: seq![encode_utf8(hash)] },
            ],
            Some(Target::Indirect(name)) => seq![
                Header { key: "name"@, values: seq![encode_utf8(r.name)] },
                Header { key: "indirect"@, values: seq![encode_utf8(name)] },
            ],
            Some(Target::Broken) => seq![
                Header { key: "name"@, values: seq![encode_utf8(r.name)] },
                Header { key: "broken"@, values: seq![Seq::<u8>::empty()] },
            ],
            None => seq![Header { key: "name"@, values: seq![encode_utf8(r.name)] }],
        },
{
    lemma_ref_keys();
    let h0 = Header { key: "name"@, values: seq![encode_utf8(r.name)] };
    let base = Message::empty().with_pair("name"@, encode_utf8(r.name));
    assert(base.headers =~= seq![h0]);
    assert(keys_of(base.headers) =~= seq!["name"@]);
    match r.target {
        Some(Target::Direct(hash)) => {
            lemma_first_at_is(keys_of(base.headers), "direct"@, 0, 1);
            let m = base.with_pair("direct"@, encode_utf8(hash));
            assert(m.headers =~= seq![
                h0,
                Header { key: "direct"@, values: seq![encode_utf8(hash)] },
            ]);
        },
        Some(Target::Indirect(name)) => {
            lemma_first_at_is(keys_of(base.headers), "indirect"@, 0, 1);
            let m = base.with_pair("indirect"@, encode_utf8(name));
            assert(m.headers =~= seq![
                h0,
                Header { key: "indirect"@, values: seq![encode_utf8(name)] },
            ]);
        },
        Some(Target::Broken) => {
            lemma_first_at_is(keys_of(base.headers), "broken"@, 0, 1);
            let m = base.with_pair("broken"@, Seq::empty());
            assert(m.headers =~= seq![
                h0,
                Header { key: "broken"@, values: seq![Seq::<u8>::empty()] },
            ]);
        },
        None => {},
    }
}

/// Reading the bytes that a reference is kept as gives the reference back,
/// whatever its target: none, a hash, a name, or broken.
pub proof fn lemma_read_ref(r: Reference)
    ensures
        Reference::of_record(r.record()) == Some(r),
{
    lemma_ref_keys();
    lemma_ref_message(r);
    lemma_parse_serialize(r.message());
    let m = r.message();
    encode_utf8_valid_utf8(r.name);
    encode_utf8_decode_utf8(r.name);
    assert(is_field(m.headers[0], "name"@));
    match r.target {
        Some(Target::Direct(hash)) => {
            encode_utf8_valid_utf8(hash);
            encode_utf8_decode_utf8(hash);
            assert(is_field(m.headers[1], "direct"@));
        },
        Some(Target::Indirect(name)) => {
            encode_utf8_valid_utf8(name);
            encode_utf8_decode_utf8(name);
            assert(!is_field(m.headers[1], "direct"@));
            assert(is_field(m.headers[1], "indirect"@));
        },
        Some(Target::Broken) => {
            assert(vstd::utf8::valid_utf8(Seq::<u8>::empty()));
            assert(!is_field(m.headers[1], "direct"@));
            assert(!is_field(m.headers[1], "indirect"@));
            assert(is_field(m.headers[1], "broken"@));
        },
        None => {},
    }
}

} // verus!
