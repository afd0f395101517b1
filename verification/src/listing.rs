//! Listings: the one way to write a finite set of 32-byte identifiers as a
//! sequence, in ascending order and each member once.

use vstd::prelude::*;
use crate::digest::{Digest, digest_lt, lemma_ascending_ordered, lemma_digest_lt_transitive, strictly_ascending};

verus! {

/// Whether `keys` lists a set of identifiers: in strictly ascending order,
/// each member once and nothing else.
pub open spec fn is_listing(keys: Seq<Digest>, members: Set<Seq<u8>>) -> bool {
    &&& strictly_ascending(keys)
    &&& forall|i: int| 0 <= i < keys.len() ==> members.contains(#[trigger] keys[i]@)
    &&& forall|member: Seq<u8>|
        members.contains(member) ==> exists|i: int| 0 <= i < keys.len() && #[trigger] keys[i]@ == member
}

/// The listing of a set. It is meant for a finite set of 32-byte strings,
/// which has one.
pub open spec fn listing_of(members: Set<Seq<u8>>) -> Seq<Digest> {
    choose|keys: Seq<Digest>| is_listing(keys, members)
}

/// `keys` with `key` put where the order wants it.
pub open spec fn with_key(keys: Seq<Digest>, key: Digest) -> Seq<Digest>
    decreases keys.len(),
{
    if keys.len() == 0 || digest_lt(keys.last()@, key@) {
        keys.push(key)
    } else {
        with_key(keys.drop_last(), key).push(keys.last())
    }
}

/// Whether the first `upto` bytes of a digest are those of `bytes`.
spec fn starts_as(d: Digest, bytes: Seq<u8>, upto: nat) -> bool {
    forall|j: int| 0 <= j < upto ==> (#[trigger] d@[j]) == bytes[j]
}

proof fn lemma_prefix_exists(bytes: Seq<u8>, upto: nat)
    requires
        bytes.len() == 32,
        upto <= 32,
    ensures
        exists|d: Digest| starts_as(d, bytes, upto),
    decreases upto,
{
    if upto == 0 {
        let d: Digest = vstd::array::spec_array_fill_for_copy_type(0u8);
        assert(starts_as(d, bytes, upto));
    } else {
        let shorter = (upto - 1) as nat;
        lemma_prefix_exists(bytes, shorter);
        let before = choose|d: Digest| starts_as(d, bytes, shorter);
        let d = vstd::array::spec_array_update(before, upto - 1, bytes[upto - 1]);
        assert(d@ == before@.update(upto - 1, bytes[upto - 1]));
        assert forall|j: int| 0 <= j < upto implies (#[trigger] d@[j]) == bytes[j] by {
            if j < upto - 1 {
                assert(before@[j] == bytes[j]);
            }
        }
        assert(starts_as(d, bytes, upto));
    }
}

/// Every string of 32 bytes is the content of a digest.
pub proof fn lemma_digest_exists(bytes: Seq<u8>)
    requires
        bytes.len() == 32,
    ensures
        exists|d: Digest| d@ == bytes,
{
    lemma_prefix_exists(bytes, 32);
    let d = choose|d: Digest| starts_as(d, bytes, 32);
    assert(d@ =~= bytes);
}

proof fn lemma_differ_from(a: Seq<u8>, b: Seq<u8>, from: int)
    requires
        a.len() == b.len(),
        0 <= from <= a.len(),
        forall|j: int| 0 <= j < from ==> a[j] == b[j],
    ensures
        a == b || digest_lt(a, b) || digest_lt(b, a),
    decreases a.len() - from,
{
    if from == a.len() {
        assert(a =~= b);
    } else if a[from] < b[from] {
        assert(0 <= from < a.len() && from < b.len() && a[from] < b[from] && (forall|j: int|
            0 <= j < from ==> a[j] == b[j]));
    } else if b[from] < a[from] {
        assert(0 <= from < b.len() && from < a.len() && b[from] < a[from] && (forall|j: int|
            0 <= j < from ==> b[j] == a[j]));
    } else {
        lemma_differ_from(a, b, from + 1);
    }
}

/// Of two different strings of one length, one is below the other.
pub proof fn lemma_digest_lt_total(a: Seq<u8>, b: Seq<u8>)
    requires
        a.len() == b.len(),
    ensures
        a == b || digest_lt(a, b) || digest_lt(b, a),
{
    lemma_differ_from(a, b, 0);
}

/// An ascending sequence stays ascending when a greater digest is added at
/// its end.
proof fn lemma_push_ascending(keys: Seq<Digest>, key: Digest)
    requires
        strictly_ascending(keys),
        keys.len() == 0 || digest_lt(keys.last()@, key@),
    ensures
        strictly_ascending(keys.push(key)),
{
    let out = keys.push(key);
    assert forall|i: int| 0 <= i < out.len() - 1 implies digest_lt(#[trigger] out[i]@, out[i + 1]@) by {
        if i < keys.len() - 1 {
            assert(digest_lt(keys[i]@, keys[i + 1]@));
        }
    }
}

/// An ascending sequence without its last digest is ascending.
proof fn lemma_drop_last_ascending(keys: Seq<Digest>)
    requires
        strictly_ascending(keys),
        keys.len() > 0,
    ensures
        strictly_ascending(keys.drop_last()),
        keys.len() > 1 ==> digest_lt(keys.drop_last().last()@, keys.last()@),
{
    let front = keys.drop_last();
    assert forall|i: int| 0 <= i < front.len() - 1 implies digest_lt(#[trigger] front[i]@, front[i + 1]@) by {
        assert(digest_lt(keys[i]@, keys[i + 1]@));
    }
    if keys.len() > 1 {
        assert(digest_lt(keys[keys.len() - 2]@, keys[keys.len() - 2 + 1]@));
    }
}

/// What a sequence holds after one more digest is added at its end.
proof fn lemma_push_contains(keys: Seq<Digest>, key: Digest, d: Digest)
    ensures
        keys.push(key).contains(d) <==> (d == key || keys.contains(d)),
{
    let out = keys.push(key);
    if out.contains(d) {
        let j = choose|j: int| 0 <= j < out.len() && out[j] == d;
        if j < keys.len() {
            assert(keys[j] == d);
        }
    }
    if keys.contains(d) {
        let i = choose|i: int| 0 <= i < keys.len() && keys[i] == d;
        assert(out[i] == d);
    }
    if d == key {
        assert(out[keys.len() as int] == d);
    }
}

/// Putting a new key into an ascending sequence keeps it ascending and adds
/// nothing but the key.
pub proof fn lemma_with_key(keys: Seq<Digest>, key: Digest)
    requires
        strictly_ascending(keys),
        !keys.contains(key),
    ensures
        strictly_ascending(with_key(keys, key)),
        with_key(keys, key).len() == keys.len() + 1,
        with_key(keys, key).last() == key || (keys.len() > 0 && with_key(keys, key).last() == keys.last()),
        forall|d: Digest| #[trigger] with_key(keys, key).contains(d) <==> (d == key || keys.contains(d)),
    decreases keys.len(),
{
    let out = with_key(keys, key);
    if keys.len() == 0 || digest_lt(keys.last()@, key@) {
        lemma_push_ascending(keys, key);
        assert forall|d: Digest| #[trigger] out.contains(d) <==> (d == key || keys.contains(d)) by {
            lemma_push_contains(keys, key, d);
        }
    } else {
        let front = keys.drop_last();
        let last = keys.last();
        let inner = with_key(front, key);
        assert(keys =~= front.push(last));
        lemma_drop_last_ascending(keys);
        assert(!front.contains(key)) by {
            lemma_push_contains(front, last, key);
        }
        lemma_with_key(front, key);
        assert(last != key) by {
            lemma_push_contains(front, last, key);
        }
        assert(digest_lt(key@, last@)) by {
            lemma_digest_lt_total(last@, key@);
            if last@ == key@ {
                assert(last =~= key);
            }
        }
        lemma_push_ascending(inner, last);
        assert forall|d: Digest| #[trigger] out.contains(d) <==> (d == key || keys.contains(d)) by {
            lemma_push_contains(inner, last, d);
            lemma_push_contains(front, last, d);
        }
    }
}

/// A finite set of 32-byte strings has a listing, with as many keys as the
/// set has members.
pub proof fn lemma_listing_exists(members: Set<Seq<u8>>)
    requires
        members.finite(),
        forall|member: Seq<u8>| members.contains(member) ==> member.len() == 32,
    ensures
        is_listing(listing_of(members), members),
        listing_of(members).len() == members.len(),
    decreases members.len(),
{
    if members.len() == 0 {
        let none = Seq::<Digest>::empty();
        assert(members =~= Set::<Seq<u8>>::empty());
        assert(is_listing(none, members));
        lemma_listing_unique(none, listing_of(members), members);
    } else {
        let member = members.choose();
        let others = members.remove(member);
        lemma_listing_exists(others);
        let keys = listing_of(others);
        lemma_digest_exists(member);
        let key = choose|d: Digest| d@ == member;
        assert(!keys.contains(key)) by {
            if keys.contains(key) {
                let i = choose|i: int| 0 <= i < keys.len() && keys[i] == key;
                assert(others.contains(keys[i]@));
            }
        }
        lemma_with_key(keys, key);
        let all = with_key(keys, key);
        assert forall|j: int| 0 <= j < all.len() implies members.contains(#[trigger] all[j]@) by {
            assert(all.contains(all[j]));
            if all[j] != key {
                let i = choose|i: int| 0 <= i < keys.len() && keys[i] == all[j];
                assert(others.contains(keys[i]@));
            }
        }
        assert forall|m: Seq<u8>| members.contains(m) implies exists|j: int|
            0 <= j < all.len() && #[trigger] all[j]@ == m by {
            if m == member {
                assert(all.contains(key));
                let j = choose|j: int| 0 <= j < all.len() && all[j] == key;
                assert(all[j]@ == m);
            } else {
                assert(others.contains(m));
                let i = choose|i: int| 0 <= i < keys.len() && #[trigger] keys[i]@ == m;
                assert(keys.contains(keys[i]));
                assert(all.contains(keys[i]));
                let j = choose|j: int| 0 <= j < all.len() && all[j] == keys[i];
                assert(all[j]@ == m);
            }
        }
        assert(is_listing(all, members));
        lemma_listing_unique(all, listing_of(members), members);
    }
}

/// The last key of a listing is the greatest member of the set: two listings
/// of one set end in the same key.
proof fn lemma_listing_last(first: Seq<Digest>, second: Seq<Digest>, members: Set<Seq<u8>>)
    requires
        is_listing(first, members),
        is_listing(second, members),
        first.len() > 0,
        second.len() > 0,
    ensures
        first.last() == second.last(),
{
    let a = first.last();
    let b = second.last();
    assert(members.contains(first[first.len() - 1]@));
    assert(members.contains(second[second.len() - 1]@));
    let i = choose|i: int| 0 <= i < first.len() && #[trigger] first[i]@ == b@;
    let j = choose|j: int| 0 <= j < second.len() && #[trigger] second[j]@ == a@;
    if i < first.len() - 1 && j < second.len() - 1 {
        lemma_ascending_ordered(first, i, first.len() - 1);
        lemma_ascending_ordered(second, j, second.len() - 1);
        lemma_digest_lt_transitive(a@, b@, a@);
        assert(false);
    }
    assert(a@ == b@);
}

/// A listing without its last key lists the set without that member.
proof fn lemma_listing_drop_last(keys: Seq<Digest>, members: Set<Seq<u8>>)
    requires
        is_listing(keys, members),
        keys.len() > 0,
    ensures
        is_listing(keys.drop_last(), members.remove(keys.last()@)),
{
    let front = keys.drop_last();
    let rest = members.remove(keys.last()@);
    assert forall|k: int| 0 <= k < front.len() - 1 implies digest_lt(#[trigger] front[k]@, front[k + 1]@) by {
        assert(digest_lt(keys[k]@, keys[k + 1]@));
    }
    assert forall|k: int| 0 <= k < front.len() implies rest.contains(#[trigger] front[k]@) by {
        lemma_ascending_ordered(keys, k, keys.len() - 1);
        assert(members.contains(keys[k]@));
    }
    assert forall|member: Seq<u8>| rest.contains(member) implies exists|k: int|
        0 <= k < front.len() && #[trigger] front[k]@ == member by {
        let k = choose|k: int| 0 <= k < keys.len() && #[trigger] keys[k]@ == member;
        assert(front[k]@ == member);
    }
}

/// A set has one listing only: what is written for it does not depend on how
/// the listing was come by.
pub proof fn lemma_listing_unique(first: Seq<Digest>, second: Seq<Digest>, members: Set<Seq<u8>>)
    requires
        is_listing(first, members),
    ensures
        is_listing(second, members) ==> first == second,
        is_listing(listing_of(members), members),
    decreases first.len(),
{
    if is_listing(second, members) {
        if first.len() == 0 {
            if second.len() > 0 {
                assert(members.contains(second[0]@));
                let k = choose|k: int| 0 <= k < first.len() && #[trigger] first[k]@ == second[0]@;
            }
            assert(first =~= second);
        } else if second.len() == 0 {
            assert(members.contains(first[0]@));
            let k = choose|k: int| 0 <= k < second.len() && #[trigger] second[k]@ == first[0]@;
        } else {
            lemma_listing_last(first, second, members);
            lemma_listing_drop_last(first, members);
            lemma_listing_drop_last(second, members);
            lemma_listing_unique(first.drop_last(), second.drop_last(), members.remove(first.last()@));
            assert(first =~= first.drop_last().push(first.last()));
            assert(second =~= second.drop_last().push(second.last()));
        }
    }
}

} // verus!
