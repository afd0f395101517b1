//! The byte-level building blocks of the anchor encoding: integers with the
//! low byte first, digests as they are, byte strings behind their length, and
//! sequences as their items one after the other. Each block is given as a pair
//! of functions on byte sequences, and read from a buffer at a position.

use vstd::prelude::*;
use crate::digest::Digest;

verus! {

/// The two bytes of a 16-bit number, low byte first.
pub open spec fn le16(n: u16) -> Seq<u8> {
    seq![(n % 256) as u8, (n / 256) as u8]
}

/// The four bytes of a 32-bit number, low byte first.
pub open spec fn le32(n: u32) -> Seq<u8> {
    seq![(n % 256) as u8, (n / 256 % 256) as u8, (n / 65536 % 256) as u8, (n / 16777216) as u8]
}

/// A byte string behind its length in two bytes.
pub open spec fn framed(data: Seq<u8>) -> Seq<u8> {
    le16(data.len() as u16) + data
}

/// The digest that holds the given 32 bytes.
pub open spec fn digest_from(bytes: Seq<u8>) -> Digest {
    choose|d: Digest| d@ == bytes
}

/// Reads one byte.
pub open spec fn read8(bytes: Seq<u8>) -> Option<(u8, Seq<u8>)> {
    if bytes.len() >= 1 {
        Some((bytes[0], bytes.skip(1)))
    } else {
        None
    }
}

/// Reads a 16-bit number.
pub open spec fn read16(bytes: Seq<u8>) -> Option<(u16, Seq<u8>)> {
    if bytes.len() >= 2 {
        Some(((bytes[0] + 256 * bytes[1]) as u16, bytes.skip(2)))
    } else {
        None
    }
}

/// Reads a 32-bit number.
pub open spec fn read32(bytes: Seq<u8>) -> Option<(u32, Seq<u8>)> {
    if bytes.len() >= 4 {
        Some(((bytes[0] + 256 * bytes[1] + 65536 * bytes[2] + 16777216 * bytes[3]) as u32, bytes.skip(4)))
    } else {
        None
    }
}

/// Reads a digest.
pub open spec fn read_digest(bytes: Seq<u8>) -> Option<(Digest, Seq<u8>)> {
    if bytes.len() >= 32 {
        Some((digest_from(bytes.take(32)), bytes.skip(32)))
    } else {
        None
    }
}

/// Reads a byte string behind its length.
pub open spec fn read_framed(bytes: Seq<u8>) -> Option<(Seq<u8>, Seq<u8>)> {
    match read16(bytes) {
        Some((len, rest)) => if rest.len() >= len {
            Some((rest.take(len as int), rest.skip(len as int)))
        } else {
            None
        },
        None => None,
    }
}

/// The items of a sequence, each written by `one`, one after the other.
pub open spec fn write_seq<T>(items: Seq<T>, one: spec_fn(T) -> Seq<u8>) -> Seq<u8>
    decreases items.len(),
{
    if items.len() == 0 {
        Seq::<u8>::empty()
    } else {
        one(items[0]) + write_seq(items.drop_first(), one)
    }
}

/// Reads `count` items, each by `one`.
pub open spec fn read_seq<T>(bytes: Seq<u8>, count: nat, one: spec_fn(Seq<u8>) -> Option<(T, Seq<u8>)>) -> Option<
    (Seq<T>, Seq<u8>),
>
    decreases count,
{
    if count == 0 {
        Some((Seq::<T>::empty(), bytes))
    } else {
        match one(bytes) {
            Some((item, rest)) => match read_seq(rest, (count - 1) as nat, one) {
                Some((items, end)) => Some((seq![item] + items, end)),
                None => None,
            },
            None => None,
        }
    }
}

pub proof fn lemma_read8(b: u8, rest: Seq<u8>)
    ensures
        read8(seq![b] + rest) == Some((b, rest)),
{
    assert((seq![b] + rest).skip(1) =~= rest);
}

pub proof fn lemma_read16(n: u16, rest: Seq<u8>)
    ensures
        read16(le16(n) + rest) == Some((n, rest)),
{
    assert((le16(n) + rest).skip(2) =~= rest);
}

pub proof fn lemma_read32(n: u32, rest: Seq<u8>)
    ensures
        read32(le32(n) + rest) == Some((n, rest)),
{
    assert((le32(n) + rest).skip(4) =~= rest);
}

pub proof fn lemma_read_digest(d: Digest, rest: Seq<u8>)
    ensures
        read_digest(d@ + rest) == Some((d, rest)),
{
    assert((d@ + rest).skip(32) =~= rest);
    assert((d@ + rest).take(32) =~= d@);
    assert(digest_from(d@)@ == d@);
    assert(digest_from(d@) == d);
}

pub proof fn lemma_read_framed(data: Seq<u8>, rest: Seq<u8>)
    requires
        data.len() <= 0xFFFF,
    ensures
        read_framed(framed(data) + rest) == Some((data, rest)),
{
    assert(framed(data) + rest =~= le16(data.len() as u16) + (data + rest));
    lemma_read16(data.len() as u16, data + rest);
    assert((data + rest).take(data.len() as int) =~= data);
    assert((data + rest).skip(data.len() as int) =~= rest);
}

/// A sequence that was written is read back, if each of its items is.
pub proof fn lemma_read_seq<T>(
    items: Seq<T>,
    write: spec_fn(T) -> Seq<u8>,
    read: spec_fn(Seq<u8>) -> Option<(T, Seq<u8>)>,
    rest: Seq<u8>,
)
    requires
        forall|i: int, after: Seq<u8>|
            0 <= i < items.len() ==> #[trigger] read(write(items[i]) + after) == Some((items[i], after)),
    ensures
        read_seq(write_seq(items, write) + rest, items.len(), read) == Some((items, rest)),
    decreases items.len(),
{
    if items.len() == 0 {
        assert(write_seq(items, write) + rest =~= rest);
        assert(items =~= Seq::<T>::empty());
    } else {
        let tail = items.drop_first();
        let after = write_seq(tail, write) + rest;
        assert(write_seq(items, write) + rest =~= write(items[0]) + after);
        assert(read(write(items[0]) + after) == Some((items[0], after)));
        assert forall|i: int, a: Seq<u8>| 0 <= i < tail.len() implies #[trigger] read(write(tail[i]) + a) == Some(
            (tail[i], a),
        ) by {
            assert(tail[i] == items[i + 1]);
        }
        lemma_read_seq(tail, write, read, rest);
        assert(seq![items[0]] + tail =~= items);
    }
}

/// Writing one more item at the end appends what `one` writes for it.
pub proof fn lemma_write_seq_push<T>(items: Seq<T>, last: T, one: spec_fn(T) -> Seq<u8>)
    ensures
        write_seq(items.push(last), one) == write_seq(items, one) + one(last),
    decreases items.len(),
{
    if items.len() == 0 {
        let single = items.push(last);
        assert(single[0] == last);
        assert(single.drop_first() =~= Seq::<T>::empty());
        assert(write_seq(single.drop_first(), one) =~= Seq::<u8>::empty());
        assert(write_seq(single, one) =~= one(last) + Seq::<u8>::empty());
        assert(write_seq(items, one) + one(last) =~= one(last));
    } else {
        assert(items.push(last).drop_first() =~= items.drop_first().push(last));
        lemma_write_seq_push(items.drop_first(), last, one);
        assert(one(items[0]) + (write_seq(items.drop_first(), one) + one(last)) =~= (one(items[0]) + write_seq(
            items.drop_first(),
            one,
        )) + one(last));
    }
}

/// Reading `count` items is reading one and then the others. The items read
/// so far, `done`, and what is still to be read from `here` make up what a
/// read of all of them gives.
pub open spec fn resumes<T>(
    whole: Option<(Seq<T>, Seq<u8>)>,
    done: Seq<T>,
    here: Seq<u8>,
    left: nat,
    one: spec_fn(Seq<u8>) -> Option<(T, Seq<u8>)>,
) -> bool {
    whole == match read_seq(here, left, one) {
        Some((items, end)) => Some((done + items, end)),
        None => None,
    }
}

pub proof fn lemma_resumes_start<T>(bytes: Seq<u8>, count: nat, one: spec_fn(Seq<u8>) -> Option<(T, Seq<u8>)>)
    ensures
        resumes(read_seq(bytes, count, one), Seq::<T>::empty(), bytes, count, one),
{
    match read_seq(bytes, count, one) {
        Some((items, end)) => {
            assert(Seq::<T>::empty() + items =~= items);
        },
        None => {},
    }
}

pub proof fn lemma_resumes_step<T>(
    whole: Option<(Seq<T>, Seq<u8>)>,
    done: Seq<T>,
    here: Seq<u8>,
    left: nat,
    one: spec_fn(Seq<u8>) -> Option<(T, Seq<u8>)>,
)
    requires
        resumes(whole, done, here, left, one),
        left > 0,
    ensures
        one(here).is_none() ==> whole.is_none(),
        one(here) matches Some((item, rest)) ==> resumes(whole, done.push(item), rest, (left - 1) as nat, one),
{
    match one(here) {
        Some((item, rest)) => {
            match read_seq(rest, (left - 1) as nat, one) {
                Some((items, end)) => {
                    assert(done + (seq![item] + items) =~= done.push(item) + items);
                },
                None => {},
            }
        },
        None => {},
    }
}

pub proof fn lemma_resumes_end<T>(
    whole: Option<(Seq<T>, Seq<u8>)>,
    done: Seq<T>,
    here: Seq<u8>,
    one: spec_fn(Seq<u8>) -> Option<(T, Seq<u8>)>,
)
    requires
        resumes(whole, done, here, 0, one),
    ensures
        whole == Some((done, here)),
{
    assert(done + Seq::<T>::empty() =~= done);
}

/// Whether what was read from a buffer at a position is what the reading
/// function gives for the bytes from that position on: the same value, and a
/// next position that stands where the remaining bytes begin.
pub open spec fn read_at<T>(got: Option<(T, usize)>, bytes: Seq<u8>, at: usize, expected: Option<(T, Seq<u8>)>) -> bool {
    match (got, expected) {
        (Some((value, next)), Some((wanted, rest))) => value == wanted && at <= next <= bytes.len() && rest
            == bytes.skip(next as int),
        (None, None) => true,
        _ => false,
    }
}

/// Appends a 16-bit number.
pub(crate) fn put16(out: &mut Vec<u8>, n: u16)
    ensures
        final(out)@ == old(out)@ + le16(n),
{
    out.push((n % 256) as u8);
    out.push((n / 256) as u8);
    assert(out@ =~= old(out)@ + le16(n));
}

/// Appends a 32-bit number.
pub(crate) fn put32(out: &mut Vec<u8>, n: u32)
    ensures
        final(out)@ == old(out)@ + le32(n),
{
    out.push((n % 256) as u8);
    out.push((n / 256 % 256) as u8);
    out.push((n / 65536 % 256) as u8);
    out.push((n / 16777216) as u8);
    assert(out@ =~= old(out)@ + le32(n));
}

/// Appends the bytes of a digest.
pub(crate) fn put_digest(out: &mut Vec<u8>, digest: &Digest)
    ensures
        final(out)@ == old(out)@ + digest@,
{
    let mut k: usize = 0;
    while k < 32
        invariant
            k <= 32,
            out@ == old(out)@ + digest@.take(k as int),
        decreases 32 - k,
    {
        out.push(digest[k]);
        assert(digest@.take(k + 1) =~= digest@.take(k as int).push(digest@[k as int]));
        k += 1;
    }
    assert(digest@.take(32) =~= digest@);
}

/// Appends a byte string behind its length.
pub(crate) fn put_framed(out: &mut Vec<u8>, data: &Vec<u8>)
    requires
        data@.len() <= 0xFFFF,
    ensures
        final(out)@ == old(out)@ + framed(data@),
{
    put16(out, data.len() as u16);
    let ghost head = out@;
    let mut k: usize = 0;
    while k < data.len()
        invariant
            k <= data@.len(),
            out@ == head + data@.take(k as int),
        decreases data@.len() - k,
    {
        out.push(data[k]);
        assert(data@.take(k + 1) =~= data@.take(k as int).push(data@[k as int]));
        k += 1;
    }
    assert(data@.take(data@.len() as int) =~= data@);
    assert(out@ =~= old(out)@ + framed(data@));
}

/// Reads one byte at a position.
pub(crate) fn get8(bytes: &Vec<u8>, at: usize) -> (got: Option<(u8, usize)>)
    requires
        at <= bytes@.len(),
    ensures
        read_at(got, bytes@, at, read8(bytes@.skip(at as int))),
{
    if bytes.len() - at < 1 {
        return None;
    }
    assert(bytes@.skip(at as int).skip(1) =~= bytes@.skip(at + 1));
    Some((bytes[at], at + 1))
}

/// Reads a 16-bit number at a position.
pub(crate) fn get16(bytes: &Vec<u8>, at: usize) -> (got: Option<(u16, usize)>)
    requires
        at <= bytes@.len(),
    ensures
        read_at(got, bytes@, at, read16(bytes@.skip(at as int))),
{
    if bytes.len() - at < 2 {
        return None;
    }
    assert(bytes@.skip(at as int).skip(2) =~= bytes@.skip(at + 2));
    let n: u16 = bytes[at] as u16 + 256 * (bytes[at + 1] as u16);
    Some((n, at + 2))
}

/// Reads a 32-bit number at a position.
pub(crate) fn get32(bytes: &Vec<u8>, at: usize) -> (got: Option<(u32, usize)>)
    requires
        at <= bytes@.len(),
    ensures
        read_at(got, bytes@, at, read32(bytes@.skip(at as int))),
{
    if bytes.len() - at < 4 {
        return None;
    }
    assert(bytes@.skip(at as int).skip(4) =~= bytes@.skip(at + 4));
    let n: u32 = bytes[at] as u32 + 256 * (bytes[at + 1] as u32) + 65536 * (bytes[at + 2] as u32) + 16777216 * (
    bytes[at + 3] as u32);
    Some((n, at + 4))
}

/// Reads a digest at a position.
pub(crate) fn get_digest(bytes: &Vec<u8>, at: usize) -> (got: Option<(Digest, usize)>)
    requires
        at <= bytes@.len(),
    ensures
        read_at(got, bytes@, at, read_digest(bytes@.skip(at as int))),
{
    if bytes.len() - at < 32 {
        return None;
    }
    let mut digest: Digest = [0u8; 32];
    let mut k: usize = 0;
    while k < 32
        invariant
            k <= 32,
            at + 32 <= bytes@.len() <= usize::MAX,
            forall|j: int| 0 <= j < k ==> digest@[j] == bytes@[at + j],
        decreases 32 - k,
    {
        digest[k] = bytes[at + k];
        k += 1;
    }
    proof {
        let here = bytes@.skip(at as int);
        assert(digest@ =~= here.take(32));
        assert(digest_from(here.take(32))@ == digest@);
        assert(digest_from(here.take(32)) == digest);
        assert(here.skip(32) =~= bytes@.skip(at + 32));
    }
    Some((digest, at + 32))
}

/// Reads a byte string behind its length at a position.
pub(crate) fn get_framed(bytes: &Vec<u8>, at: usize) -> (got: Option<(Vec<u8>, usize)>)
    requires
        at <= bytes@.len(),
    ensures
        match (got, read_framed(bytes@.skip(at as int))) {
            (Some((data, next)), Some((wanted, rest))) => data@ == wanted && at <= next <= bytes@.len() && rest
                == bytes@.skip(next as int),
            (None, None) => true,
            _ => false,
        },
{
    let (len, start) = match get16(bytes, at) {
        Some(found) => found,
        None => {
            return None;
        },
    };
    let len = len as usize;
    if bytes.len() - start < len {
        return None;
    }
    let mut data: Vec<u8> = Vec::new();
    let mut k: usize = 0;
    while k < len
        invariant
            k <= len,
            start + len <= bytes@.len() <= usize::MAX,
            data@.len() == k,
            forall|j: int| 0 <= j < k ==> data@[j] == bytes@[start + j],
        decreases len - k,
    {
        data.push(bytes[start + k]);
        k += 1;
    }
    proof {
        let rest = bytes@.skip(start as int);
        assert(data@ =~= rest.take(len as int));
        assert(rest.skip(len as int) =~= bytes@.skip(start + len));
    }
    Some((data, start + len))
}

} // verus!
