//! Encoder/decoder: pure conversions between priorities and fixed-width
//! sortable keys, and between payloads and length-prefixed records.
//!
//! A priority key is the 8-byte big-endian serialization of a `u64`.
//! An element record is one length byte followed by exactly that many
//! payload bytes; a bucket is a concatenation of such records.

use vstd::prelude::*;

verus! {

/// The longest payload a record can carry: its length must fit in the
/// single length byte of the record header.
pub const MAX_PAYLOAD_LEN: usize = 255;

/// How an operation on the queue or on an encoded value can fail.
#[derive(Clone, Copy, Debug, PartialEq, Eq, Structural)]
pub enum QueueError {
    /// A payload longer than [`MAX_PAYLOAD_LEN`] bytes was handed to the encoder.
    PayloadTooLarge,
    /// A store key is not exactly 8 bytes, so it cannot be a priority key.
    MalformedKey,
    /// A bucket is shorter than its own leading length byte declares.
    MalformedRecord,
}

/// The 8-byte big-endian serialization of a priority.
pub open spec fn spec_encode_priority(p: u64) -> Seq<u8> {
    seq![
        ((p >> 56) & 0xff) as u8,
        ((p >> 48) & 0xff) as u8,
        ((p >> 40) & 0xff) as u8,
        ((p >> 32) & 0xff) as u8,
        ((p >> 24) & 0xff) as u8,
        ((p >> 16) & 0xff) as u8,
        ((p >> 8) & 0xff) as u8,
        (p & 0xff) as u8,
    ]
}

/// The priority an 8-byte big-endian key stands for.
pub open spec fn spec_decode_priority(k: Seq<u8>) -> u64
    recommends
        k.len() == 8,
{
    ((k[0] as u64) << 56) | ((k[1] as u64) << 48) | ((k[2] as u64) << 40) | ((k[3] as u64) << 32)
        | ((k[4] as u64) << 24) | ((k[5] as u64) << 16) | ((k[6] as u64) << 8) | (k[7] as u64)
}

/// Decoding undoes encoding: every priority survives the round trip
/// through its 8-byte key.
pub proof fn lemma_decode_encode(p: u64)
    ensures
        spec_decode_priority(spec_encode_priority(p)) == p,
{
    assert(((((p >> 56) & 0xff) as u8 as u64) << 56) | ((((p >> 48) & 0xff) as u8 as u64) << 48)
        | ((((p >> 40) & 0xff) as u8 as u64) << 40) | ((((p >> 32) & 0xff) as u8 as u64) << 32)
        | ((((p >> 24) & 0xff) as u8 as u64) << 24) | ((((p >> 16) & 0xff) as u8 as u64) << 16)
        | ((((p >> 8) & 0xff) as u8 as u64) << 8) | ((p & 0xff) as u8 as u64) == p)
        by (bit_vector);
}

/// Encoding undoes decoding: every 8-byte key is the encoding of the
/// priority it decodes to.  Together with [`lemma_decode_encode`] this
/// makes the key encoding a bijection between priorities and 8-byte keys.
pub proof fn lemma_encode_decode(k: Seq<u8>)
    requires
        k.len() == 8,
    ensures
        spec_encode_priority(spec_decode_priority(k)) == k,
{
    let b0 = k[0];
    let b1 = k[1];
    let b2 = k[2];
    let b3 = k[3];
    let b4 = k[4];
    let b5 = k[5];
    let b6 = k[6];
    let b7 = k[7];
    let p = spec_decode_priority(k);
    assert(p == ((b0 as u64) << 56) | ((b1 as u64) << 48) | ((b2 as u64) << 40) | ((b3 as u64)
        << 32) | ((b4 as u64) << 24) | ((b5 as u64) << 16) | ((b6 as u64) << 8) | (b7 as u64));
    assert({
        let q = ((b0 as u64) << 56) | ((b1 as u64) << 48) | ((b2 as u64) << 40) | ((b3 as u64)
            << 32) | ((b4 as u64) << 24) | ((b5 as u64) << 16) | ((b6 as u64) << 8) | (b7 as u64);
        ((q >> 56) & 0xff) as u8 == b0 && ((q >> 48) & 0xff) as u8 == b1 && ((q >> 40) & 0xff) as u8
            == b2 && ((q >> 32) & 0xff) as u8 == b3 && ((q >> 24) & 0xff) as u8 == b4 && ((q >> 16)
            & 0xff) as u8 == b5 && ((q >> 8) & 0xff) as u8 == b6 && (q & 0xff) as u8 == b7
    }) by (bit_vector);
    assert(spec_encode_priority(p) =~= k);
}

/// Distinct priorities have distinct keys.
pub proof fn lemma_encode_injective(p1: u64, p2: u64)
    requires
        spec_encode_priority(p1) == spec_encode_priority(p2),
    ensures
        p1 == p2,
{
    lemma_decode_encode(p1);
    lemma_decode_encode(p2);
}

/// Whether key `a` comes before key `b` in lexicographic byte order;
/// meant for two keys of one length.
pub open spec fn key_lex_lt(a: Seq<u8>, b: Seq<u8>) -> bool
    recommends
        a.len() == b.len(),
    decreases a.len(),
{
    if a.len() == 0 || b.len() == 0 {
        false
    } else if a[0] < b[0] {
        true
    } else if a[0] == b[0] {
        key_lex_lt(a.skip(1), b.skip(1))
    } else {
        false
    }
}

/// Whether the keys' tails from byte `k` on differ and order `a`
/// first, decided by the first differing byte.
spec fn tail_lex_lt(a: Seq<u8>, b: Seq<u8>, k: int) -> bool
    recommends
        a.len() == 8,
        b.len() == 8,
        0 <= k <= 7,
    decreases 8 - k,
{
    if k >= 7 {
        a[7] < b[7]
    } else {
        a[k] < b[k] || (a[k] == b[k] && tail_lex_lt(a, b, k + 1))
    }
}

/// On two 8-byte keys, lexicographic order is decided by the first
/// differing byte: [`key_lex_lt`], which walks shortening tails, agrees
/// with [`tail_lex_lt`], which walks byte positions.
proof fn lemma_key_lex_lt_unrolled(a: Seq<u8>, b: Seq<u8>)
    requires
        a.len() == 8,
        b.len() == 8,
    ensures
        key_lex_lt(a, b) <==> tail_lex_lt(a, b, 0),
{
    assert(a.skip(7) =~= seq![a[7]]);
    assert(b.skip(7) =~= seq![b[7]]);
    assert(a.skip(7).skip(1) =~= Seq::<u8>::empty());
    assert(b.skip(7).skip(1) =~= Seq::<u8>::empty());
    assert(!key_lex_lt(Seq::<u8>::empty(), Seq::<u8>::empty()));
    assert(a.skip(7)[0] == a[7]);
    assert(b.skip(7)[0] == b[7]);
    assert(key_lex_lt(a.skip(7), b.skip(7)) <==> a[7] < b[7]);
    assert(tail_lex_lt(a, b, 7) <==> a[7] < b[7]);
    assert(a.skip(6).skip(1) =~= a.skip(7));
    assert(b.skip(6).skip(1) =~= b.skip(7));
    assert(a.skip(6)[0] == a[6]);
    assert(b.skip(6)[0] == b[6]);
    assert(key_lex_lt(a.skip(6), b.skip(6)) <==> tail_lex_lt(a, b, 6));
    assert(a.skip(5).skip(1) =~= a.skip(6));
    assert(b.skip(5).skip(1) =~= b.skip(6));
    assert(a.skip(5)[0] == a[5]);
    assert(b.skip(5)[0] == b[5]);
    assert(key_lex_lt(a.skip(5), b.skip(5)) <==> tail_lex_lt(a, b, 5));
    assert(a.skip(4).skip(1) =~= a.skip(5));
    assert(b.skip(4).skip(1) =~= b.skip(5));
    assert(a.skip(4)[0] == a[4]);
    assert(b.skip(4)[0] == b[4]);
    assert(key_lex_lt(a.skip(4), b.skip(4)) <==> tail_lex_lt(a, b, 4));
    assert(a.skip(3).skip(1) =~= a.skip(4));
    assert(b.skip(3).skip(1) =~= b.skip(4));
    assert(a.skip(3)[0] == a[3]);
    assert(b.skip(3)[0] == b[3]);
    assert(key_lex_lt(a.skip(3), b.skip(3)) <==> tail_lex_lt(a, b, 3));
    assert(a.skip(2).skip(1) =~= a.skip(3));
    assert(b.skip(2).skip(1) =~= b.skip(3));
    assert(a.skip(2)[0] == a[2]);
    assert(b.skip(2)[0] == b[2]);
    assert(key_lex_lt(a.skip(2), b.skip(2)) <==> tail_lex_lt(a, b, 2));
    assert(a.skip(1).skip(1) =~= a.skip(2));
    assert(b.skip(1).skip(1) =~= b.skip(2));
    assert(a.skip(1)[0] == a[1]);
    assert(b.skip(1)[0] == b[1]);
    assert(key_lex_lt(a.skip(1), b.skip(1)) <==> tail_lex_lt(a, b, 1));
    assert(a.skip(0).skip(1) =~= a.skip(1));
    assert(b.skip(0).skip(1) =~= b.skip(1));
    assert(a.skip(0)[0] == a[0]);
    assert(b.skip(0)[0] == b[0]);
    assert(key_lex_lt(a.skip(0), b.skip(0)) <==> tail_lex_lt(a, b, 0));
    assert(a.skip(0) =~= a);
    assert(b.skip(0) =~= b);
}

/// Unsigned numeric order on priorities equals lexicographic byte order
/// on their keys: this is what the fixed-width big-endian serialization
/// is for, and what a scan that compared keys byte by byte instead of
/// decoding them would silently depend on.
pub proof fn lemma_key_order_matches_priority_order(p1: u64, p2: u64)
    ensures
        p1 < p2 <==> key_lex_lt(spec_encode_priority(p1), spec_encode_priority(p2)),
{
    let a = spec_encode_priority(p1);
    let b = spec_encode_priority(p2);
    lemma_key_lex_lt_unrolled(a, b);
    let x0 = a[0];
    let x1 = a[1];
    let x2 = a[2];
    let x3 = a[3];
    let x4 = a[4];
    let x5 = a[5];
    let x6 = a[6];
    let x7 = a[7];
    let y0 = b[0];
    let y1 = b[1];
    let y2 = b[2];
    let y3 = b[3];
    let y4 = b[4];
    let y5 = b[5];
    let y6 = b[6];
    let y7 = b[7];
    assert(p1 < p2 <==> (x0 < y0 || (x0 == y0 && (x1 < y1 || (x1 == y1 && (x2 < y2 || (x2 == y2 && (x3 < y3 || (x3 == y3 && (x4 < y4 || (x4 == y4 && (x5 < y5 || (x5 == y5 && (x6 < y6 || (x6 == y6 && (x7 < y7)))))))))))))))) by (bit_vector)
        requires
            x0 == ((p1 >> 56) & 0xff) as u8,
            x1 == ((p1 >> 48) & 0xff) as u8,
            x2 == ((p1 >> 40) & 0xff) as u8,
            x3 == ((p1 >> 32) & 0xff) as u8,
            x4 == ((p1 >> 24) & 0xff) as u8,
            x5 == ((p1 >> 16) & 0xff) as u8,
            x6 == ((p1 >> 8) & 0xff) as u8,
            x7 == (p1 & 0xff) as u8,
            y0 == ((p2 >> 56) & 0xff) as u8,
            y1 == ((p2 >> 48) & 0xff) as u8,
            y2 == ((p2 >> 40) & 0xff) as u8,
            y3 == ((p2 >> 32) & 0xff) as u8,
            y4 == ((p2 >> 24) & 0xff) as u8,
            y5 == ((p2 >> 16) & 0xff) as u8,
            y6 == ((p2 >> 8) & 0xff) as u8,
            y7 == (p2 & 0xff) as u8,
    ;
    assert(tail_lex_lt(a, b, 7) <==> x7 < y7);
    assert(tail_lex_lt(a, b, 6) <==> (x6 < y6 || (x6 == y6 && tail_lex_lt(a, b, 7))));
    assert(tail_lex_lt(a, b, 5) <==> (x5 < y5 || (x5 == y5 && tail_lex_lt(a, b, 6))));
    assert(tail_lex_lt(a, b, 4) <==> (x4 < y4 || (x4 == y4 && tail_lex_lt(a, b, 5))));
    assert(tail_lex_lt(a, b, 3) <==> (x3 < y3 || (x3 == y3 && tail_lex_lt(a, b, 4))));
    assert(tail_lex_lt(a, b, 2) <==> (x2 < y2 || (x2 == y2 && tail_lex_lt(a, b, 3))));
    assert(tail_lex_lt(a, b, 1) <==> (x1 < y1 || (x1 == y1 && tail_lex_lt(a, b, 2))));
    assert(tail_lex_lt(a, b, 0) <==> (x0 < y0 || (x0 == y0 && tail_lex_lt(a, b, 1))));
}

/// Serializes a priority into its 8-byte big-endian key.  Total.
pub fn encode_priority(p: u64) -> (k: Vec<u8>)
    ensures
        k@ == spec_encode_priority(p),
{
    let mut k: Vec<u8> = Vec::new();
    k.push(((p >> 56) & 0xff) as u8);
    k.push(((p >> 48) & 0xff) as u8);
    k.push(((p >> 40) & 0xff) as u8);
    k.push(((p >> 32) & 0xff) as u8);
    k.push(((p >> 24) & 0xff) as u8);
    k.push(((p >> 16) & 0xff) as u8);
    k.push(((p >> 8) & 0xff) as u8);
    k.push((p & 0xff) as u8);
    proof {
        assert(k@ =~= spec_encode_priority(p));
    }
    k
}

/// Reads a priority back out of a key.  Fails with `MalformedKey` if and
/// only if the key is not exactly 8 bytes long.
pub fn decode_priority(k: &Vec<u8>) -> (r: Result<u64, QueueError>)
    ensures
        k@.len() == 8 ==> r == Ok::<u64, QueueError>(spec_decode_priority(k@)),
        k@.len() != 8 ==> r == Err::<u64, QueueError>(QueueError::MalformedKey),
{
    if k.len() != 8 {
        return Err(QueueError::MalformedKey);
    }
    let p: u64 = ((k[0] as u64) << 56) | ((k[1] as u64) << 48) | ((k[2] as u64) << 40) | ((k[3]
        as u64) << 32) | ((k[4] as u64) << 24) | ((k[5] as u64) << 16) | ((k[6] as u64) << 8) | (
    k[7] as u64);
    Ok(p)
}

/// The length-prefixed record for a payload: one length byte, then the
/// payload itself.  Meaningful only for payloads of at most
/// [`MAX_PAYLOAD_LEN`] bytes.
pub open spec fn spec_encode_record(payload: Seq<u8>) -> Seq<u8>
    recommends
        payload.len() <= MAX_PAYLOAD_LEN,
{
    seq![payload.len() as u8] + payload
}

/// Whether a bucket starts with a complete record: it has a length byte,
/// and at least as many bytes after it as that byte declares.
pub open spec fn spec_front_ok(bucket: Seq<u8>) -> bool {
    bucket.len() >= 1 && bucket.len() >= 1 + (bucket[0] as int)
}

/// The payload of the front record of a bucket.
pub open spec fn spec_front_payload(bucket: Seq<u8>) -> Seq<u8>
    recommends
        spec_front_ok(bucket),
{
    bucket.subrange(1, 1 + (bucket[0] as int))
}

/// What remains of a bucket once its front record is removed.
pub open spec fn spec_front_rest(bucket: Seq<u8>) -> Seq<u8>
    recommends
        spec_front_ok(bucket),
{
    bucket.skip(1 + (bucket[0] as int))
}

/// Prepends the length byte to a payload.  Fails with `PayloadTooLarge`
/// if and only if the payload is longer than [`MAX_PAYLOAD_LEN`] bytes.
pub fn encode_record(payload: &Vec<u8>) -> (r: Result<Vec<u8>, QueueError>)
    ensures
        payload@.len() <= MAX_PAYLOAD_LEN ==> (r matches Ok(rec) && rec@ == spec_encode_record(
            payload@,
        )),
        payload@.len() > MAX_PAYLOAD_LEN ==> r == Err::<Vec<u8>, QueueError>(
            QueueError::PayloadTooLarge,
        ),
{
    if payload.len() > MAX_PAYLOAD_LEN {
        return Err(QueueError::PayloadTooLarge);
    }
    let mut rec: Vec<u8> = Vec::new();
    rec.push(payload.len() as u8);
    let mut i: usize = 0;
    while i < payload.len()
        invariant
            i <= payload@.len(),
            payload@.len() <= MAX_PAYLOAD_LEN,
            rec@ == seq![payload@.len() as u8] + payload@.subrange(0, i as int),
        decreases payload@.len() - i,
    {
        rec.push(payload[i]);
        proof {
            assert(rec@ =~= seq![payload@.len() as u8] + payload@.subrange(0, i + 1));
        }
        i = i + 1;
    }
    proof {
        assert(rec@ =~= spec_encode_record(payload@));
    }
    Ok(rec)
}

/// Splits the front record off a bucket: the payload the record carries,
/// and the rest of the bucket.  Fails with `MalformedRecord` if and only
/// if the bucket is shorter than its leading length byte declares (an
/// empty bucket has no length byte at all and also fails).
pub fn decode_front_record(bucket: &Vec<u8>) -> (r: Result<(Vec<u8>, Vec<u8>), QueueError>)
    ensures
        spec_front_ok(bucket@) ==> (r matches Ok(pr) && pr.0@ == spec_front_payload(bucket@)
            && pr.1@ == spec_front_rest(bucket@)),
        !spec_front_ok(bucket@) ==> r == Err::<(Vec<u8>, Vec<u8>), QueueError>(
            QueueError::MalformedRecord,
        ),
{
    if bucket.len() == 0 {
        return Err(QueueError::MalformedRecord);
    }
    let n: usize = bucket[0] as usize;
    if bucket.len() < 1 + n {
        return Err(QueueError::MalformedRecord);
    }
    let mut payload: Vec<u8> = Vec::new();
    let mut i: usize = 1;
    while i < 1 + n
        invariant
            1 <= i <= 1 + n,
            n == bucket@[0] as int,
            bucket@.len() >= 1 + n,
            payload@ == bucket@.subrange(1, i as int),
        decreases 1 + n - i,
    {
        payload.push(bucket[i]);
        proof {
            assert(payload@ =~= bucket@.subrange(1, i + 1));
        }
        i = i + 1;
    }
    let mut rest: Vec<u8> = Vec::new();
    let mut j: usize = 1 + n;
    while j < bucket.len()
        invariant
            1 + n <= j <= bucket@.len(),
            n == bucket@[0] as int,
            rest@ == bucket@.subrange(1 + n, j as int),
        decreases bucket@.len() - j,
    {
        rest.push(bucket[j]);
        proof {
            assert(rest@ =~= bucket@.subrange(1 + n, j + 1));
        }
        j = j + 1;
    }
    proof {
        assert(payload@ =~= spec_front_payload(bucket@));
        assert(rest@ =~= spec_front_rest(bucket@));
    }
    Ok((payload, rest))
}

/// Whether a byte sequence is a well-formed bucket: a concatenation of
/// zero or more complete length-prefixed records.
pub open spec fn bucket_wf(b: Seq<u8>) -> bool
    decreases b.len(),
{
    b.len() == 0 || (spec_front_ok(b) && bucket_wf(spec_front_rest(b)))
}

/// The payloads a well-formed bucket carries, front record first.
pub open spec fn bucket_payloads(b: Seq<u8>) -> Seq<Seq<u8>>
    recommends
        bucket_wf(b),
    decreases b.len(),
{
    if b.len() == 0 {
        Seq::empty()
    } else if spec_front_ok(b) {
        seq![spec_front_payload(b)] + bucket_payloads(spec_front_rest(b))
    } else {
        Seq::empty()
    }
}

/// A well-formed bucket carries a payload exactly when it has any bytes,
/// and its first payload is the payload of its front record.
pub proof fn lemma_bucket_payloads_front(b: Seq<u8>)
    requires
        bucket_wf(b),
    ensures
        bucket_payloads(b).len() == 0 <==> b.len() == 0,
        b.len() > 0 ==> bucket_payloads(b)[0] == spec_front_payload(b),
        b.len() > 0 ==> bucket_payloads(spec_front_rest(b)) == bucket_payloads(b).skip(1),
{
    if b.len() > 0 {
        assert(bucket_payloads(b) == seq![spec_front_payload(b)] + bucket_payloads(
            spec_front_rest(b),
        ));
        assert(bucket_payloads(spec_front_rest(b)) =~= bucket_payloads(b).skip(1));
    }
}

/// Appending one record to a well-formed bucket keeps it well formed and
/// appends the record's payload to the payloads the bucket carries.
pub proof fn lemma_bucket_append_record(b: Seq<u8>, payload: Seq<u8>)
    requires
        bucket_wf(b),
        payload.len() <= MAX_PAYLOAD_LEN,
    ensures
        bucket_wf(b + spec_encode_record(payload)),
        bucket_payloads(b + spec_encode_record(payload)) == bucket_payloads(b).push(payload),
    decreases b.len(),
{
    let rec = spec_encode_record(payload);
    lemma_record_round_trip(payload);
    if b.len() == 0 {
        assert(b + rec =~= rec);
        assert(bucket_wf(Seq::<u8>::empty()));
        assert(bucket_payloads(Seq::<u8>::empty()) == Seq::<Seq<u8>>::empty());
        assert(bucket_wf(rec));
        assert(bucket_payloads(rec) =~= bucket_payloads(b).push(payload));
    } else {
        let c = b + rec;
        assert(c[0] == b[0]);
        assert(spec_front_ok(c));
        assert(spec_front_payload(c) =~= spec_front_payload(b));
        assert(spec_front_rest(c) =~= spec_front_rest(b) + rec);
        lemma_bucket_append_record(spec_front_rest(b), payload);
        assert(bucket_payloads(c) == seq![spec_front_payload(c)] + bucket_payloads(
            spec_front_rest(c),
        ));
        assert(bucket_payloads(c) =~= bucket_payloads(b).push(payload));
    }
}

/// A payload of at most [`MAX_PAYLOAD_LEN`] bytes survives the record
/// round trip: decoding the front of its record yields the payload back
/// with nothing left over, so re-encoding that payload rebuilds the very
/// same record.
pub proof fn lemma_record_round_trip(payload: Seq<u8>)
    requires
        payload.len() <= MAX_PAYLOAD_LEN,
    ensures
        spec_front_ok(spec_encode_record(payload)),
        spec_front_payload(spec_encode_record(payload)) == payload,
        spec_front_rest(spec_encode_record(payload)) == Seq::<u8>::empty(),
        spec_encode_record(spec_front_payload(spec_encode_record(payload))) == spec_encode_record(
            payload,
        ),
{
    let rec = spec_encode_record(payload);
    assert(rec[0] == payload.len() as u8);
    assert(rec[0] as int == payload.len());
    assert(spec_front_payload(rec) =~= payload);
    assert(spec_front_rest(rec) =~= Seq::<u8>::empty());
}

} // verus!
