//! The byte layout of postings and of dictionary cursors.
use crate::bytes::{lemma_varint_u64_round_trip, be_bytes, from_be_bytes, read_be_u64, varint_u64, variable_load, CountedWriter, U8Provider};
use crate::listmap::{sorted_keys, CommonSegments, SortedLinkedMap, UsageData};
use crate::varint::varint_encode;
use vstd::prelude::*;

verus! {

/// The low `n` bytes of a zone mask, least significant first.
pub open spec fn mask_bytes(bits: u64, n: nat) -> Seq<u8> {
    Seq::new(n, |i: int| (bits >> (8 * i) as u64) as u8)
}

/// `bits` fits in `n` bytes.
pub open spec fn mask_fits(bits: u64, n: nat) -> bool {
    n >= 8 || bits < (1u64 << (8 * n) as u64)
}

/// Byte `k` of `x`, least significant first.
pub open spec fn byte_of(x: u64, k: nat) -> u8 {
    (x >> (8 * k) as u64) as u8
}

proof fn lemma_byte_zero(x: u64, s: u64, t: u64)
    requires
        s <= t < 64,
        x < (1u64 << s),
    ensures
        (x >> t) as u8 == 0,
{
    assert((x >> t) as u8 == 0) by (bit_vector)
        requires
            s <= t < 64,
            x < (1u64 << s),
    ;
}

proof fn lemma_bytes_eq(x: u64, y: u64)
    requires
        (x >> 0u64) as u8 == (y >> 0u64) as u8,
        (x >> 8u64) as u8 == (y >> 8u64) as u8,
        (x >> 16u64) as u8 == (y >> 16u64) as u8,
        (x >> 24u64) as u8 == (y >> 24u64) as u8,
        (x >> 32u64) as u8 == (y >> 32u64) as u8,
        (x >> 40u64) as u8 == (y >> 40u64) as u8,
        (x >> 48u64) as u8 == (y >> 48u64) as u8,
        (x >> 56u64) as u8 == (y >> 56u64) as u8,
    ensures
        x == y,
{
    assert(x == y) by (bit_vector)
        requires
            (x >> 0u64) as u8 == (y >> 0u64) as u8,
            (x >> 8u64) as u8 == (y >> 8u64) as u8,
            (x >> 16u64) as u8 == (y >> 16u64) as u8,
            (x >> 24u64) as u8 == (y >> 24u64) as u8,
            (x >> 32u64) as u8 == (y >> 32u64) as u8,
            (x >> 40u64) as u8 == (y >> 40u64) as u8,
            (x >> 48u64) as u8 == (y >> 48u64) as u8,
            (x >> 56u64) as u8 == (y >> 56u64) as u8,
    ;
}

/// A mask that fits in `n` bytes is the only one with those bytes.
pub proof fn lemma_mask_unique(x: u64, y: u64, n: nat)
    requires
        1 <= n <= 8,
        mask_fits(x, n),
        mask_fits(y, n),
        mask_bytes(x, n) == mask_bytes(y, n),
    ensures
        x == y,
{
    assert forall|k: nat| k < 8 implies #[trigger] byte_of(x, k) == byte_of(y, k) by {
        if k < n {
            assert(mask_bytes(x, n)[k as int] == mask_bytes(y, n)[k as int]);
            assert(mask_bytes(x, n)[k as int] == byte_of(x, k));
            assert(mask_bytes(y, n)[k as int] == byte_of(y, k));
        } else {
            assert(n < 8);
            assert(x < (1u64 << (8 * n) as u64));
            lemma_byte_zero(x, (8 * n) as u64, (8 * k) as u64);
            lemma_byte_zero(y, (8 * n) as u64, (8 * k) as u64);
        }
    }
    assert(byte_of(x, 0) == byte_of(y, 0));
    assert(byte_of(x, 1) == byte_of(y, 1));
    assert(byte_of(x, 2) == byte_of(y, 2));
    assert(byte_of(x, 3) == byte_of(y, 3));
    assert(byte_of(x, 4) == byte_of(y, 4));
    assert(byte_of(x, 5) == byte_of(y, 5));
    assert(byte_of(x, 6) == byte_of(y, 6));
    assert(byte_of(x, 7) == byte_of(y, 7));
    lemma_bytes_eq(x, y);
}

/// How many bytes a zone mask of `zones` zones takes.
pub open spec fn mask_len_for(zones: nat) -> nat {
    (zones + 7) / 8
}

proof fn lemma_mask_extend(acc: u64, b: u8, i: u64)
    requires
        i < 8,
        acc < (1u64 << (8 * i)),
    ensures
        ((acc | ((b as u64) << (8 * i))) >> (8 * i)) as u8 == b,
        i < 7 ==> (acc | ((b as u64) << (8 * i))) < (1u64 << (8 * (i + 1))),
{
    let s: u64 = (8 * i) as u64;
    assert(s <= 56);
    assert(((acc | ((b as u64) << s)) >> s) as u8 == b) by (bit_vector)
        requires
            s <= 56,
            acc < (1u64 << s),
    ;
    if i < 7 {
        assert((acc | ((b as u64) << s)) < (1u64 << (s + 8))) by (bit_vector)
            requires
                s <= 48,
                acc < (1u64 << s),
        ;
    }
}

proof fn lemma_mask_keep(acc: u64, b: u8, i: u64, j: u64)
    requires
        j < i < 8,
    ensures
        ((acc | ((b as u64) << (8 * i))) >> (8 * j)) as u8 == (acc >> (8 * j)) as u8,
{
    let s: u64 = (8 * i) as u64;
    let t: u64 = (8 * j) as u64;
    assert(((acc | ((b as u64) << s)) >> t) as u8 == (acc >> t) as u8) by (bit_vector)
        requires
            s <= 56,
            t + 8 <= s,
    ;
}

/// Appends the low `n` bytes of `bits`, least significant first.
pub fn save_mask(bits: u64, n: usize, w: &mut CountedWriter)
    requires
        n <= 8,
    ensures
        final(w)@ == old(w)@ + mask_bytes(bits, n as nat),
{
    let mut i: usize = 0;
    while i < n
        invariant
            i <= n <= 8,
            w@ == old(w)@ + mask_bytes(bits, i as nat),
        decreases n - i,
    {
        w.push_u8((bits >> (8 * i) as u64) as u8);
        i = i + 1;
        assert(w@ =~= old(w)@ + mask_bytes(bits, i as nat));
    }
}

/// Reads a zone mask of `n` bytes, least significant first.
pub fn load_mask<R: U8Provider>(reader: &mut R, n: usize) -> (r: Option<u64>)
    requires
        1 <= n <= 8,
    ensures
        final(reader).contents() == old(reader).contents(),
        old(reader).remaining().len() < n ==> r is None,
        old(reader).remaining().len() >= n ==> r is Some && mask_bytes(r->0, n as nat) == old(reader).remaining().take(n as int) && final(reader).remaining() == old(reader).remaining().skip(n as int),
        r is Some ==> mask_fits(r->0, n as nat),
{
    let bytes = match reader.take(n) {
        Some(b) => b,
        None => {
            return None;
        },
    };
    let mut acc: u64 = 0;
    let mut i: usize = 0;
    proof {
        assert(0u64 < (1u64 << 0u64)) by (bit_vector);
    }
    while i < n
        invariant
            reader.contents() == old(reader).contents(),
            i <= n <= 8,
            bytes@.len() == n,
            i < 8 ==> acc < (1u64 << (8 * i) as u64),
            mask_bytes(acc, i as nat) == bytes@.take(i as int),
        decreases n - i,
    {
        let ghost old_acc = acc;
        proof {
            lemma_mask_extend(acc, bytes@[i as int], i as u64);
        }
        acc = acc | ((bytes[i] as u64) << (8 * i) as u64);
        i = i + 1;
        proof {
            assert forall|j: int| 0 <= j < i implies mask_bytes(acc, i as nat)[j] == bytes@.take(
                i as int,
            )[j] by {
                if j < i - 1 {
                    assert(mask_bytes(old_acc, (i - 1) as nat)[j] == bytes@[j]);
                    lemma_mask_keep(old_acc, bytes@[i - 1], (i - 1) as u64, j as u64);
                    assert((acc >> (8 * j) as u64) as u8 == (old_acc >> (8 * j) as u64) as u8);
                }
            }
            assert(mask_bytes(acc, i as nat) =~= bytes@.take(i as int));
        }
    }
    assert(bytes@.take(n as int) =~= bytes@);
    Some(acc)
}

/// One posting: its occurrence count, then its zone mask.
pub open spec fn posting_bytes(u: UsageData, n: nat) -> Seq<u8> {
    varint_encode(u.use_count as nat) + mask_bytes(u.segments.bits, n)
}

/// The postings of `e` with the gap to the next document after each one;
/// the last gap leads to `next`.
pub open spec fn postings_open(e: Seq<(u64, UsageData)>, next: u64, n: nat) -> Seq<u8>
    decreases e.len(),
{
    if e.len() == 0 {
        seq![]
    } else {
        let nk = if e.len() > 1 {
            e[1].0
        } else {
            next
        };
        posting_bytes(e[0].1, n) + varint_encode((nk - e[0].0) as nat) + postings_open(
            e.drop_first(),
            next,
            n,
        )
    }
}

/// The postings of `e` with the gap to the next document between each two.
pub open spec fn postings_body(e: Seq<(u64, UsageData)>, n: nat) -> Seq<u8>
    decreases e.len(),
{
    if e.len() == 0 {
        seq![]
    } else if e.len() == 1 {
        posting_bytes(e[0].1, n)
    } else {
        posting_bytes(e[0].1, n) + varint_encode((e[1].0 - e[0].0) as nat) + postings_body(
            e.drop_first(),
            n,
        )
    }
}

/// A posting list on disk: the count, the first document id, then the
/// postings with the gaps between their documents.
pub open spec fn postings_bytes(e: Seq<(u64, UsageData)>, n: nat) -> Seq<u8> {
    varint_encode(e.len()) + if e.len() == 0 {
        seq![]
    } else {
        varint_encode(e[0].0 as nat) + postings_body(e, n)
    }
}

proof fn lemma_open_push(e: Seq<(u64, UsageData)>, x: (u64, UsageData), next: u64, n: nat)
    ensures
        postings_open(e.push(x), next, n) == postings_open(e, x.0, n) + posting_bytes(x.1, n)
            + varint_encode((next - x.0) as nat),
    decreases e.len(),
{
    if e.len() == 0 {
        let ex = e.push(x);
        assert(ex.drop_first() =~= Seq::<(u64, UsageData)>::empty());
        assert(ex.len() == 1 && ex[0] == x);
        assert(postings_open(ex.drop_first(), next, n) == Seq::<u8>::empty());
        assert(postings_open(e, x.0, n) == Seq::<u8>::empty());
        assert(postings_open(ex, next, n) =~= posting_bytes(x.1, n) + varint_encode(
            (next - x.0) as nat,
        ));
    } else {
        assert(e.push(x).drop_first() =~= e.drop_first().push(x));
        lemma_open_push(e.drop_first(), x, next, n);
        assert(postings_open(e.push(x), next, n) =~= postings_open(e, x.0, n) + posting_bytes(
            x.1,
            n,
        ) + varint_encode((next - x.0) as nat));
    }
}

proof fn lemma_body_push(e: Seq<(u64, UsageData)>, x: (u64, UsageData), n: nat)
    ensures
        postings_body(e.push(x), n) == postings_open(e, x.0, n) + posting_bytes(x.1, n),
    decreases e.len(),
{
    if e.len() == 0 {
        assert(postings_open(e, x.0, n) =~= seq![]);
        assert(postings_body(e.push(x), n) =~= postings_open(e, x.0, n) + posting_bytes(x.1, n));
    } else {
        assert(e.push(x).drop_first() =~= e.drop_first().push(x));
        lemma_body_push(e.drop_first(), x, n);
        assert(postings_body(e.push(x), n) =~= postings_open(e, x.0, n) + posting_bytes(x.1, n));
    }
}

/// Appends one posting.
pub fn save_posting(u: &UsageData, n: usize, w: &mut CountedWriter)
    requires
        n <= 8,
    ensures
        final(w)@ == old(w)@ + posting_bytes(*u, n as nat),
{
    w.push_variable_u64(u.use_count);
    save_mask(u.segments.bits, n, w);
    assert(w@ =~= old(w)@ + posting_bytes(*u, n as nat));
}

/// Appends the posting list of `map`.
pub fn save_postings(map: &SortedLinkedMap, n: usize, w: &mut CountedWriter)
    requires
        map.wf(),
        n <= 8,
    ensures
        final(w)@ == old(w)@ + postings_bytes(map.entries_seq(), n as nat),
{
    let e = map.entries();
    let len = e.len();
    w.push_variable_u64(len as u64);
    if len == 0 {
        assert(w@ =~= old(w)@ + postings_bytes(map.entries_seq(), n as nat));
        return;
    }
    w.push_variable_u64(e[0].0);
    let ghost head = w@;
    let mut i: usize = 0;
    assert(e@.skip(0) =~= e@);
    while i < len
        invariant
            e@ == map.entries_seq(),
            sorted_keys(e@),
            len == e@.len(),
            len > 0,
            i <= len,
            n <= 8,
            head == old(w)@ + varint_encode(len as nat) + varint_encode(e@[0].0 as nat),
            i < len ==> head + postings_body(e@, n as nat) == w@ + postings_body(e@.skip(i as int), n as nat),
            i == len ==> w@ == head + postings_body(e@, n as nat),
        decreases len - i,
    {
        let ghost before = w@;
        let ghost rest = e@.skip(i as int);
        save_posting(&e[i].1, n, w);
        if i + 1 < len {
            assert(e@[i as int].0 < e@[i + 1].0);
            w.push_variable_u64(e[i + 1].0 - e[i].0);
            assert(rest.drop_first() =~= e@.skip(i + 1));
            assert(postings_body(rest, n as nat) == posting_bytes(rest[0].1, n as nat) + varint_encode(
                (rest[1].0 - rest[0].0) as nat,
            ) + postings_body(rest.drop_first(), n as nat));
            assert(before + postings_body(rest, n as nat) =~= w@ + postings_body(e@.skip(i + 1), n as nat));
        } else {
            assert(postings_body(rest, n as nat) == posting_bytes(rest[0].1, n as nat));
        }
        i = i + 1;
    }
    assert(w@ =~= old(w)@ + postings_bytes(map.entries_seq(), n as nat));
}

/// Reads one posting.
pub fn load_posting<R: U8Provider>(reader: &mut R, n: usize) -> (r: Option<UsageData>)
    requires
        1 <= n <= 8,
    ensures
        final(reader).contents() == old(reader).contents(),
        r is Some ==> old(reader).remaining() == posting_bytes(r->0, n as nat) + final(reader).remaining(),
        r is Some ==> mask_fits(r->0.segments.bits, n as nat),
        forall|u: UsageData, rest: Seq<u8>|
            old(reader).remaining() == #[trigger] (posting_bytes(u, n as nat) + rest) && mask_fits(
                u.segments.bits,
                n as nat,
            ) ==> r == Some(u) && final(reader).remaining() == rest,
{
    let ghost start = reader.remaining();
    let count = match variable_load(reader) {
        Some(c) => c,
        None => {
            proof {
                assert forall|u: UsageData, rest: Seq<u8>|
                    start == #[trigger] (posting_bytes(u, n as nat) + rest) implies !mask_fits(
                    u.segments.bits,
                    n as nat,
                ) by {
                    lemma_varint_u64_round_trip(u.use_count, mask_bytes(u.segments.bits, n as nat) + rest);
                    assert(start =~= varint_encode(u.use_count as nat) + (mask_bytes(u.segments.bits, n as nat) + rest));
                }
            }
            return None;
        },
    };
    let ghost mid = reader.remaining();
    proof {
        crate::bytes::lemma_varint_u64_consumed(start);
    }
    let bits = match load_mask(reader, n) {
        Some(b) => b,
        None => {
            proof {
                assert forall|u: UsageData, rest: Seq<u8>|
                    start == #[trigger] (posting_bytes(u, n as nat) + rest) implies !mask_fits(
                    u.segments.bits,
                    n as nat,
                ) by {
                    let tail = mask_bytes(u.segments.bits, n as nat) + rest;
                    lemma_varint_u64_round_trip(u.use_count, tail);
                    assert(start =~= varint_encode(u.use_count as nat) + tail);
                    assert(mid =~= tail);
                }
            }
            return None;
        },
    };
    let u = UsageData { use_count: count, segments: CommonSegments { bits } };
    assert(mid =~= mask_bytes(bits, n as nat) + reader.remaining());
    assert(start =~= posting_bytes(u, n as nat) + reader.remaining());
    proof {
        assert forall|v: UsageData, rest: Seq<u8>|
            start == #[trigger] (posting_bytes(v, n as nat) + rest) && mask_fits(
                v.segments.bits,
                n as nat,
            ) implies u == v && reader.remaining() == rest by {
            let tail = mask_bytes(v.segments.bits, n as nat) + rest;
            lemma_varint_u64_round_trip(v.use_count, tail);
            assert(start =~= varint_encode(v.use_count as nat) + tail);
            assert(mid =~= tail);
            assert(mid.take(n as int) =~= mask_bytes(v.segments.bits, n as nat));
            lemma_mask_unique(bits, v.segments.bits, n as nat);
            assert(reader.remaining() =~= rest);
        }
    }
    Some(u)
}

/// Document ids strictly ascending, a count that fits in a `u64`, and
/// zone masks that fit in `n` bytes: what a posting list must be to be
/// read back as it was written.
pub open spec fn postings_ok(e: Seq<(u64, UsageData)>, n: nat) -> bool {
    &&& sorted_keys(e)
    &&& e.len() <= u64::MAX
    &&& forall|i: int| 0 <= i < e.len() ==> mask_fits(#[trigger] e[i].1.segments.bits, n)
}

/// The postings of `e` from the one at `i` on, with the gaps between them.
pub open spec fn postings_tail(e: Seq<(u64, UsageData)>, i: int, n: nat) -> Seq<u8>
    decreases e.len() - i,
{
    if i < 0 || i >= e.len() {
        seq![]
    } else if i + 1 < e.len() {
        posting_bytes(e[i].1, n) + varint_encode((e[i + 1].0 - e[i].0) as nat) + postings_tail(
            e,
            i + 1,
            n,
        )
    } else {
        posting_bytes(e[i].1, n)
    }
}

/// What follows the posting at `i` when the list is followed by `rest`.
pub open spec fn after_posting(e: Seq<(u64, UsageData)>, i: int, rest: Seq<u8>, n: nat) -> Seq<u8> {
    if i + 1 < e.len() {
        varint_encode((e[i + 1].0 - e[i].0) as nat) + (postings_tail(e, i + 1, n) + rest)
    } else {
        rest
    }
}

proof fn lemma_tail_step(e: Seq<(u64, UsageData)>, i: int, rest: Seq<u8>, n: nat)
    requires
        0 <= i < e.len(),
    ensures
        postings_tail(e, i, n) + rest == posting_bytes(e[i].1, n) + after_posting(e, i, rest, n),
{
    assert(postings_tail(e, i, n) + rest =~= posting_bytes(e[i].1, n) + after_posting(e, i, rest, n));
}

proof fn lemma_body_tail(e: Seq<(u64, UsageData)>, i: int, n: nat)
    requires
        0 <= i <= e.len(),
    ensures
        postings_body(e.skip(i), n) == postings_tail(e, i, n),
    decreases e.len() - i,
{
    let s = e.skip(i);
    if i + 1 < e.len() {
        lemma_body_tail(e, i + 1, n);
        assert(s.drop_first() =~= e.skip(i + 1));
        assert(s[0] == e[i] && s[1] == e[i + 1]);
    } else if i + 1 == e.len() {
        assert(s.len() == 1 && s[0] == e[i]);
    } else {
        assert(s.len() == 0);
    }
}

proof fn lemma_first_posting(e: Seq<(u64, UsageData)>, rest: Seq<u8>, s: Seq<u8>, n: nat)
    requires
        e.len() > 0,
        s == varint_encode(e[0].0 as nat) + postings_body(e, n) + rest,
    ensures
        varint_u64(s) == Some((e[0].0, varint_encode(e[0].0 as nat).len())),
        s.skip(varint_encode(e[0].0 as nat).len() as int) == postings_tail(e, 0, n) + rest,
{
    lemma_varint_u64_round_trip(e[0].0, postings_body(e, n) + rest);
    assert(s =~= varint_encode(e[0].0 as nat) + (postings_body(e, n) + rest));
    lemma_body_tail(e, 0, n);
    assert(e.skip(0) =~= e);
    assert(s.skip(varint_encode(e[0].0 as nat).len() as int) =~= postings_tail(e, 0, n) + rest);
}

/// Where reading the posting list `e`, followed by `rest`, has got to:
/// `idx` postings read, `key` the document of the next one, `rem` unread.
pub open spec fn decoding_at(
    e: Seq<(u64, UsageData)>,
    rest: Seq<u8>,
    count: u64,
    entries: Seq<(u64, UsageData)>,
    idx: int,
    key: u64,
    rem: Seq<u8>,
    n: nat,
) -> bool {
    &&& count == e.len()
    &&& 0 <= idx <= e.len()
    &&& entries == e.take(idx)
    &&& idx < count ==> key == e[idx].0 && rem == postings_tail(e, idx, n) + rest
    &&& idx >= count ==> rem == rest
}

/// Reads a posting list. Document ids must ascend strictly and fit in a
/// `u64`; anything else gives `None`. A list written by `save_postings`
/// whose masks fit in `n` bytes is read back as it was.
#[verifier::spinoff_prover]
#[verifier::rlimit(50)]
pub fn load_postings<R: U8Provider>(reader: &mut R, n: usize) -> (r: Option<SortedLinkedMap>)
    requires
        1 <= n <= 8,
    ensures
        final(reader).contents() == old(reader).contents(),
        r is Some ==> r->0.wf() && old(reader).remaining() == postings_bytes(
            r->0.entries_seq(),
            n as nat,
        ) + final(reader).remaining(),
        forall|e: Seq<(u64, UsageData)>, rest: Seq<u8>|
            old(reader).remaining() == #[trigger] (postings_bytes(e, n as nat) + rest) && postings_ok(
                e,
                n as nat,
            ) ==> r is Some && r->0.entries_seq() == e && final(reader).remaining() == rest,
{
    let ghost start = reader.remaining();
    let ghost nn = n as nat;
    let count = match variable_load(reader) {
        Some(c) => c,
        None => {
            proof {
                assert forall|e: Seq<(u64, UsageData)>, rest: Seq<u8>|
                    start == #[trigger] (postings_bytes(e, nn) + rest) implies !postings_ok(e, nn) by {
                    if postings_ok(e, nn) {
                        let tail = (if e.len() == 0 { seq![] } else { varint_encode(e[0].0 as nat) + postings_body(e, nn) }) + rest;
                        lemma_varint_u64_round_trip(e.len() as u64, tail);
                        assert(start =~= varint_encode(e.len()) + tail);
                    }
                }
            }
            return None;
        },
    };
    proof {
        crate::bytes::lemma_varint_u64_consumed(start);
    }
    let ghost after_count = reader.remaining();
    proof {
        assert forall|e: Seq<(u64, UsageData)>, rest: Seq<u8>|
            start == #[trigger] (postings_bytes(e, nn) + rest) && postings_ok(e, nn) implies count
            == e.len() && after_count == (if e.len() == 0 {
            seq![]
        } else {
            varint_encode(e[0].0 as nat) + postings_body(e, nn)
        }) + rest by {
            let tail = (if e.len() == 0 { seq![] } else { varint_encode(e[0].0 as nat) + postings_body(e, nn) }) + rest;
            lemma_varint_u64_round_trip(e.len() as u64, tail);
            assert(start =~= varint_encode(e.len()) + tail);
            assert(after_count =~= tail);
        }
    }
    let mut entries: Vec<(u64, UsageData)> = Vec::new();
    if count == 0 {
        assert(start =~= postings_bytes(entries@, n as nat) + reader.remaining());
        proof {
            assert forall|e: Seq<(u64, UsageData)>, rest: Seq<u8>|
                start == #[trigger] (postings_bytes(e, nn) + rest) && postings_ok(e, nn) implies entries@ == e && reader.remaining() == rest by {
                assert(e =~= entries@);
                assert(after_count =~= rest);
            }
        }
        return Some(SortedLinkedMap::from_sorted(entries));
    }
    let first = match variable_load(reader) {
        Some(c) => c,
        None => {
            proof {
                assert forall|e: Seq<(u64, UsageData)>, rest: Seq<u8>|
                    start == #[trigger] (postings_bytes(e, nn) + rest) implies !postings_ok(e, nn) by {
                    if postings_ok(e, nn) {
                        lemma_varint_u64_round_trip(e[0].0, postings_body(e, nn) + rest);
                        assert(after_count =~= varint_encode(e[0].0 as nat) + (postings_body(e, nn) + rest));
                    }
                }
            }
            return None;
        },
    };
    proof {
        crate::bytes::lemma_varint_u64_consumed(after_count);
    }
    let ghost head = varint_encode(count as nat) + varint_encode(first as nat);
    assert(start =~= head + reader.remaining());
    let mut key: u64 = first;
    let mut idx: u64 = 0;
    proof {
        assert forall|e: Seq<(u64, UsageData)>, rest: Seq<u8>|
            start == #[trigger] (postings_bytes(e, nn) + rest) && postings_ok(e, nn) implies decoding_at(
            e,
            rest,
            count,
            entries@,
            0,
            key,
            reader.remaining(),
            nn,
        ) by {
            lemma_first_posting(e, rest, after_count, nn);
            assert(entries@ =~= e.take(0));
        }
    }
    while idx < count
        invariant
            reader.contents() == old(reader).contents(),
            1 <= n <= 8,
            nn == n as nat,
            start == old(reader).remaining(),
            idx <= count,
            entries@.len() == idx,
            sorted_keys(entries@),
            idx < count && entries@.len() > 0 ==> entries@.last().0 < key,
            entries@.len() == 0 ==> key == first,
            entries@.len() > 0 ==> entries@[0].0 == first,
            idx < count ==> start == head + postings_open(entries@, key, n as nat) + reader.remaining(),
            idx == count ==> start == head + postings_body(entries@, n as nat) + reader.remaining(),
            head == varint_encode(count as nat) + varint_encode(first as nat),
            forall|e: Seq<(u64, UsageData)>, rest: Seq<u8>|
                start == #[trigger] (postings_bytes(e, nn) + rest) && postings_ok(e, nn) ==> decoding_at(
                    e,
                    rest,
                    count,
                    entries@,
                    idx as int,
                    key,
                    reader.remaining(),
                    nn,
                ),
        decreases count - idx,
    {
        let ghost before = reader.remaining();
        let ghost entries0 = entries@;
        let ghost key0 = key;
        let u = match load_posting(reader, n) {
            Some(u) => u,
            None => {
                proof {
                    assert forall|e: Seq<(u64, UsageData)>, rest: Seq<u8>|
                        start == #[trigger] (postings_bytes(e, nn) + rest) implies !postings_ok(e, nn) by {
                        if postings_ok(e, nn) {
                            lemma_tail_step(e, idx as int, rest, nn);
                            assert(mask_fits(e[idx as int].1.segments.bits, nn));
                        }
                    }
                }
                return None;
            },
        };
        let ghost mid = reader.remaining();
        proof {
            assert forall|e: Seq<(u64, UsageData)>, rest: Seq<u8>|
                start == #[trigger] (postings_bytes(e, nn) + rest) && postings_ok(e, nn) implies u
                == e[idx as int].1 && mid == after_posting(e, idx as int, rest, nn) by {
                lemma_tail_step(e, idx as int, rest, nn);
                assert(mask_fits(e[idx as int].1.segments.bits, nn));
            }
        }
        let ghost old_entries = entries@;
        entries.push((key, u));
        proof {
            assert(sorted_keys(entries@));
            assert forall|e: Seq<(u64, UsageData)>, rest: Seq<u8>|
                start == #[trigger] (postings_bytes(e, nn) + rest) && postings_ok(e, nn) implies entries@
                == e.take(idx + 1) by {
                assert(entries@ =~= e.take(idx + 1));
            }
        }
        if idx + 1 < count {
            let ghost before_delta = reader.remaining();
            let delta = match variable_load(reader) {
                Some(d) => d,
                None => {
                    proof {
                        assert forall|e: Seq<(u64, UsageData)>, rest: Seq<u8>|
                            start == #[trigger] (postings_bytes(e, nn) + rest) implies !postings_ok(e, nn) by {
                            if postings_ok(e, nn) {
                                let gap = (e[idx + 1].0 - e[idx as int].0) as u64;
                                lemma_varint_u64_round_trip(gap, postings_tail(e, idx + 1, nn) + rest);
                            }
                        }
                    }
                    return None;
                },
            };
            proof {
                crate::bytes::lemma_varint_u64_consumed(before_delta);
                assert forall|e: Seq<(u64, UsageData)>, rest: Seq<u8>|
                    start == #[trigger] (postings_bytes(e, nn) + rest) && postings_ok(e, nn) implies delta
                    == e[idx + 1].0 - e[idx as int].0 && reader.remaining() == postings_tail(e, idx + 1, nn) + rest by {
                    let gap = (e[idx + 1].0 - e[idx as int].0) as u64;
                    assert(e[idx as int].0 < e[idx + 1].0);
                    lemma_varint_u64_round_trip(gap, postings_tail(e, idx + 1, nn) + rest);
                }
            }
            if delta == 0 || delta > u64::MAX - key {
                proof {
                    assert forall|e: Seq<(u64, UsageData)>, rest: Seq<u8>|
                        start == #[trigger] (postings_bytes(e, nn) + rest) implies !postings_ok(e, nn) by {
                        if postings_ok(e, nn) {
                            assert(e[idx as int].0 < e[idx + 1].0);
                        }
                    }
                }
                return None;
            }
            let ghost old_key = key;
            key = key + delta;
            proof {
                lemma_open_push(old_entries, (old_key, u), key, n as nat);
                assert(start =~= head + postings_open(entries@, key, n as nat) + reader.remaining());
            }
        } else {
            proof {
                lemma_body_push(old_entries, (key, u), n as nat);
                assert(start =~= head + postings_body(entries@, n as nat) + reader.remaining());
            }
        }
        idx = idx + 1;
    }
    let m = SortedLinkedMap::from_sorted(entries);
    assert(start =~= postings_bytes(m.entries_seq(), n as nat) + reader.remaining());
    proof {
        assert forall|e: Seq<(u64, UsageData)>, rest: Seq<u8>|
            start == #[trigger] (postings_bytes(e, nn) + rest) && postings_ok(e, nn) implies m.entries_seq() == e && reader.remaining() == rest by {
            assert(e.take(e.len() as int) =~= e);
        }
    }
    Some(m)
}

} // verus!
