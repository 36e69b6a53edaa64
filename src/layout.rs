//! What the bytes of a sorted run mean: length-prefixed pieces in the
//! lexical part, and the term that a block holds at a given place.
use crate::bytes::{lemma_varint_u64_consumed, lemma_varint_u64_round_trip, varint_u64};
use crate::varint::varint_encode;
use vstd::prelude::*;

verus! {

/// A piece: its length as a varint, then its bytes.
pub open spec fn piece_bytes(b: Seq<u8>) -> Seq<u8> {
    varint_encode(b.len()) + b
}

/// Pieces one after another.
pub open spec fn pieces(bs: Seq<Seq<u8>>) -> Seq<u8>
    decreases bs.len(),
{
    if bs.len() == 0 {
        seq![]
    } else {
        piece_bytes(bs[0]) + pieces(bs.drop_first())
    }
}

pub proof fn lemma_pieces_push(bs: Seq<Seq<u8>>, b: Seq<u8>)
    ensures
        pieces(bs.push(b)) == pieces(bs) + piece_bytes(b),
    decreases bs.len(),
{
    if bs.len() == 0 {
        let one = bs.push(b);
        assert(one.drop_first() =~= Seq::<Seq<u8>>::empty());
        assert(one[0] == b);
        assert(pieces(one.drop_first()) == Seq::<u8>::empty());
        assert(pieces(bs) == Seq::<u8>::empty());
        assert(pieces(one) =~= pieces(bs) + piece_bytes(b));
    } else {
        assert(bs.push(b).drop_first() =~= bs.drop_first().push(b));
        lemma_pieces_push(bs.drop_first(), b);
        assert(pieces(bs.push(b)) =~= pieces(bs) + piece_bytes(b));
    }
}

/// The piece at the front of `s` and how many bytes it takes.
pub open spec fn piece(s: Seq<u8>) -> Option<(Seq<u8>, nat)> {
    match varint_u64(s) {
        Some((len, l)) => if l + len <= s.len() {
            Some((s.subrange(l as int, l + len), (l + len) as nat))
        } else {
            None
        },
        None => None,
    }
}

/// What follows the first `k` pieces of `s`.
pub open spec fn skip_pieces(s: Seq<u8>, k: nat) -> Option<Seq<u8>>
    decreases k,
{
    if k == 0 {
        Some(s)
    } else {
        match piece(s) {
            Some((_, l)) => skip_pieces(s.skip(l as int), (k - 1) as nat),
            None => None,
        }
    }
}

/// Skipping one piece more.
pub proof fn lemma_skip_pieces_step(s: Seq<u8>, k: nat)
    requires
        skip_pieces(s, k) is Some,
    ensures
        skip_pieces(s, k + 1) == match piece(skip_pieces(s, k).unwrap()) {
            Some((_, l)) => Some(skip_pieces(s, k).unwrap().skip(l as int)),
            None => None::<Seq<u8>>,
        },
    decreases k,
{
    if k > 0 {
        let (_, l) = piece(s).unwrap();
        lemma_skip_pieces_step(s.skip(l as int), (k - 1) as nat);
    } else {
        match piece(s) {
            Some((_, l)) => {
                assert(skip_pieces(s.skip(l as int), 0) == Some(s.skip(l as int)));
            },
            None => {},
        }
    }
}

/// Where `k2` pieces can be skipped, so can fewer, and the next one is there.
pub proof fn lemma_skip_pieces_prefix(s: Seq<u8>, k1: nat, k2: nat)
    requires
        skip_pieces(s, k2) is Some,
        k1 < k2,
    ensures
        skip_pieces(s, k1) is Some,
        piece(skip_pieces(s, k1).unwrap()) is Some,
    decreases k2,
{
    if k1 == 0 {
    } else {
        let (_, l) = piece(s).unwrap();
        lemma_skip_pieces_prefix(s.skip(l as int), (k1 - 1) as nat, (k2 - 1) as nat);
    }
}

/// The term at place `li` of the block at the front of `s`: the block's
/// prefix followed by the `li`-th suffix.
pub open spec fn term_in(s: Seq<u8>, li: nat) -> Option<Seq<u8>> {
    match piece(s) {
        Some((prefix, l)) => match skip_pieces(s.skip(l as int), li) {
            Some(t) => match piece(t) {
                Some((suffix, _)) => Some(prefix + suffix),
                None => None,
            },
            None => None,
        },
        None => None,
    }
}

pub proof fn lemma_piece(b: Seq<u8>, rest: Seq<u8>)
    requires
        b.len() <= u64::MAX,
    ensures
        piece(piece_bytes(b) + rest) == Some((b, piece_bytes(b).len())),
        (piece_bytes(b) + rest).skip(piece_bytes(b).len() as int) == rest,
{
    let s = piece_bytes(b) + rest;
    lemma_varint_u64_round_trip(b.len() as u64, b + rest);
    assert(s =~= varint_encode(b.len()) + (b + rest));
    let l = varint_encode(b.len()).len();
    assert(s.subrange(l as int, (l + b.len()) as int) =~= b);
    assert(s.skip(piece_bytes(b).len() as int) =~= rest);
}

/// A piece read off the front of `s` is the front of `s`.
pub proof fn lemma_piece_front(s: Seq<u8>)
    requires
        piece(s) is Some,
    ensures
        s == piece_bytes(piece(s).unwrap().0) + s.skip(piece(s).unwrap().1 as int),
        piece(s).unwrap().0.len() <= u64::MAX,
{
    lemma_varint_u64_consumed(s);
    let (len, l) = varint_u64(s).unwrap();
    let b = s.subrange(l as int, l + len);
    assert(s =~= piece_bytes(b) + s.skip((l + len) as int));
}

pub proof fn lemma_skip_pieces(bs: Seq<Seq<u8>>, rest: Seq<u8>, k: nat)
    requires
        k <= bs.len(),
        forall|i: int| 0 <= i < bs.len() ==> (#[trigger] bs[i]).len() <= u64::MAX,
    ensures
        skip_pieces(pieces(bs) + rest, k) == Some(pieces(bs.skip(k as int)) + rest),
    decreases k,
{
    if k == 0 {
        assert(bs.skip(0) =~= bs);
    } else {
        let s = pieces(bs) + rest;
        assert(s =~= piece_bytes(bs[0]) + (pieces(bs.drop_first()) + rest));
        lemma_piece(bs[0], pieces(bs.drop_first()) + rest);
        assert forall|i: int| 0 <= i < bs.drop_first().len() implies (#[trigger] bs.drop_first()[i]).len() <= u64::MAX by {
            assert(bs.drop_first()[i] == bs[i + 1]);
        }
        lemma_skip_pieces(bs.drop_first(), rest, (k - 1) as nat);
        assert(bs.drop_first().skip(k - 1) =~= bs.skip(k as int));
    }
}

/// The block of `prefix` and `suffixes` holds `prefix + suffixes[li]` at
/// place `li`, whatever follows it.
pub proof fn lemma_term_in_block(prefix: Seq<u8>, suffixes: Seq<Seq<u8>>, rest: Seq<u8>, li: nat)
    requires
        li < suffixes.len(),
        prefix.len() <= u64::MAX,
        forall|i: int| 0 <= i < suffixes.len() ==> (#[trigger] suffixes[i]).len() <= u64::MAX,
    ensures
        term_in(piece_bytes(prefix) + pieces(suffixes) + rest, li) == Some(prefix + suffixes[li as int]),
{
    let s = piece_bytes(prefix) + pieces(suffixes) + rest;
    assert(s =~= piece_bytes(prefix) + (pieces(suffixes) + rest));
    lemma_piece(prefix, pieces(suffixes) + rest);
    lemma_skip_pieces(suffixes, rest, li);
    let t = pieces(suffixes.skip(li as int)) + rest;
    let tail = suffixes.skip(li as int);
    assert(tail[0] == suffixes[li as int]);
    assert(t =~= piece_bytes(tail[0]) + (pieces(tail.drop_first()) + rest));
    lemma_piece(tail[0], pieces(tail.drop_first()) + rest);
}

proof fn lemma_skip_pieces_append(s: Seq<u8>, t: Seq<u8>, k: nat)
    requires
        skip_pieces(s, k) is Some,
    ensures
        skip_pieces(s + t, k) == Some(skip_pieces(s, k).unwrap() + t),
    decreases k,
{
    if k == 0 {
    } else {
        lemma_piece_front(s);
        let (b, l) = piece(s).unwrap();
        let r = s.skip(l as int);
        assert(s + t =~= piece_bytes(b) + (r + t));
        lemma_piece(b, r + t);
        lemma_piece(b, r);
        assert((s + t).skip(l as int) =~= r + t);
        lemma_skip_pieces_append(r, t, (k - 1) as nat);
    }
}

/// What a block holds stays when more bytes follow it.
pub proof fn lemma_term_in_append(s: Seq<u8>, t: Seq<u8>, li: nat)
    requires
        term_in(s, li) is Some,
    ensures
        term_in(s + t, li) == term_in(s, li),
{
    lemma_piece_front(s);
    let (prefix, l) = piece(s).unwrap();
    let r = s.skip(l as int);
    assert(s + t =~= piece_bytes(prefix) + (r + t));
    lemma_piece(prefix, r + t);
    lemma_piece(prefix, r);
    assert((s + t).skip(l as int) =~= r + t);
    lemma_skip_pieces_append(r, t, li);
    let u = skip_pieces(r, li).unwrap();
    lemma_piece_front(u);
    let (suffix, m) = piece(u).unwrap();
    assert(u + t =~= piece_bytes(suffix) + (u.skip(m as int) + t));
    lemma_piece(suffix, u.skip(m as int) + t);
    lemma_piece(suffix, u.skip(m as int));
}

} // verus!
