//! Byte sources and sinks: a cursor over bytes in memory, a counting writer,
//! and the fixed and variable-width integer codecs on top of them.
use crate::varint::{lemma_varint_u64_len, varint_decode, varint_encode};
use vstd::arithmetic::power2::{lemma2_to64, lemma_pow2_adds, pow2};
use vstd::prelude::*;

verus! {

/// A source of bytes that are read front to back.
pub trait U8Provider {
    /// The bytes that have not been read yet.
    spec fn remaining(&self) -> Seq<u8>;

    /// All bytes, read or not; reading does not change them.
    spec fn contents(&self) -> Seq<u8>;

    /// The next byte, or `None` at the end.
    fn next_u8(&mut self) -> (r: Option<u8>)
        ensures
            final(self).contents() == old(self).contents(),
            old(self).remaining().len() == 0 ==> r is None && final(self).remaining()
                == old(self).remaining(),
            old(self).remaining().len() > 0 ==> r == Some(old(self).remaining()[0]) && final(self).remaining() == old(self).remaining().drop_first(),
    ;

    /// The next `size` bytes, or `None` (and nothing read) when fewer are left.
    fn take(&mut self, size: usize) -> (r: Option<Vec<u8>>)
        ensures
            final(self).contents() == old(self).contents(),
            old(self).remaining().len() < size ==> r is None && final(self).remaining()
                == old(self).remaining(),
            old(self).remaining().len() >= size ==> r is Some && r->0@ == old(self).remaining().take(size as int) && final(self).remaining() == old(self).remaining().skip(size as int),
    ;
}

/// A source of bytes that can also be repositioned.
pub trait MovableU8Provider: U8Provider {
    /// Moves to `position`, counted from the start.
    fn seek(&mut self, position: usize) -> (r: bool)
        ensures
            r == (position <= old(self).contents().len()),
            final(self).contents() == old(self).contents(),
            r ==> final(self).remaining() == old(self).contents().skip(position as int),
            !r ==> final(self).remaining() == old(self).remaining(),
    ;
}

/// Bytes held in memory with a read position.
pub struct ByteReader {
    bytes: Vec<u8>,
    pos: usize,
}

impl ByteReader {
    pub closed spec fn wf(&self) -> bool {
        self.pos <= self.bytes.len()
    }

    pub fn new(bytes: Vec<u8>) -> (r: ByteReader)
        ensures
            r.remaining() == bytes@,
            r.contents() == bytes@,
            r.contents().len() <= usize::MAX,
    {
        let n = bytes.len();
        let r = ByteReader { bytes, pos: 0 };
        assert(r.bytes@.subrange(0, r.bytes@.len() as int) =~= r.bytes@);
        r
    }

    /// Whether every byte has been read.
    pub fn is_exhausted(&self) -> (r: bool)
        ensures
            r == (self.remaining().len() == 0),
    {
        self.pos >= self.bytes.len()
    }
}

impl U8Provider for ByteReader {
    closed spec fn contents(&self) -> Seq<u8> {
        self.bytes@
    }

    closed spec fn remaining(&self) -> Seq<u8> {
        if self.pos <= self.bytes.len() {
            self.bytes@.subrange(self.pos as int, self.bytes.len() as int)
        } else {
            Seq::empty()
        }
    }

    fn next_u8(&mut self) -> (r: Option<u8>) {
        if self.pos < self.bytes.len() {
            let b = self.bytes[self.pos];
            self.pos = self.pos + 1;
            assert(self.remaining() =~= old(self).remaining().drop_first());
            Some(b)
        } else {
            None
        }
    }

    fn take(&mut self, size: usize) -> (r: Option<Vec<u8>>) {
        if size == 0 {
            assert(old(self).remaining().take(0) =~= Seq::<u8>::empty());
            assert(old(self).remaining().skip(0) =~= old(self).remaining());
            return Some(Vec::new());
        }
        if self.pos > self.bytes.len() || self.bytes.len() - self.pos < size {
            return None;
        }
        let mut out: Vec<u8> = Vec::new();
        let start = self.pos;
        let end = self.pos + size;
        let mut i: usize = start;
        while i < end
            invariant
                start <= i <= end <= self.bytes.len(),
                self.pos == start,
                out@ =~= self.bytes@.subrange(start as int, i as int),
            decreases end - i,
        {
            out.push(self.bytes[i]);
            i = i + 1;
        }
        self.pos = end;
        assert(out@ =~= old(self).remaining().take(size as int));
        assert(self.remaining() =~= old(self).remaining().skip(size as int));
        Some(out)
    }
}

impl MovableU8Provider for ByteReader {
    fn seek(&mut self, position: usize) -> (r: bool) {
        if position <= self.bytes.len() {
            self.pos = position;
            assert(self.remaining() =~= old(self).contents().skip(position as int));
            true
        } else {
            false
        }
    }
}

/// The eight bytes of `v`, most significant first.
pub open spec fn be_bytes(v: u64) -> Seq<u8> {
    seq![
        (v >> 56u64) as u8,
        (v >> 48u64) as u8,
        (v >> 40u64) as u8,
        (v >> 32u64) as u8,
        (v >> 24u64) as u8,
        (v >> 16u64) as u8,
        (v >> 8u64) as u8,
        v as u8,
    ]
}

/// The number whose eight bytes, most significant first, are `b[0..8]`.
pub open spec fn from_be_bytes(b: Seq<u8>) -> u64
    recommends
        b.len() >= 8,
{
    (b[0] as u64) << 56u64 | (b[1] as u64) << 48u64 | (b[2] as u64) << 40u64 | (b[3] as u64)
        << 32u64 | (b[4] as u64) << 24u64 | (b[5] as u64) << 16u64 | (b[6] as u64) << 8u64
        | (b[7] as u64)
}

/// The value of a varint that fits in a `u64` and takes at most ten bytes.
pub open spec fn varint_u64(s: Seq<u8>) -> Option<(u64, nat)> {
    match varint_decode(s) {
        Some((v, l)) => if l <= 10 && v <= u64::MAX {
            Some((v as u64, l))
        } else {
            None
        },
        None => None,
    }
}

/// What decoding `s` gives once `acc` holds the groups already read, and
/// `scale` is the weight of the next one.
pub open spec fn varint_lift(s: Seq<u8>, acc: int, scale: int, read: nat) -> Option<(nat, nat)> {
    match varint_decode(s) {
        Some((v, l)) => if read > 0 && v == 0 {
            None
        } else {
            Some(((acc + scale * v) as nat, l + read))
        },
        None => None,
    }
}

proof fn lemma_varint_step(s: Seq<u8>, acc: int, scale: int, read: nat)
    requires
        s.len() > 0,
        s[0] < 128,
        acc >= 0,
        scale >= 0,
    ensures
        varint_lift(s, acc, scale, read) == varint_lift(
            s.drop_first(),
            acc + scale * s[0],
            scale * 128,
            read + 1,
        ),
{
    match varint_decode(s.drop_first()) {
        Some((v, l)) => {
            if v != 0 {
                assert(acc + scale * (s[0] + 128 * v) == acc + scale * s[0] + scale * 128 * v)
                    by (nonlinear_arith);
                assert(s[0] + 128 * v != 0) by (nonlinear_arith)
                    requires v != 0, v >= 0, s[0] >= 0;
            }
        },
        None => {},
    }
}

/// Reads a varint; `None` when the bytes end first, or when the number
/// does not fit in a `u64` or takes more than ten bytes.
pub fn variable_load<R: U8Provider>(reader: &mut R) -> (r: Option<u64>)
    ensures
        final(reader).contents() == old(reader).contents(),
        varint_u64(old(reader).remaining()) is None ==> r is None,
        varint_u64(old(reader).remaining()) is Some ==> r == Some(
            varint_u64(old(reader).remaining()).unwrap().0,
        ),
        r is Some ==> final(reader).remaining() == old(reader).remaining().skip(
            varint_u64(old(reader).remaining()).unwrap().1 as int,
        ),
{
    let ghost start = reader.remaining();
    let mut acc: u128 = 0;
    let mut scale: u128 = 1;
    let mut read: usize = 0;
    proof {
        lemma2_to64();
        assert(start.skip(0) =~= start);
    }
    loop
        invariant
            reader.contents() == old(reader).contents(),
            read < 10,
            read <= start.len(),
            start == old(reader).remaining(),
            scale as int == pow2(7 * read as nat),
            acc < scale,
            reader.remaining() == start.skip(read as int),
            varint_decode(start) == varint_lift(reader.remaining(), acc as int, scale as int, read as nat),
        decreases 10 - read,
    {
        proof {
            lemma2_to64();
            vstd::arithmetic::power2::lemma2_to64_rest();
            if read < 9 {
                vstd::arithmetic::power2::lemma_pow2_strictly_increases(7 * read as nat, 63);
            } else {
                assert(7 * read as nat == 63);
            }
            assert(scale <= 0x8000000000000000u128);
        }
        let ghost before = reader.remaining();
        let b = match reader.next_u8() {
            Some(b) => b,
            None => {
                proof {
                    assert(varint_decode(before) is None);
                    assert(varint_decode(start) is None);
                    assert(varint_u64(start) is None);
                }
                return None;
            },
        };
        if b >= 128 {
            proof {
                assert(scale * ((b - 128) as u128) <= scale * 127) by (nonlinear_arith)
                    requires b < 256, b >= 128;
            }
            let value: u128 = acc + scale * ((b - 128) as u128);
            proof {
                assert(varint_decode(before) == Some(((b - 128) as nat, 1nat)));
                if !(read > 0 && b == 128) {
                    assert(varint_decode(start) == Some((value as nat, (read + 1) as nat)));
                }
                if value > u64::MAX as u128 {
                    assert(varint_u64(start) is None);
                } else {
                    assert(reader.remaining() =~= start.skip(read + 1));
                }
            }
            if value > u64::MAX as u128 || (read > 0 && b == 128) {
                return None;
            }
            return Some(value as u64);
        }
        proof {
            lemma_varint_step(before, acc as int, scale as int, read as nat);
            lemma_pow2_adds((7 * read) as nat, 7);
            assert(before.len() > 0);
            assert(before.drop_first() =~= start.skip(read + 1));
            assert(acc + scale * b < scale * 128) by (nonlinear_arith)
                requires acc < scale, b < 128;
            assert(scale * b <= scale * 127) by (nonlinear_arith)
                requires b < 128;
        }
        acc = acc + scale * (b as u128);
        scale = scale * 128;
        read = read + 1;
        if read == 10 {
            proof {
                match varint_decode(reader.remaining()) {
                    Some((v, l)) => {
                        assert(l >= 1);
                        if v != 0 {
                            let (_, total) = varint_decode(start).unwrap();
                            assert(total > 10);
                        } else {
                            assert(varint_decode(start) is None);
                        }
                    },
                    None => {
                        assert(varint_decode(start) is None);
                    },
                }
                assert(varint_u64(start) is None);
            }
            return None;
        }
    }
}

/// A sink that appends to a buffer in memory and counts what it was given.
pub struct CountedWriter {
    buf: Vec<u8>,
}

impl View for CountedWriter {
    type V = Seq<u8>;

    closed spec fn view(&self) -> Seq<u8> {
        self.buf@
    }
}

impl CountedWriter {
    pub fn new() -> (r: CountedWriter)
        ensures
            r@ == Seq::<u8>::empty(),
    {
        CountedWriter { buf: Vec::new() }
    }

    /// Appends `buffer`.
    pub fn push(&mut self, buffer: &[u8])
        ensures
            final(self)@ == old(self)@ + buffer@,
    {
        let mut i: usize = 0;
        while i < buffer.len()
            invariant
                i <= buffer@.len(),
                self@ == old(self)@ + buffer@.subrange(0, i as int),
            decreases buffer@.len() - i,
        {
            self.buf.push(buffer[i]);
            i = i + 1;
            assert(self@ =~= old(self)@ + buffer@.subrange(0, i as int));
        }
        assert(buffer@.subrange(0, i as int) =~= buffer@);
    }

    /// Appends the varint encoding of `value`.
    pub fn push_variable_u64(&mut self, value: u64)
        ensures
            final(self)@ == old(self)@ + varint_encode(value as nat),
    {
        variable_save_u64(value, &mut self.buf);
    }

    /// Appends the eight bytes of `value`, most significant first.
    pub fn push_u64(&mut self, value: u64)
        ensures
            final(self)@ == old(self)@ + be_bytes(value),
    {
        push_be_u64(&mut self.buf, value);
    }

    /// Appends one byte.
    pub fn push_u8(&mut self, value: u8)
        ensures
            final(self)@ == old(self)@.push(value),
    {
        self.buf.push(value);
    }

    /// How many bytes were written so far.
    pub fn passed(&self) -> (r: u64)
        ensures
            r == self@.len(),
    {
        let n = self.buf.len();
        n as u64
    }

    /// Overwrites the eight bytes at `index` with `value`, most significant
    /// first; the rest stays as it was.
    pub fn goto_and_write_u64(&mut self, index: usize, value: u64)
        requires
            index + 8 <= old(self)@.len(),
        ensures
            final(self)@ == old(self)@.subrange(0, index as int) + be_bytes(value) + old(self)@.subrange(index + 8, old(self)@.len() as int),
    {
        let bytes = be_array(value);
        let n = self.buf.len();
        let mut i: usize = 0;
        while i < 8
            invariant
                index + 8 <= n,
                n == self.buf@.len(),
                i <= 8,
                self.buf@.len() == old(self)@.len(),
                bytes@ == be_bytes(value),
                forall|j: int| 0 <= j < index || index + 8 <= j < self.buf@.len() ==> self.buf@[j] == old(self)@[j],
                forall|j: int| index <= j < index + i ==> self.buf@[j] == bytes@[j - index],
            decreases 8 - i,
        {
            self.buf.set(index + i, bytes[i]);
            i = i + 1;
        }
        assert(self@ =~= old(self)@.subrange(0, index as int) + be_bytes(value) + old(self)@.subrange(index + 8, old(self)@.len() as int));
    }

    /// The bytes written.
    pub fn into_bytes(self) -> (r: Vec<u8>)
        ensures
            r@ == self@,
    {
        self.buf
    }
}

fn be_array(value: u64) -> (r: Vec<u8>)
    ensures
        r@ == be_bytes(value),
{
    let r = vec![
        (value >> 56u64) as u8,
        (value >> 48u64) as u8,
        (value >> 40u64) as u8,
        (value >> 32u64) as u8,
        (value >> 24u64) as u8,
        (value >> 16u64) as u8,
        (value >> 8u64) as u8,
        value as u8,
    ];
    assert(r@ =~= be_bytes(value));
    r
}

/// Appends the eight bytes of `value`, most significant first.
pub fn push_be_u64(out: &mut Vec<u8>, value: u64)
    ensures
        final(out)@ == old(out)@ + be_bytes(value),
{
    let bytes = be_array(value);
    let mut i: usize = 0;
    while i < 8
        invariant
            i <= 8,
            bytes@ == be_bytes(value),
            out@ == old(out)@ + bytes@.subrange(0, i as int),
        decreases 8 - i,
    {
        out.push(bytes[i]);
        i = i + 1;
        assert(out@ =~= old(out)@ + bytes@.subrange(0, i as int));
    }
    assert(bytes@.subrange(0, 8) =~= bytes@);
}

/// Reads eight bytes, most significant first.
pub fn read_be_u64<R: U8Provider>(reader: &mut R) -> (r: Option<u64>)
    ensures
        final(reader).contents() == old(reader).contents(),
        old(reader).remaining().len() < 8 ==> r is None,
        old(reader).remaining().len() >= 8 ==> r == Some(from_be_bytes(old(reader).remaining()))
            && final(reader).remaining() == old(reader).remaining().skip(8),
{
    let b = match reader.take(8) {
        Some(b) => b,
        None => {
            return None;
        },
    };
    Some(
        (b[0] as u64) << 56u64 | (b[1] as u64) << 48u64 | (b[2] as u64) << 40u64 | (b[3] as u64)
            << 32u64 | (b[4] as u64) << 24u64 | (b[5] as u64) << 16u64 | (b[6] as u64) << 8u64
            | (b[7] as u64),
    )
}

/// Appends the varint encoding of `v` and returns how many bytes it took.
pub fn variable_save_u64(v: u64, out: &mut Vec<u8>) -> (writes: u8)
    ensures
        final(out)@ == old(out)@ + varint_encode(v as nat),
        writes as nat == varint_encode(v as nat).len(),
        1 <= writes <= 10,
{
    proof {
        lemma_varint_u64_len(v);
    }
    let mut rest: u64 = v;
    let mut writes: u8 = 0;
    while rest >= 128
        invariant
            old(out)@ + varint_encode(v as nat) == out@ + varint_encode(rest as nat),
            writes as nat + varint_encode(rest as nat).len() == varint_encode(v as nat).len(),
            varint_encode(v as nat).len() <= 10,
        decreases rest,
    {
        let ghost before = out@;
        out.push((rest % 128) as u8);
        assert(varint_encode(rest as nat) == seq![(rest % 128) as u8] + varint_encode(
            (rest / 128) as nat,
        ));
        assert(before + varint_encode(rest as nat) =~= out@ + varint_encode((rest / 128) as nat));
        rest = rest / 128;
        writes = writes + 1;
    }
    let ghost before = out@;
    out.push((rest + 128) as u8);
    assert(before + varint_encode(rest as nat) =~= out@);
    writes + 1
}

/// Appends the varint encoding of `v` and returns how many bytes it took.
pub fn variable_save_usize(v: usize, out: &mut Vec<u8>) -> (writes: u8)
    ensures
        final(out)@ == old(out)@ + varint_encode(v as nat),
        writes as nat == varint_encode(v as nat).len(),
{
    variable_save_u64(v as u64, out)
}

/// What a successful read of a varint consumed is the encoding of the
/// value read.
pub proof fn lemma_varint_u64_consumed(s: Seq<u8>)
    requires
        varint_u64(s) is Some,
    ensures
        s == varint_encode(varint_u64(s).unwrap().0 as nat) + s.skip(varint_u64(s).unwrap().1 as int),
        varint_u64(s).unwrap().1 <= s.len(),
{
    lemma_varint_decode_prefix(s);
}

proof fn lemma_varint_decode_prefix(s: Seq<u8>)
    requires
        varint_decode(s) is Some,
    ensures
        varint_decode(s).unwrap().1 <= s.len(),
        s == varint_encode(varint_decode(s).unwrap().0) + s.skip(varint_decode(s).unwrap().1 as int),
    decreases s.len(),
{
    if s[0] >= 128 {
        assert(s =~= varint_encode(varint_decode(s).unwrap().0) + s.skip(1));
    } else {
        let t = s.drop_first();
        lemma_varint_decode_prefix(t);
        let (v, l) = varint_decode(t).unwrap();
        let w = (s[0] + 128 * v) as nat;
        assert(w % 128 == s[0] as nat && w / 128 == v) by (nonlinear_arith)
            requires w == s[0] + 128 * v, s[0] < 128;
        assert(w >= 128) by (nonlinear_arith)
            requires w == s[0] + 128 * v, v >= 1;
        assert(varint_encode(w) == seq![s[0]] + varint_encode(v));
        assert(t.skip(l as int) =~= s.skip((l + 1) as int));
        assert(s =~= seq![s[0]] + t);
        assert(s =~= varint_encode(w) + s.skip((l + 1) as int));
    }
}

/// Reading the varint of `v`, followed by anything, gives `v` back.
pub proof fn lemma_varint_u64_round_trip(v: u64, rest: Seq<u8>)
    ensures
        varint_u64(varint_encode(v as nat) + rest) == Some((v, varint_encode(v as nat).len())),
{
    crate::varint::lemma_varint_round_trip(v as nat, rest);
    lemma_varint_u64_len(v);
}

} // verus!
