use vstd::prelude::*;
use crate::error::Error;
use crate::stream::{Reader, Writer};

verus! {

/// A count written as a compact integer: seven bits per byte, low group
/// first, the high bit set on every byte but the last.
#[derive(Clone, Copy, Debug, PartialEq, Eq, Structural)]
pub struct Varint(pub u32);

/// The compact encoding of `v`.
pub open spec fn varint_bytes(v: nat) -> Seq<u8>
    decreases v,
{
    if v < 128 {
        seq![v as u8]
    } else {
        seq![((v % 128) + 128) as u8] + varint_bytes(v / 128)
    }
}

/// Reads the group at index `k` of `s`, where `acc` holds the value of the
/// groups before it and `scale` is the weight of group `k`. A value above
/// `u32::MAX`, or a fifth byte that still asks for more, is an overflow.
pub open spec fn parse_groups(s: Seq<u8>, k: nat, acc: nat, scale: nat) -> Result<(u32, nat), Error>
    decreases 5 - k,
{
    if k >= 5 {
        Err(Error::Overflow)
    } else if k >= s.len() {
        Err(Error::Truncated)
    } else {
        let b = s[k as int];
        let next = acc + (b % 128) as nat * scale;
        if next > u32::MAX {
            Err(Error::Overflow)
        } else if b < 128 {
            Ok((next as u32, k + 1))
        } else if k == 4 {
            Err(Error::Overflow)
        } else {
            parse_groups(s, k + 1, next, scale * 128)
        }
    }
}

/// The compact integer at the front of `s`, with the number of bytes it takes.
pub open spec fn parse_varint(s: Seq<u8>) -> Result<(u32, nat), Error> {
    parse_groups(s, 0, 0, 1)
}

pub open spec fn pow128(k: nat) -> nat
    decreases k,
{
    if k == 0 {
        1
    } else {
        128 * pow128((k - 1) as nat)
    }
}

proof fn lemma_varint_len(v: nat, k: nat)
    requires
        v * pow128(k) <= u32::MAX,
        k == 0 || v >= 1,
    ensures
        k + varint_bytes(v).len() <= 5,
        varint_bytes(v).len() >= 1,
    decreases v,
{
    reveal_with_fuel(pow128, 6);
    if v >= 128 {
        assert(pow128(k + 1) == 128 * pow128(k));
        assert((v / 128) * pow128(k + 1) <= v * pow128(k)) by (nonlinear_arith)
            requires
                pow128(k + 1) == 128 * pow128(k),
                v >= 128,
        ;
        lemma_varint_len(v / 128, k + 1);
    } else if k >= 5 {
        lemma_pow128_mono(5, k);
        assert(v * pow128(k) >= pow128(5)) by (nonlinear_arith)
            requires
                v >= 1,
                pow128(k) >= pow128(5),
        ;
    }
}

proof fn lemma_pow128_mono(a: nat, b: nat)
    requires
        a <= b,
    ensures
        pow128(a) <= pow128(b),
        pow128(a) >= 1,
    decreases b,
{
    if a < b {
        lemma_pow128_mono(a, (b - 1) as nat);
    } else if a > 0 {
        lemma_pow128_mono((a - 1) as nat, (a - 1) as nat);
    }
}

/// Decoding the groups of `v` from position `k` on, after lower groups worth
/// `acc`, yields `acc + v * scale`, whatever bytes follow.
proof fn lemma_parse_groups(s: Seq<u8>, k: nat, acc: nat, v: nat)
    requires
        acc < pow128(k),
        k == 0 || v >= 1,
        acc + v * pow128(k) <= u32::MAX,
        k + varint_bytes(v).len() <= s.len(),
        s.subrange(k as int, (k + varint_bytes(v).len()) as int) == varint_bytes(v),
    ensures
        parse_groups(s, k, acc, pow128(k)) == Ok::<(u32, nat), Error>(
            ((acc + v * pow128(k)) as u32, k + varint_bytes(v).len()),
        ),
    decreases v,
{
    lemma_varint_len(v, k);
    lemma_pow128_mono(k, k);
    let b = s[k as int];
    assert(b == varint_bytes(v)[0]);
    if v < 128 {
        assert(b == v);
        assert(acc + (b % 128) as nat * pow128(k) == acc + v * pow128(k));
    } else {
        let q = v / 128;
        assert(b == (v % 128) + 128);
        assert(b % 128 == v % 128);
        let next = acc + (v % 128) * pow128(k);
        assert(pow128(k + 1) == 128 * pow128(k));
        assert(next < pow128(k + 1) && next + q * pow128(k + 1) == acc + v * pow128(k)) by (nonlinear_arith)
            requires
                pow128(k + 1) == 128 * pow128(k),
                next == acc + (v % 128) * pow128(k),
                acc < pow128(k),
                q == v / 128,
                v % 128 < 128,
                v == 128 * q + v % 128,
        ;
        assert(next <= u32::MAX) by (nonlinear_arith)
            requires
                next + q * pow128(k + 1) <= u32::MAX,
        ;
        let tail = varint_bytes(q);
        assert(varint_bytes(v) == seq![b] + tail);
        assert(s.subrange((k + 1) as int, (k + 1 + tail.len()) as int) =~= tail) by {
            assert forall|i: int| 0 <= i < tail.len() implies s.subrange((k + 1) as int, (k + 1 + tail.len()) as int)[i]
                == tail[i] by {
                assert(s[k + 1 + i] == s.subrange(k as int, (k + varint_bytes(v).len()) as int)[i + 1]);
            }
        }
        assert(k != 4) by {
            lemma_varint_len(q, k + 1);
        }
        lemma_parse_groups(s, k + 1, next, q);
    }
}

/// Cutting the groups of `v` short anywhere leaves a truncated value.
proof fn lemma_parse_groups_truncated(s: Seq<u8>, k: nat, acc: nat, v: nat)
    requires
        acc < pow128(k),
        k == 0 || v >= 1,
        acc + v * pow128(k) <= u32::MAX,
        k <= s.len() < k + varint_bytes(v).len(),
        s.subrange(k as int, s.len() as int) == varint_bytes(v).take(s.len() - k),
    ensures
        parse_groups(s, k, acc, pow128(k)) == Err::<(u32, nat), Error>(Error::Truncated),
    decreases v,
{
    lemma_varint_len(v, k);
    lemma_pow128_mono(k, k);
    if k < s.len() {
        let b = s[k as int];
        assert(b == s.subrange(k as int, s.len() as int)[0]);
        assert(b == varint_bytes(v)[0]);
        assert(v >= 128);
        let q = v / 128;
        assert(b % 128 == v % 128);
        let next = acc + (v % 128) * pow128(k);
        assert(pow128(k + 1) == 128 * pow128(k));
        assert(next < pow128(k + 1) && next + q * pow128(k + 1) == acc + v * pow128(k)) by (nonlinear_arith)
            requires
                pow128(k + 1) == 128 * pow128(k),
                next == acc + (v % 128) * pow128(k),
                acc < pow128(k),
                q == v / 128,
                v % 128 < 128,
                v == 128 * q + v % 128,
        ;
        assert(next <= u32::MAX) by (nonlinear_arith)
            requires
                next + q * pow128(k + 1) <= u32::MAX,
        ;
        let tail = varint_bytes(q);
        assert(varint_bytes(v) == seq![b] + tail);
        assert(s.subrange((k + 1) as int, s.len() as int) =~= tail.take(s.len() - k - 1)) by {
            assert forall|i: int| 0 <= i < s.len() - k - 1 implies s.subrange((k + 1) as int, s.len() as int)[i]
                == tail[i] by {
                assert(s[k + 1 + i] == s.subrange(k as int, s.len() as int)[i + 1]);
            }
        }
        assert(k != 4) by {
            lemma_varint_len(q, k + 1);
        }
        lemma_parse_groups_truncated(s, k + 1, next, q);
    }
}

/// Decoding the compact encoding of `v`, followed by anything, gives `v`
/// back and consumes exactly the encoding.
pub proof fn lemma_varint_round_trip(v: u32, rest: Seq<u8>)
    ensures
        parse_varint(varint_bytes(v as nat) + rest) == Ok::<(u32, nat), Error>(
            (v, varint_bytes(v as nat).len()),
        ),
        1 <= varint_bytes(v as nat).len() <= 5,
{
    let e = varint_bytes(v as nat);
    let s = e + rest;
    reveal_with_fuel(pow128, 1);
    assert(pow128(0) == 1);
    assert(v as nat * pow128(0) == v);
    lemma_varint_len(v as nat, 0);
    assert(s.subrange(0, e.len() as int) =~= e);
    lemma_parse_groups(s, 0, 0, v as nat);
}

/// Every proper prefix of a compact encoding decodes as truncated.
pub proof fn lemma_varint_truncated(v: u32, k: nat)
    requires
        k < varint_bytes(v as nat).len(),
    ensures
        parse_varint(varint_bytes(v as nat).take(k as int)) == Err::<(u32, nat), Error>(Error::Truncated),
{
    let s = varint_bytes(v as nat).take(k as int);
    reveal_with_fuel(pow128, 1);
    assert(pow128(0) == 1);
    assert(v as nat * pow128(0) == v);
    lemma_varint_len(v as nat, 0);
    assert(s.subrange(0, s.len() as int) =~= varint_bytes(v as nat).take(s.len() - 0));
    lemma_parse_groups_truncated(s, 0, 0, v as nat);
}

/// Appends the compact encoding of `value`.
pub fn write_varint(out: &mut Reader, value: u32) -> (r: Result<(), Error>)
    ensures
        final(out).limit() == old(out).limit(),
        r is Ok <==> old(out).written().len() + varint_bytes(value as nat).len() <= old(out).limit(),
        r is Ok ==> final(out).written() == old(out).written() + varint_bytes(value as nat),
        r is Err ==> r == Err::<(), Error>(Error::CapacityExceeded),
{
    let mut v: u32 = value;
    loop
        invariant
            out.limit() == old(out).limit(),
            out.written() + varint_bytes(v as nat) == old(out).written() + varint_bytes(value as nat),
        decreases v,
    {
        if v < 128 {
            let ghost before = out.written();
            let r = out.write_byte(v as u8);
            assert((before + varint_bytes(v as nat)).len() == before.len() + 1);
            proof {
                if r is Ok {
                    assert(old(out).written() + varint_bytes(value as nat) =~= out.written());
                }
            }
            return r;
        }
        let ghost before = out.written();
        assert((before + varint_bytes(v as nat)).len() >= before.len() + 1);
        match out.write_byte((v % 128 + 128) as u8) {
            Err(e) => {
                return Err(e);
            },
            Ok(()) => {},
        }
        assert(before + varint_bytes(v as nat) =~= out.written() + varint_bytes((v / 128) as nat));
        v = v / 128;
    }
}

/// Takes a compact integer from the front of `src`.
pub fn read_varint(src: &mut Writer) -> (r: Result<u32, Error>)
    ensures
        match parse_varint(old(src).remaining()) {
            Ok((v, n)) => r == Ok::<u32, Error>(v) && final(src).remaining() == old(src).remaining().skip(
                n as int,
            ),
            Err(e) => r == Err::<u32, Error>(e),
        },
{
    let ghost s = old(src).remaining();
    let mut acc: u64 = 0;
    let mut scale: u64 = 1;
    let mut k: usize = 0;
    reveal_with_fuel(pow128, 5);
    loop
        invariant
            k < 5,
            k <= s.len(),
            s == old(src).remaining(),
            scale == pow128(k as nat),
            scale <= 0x1000_0000,
            acc <= u32::MAX,
            src.remaining() == s.skip(k as int),
            parse_groups(s, k as nat, acc as nat, scale as nat) == parse_varint(s),
        decreases 5 - k,
    {
        let b = match src.read_byte() {
            Ok(b) => b,
            Err(e) => {
                assert(s.skip(k as int).len() == s.len() - k);
                assert(k == s.len());
                assert(parse_groups(s, k as nat, acc as nat, scale as nat) == Err::<(u32, nat), Error>(
                    Error::Truncated,
                ));
                return Err(e);
            },
        };
        assert(b == s[k as int]);
        assert((b % 128) as u64 * scale <= 127 * 0x1000_0000) by (nonlinear_arith)
            requires
                b % 128 <= 127,
                scale <= 0x1000_0000,
        ;
        let next: u64 = acc + (b % 128) as u64 * scale;
        if next > 0xffff_ffff {
            assert(parse_varint(s) == Err::<(u32, nat), Error>(Error::Overflow));
            return Err(Error::Overflow);
        }
        if b < 128 {
            assert(src.remaining() =~= s.skip(k + 1));
            return Ok(next as u32);
        }
        if k == 4 {
            return Err(Error::Overflow);
        }
        assert(scale <= 0x20_0000) by {
            reveal_with_fuel(pow128, 4);
            if k == 0 {
            } else if k == 1 {
            } else if k == 2 {
            } else {
                assert(k == 3);
                assert(pow128(3) == 0x20_0000);
            }
        }
        acc = next;
        scale = scale * 128;
        k = k + 1;
        assert(src.remaining() =~= s.skip(k as int));
    }
}

/// A decoded compact integer takes at least one byte of what it was read from.
pub proof fn lemma_parse_varint_len(s: Seq<u8>)
    ensures
        parse_varint(s) is Ok ==> 1 <= parse_varint(s)->Ok_0.1 <= s.len(),
{
    lemma_parse_groups_len(s, 0, 0, 1);
}

proof fn lemma_parse_groups_len(s: Seq<u8>, k: nat, acc: nat, scale: nat)
    ensures
        parse_groups(s, k, acc, scale) is Ok ==> k + 1 <= parse_groups(s, k, acc, scale)->Ok_0.1 <= s.len(),
    decreases 5 - k,
{
    if k < 5 && k < s.len() {
        let b = s[k as int];
        let next = acc + (b % 128) as nat * scale;
        if next <= u32::MAX && b >= 128 && k != 4 {
            lemma_parse_groups_len(s, k + 1, next, scale * 128);
        }
    }
}

} // verus!
