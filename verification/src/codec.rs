//! The binary codec: an arena of 64-bit values is written as a
//! length-prefixed stream of (key, value) pairs — an 8-byte little-endian
//! pair count, then, in ascending key order, each key and value as 8
//! little-endian bytes — and read back through the builder. There is no
//! header, version tag, or checksum.

use vstd::prelude::*;

use crate::builder::{build_seq, lemma_build_seq_pairs, Builder};
use crate::error::Error;
use crate::list::{ListStorage, VecStorage};
use crate::slab::{lemma_pairs_spec_shape, occupied_total, pairs_spec, Slab, Slot};

verus! {

/// 256 to the `width`.
pub open spec fn pow256(width: nat) -> int
    decreases width,
{
    if width == 0 {
        1
    } else {
        256 * pow256((width - 1) as nat)
    }
}

/// `value` written as `width` little-endian bytes (lowest byte first).
pub open spec fn le_bytes(value: int, width: nat) -> Seq<u8>
    decreases width,
{
    if width == 0 {
        Seq::empty()
    } else {
        seq![(value % 256) as u8] + le_bytes(value / 256, (width - 1) as nat)
    }
}

/// The number a run of little-endian bytes denotes.
pub open spec fn le_value(bytes: Seq<u8>) -> int
    decreases bytes.len(),
{
    if bytes.len() == 0 {
        0
    } else {
        bytes.first() + 256 * le_value(bytes.drop_first())
    }
}

/// The encoding really is `width` bytes wide.
pub proof fn lemma_le_bytes_len(value: int, width: nat)
    ensures
        le_bytes(value, width).len() == width,
    decreases width,
{
    if width > 0 {
        lemma_le_bytes_len(value / 256, (width - 1) as nat);
    }
}

/// A run of bytes denotes a number below 256 to its length.
pub proof fn lemma_le_value_bound(bytes: Seq<u8>)
    ensures
        0 <= le_value(bytes) < pow256(bytes.len()),
    decreases bytes.len(),
{
    if bytes.len() > 0 {
        let rest = bytes.drop_first();
        lemma_le_value_bound(rest);
        assert(le_value(bytes) < pow256(bytes.len())) by (nonlinear_arith)
            requires
                le_value(bytes) == bytes.first() + 256 * le_value(rest),
                bytes.first() < 256,
                0 <= le_value(rest) < pow256(rest.len()),
                pow256(bytes.len()) == 256 * pow256(rest.len()),
        {
        }
    }
}

/// Wider runs can denote no smaller range.
pub proof fn lemma_pow256_monotonic(a: nat, b: nat)
    requires
        a <= b,
    ensures
        0 < pow256(a) <= pow256(b),
    decreases b,
{
    if b > 0 {
        if a == b {
            lemma_pow256_monotonic((a - 1) as nat, (b - 1) as nat);
        } else {
            lemma_pow256_monotonic(a, (b - 1) as nat);
        }
    }
}

/// Writing a number small enough for the width and reading it back is the
/// identity.
pub proof fn lemma_le_round_trip(value: int, width: nat)
    requires
        0 <= value < pow256(width),
    ensures
        le_value(le_bytes(value, width)) == value,
    decreases width,
{
    if width > 0 {
        let rest = (width - 1) as nat;
        vstd::arithmetic::div_mod::lemma_fundamental_div_mod(value, 256);
        assert(value / 256 < pow256(rest)) by (nonlinear_arith)
            requires
                value < 256 * pow256(rest),
                value == 256 * (value / 256) + value % 256,
                0 <= value % 256 < 256,
        {
        }
        lemma_le_round_trip(value / 256, rest);
        lemma_le_bytes_len(value / 256, rest);
        let encoded = le_bytes(value, width);
        assert(encoded.drop_first() =~= le_bytes(value / 256, rest));
        assert(encoded.first() == (value % 256) as u8);
    }
}

/// Appends `value` as 8 little-endian bytes.
fn push_le(out: &mut Vec<u8>, value: u64)
    ensures
        final(out)@ == old(out)@ + le_bytes(value as int, 8),
{
    let mut cur: u64 = value;
    let ghost mut taken: Seq<u8> = Seq::empty();
    let mut i: usize = 0;
    proof {
        assert(out@ =~= old(out)@ + taken);
    }
    while i < 8
        invariant
            i <= 8,
            taken.len() == i,
            out@ == old(out)@ + taken,
            le_bytes(value as int, 8) == taken + le_bytes(cur as int, (8 - i) as nat),
        decreases 8 - i,
    {
        let byte = (cur % 256) as u8;
        out.push(byte);
        proof {
            let prior = taken;
            taken = taken.push(byte);
            assert(out@ =~= old(out)@ + taken);
            assert(le_bytes(cur as int, (8 - i) as nat) == seq![byte] + le_bytes(
                cur as int / 256,
                (7 - i) as nat,
            ));
            assert(taken + le_bytes(cur as int / 256, (7 - i) as nat) =~= prior + (seq![byte]
                + le_bytes(cur as int / 256, (7 - i) as nat)));
        }
        cur = cur / 256;
        i = i + 1;
    }
    proof {
        assert(le_bytes(cur as int, 0) =~= Seq::<u8>::empty());
        assert(taken + le_bytes(cur as int, 0) =~= taken);
    }
}

/// Reads the 8 little-endian bytes starting at `at` as one number.
fn read_le(bytes: &Vec<u8>, at: usize) -> (r: u64)
    requires
        at + 8 <= bytes@.len(),
    ensures
        r as int == le_value(bytes@.subrange(at as int, at + 8)),
{
    let mut r: u64 = 0;
    let mut j: usize = 8;
    while j > 0
        invariant
            j <= 8,
            at + 8 <= bytes@.len(),
            r as int == le_value(bytes@.subrange(at + j, at + 8)),
        decreases j,
    {
        j = j - 1;
        proof {
            vstd::std_specs::vec::axiom_spec_len(bytes);
            let tail = bytes@.subrange(at + j + 1, at + 8);
            lemma_le_value_bound(tail);
            lemma_pow256_monotonic(tail.len() as nat, 7);
            assert(pow256(7) == 0x100000000000000) by {
                reveal_with_fuel(pow256, 8);
            }
            let whole = bytes@.subrange(at + j, at + 8);
            assert(whole.drop_first() =~= tail);
            assert(whole.first() == bytes@[at + j]);
        }
        r = r * 256 + (bytes[at + j] as u64);
    }
    proof {
        assert(bytes@.subrange(at as int, at + 8) =~= bytes@.subrange(at + 0, at + 8));
    }
    r
}

/// The byte stream a run of (key, value) pairs encodes to: for each pair the
/// key, then the value, as 8 little-endian bytes each.
pub open spec fn encode_pairs(prs: Seq<(usize, u64)>) -> Seq<u8>
    decreases prs.len(),
{
    if prs.len() == 0 {
        Seq::empty()
    } else {
        encode_pairs(prs.drop_last()) + le_bytes(prs.last().0 as int, 8) + le_bytes(
            prs.last().1 as int,
            8,
        )
    }
}

/// The wire format of an arena model: the occupied-pair count as 8
/// little-endian bytes, then the pairs in ascending key order.
pub open spec fn encode_spec(s: Seq<Option<u64>>) -> Seq<u8> {
    le_bytes(pairs_spec(s).len() as int, 8) + encode_pairs(pairs_spec(s))
}

/// The pair count a byte stream declares.
pub open spec fn decode_count(bytes: Seq<u8>) -> int {
    le_value(bytes.take(8))
}

/// The key of the stream's `k`-th pair.
pub open spec fn decoded_key(bytes: Seq<u8>, k: int) -> int {
    le_value(bytes.subrange(8 + 16 * k, 16 + 16 * k))
}

/// The value of the stream's `k`-th pair.
pub open spec fn decoded_value(bytes: Seq<u8>, k: int) -> int {
    le_value(bytes.subrange(16 + 16 * k, 24 + 16 * k))
}

/// The (key, value) pairs a byte stream carries, as many as it declares.
pub open spec fn decoded_pairs(bytes: Seq<u8>) -> Seq<(usize, u64)> {
    Seq::new(
        decode_count(bytes) as nat,
        |k: int| (decoded_key(bytes, k) as usize, decoded_value(bytes, k) as u64),
    )
}

/// Encodes the arena as its wire format.
pub fn encode_slab<S: ListStorage<Slot<u64>>>(slab: &Slab<u64, S>) -> (r: Vec<u8>)
    requires
        slab.wf(),
    ensures
        r@ == encode_spec(slab.view()),
{
    let pairs = slab.pairs();
    let mut out: Vec<u8> = Vec::new();
    push_le(&mut out, pairs.len() as u64);
    proof {
        assert(out@ =~= le_bytes(pairs@.len() as int, 8) + encode_pairs(pairs@.take(0)));
    }
    let mut i: usize = 0;
    while i < pairs.len()
        invariant
            pairs@ == pairs_spec(slab.view()),
            i <= pairs@.len(),
            out@ == le_bytes(pairs@.len() as int, 8) + encode_pairs(pairs@.take(i as int)),
        decreases pairs@.len() - i,
    {
        push_le(&mut out, pairs[i].0 as u64);
        push_le(&mut out, pairs[i].1);
        proof {
            assert(pairs@.take(i + 1).drop_last() =~= pairs@.take(i as int));
            assert(pairs@.take(i + 1).last() == pairs@[i as int]);
            assert(out@ =~= le_bytes(pairs@.len() as int, 8) + encode_pairs(pairs@.take(i + 1)));
        }
        i = i + 1;
    }
    proof {
        assert(pairs@.take(pairs@.len() as int) =~= pairs@);
    }
    out
}

/// A count of 16-byte pairs exceeds a byte budget exactly when it exceeds
/// the budget's whole number of pairs.
proof fn lemma_pair_budget(count: int, budget: int)
    requires
        budget >= 0,
    ensures
        count * 16 > budget <==> count > budget / 16,
{
    vstd::arithmetic::div_mod::lemma_fundamental_div_mod(budget, 16);
    assert(count * 16 > budget <==> count > budget / 16) by (nonlinear_arith)
        requires
            budget == 16 * (budget / 16) + budget % 16,
            0 <= budget % 16 < 16,
    {
    }
}

/// Decodes a wire-format stream back into an arena, via the builder.
///
/// The declared count is validated against the remaining bytes before
/// anything is allocated; a stream that ends early, or declares more pairs
/// than its bytes can hold, or carries a key too large to address, is
/// rejected and no partial arena is returned.
pub fn decode_slab(bytes: &Vec<u8>) -> (r: Result<Slab<u64, VecStorage>, Error>)
    ensures
        match r {
            Ok(slab) => {
                &&& bytes@.len() >= 8
                &&& decode_count(bytes@) * 16 <= bytes@.len() - 8
                &&& forall|k: int| 0 <= k < decode_count(bytes@)
                    ==> #[trigger] decoded_key(bytes@, k) < usize::MAX
                &&& slab.wf()
                &&& slab.view() == build_seq(decoded_pairs(bytes@))
                &&& slab.occupied_count() == occupied_total(build_seq(decoded_pairs(bytes@)))
            },
            Err(e) => match e {
                Error::DecodeShort => bytes@.len() < 8,
                Error::DecodeTooLarge => bytes@.len() >= 8
                    && decode_count(bytes@) * 16 > bytes@.len() - 8,
                Error::DecodeMalformed => bytes@.len() >= 8
                    && decode_count(bytes@) * 16 <= bytes@.len() - 8
                    && exists|k: int| 0 <= k < decode_count(bytes@)
                        && #[trigger] decoded_key(bytes@, k) >= usize::MAX,
                _ => false,
            },
        },
{
    let n = bytes.len();
    if n < 8 {
        return Err(Error::DecodeShort);
    }
    let count64 = read_le(bytes, 0);
    proof {
        assert(bytes@.subrange(0, 8) =~= bytes@.take(8));
        lemma_pair_budget(count64 as int, n - 8);
    }
    let budget = (n - 8) / 16;
    if count64 > budget as u64 {
        return Err(Error::DecodeTooLarge);
    }
    let count = count64 as usize;
    let mut builder = Builder::<u64>::with_capacity(count);
    let mut k: usize = 0;
    while k < count
        invariant
            n == bytes@.len(),
            8 <= n,
            count as int == decode_count(bytes@),
            count * 16 <= n - 8,
            k <= count,
            builder.view() == build_seq(decoded_pairs(bytes@).take(k as int)),
            forall|j: int| 0 <= j < k ==> #[trigger] decoded_key(bytes@, j) < usize::MAX,
        decreases count - k,
    {
        let off = 8 + 16 * k;
        let key64 = read_le(bytes, off);
        let val64 = read_le(bytes, off + 8);
        proof {
            assert(bytes@.subrange(off as int, off + 8) =~= bytes@.subrange(
                8 + 16 * (k as int),
                16 + 16 * (k as int),
            ));
            assert(bytes@.subrange(off + 8, off + 8 + 8) =~= bytes@.subrange(
                16 + 16 * (k as int),
                24 + 16 * (k as int),
            ));
        }
        if key64 >= usize::MAX as u64 {
            proof {
                assert(decoded_key(bytes@, k as int) >= usize::MAX);
            }
            return Err(Error::DecodeMalformed);
        }
        builder.pair(key64 as usize, val64);
        proof {
            let prs = decoded_pairs(bytes@);
            assert(prs.take(k + 1).drop_last() =~= prs.take(k as int));
            assert(prs.take(k + 1).last() == prs[k as int]);
            assert(prs[k as int] == (key64 as usize, val64));
        }
        k = k + 1;
    }
    proof {
        assert(decoded_pairs(bytes@).take(count as int) =~= decoded_pairs(bytes@));
    }
    Ok(builder.build())
}

/// Each pair takes exactly 16 bytes.
proof fn lemma_encode_pairs_len(prs: Seq<(usize, u64)>)
    ensures
        encode_pairs(prs).len() == 16 * prs.len(),
    decreases prs.len(),
{
    if prs.len() > 0 {
        lemma_encode_pairs_len(prs.drop_last());
        lemma_le_bytes_len(prs.last().0 as int, 8);
        lemma_le_bytes_len(prs.last().1 as int, 8);
    }
}

/// The `k`-th pair's key and value stand at their fixed offsets of the pair
/// stream.
proof fn lemma_encode_pairs_slice(prs: Seq<(usize, u64)>, k: int)
    requires
        0 <= k < prs.len(),
    ensures
        encode_pairs(prs).subrange(16 * k, 16 * k + 8) == le_bytes(prs[k].0 as int, 8),
        encode_pairs(prs).subrange(16 * k + 8, 16 * k + 16) == le_bytes(prs[k].1 as int, 8),
    decreases prs.len(),
{
    lemma_encode_pairs_len(prs);
    lemma_encode_pairs_len(prs.drop_last());
    lemma_le_bytes_len(prs.last().0 as int, 8);
    lemma_le_bytes_len(prs.last().1 as int, 8);
    if k == prs.len() - 1 {
        assert(encode_pairs(prs).subrange(16 * k, 16 * k + 8) =~= le_bytes(prs[k].0 as int, 8));
        assert(encode_pairs(prs).subrange(16 * k + 8, 16 * k + 16) =~= le_bytes(
            prs[k].1 as int,
            8,
        ));
    } else {
        lemma_encode_pairs_slice(prs.drop_last(), k);
        assert(prs.drop_last()[k] == prs[k]);
        assert(encode_pairs(prs).subrange(16 * k, 16 * k + 8) =~= encode_pairs(
            prs.drop_last(),
        ).subrange(16 * k, 16 * k + 8));
        assert(encode_pairs(prs).subrange(16 * k + 8, 16 * k + 16) =~= encode_pairs(
            prs.drop_last(),
        ).subrange(16 * k + 8, 16 * k + 16));
    }
}

/// Codec round trip: the encoding of any arena model decodes without error —
/// the stream is long enough, its declared count honest, its keys
/// addressable — into the same pairs, and the arena the builder rebuilds
/// from them has the identical (key, value) enumeration.
pub proof fn lemma_codec_round_trip(s: Seq<Option<u64>>)
    requires
        s.len() <= usize::MAX,
    ensures
        encode_spec(s).len() >= 8,
        decode_count(encode_spec(s)) == pairs_spec(s).len(),
        decode_count(encode_spec(s)) * 16 <= encode_spec(s).len() - 8,
        forall|k: int| 0 <= k < decode_count(encode_spec(s))
            ==> #[trigger] decoded_key(encode_spec(s), k) < usize::MAX,
        decoded_pairs(encode_spec(s)) == pairs_spec(s),
        pairs_spec(build_seq(decoded_pairs(encode_spec(s)))) == pairs_spec(s),
{
    let prs = pairs_spec(s);
    let count = prs.len();
    let bytes = encode_spec(s);
    lemma_pairs_spec_shape(s);
    lemma_le_bytes_len(count as int, 8);
    lemma_encode_pairs_len(prs);
    assert(bytes.len() == 8 + 16 * count);
    assert(pow256(8) == 0x10000000000000000) by {
        reveal_with_fuel(pow256, 9);
    }
    assert(bytes.take(8) =~= le_bytes(count as int, 8));
    lemma_le_round_trip(count as int, 8);
    assert(decode_count(bytes) == count);
    assert forall|k: int| 0 <= k < count implies decoded_key(bytes, k) == prs[k].0
        && decoded_value(bytes, k) == prs[k].1 by {
        lemma_encode_pairs_slice(prs, k);
        assert(bytes.subrange(8 + 16 * k, 16 + 16 * k) =~= encode_pairs(prs).subrange(
            16 * k,
            16 * k + 8,
        ));
        assert(bytes.subrange(16 + 16 * k, 24 + 16 * k) =~= encode_pairs(prs).subrange(
            16 * k + 8,
            16 * k + 16,
        ));
        lemma_le_round_trip(prs[k].0 as int, 8);
        lemma_le_round_trip(prs[k].1 as int, 8);
    }
    assert(decoded_pairs(bytes) =~= prs);
    lemma_build_seq_pairs(prs);
}

} // verus!
