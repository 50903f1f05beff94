use vstd::prelude::*;
use vstd::arithmetic::div_mod::lemma_small_mod;
use vstd::arithmetic::div_mod::lemma_div_multiples_vanish;
use crate::fixed::be_of;
use crate::fixed::be_value;
use crate::fixed::pow256;
use crate::fixed::lemma_be_of_value;
use crate::fixed::lemma_pow256_table;
use crate::fixed::lemma_pow256_pos;

verus! {

/// A 32-byte tamper-evident digest binding a raw input series.
#[derive(Debug)]
pub struct CommitmentDigest {
    pub bytes: Vec<u8>,
}

/// The bytes one observation contributes to the commitment: the
/// timestamp, then the value's IEEE-754 bit pattern, each as eight
/// big-endian bytes.
pub open spec fn pair_bytes(t: u64, b: u64) -> Seq<u8> {
    be_of(t as int, 8) + be_of(b as int, 8)
}

/// The byte message a raw input series commits to: the bytes of every
/// pair, in sequence order.
pub open spec fn message_of(ts: Seq<u64>, bits: Seq<u64>) -> Seq<u8>
    decreases ts.len(),
{
    if ts.len() == 0 {
        Seq::empty()
    } else {
        pair_bytes(ts[0], bits[0]) + message_of(ts.drop_first(), bits.drop_first())
    }
}

/// What Keccak-256 returns on a byte message.
pub uninterp spec fn keccak256_of(msg: Seq<u8>) -> Seq<u8>;

/// Relies on sha3's Keccak256: the digest has 32 bytes and depends on
/// the input bytes alone.
#[verifier::external_body]
fn keccak256(msg: &Vec<u8>) -> (r: Vec<u8>)
    ensures
        r@ == keccak256_of(msg@),
        r@.len() == 32,
{
    let digest = <sha3::Keccak256 as sha3::Digest>::digest(msg.as_slice());
    digest.to_vec()
}

/// Appends the eight big-endian bytes of `x`.
#[verifier::loop_isolation(false)]
fn push_be8(out: &mut Vec<u8>, x: u64)
    ensures
        final(out)@ == old(out)@ + be_of(x as int, 8),
{
    proof {
        lemma_pow256_table();
    }
    let base = out.len();
    let mut p: u64 = 0x100000000000000;
    let mut j: usize = 0;
    while j < 8
        invariant
            out@.len() == base + j,
            base == old(out)@.len(),
            j <= 8,
            forall|t: int| 0 <= t < base ==> #[trigger] out@[t] == old(out)@[t],
            forall|t: int|
                0 <= t < j ==> #[trigger] out@[base + t] == be_of(x as int, 8)[t],
            j < 8 ==> p as int == pow256((7 - j) as nat),
        decreases 8 - j,
    {
        proof {
            lemma_pow256_pos((7 - j) as nat);
        }
        out.push(((x / p) % 256) as u8);
        if j < 7 {
            proof {
                assert(pow256((7 - j) as nat) == 256 * pow256((6 - j) as nat));
                lemma_div_multiples_vanish(pow256((6 - j) as nat), 256);
            }
            p = p / 256;
        }
        j += 1;
    }
    proof {
        assert forall|t: int| 0 <= t < base + 8 implies out@[t] == (old(out)@ + be_of(
            x as int,
            8,
        ))[t] by {
            if t >= base {
                assert(out@[base + (t - base)] == be_of(x as int, 8)[t - base]);
            }
        }
        assert(out@ =~= old(out)@ + be_of(x as int, 8));
    }
}

/// Splitting a concatenation back into its halves.
proof fn lemma_concat_split(a: Seq<u8>, b: Seq<u8>)
    ensures
        (a + b).subrange(0, a.len() as int) =~= a,
        (a + b).subrange(a.len() as int, (a + b).len() as int) =~= b,
{
}

/// The message of a series, extended by one pair, is the message plus
/// that pair's bytes.
pub proof fn lemma_message_snoc(ts: Seq<u64>, bits: Seq<u64>)
    requires
        ts.len() == bits.len(),
        ts.len() >= 1,
    ensures
        message_of(ts, bits) =~= message_of(ts.drop_last(), bits.drop_last()) + pair_bytes(
            ts.last(),
            bits.last(),
        ),
    decreases ts.len(),
{
    if ts.len() == 1 {
        assert(ts.drop_first() =~= Seq::<u64>::empty());
        assert(bits.drop_first() =~= Seq::<u64>::empty());
        assert(ts.drop_last() =~= Seq::<u64>::empty());
        assert(bits.drop_last() =~= Seq::<u64>::empty());
        assert(message_of(ts.drop_first(), bits.drop_first()) =~= Seq::<u8>::empty());
        assert(message_of(ts, bits) =~= pair_bytes(ts[0], bits[0]));
    } else {
        lemma_message_snoc(ts.drop_first(), bits.drop_first());
        assert(ts.drop_first().drop_last() =~= ts.drop_last().drop_first());
        assert(bits.drop_first().drop_last() =~= bits.drop_last().drop_first());
        assert(ts.drop_first().last() == ts.last());
        assert(bits.drop_first().last() == bits.last());
        assert(message_of(ts, bits) =~= pair_bytes(ts[0], bits[0]) + (message_of(
            ts.drop_last().drop_first(),
            bits.drop_last().drop_first(),
        ) + pair_bytes(ts.last(), bits.last())));
        assert(ts.drop_last()[0] == ts[0]);
        assert(bits.drop_last()[0] == bits[0]);
        assert(message_of(ts.drop_last(), bits.drop_last()) =~= pair_bytes(ts[0], bits[0])
            + message_of(ts.drop_last().drop_first(), bits.drop_last().drop_first()));
        assert(message_of(ts, bits) =~= message_of(ts.drop_last(), bits.drop_last()) + pair_bytes(
            ts.last(),
            bits.last(),
        ));
    }
}

/// A message holds sixteen bytes per pair.
pub proof fn lemma_message_len(ts: Seq<u64>, bits: Seq<u64>)
    requires
        ts.len() == bits.len(),
    ensures
        message_of(ts, bits).len() == 16 * ts.len(),
    decreases ts.len(),
{
    if ts.len() > 0 {
        lemma_message_len(ts.drop_first(), bits.drop_first());
    }
}

/// The committed message determines the series: distinct raw inputs
/// give distinct messages, so two series with one digest embody a
/// Keccak-256 collision.
pub proof fn lemma_message_injective(t1: Seq<u64>, b1: Seq<u64>, t2: Seq<u64>, b2: Seq<u64>)
    requires
        t1.len() == b1.len(),
        t2.len() == b2.len(),
        message_of(t1, b1) == message_of(t2, b2),
    ensures
        t1 == t2,
        b1 == b2,
    decreases t1.len(),
{
    lemma_message_len(t1, b1);
    lemma_message_len(t2, b2);
    assert(t1.len() == t2.len());
    if t1.len() == 0 {
        assert(t1 =~= t2);
        assert(b1 =~= b2);
    } else {
        let m = message_of(t1, b1);
        let p1 = pair_bytes(t1[0], b1[0]);
        let p2 = pair_bytes(t2[0], b2[0]);
        let r1 = message_of(t1.drop_first(), b1.drop_first());
        let r2 = message_of(t2.drop_first(), b2.drop_first());
        assert(p1.len() == 16 && p2.len() == 16);
        lemma_concat_split(p1, r1);
        lemma_concat_split(p2, r2);
        assert(p1 =~= m.subrange(0, 16));
        assert(p2 =~= m.subrange(0, 16));
        assert(r1 =~= m.subrange(16, m.len() as int));
        assert(r2 =~= m.subrange(16, m.len() as int));
        lemma_concat_split(be_of(t1[0] as int, 8), be_of(b1[0] as int, 8));
        lemma_concat_split(be_of(t2[0] as int, 8), be_of(b2[0] as int, 8));
        assert(be_of(t1[0] as int, 8) =~= p1.subrange(0, 8));
        assert(be_of(t2[0] as int, 8) =~= p2.subrange(0, 8));
        assert(be_of(b1[0] as int, 8) =~= p1.subrange(8, 16));
        assert(be_of(b2[0] as int, 8) =~= p2.subrange(8, 16));
        lemma_pow256_table();
        lemma_be_of_value(t1[0] as int, 8);
        lemma_be_of_value(t2[0] as int, 8);
        lemma_be_of_value(b1[0] as int, 8);
        lemma_be_of_value(b2[0] as int, 8);
        lemma_small_mod(t1[0] as nat, pow256(8) as nat);
        lemma_small_mod(t2[0] as nat, pow256(8) as nat);
        lemma_small_mod(b1[0] as nat, pow256(8) as nat);
        lemma_small_mod(b2[0] as nat, pow256(8) as nat);
        assert(t1[0] == t2[0]);
        assert(b1[0] == b2[0]);
        lemma_message_injective(t1.drop_first(), b1.drop_first(), t2.drop_first(), b2.drop_first());
        assert forall|i: int| 0 <= i < t1.len() implies t1[i] == t2[i] && b1[i] == b2[i] by {
            if i > 0 {
                assert(t1.drop_first()[i - 1] == t2.drop_first()[i - 1]);
                assert(b1.drop_first()[i - 1] == b2.drop_first()[i - 1]);
            }
        }
        assert(t1 =~= t2);
        assert(b1 =~= b2);
    }
}

/// Derives the tamper-evident digest of a raw input series: for each
/// point in order, the timestamp and then the value bit pattern, both
/// big-endian, folded through Keccak-256.  The same input always gives
/// the same digest.
#[verifier::loop_isolation(false)]
pub fn commit(timestamps: &Vec<u64>, value_bits: &Vec<u64>) -> (r: CommitmentDigest)
    requires
        timestamps@.len() == value_bits@.len(),
    ensures
        r.bytes@ == keccak256_of(message_of(timestamps@, value_bits@)),
        r.bytes@.len() == 32,
{
    let n = timestamps.len();
    let mut msg: Vec<u8> = Vec::new();
    let mut i: usize = 0;
    proof {
        assert(timestamps@.subrange(0, 0) =~= Seq::<u64>::empty());
        assert(value_bits@.subrange(0, 0) =~= Seq::<u64>::empty());
    }
    while i < n
        invariant
            i <= n,
            msg@ == message_of(timestamps@.subrange(0, i as int), value_bits@.subrange(0, i as int)),
        decreases n - i,
    {
        let ghost before = msg@;
        push_be8(&mut msg, timestamps[i]);
        push_be8(&mut msg, value_bits[i]);
        proof {
            let tsub = timestamps@.subrange(0, i + 1);
            let bsub = value_bits@.subrange(0, i + 1);
            lemma_message_snoc(tsub, bsub);
            assert(tsub.drop_last() =~= timestamps@.subrange(0, i as int));
            assert(bsub.drop_last() =~= value_bits@.subrange(0, i as int));
            assert(tsub.last() == timestamps@[i as int]);
            assert(bsub.last() == value_bits@[i as int]);
            assert(msg@ =~= before + pair_bytes(timestamps@[i as int], value_bits@[i as int]));
            assert(msg@ =~= message_of(tsub, bsub));
        }
        i += 1;
    }
    proof {
        assert(timestamps@.subrange(0, n as int) =~= timestamps@);
        assert(value_bits@.subrange(0, n as int) =~= value_bits@);
    }
    let d = keccak256(&msg);
    CommitmentDigest { bytes: d }
}

} // verus!
