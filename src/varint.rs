use vstd::prelude::*;

verus! {

/// Largest number of bytes that the encoding of a `u64` takes.
pub const VARINT_MAX_SIZE: usize = 10;

/// The bytes that encode `v`: seven bits at a time, least significant group
/// first, with the high bit set on every byte but the last.
pub open spec fn varint_bytes(v: nat) -> Seq<u8>
    decreases v,
{
    if v < 128 {
        seq![v as u8]
    } else {
        seq![(v % 128 + 128) as u8] + varint_bytes(v / 128)
    }
}

/// What decoding reads at the start of `s`: the value and the number of bytes
/// taken, or `None` where the bytes end before a final byte or more than
/// `budget` bytes would be needed.
pub open spec fn varint_decode(s: Seq<u8>, budget: nat) -> Option<(nat, nat)>
    decreases budget,
{
    if budget == 0 || s.len() == 0 {
        None
    } else if s[0] < 128 {
        Some((s[0] as nat, 1))
    } else {
        match varint_decode(s.drop_first(), (budget - 1) as nat) {
            Some((v, n)) => Some(((s[0] - 128) as nat + 128 * v, n + 1)),
            None => None,
        }
    }
}

/// Decoding as done on a stream of bytes: a value that does not fit in a `u64`
/// is malformed too.
pub open spec fn varint_read(s: Seq<u8>) -> Option<(u64, nat)> {
    match varint_decode(s, VARINT_MAX_SIZE as nat) {
        Some((v, n)) => if v <= u64::MAX {
            Some((v as u64, n))
        } else {
            None
        },
        None => None,
    }
}

proof fn lemma_varint_len(v: nat, k: nat)
    requires
        v < pow128(k),
    ensures
        varint_bytes(v).len() <= k || (k == 0 && varint_bytes(v).len() == 1),
        1 <= varint_bytes(v).len(),
    decreases v,
{
    if v >= 128 {
        if k > 0 {
            assert(v / 128 < pow128((k - 1) as nat)) by (nonlinear_arith)
                requires
                    v < pow128(k),
                    pow128(k) == 128 * pow128((k - 1) as nat),
                    v >= 128,
            ;
            lemma_varint_len(v / 128, (k - 1) as nat);
            if (k - 1) as nat == 0 {
                assert(pow128(0) == 1);
            }
        } else {
            assert(pow128(0) == 1);
        }
    }
}

pub open spec fn pow128(k: nat) -> nat
    decreases k,
{
    if k == 0 {
        1
    } else {
        128 * pow128((k - 1) as nat)
    }
}

/// A `u64` takes at most `VARINT_MAX_SIZE` bytes.
pub proof fn lemma_varint_len_u64(v: u64)
    ensures
        1 <= varint_bytes(v as nat).len() <= VARINT_MAX_SIZE,
{
    reveal_with_fuel(pow128, 11);
    assert(pow128(10) == 1180591620717411303424nat);
    lemma_varint_len(v as nat, 10);
}

/// Decoding the encoding of `v`, whatever follows it, gives back `v` and the
/// length of its encoding.
pub proof fn lemma_varint_round_trip(v: nat, rest: Seq<u8>, budget: nat)
    requires
        budget >= varint_bytes(v).len(),
    ensures
        varint_decode(varint_bytes(v) + rest, budget) == Some((v, varint_bytes(v).len())),
    decreases v,
{
    let s = varint_bytes(v) + rest;
    if v < 128 {
        assert(s[0] == v as u8);
    } else {
        let t = varint_bytes(v / 128);
        assert(s.drop_first() =~= t + rest);
        lemma_varint_round_trip(v / 128, rest, (budget - 1) as nat);
    }
}

/// Decoding what `encode_varint` appended, in a stream of any tail.
pub proof fn lemma_varint_read_round_trip(v: u64, rest: Seq<u8>)
    ensures
        varint_read(varint_bytes(v as nat) + rest) == Some((v, varint_bytes(v as nat).len())),
{
    lemma_varint_len_u64(v);
    lemma_varint_round_trip(v as nat, rest, VARINT_MAX_SIZE as nat);
}

/// Appends the encoding of `value` to `out`.
pub fn encode_varint(out: &mut Vec<u8>, value: u64)
    ensures
        final(out)@ == old(out)@ + varint_bytes(value as nat),
{
    let mut v: u64 = value;
    let ghost start = old(out)@;
    while v >= 128
        invariant
            start + varint_bytes(value as nat) == out@ + varint_bytes(v as nat),
        decreases v,
    {
        let b: u8 = (v % 128 + 128) as u8;
        proof {
            assert(varint_bytes(v as nat) =~= seq![b] + varint_bytes((v / 128) as nat));
            assert(out@ + varint_bytes(v as nat) =~= out@.push(b) + varint_bytes((v / 128) as nat));
        }
        out.push(b);
        v = v / 128;
    }
    out.push(v as u8);
    proof {
        assert(varint_bytes(v as nat) =~= seq![v as u8]);
        assert(start + varint_bytes(value as nat) =~= out@);
    }
}

fn decode_varint_rec(buf: &[u8], pos: usize, budget: usize) -> (r: Option<(u64, usize)>)
    requires
        pos <= buf@.len(),
        budget <= VARINT_MAX_SIZE,
    ensures
        r == (match varint_decode(buf@.skip(pos as int), budget as nat) {
            Some((v, n)) => if v <= u64::MAX {
                Some((v as u64, n as usize))
            } else {
                None::<(u64, usize)>
            },
            None => None,
        }),
    decreases budget,
{
    if budget == 0 || pos >= buf.len() {
        return None;
    }
    let b = buf[pos];
    if b < 128 {
        return Some((b as u64, 1));
    }
    proof {
        assert(buf@.skip(pos as int).drop_first() =~= buf@.skip(pos + 1));
        lemma_decode_len(buf@.skip(pos + 1), (budget - 1) as nat);
    }
    match decode_varint_rec(buf, pos + 1, budget - 1) {
        Some((v, n)) => {
            if v > (u64::MAX - (b - 128) as u64) / 128 {
                None
            } else {
                Some(((b - 128) as u64 + 128 * v, n + 1))
            }
        },
        None => {
            proof {
                let s = buf@.skip(pos as int);
                match varint_decode(s.drop_first(), (budget - 1) as nat) {
                    Some((v, n)) => {
                        assert((s[0] - 128) as nat + 128 * v > u64::MAX);
                    },
                    None => {},
                }
            }
            None
        },
    }
}

proof fn lemma_decode_len(s: Seq<u8>, budget: nat)
    ensures
        varint_decode(s, budget) matches Some((v, n)) ==> 1 <= n <= budget && n <= s.len(),
    decreases budget,
{
    if budget > 0 && s.len() > 0 && s[0] >= 128 {
        lemma_decode_len(s.drop_first(), (budget - 1) as nat);
    }
}

/// Reads a value at `pos`: the value and the number of bytes it took, or
/// `None` where the bytes there are no complete encoding of a `u64`.
pub fn decode_varint(buf: &[u8], pos: usize) -> (r: Option<(u64, usize)>)
    requires
        pos <= buf@.len(),
    ensures
        r matches Some((v, n)) ==> varint_read(buf@.skip(pos as int)) == Some((v, n as nat)),
        r is None ==> varint_read(buf@.skip(pos as int)) is None,
        r matches Some((v, n)) ==> 1 <= n && pos + n <= buf@.len(),
{
    proof {
        lemma_decode_len(buf@.skip(pos as int), VARINT_MAX_SIZE as nat);
    }
    decode_varint_rec(buf, pos, VARINT_MAX_SIZE)
}

} // verus!
