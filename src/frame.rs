use vstd::prelude::*;

verus! {

/// Length prefix of a frame: `n` in unsigned LEB128, seven bits per byte,
/// low bits first, the high bit set on every byte but the last.
pub open spec fn varint(n: nat) -> Seq<u8>
    decreases n,
{
    if n < 128 {
        seq![n as u8]
    } else {
        seq![(n % 128 + 128) as u8] + varint(n / 128)
    }
}

/// The longest length prefix accepted, in bytes.
pub const MAX_PREFIX: usize = 9;

pub open spec fn pow128(k: nat) -> nat
    decreases k,
{
    if k == 0 {
        1
    } else {
        128 * pow128((k - 1) as nat)
    }
}

/// The number that the low seven bits of the bytes of `s` spell, low first.
pub open spec fn digits_value(s: Seq<u8>) -> nat
    decreases s.len(),
{
    if s.len() == 0 {
        0
    } else {
        digits_value(s.drop_last()) + (s.last() % 128) as nat * pow128((s.len() - 1) as nat)
    }
}

/// `s` is a length prefix as the encoder writes it: continuation bits on
/// all bytes but the last, and no needless zero byte at the end.
pub open spec fn canonical_prefix(s: Seq<u8>) -> bool {
    &&& s.len() >= 1
    &&& forall|k: int| 0 <= k < s.len() - 1 ==> #[trigger] s[k] >= 128
    &&& s.last() < 128
    &&& (s.len() == 1 || s.last() != 0)
}

proof fn lemma_pow128_positive(k: nat)
    ensures
        pow128(k) >= 1,
    decreases k,
{
    if k > 0 {
        lemma_pow128_positive((k - 1) as nat);
    }
}

proof fn lemma_digits_front(s: Seq<u8>)
    requires
        s.len() >= 1,
    ensures
        digits_value(s) == (s[0] % 128) as nat + 128 * digits_value(s.drop_first()),
    decreases s.len(),
{
    if s.len() == 1 {
        assert(s.drop_last().len() == 0);
        assert(s.drop_first().len() == 0);
        assert(s.last() == s[0]);
        assert(pow128(0) == 1);
        assert(digits_value(s) == digits_value(s.drop_last()) + (s.last() % 128) as nat * pow128(0));
    } else {
        let dl = s.drop_last();
        let df = s.drop_first();
        lemma_digits_front(dl);
        assert(dl.drop_first() =~= df.drop_last());
        assert(dl[0] == s[0]);
        assert(df.last() == s.last());
        let x = digits_value(df.drop_last());
        let y = (s.last() % 128) as nat;
        let z = pow128((s.len() - 2) as nat);
        assert(pow128((s.len() - 1) as nat) == 128 * z);
        assert(digits_value(df) == x + y * z);
        assert(digits_value(s) == digits_value(dl) + y * (128 * z));
        assert(128 * (x + y * z) == 128 * x + y * (128 * z)) by (nonlinear_arith);
    }
}

proof fn lemma_pow128_monotonic(i: nat, j: nat)
    requires
        i <= j,
    ensures
        pow128(i) <= pow128(j),
    decreases j,
{
    if i < j {
        lemma_pow128_monotonic(i, (j - 1) as nat);
        lemma_pow128_positive((j - 1) as nat);
    }
}

proof fn lemma_pow128_eight()
    ensures
        pow128(8) == 72057594037927936,
{
    reveal_with_fuel(pow128, 9);
}

proof fn lemma_varint_shape(n: nat)
    ensures
        canonical_prefix(varint(n)),
        digits_value(varint(n)) == n,
    decreases n,
{
    if n >= 128 {
        lemma_varint_shape(n / 128);
        let t = varint(n / 128);
        let v = varint(n);
        assert(v.drop_first() =~= t);
        assert(v[0] == (n % 128 + 128) as u8);
        assert(v[0] % 128 == n % 128);
        lemma_digits_front(v);
        assert(n == n % 128 + 128 * (n / 128));
        assert forall|k: int| 0 <= k < v.len() - 1 implies #[trigger] v[k] >= 128 by {
            if k > 0 {
                assert(v[k] == t[k - 1]);
            }
        }
        assert(v.last() == t.last());
        if t.len() == 1 {
            assert(t[0] == (n / 128) as u8);
        }
    } else {
        let v = varint(n);
        assert(v.drop_last().len() == 0);
        assert(pow128(0) == 1);
        assert(v.last() == n as u8);
        assert(digits_value(v) == digits_value(v.drop_last()) + (v.last() % 128) as nat * pow128(0));
    }
}

proof fn lemma_varint_len(n: nat, k: nat)
    requires
        k >= 1,
        n < pow128(k),
    ensures
        varint(n).len() <= k,
    decreases k,
{
    if n >= 128 {
        let z = pow128((k - 1) as nat);
        assert(pow128(k) == 128 * z);
        if k == 1 {
            assert(pow128(0) == 1);
        }
        assert(n / 128 < z) by (nonlinear_arith)
            requires
                n < 128 * z,
        ;
        lemma_varint_len(n / 128, (k - 1) as nat);
    }
}

proof fn lemma_canonical_is_varint(s: Seq<u8>)
    requires
        canonical_prefix(s),
    ensures
        s == varint(digits_value(s)),
    decreases s.len(),
{
    lemma_digits_front(s);
    if s.len() == 1 {
        assert(s.drop_first().len() == 0);
        assert(varint(digits_value(s)) =~= s);
    } else {
        let t = s.drop_first();
        assert forall|k: int| 0 <= k < t.len() - 1 implies #[trigger] t[k] >= 128 by {
            assert(t[k] == s[k + 1]);
        }
        assert(t.last() == s.last());
        lemma_canonical_is_varint(t);
        let x = digits_value(t);
        lemma_pow128_positive((t.len() - 1) as nat);
        assert(x >= 1) by {
            assert((t.last() % 128) as nat * pow128((t.len() - 1) as nat) >= 1) by (nonlinear_arith)
                requires
                    (t.last() % 128) as nat >= 1,
                    pow128((t.len() - 1) as nat) >= 1,
            ;
        }
        assert(s[0] >= 128);
        let n = digits_value(s);
        assert(n % 128 == (s[0] % 128) as nat && n / 128 == x);
        assert(varint(n) =~= s);
    }
}

/// What a buffer of received bytes holds at its start.
#[derive(Debug)]
pub enum FrameDecode {
    /// A whole frame: its payload, and how many bytes it took.
    Frame { payload: Vec<u8>, consumed: usize },
    /// More bytes are needed.
    Incomplete,
    /// The length prefix announces more than the size limit.
    Oversized,
    /// The length prefix is not one that the encoder writes.
    Malformed,
}

/// Write the length prefix of `n`.
pub fn encode_length(n: usize) -> (r: Vec<u8>)
    ensures
        r@ == varint(n as nat),
{
    let mut out: Vec<u8> = Vec::new();
    let mut v: usize = n;
    while v >= 128
        invariant
            out@ + varint(v as nat) == varint(n as nat),
        decreases v,
    {
        let ghost before = out@;
        out.push((v % 128 + 128) as u8);
        proof {
            assert(before + varint(v as nat) =~= out@ + varint((v / 128) as nat));
        }
        v = v / 128;
    }
    let ghost before = out@;
    out.push(v as u8);
    proof {
        assert(out@ =~= before + varint(v as nat));
    }
    out
}

/// A frame on the wire: the length prefix, then the payload.
pub fn encode_frame(payload: &Vec<u8>) -> (r: Vec<u8>)
    ensures
        r@ == varint(payload@.len()) + payload@,
{
    let mut out = encode_length(payload.len());
    let ghost prefix = out@;
    let mut i: usize = 0;
    while i < payload.len()
        invariant
            i <= payload@.len(),
            out@ == prefix + payload@.subrange(0, i as int),
        decreases payload@.len() - i,
    {
        out.push(payload[i]);
        i = i + 1;
        proof {
            assert(out@ =~= prefix + payload@.subrange(0, i as int));
        }
    }
    proof {
        assert(payload@.subrange(0, payload@.len() as int) =~= payload@);
    }
    out
}

/// The `n` bytes of `buf` from `start` on.
pub(crate) fn copy_range(buf: &Vec<u8>, start: usize, n: usize) -> (r: Vec<u8>)
    requires
        start + n <= buf@.len(),
    ensures
        r@ == buf@.subrange(start as int, start + n),
{
    let mut out: Vec<u8> = Vec::new();
    let mut k: usize = 0;
    while k < n
        invariant
            k <= n,
            start + n <= buf.len(),
            out@ == buf@.subrange(start as int, start + k),
        decreases n - k,
    {
        out.push(buf[start + k]);
        k = k + 1;
        proof {
            assert(out@ =~= buf@.subrange(start as int, start + k));
        }
    }
    out
}

/// Read the frame at the start of `buf`, if it is all there. A payload
/// longer than `max` is refused on its length prefix alone.
pub fn decode_frame(buf: &Vec<u8>, max: usize) -> (r: FrameDecode)
    ensures
        match r {
            FrameDecode::Frame { payload, consumed } => {
                &&& payload@.len() <= max
                &&& consumed == varint(payload@.len()).len() + payload@.len()
                &&& consumed <= buf@.len()
                &&& buf@.subrange(0, consumed as int) == varint(payload@.len()) + payload@
            },
            FrameDecode::Oversized => exists|n: nat| n > max && #[trigger] varint(n).len() <= buf@.len()
                && buf@.subrange(0, varint(n).len() as int) == varint(n),
            _ => true,
        },
        buf@.len() < MAX_PREFIX && (forall|k: int| 0 <= k < buf@.len() ==> #[trigger] buf@[k] >= 128) ==> r is Incomplete,
        forall|n: nat| #[trigger] varint(n).len() <= buf@.len() && buf@.subrange(0, varint(n).len() as int) == varint(n)
            && n < pow128(MAX_PREFIX as nat) ==> {
            &&& n > max ==> r is Oversized
            &&& n <= max && buf@.len() >= varint(n).len() + n ==> (r matches FrameDecode::Frame { payload, consumed }
                && payload@ == buf@.subrange(varint(n).len() as int, (varint(n).len() + n) as int))
            &&& n <= max && buf@.len() < varint(n).len() + n ==> r is Incomplete
        },
{
    let mut value: u64 = 0;
    let mut mult: u64 = 1;
    let mut i: usize = 0;
    proof {
        assert(buf@.subrange(0, 0).len() == 0);
        lemma_pow128_eight();
        lemma_pow128_monotonic(0, 8);
    }
    loop
        invariant
            i < MAX_PREFIX,
            i <= buf@.len(),
            forall|k: int| 0 <= k < i ==> #[trigger] buf@[k] >= 128,
            value as nat == digits_value(buf@.subrange(0, i as int)),
            mult as nat == pow128(i as nat),
            (value as nat) < pow128(i as nat),
            pow128(i as nat) <= 72057594037927936,
        decreases MAX_PREFIX - i,
    {
        if i >= buf.len() {
            proof {
                assert forall|n: nat| #[trigger] varint(n).len() <= buf@.len() && buf@.subrange(0, varint(n).len() as int)
                    == varint(n) implies false by {
                    lemma_varint_shape(n);
                    let v = varint(n);
                    assert(buf@[v.len() - 1] == v.last());
                }
            }
            return FrameDecode::Incomplete;
        }
        let b = buf[i];
        let ghost s0 = buf@.subrange(0, i as int);
        let ghost s1 = buf@.subrange(0, i + 1);
        proof {
            assert(s1.drop_last() =~= s0);
            assert(s1.last() == b);
            assert(digits_value(s1) == digits_value(s0) + (b % 128) as nat * pow128(i as nat));
            assert(pow128(i as nat + 1) == 128 * pow128(i as nat));
            assert((b % 128) as nat * pow128(i as nat) <= 127 * pow128(i as nat)) by (nonlinear_arith)
                requires
                    (b % 128) as nat <= 127,
            ;
            lemma_pow128_eight();
            lemma_pow128_monotonic(i as nat + 1, 9);
            assert(pow128(9) == 128 * pow128(8));
        }
        value = value + (b % 128) as u64 * mult;
        if b < 128 {
            let len = i + 1;
            if i > 0 && b == 0 {
                proof {
                    assert forall|n: nat| #[trigger] varint(n).len() <= buf@.len() && buf@.subrange(0, varint(n).len() as int)
                        == varint(n) implies false by {
                        lemma_varint_shape(n);
                        lemma_prefix_match(buf@, n, i as int);
                    }
                }
                return FrameDecode::Malformed;
            }
            proof {
                assert(canonical_prefix(s1));
                lemma_canonical_is_varint(s1);
                assert forall|n: nat| #[trigger] varint(n).len() <= buf@.len() && buf@.subrange(0, varint(n).len() as int)
                    == varint(n) implies n == value as nat by {
                    lemma_varint_shape(n);
                    lemma_prefix_match(buf@, n, i as int);
                    assert(varint(n) =~= s1);
                }
            }
            if value > max as u64 {
                proof {
                    assert(varint(value as nat) == s1);
                    assert(buf@.subrange(0, varint(value as nat).len() as int) == varint(value as nat));
                }
                return FrameDecode::Oversized;
            }
            let n = value as usize;
            if buf.len() - len < n {
                return FrameDecode::Incomplete;
            }
            let payload = copy_range(buf, len, n);
            proof {
                assert(varint(n as nat) == s1);
                assert(buf@.subrange(0, len + n) =~= s1 + payload@);
            }
            return FrameDecode::Frame { payload, consumed: len + n };
        }
        if i + 1 >= MAX_PREFIX {
            proof {
                assert forall|n: nat| #[trigger] varint(n).len() <= buf@.len() && buf@.subrange(0, varint(n).len() as int)
                    == varint(n) && n < pow128(MAX_PREFIX as nat) implies false by {
                    lemma_varint_shape(n);
                    lemma_varint_len(n, MAX_PREFIX as nat);
                    let v = varint(n);
                    assert(buf@[v.len() - 1] == v.last());
                }
            }
            return FrameDecode::Malformed;
        }
        proof {
            lemma_pow128_monotonic(i as nat + 1, 8);
        }
        mult = mult * 128;
        i = i + 1;
        proof {
            assert(buf@.subrange(0, i as int) == s1);
        }
    }
}

/// A prefix that matches the start of `buf` ends at the first byte without
/// its continuation bit, here at index `i`.
proof fn lemma_prefix_match(buf: Seq<u8>, n: nat, i: int)
    requires
        0 <= i < buf.len(),
        forall|k: int| 0 <= k < i ==> #[trigger] buf[k] >= 128,
        buf[i] < 128,
        canonical_prefix(varint(n)),
        varint(n).len() <= buf.len(),
        buf.subrange(0, varint(n).len() as int) == varint(n),
    ensures
        varint(n).len() == i + 1,
        varint(n) == buf.subrange(0, i + 1),
{
    let v = varint(n);
    if v.len() < i + 1 {
        assert(buf[v.len() - 1] == v.last());
    } else if v.len() > i + 1 {
        assert(buf[i] == v[i]);
    }
}

/// A written frame, whatever bytes follow it, starts with the length prefix
/// of its payload and then holds the payload: with the size limit met,
/// `decode_frame` on it gives back that payload.
pub proof fn lemma_frame_round_trip(payload: Seq<u8>, rest: Seq<u8>, max: nat)
    requires
        payload.len() <= max,
        payload.len() < pow128(MAX_PREFIX as nat),
    ensures
        ({
            let buf = varint(payload.len()) + payload + rest;
            let n = payload.len();
            &&& varint(n).len() <= buf.len()
            &&& buf.subrange(0, varint(n).len() as int) == varint(n)
            &&& buf.len() >= varint(n).len() + n
            &&& buf.subrange(varint(n).len() as int, (varint(n).len() + n) as int) == payload
        }),
{
    let buf = varint(payload.len()) + payload + rest;
    let v = varint(payload.len());
    assert(buf.subrange(0, v.len() as int) =~= v);
    assert(buf.subrange(v.len() as int, (v.len() + payload.len()) as int) =~= payload);
}

} // verus!
