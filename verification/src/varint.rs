use vstd::prelude::*;

use crate::error::Error;

verus! {

/// Greatest number of 7-bit groups a pointer-width varint may occupy on this
/// platform: 5 groups cover 32 bits, 10 groups cover 64 bits.
pub open spec fn vmax_groups() -> nat {
    if usize::MAX == 0xFFFF_FFFF {
        5nat
    } else {
        10nat
    }
}

/// 128 raised to `k`, the weight of the `k`-th 7-bit group.
pub open spec fn pow128(k: nat) -> nat
    decreases k,
{
    if k == 0 {
        1nat
    } else {
        128 * pow128((k - 1) as nat)
    }
}

/// Canonical varint encoding of `n`: little-endian 7-bit groups, high bit set
/// on every byte but the last.
pub open spec fn varint_enc(n: nat) -> Seq<u8>
    decreases n,
{
    if n < 128 {
        seq![n as u8]
    } else {
        seq![((n % 128) + 128) as u8] + varint_enc(n / 128)
    }
}

/// The integer named by a run of varint bytes, continuation bits ignored.
pub open spec fn vval(b: Seq<u8>) -> nat
    decreases b.len(),
{
    if b.len() == 0 {
        0nat
    } else {
        (b[0] % 128) as nat + 128 * vval(b.drop_first())
    }
}

/// `b` is a complete varint byte run: every byte but the last carries the
/// continuation bit, and the last does not.
pub open spec fn vterm(b: Seq<u8>) -> bool {
    &&& b.len() >= 1
    &&& forall|i: int| 0 <= i < b.len() - 1 ==> b[i] >= 128
    &&& b[b.len() - 1] < 128
}

/// Some prefix of `b` is a varint this platform accepts: it terminates within
/// the group bound and its value fits a `usize`.
pub open spec fn has_varint(b: Seq<u8>) -> bool {
    exists|k: int|
        {
            &&& 0 <= k < vmax_groups()
            &&& k < b.len()
            &&& (forall|j: int| 0 <= j < k ==> b[j] >= 128)
            &&& b[k] < 128
            &&& vval(b.subrange(0, k + 1)) <= usize::MAX
        }
}

pub proof fn lemma_varint_enc_term(n: nat)
    ensures
        vterm(varint_enc(n)),
        vval(varint_enc(n)) == n,
        varint_enc(n).len() >= 1,
        (varint_enc(n).len() == 1) <==> n < 128,
    decreases n,
{
    if n < 128 {
        let b = varint_enc(n);
        assert(b[0] < 128);
        assert(b.drop_first() =~= Seq::<u8>::empty());
        assert(vval(Seq::<u8>::empty()) == 0);
        assert(vval(b) == n);
    } else {
        lemma_varint_enc_term(n / 128);
        let rest = varint_enc(n / 128);
        let b = varint_enc(n);
        assert(b[0] == ((n % 128) + 128) as u8);
        assert(b.drop_first() =~= rest);
        assert forall|i: int| 0 <= i < b.len() - 1 implies b[i] >= 128 by {
            if i > 0 {
                assert(b[i] == rest[i - 1]);
                if i - 1 < rest.len() - 1 {
                } else {
                }
            }
        }
        assert(b[b.len() - 1] == rest[rest.len() - 1]);
        assert(b[0] % 128 == n % 128) by {
            assert(((n % 128) + 128) as u8 % 128 == n % 128) by (nonlinear_arith);
        }
        assert(vval(b) == (n % 128) + 128 * (n / 128));
        assert((n % 128) + 128 * (n / 128) == n) by (nonlinear_arith);
    }
}

/// A value below `pow128(k)` encodes in at most `k` groups.
pub proof fn lemma_varint_enc_len(n: nat, k: nat)
    requires
        n < pow128(k),
        k >= 1,
    ensures
        varint_enc(n).len() <= k,
    decreases n,
{
    if n < 128 {
    } else {
        assert(pow128(k) == 128 * pow128((k - 1) as nat));
        assert(n / 128 < pow128((k - 1) as nat)) by (nonlinear_arith)
            requires
                n < 128 * pow128((k - 1) as nat),
        ;
        assert((k - 1) as nat >= 1) by {
            if k == 1 {
                assert(pow128(1nat) == 128);
            }
        }
        lemma_varint_enc_len(n / 128, (k - 1) as nat);
    }
}

/// Any `usize` value encodes within the platform group bound.
pub proof fn lemma_varint_enc_fits(n: nat)
    requires
        n <= usize::MAX,
    ensures
        varint_enc(n).len() <= vmax_groups(),
{
    if usize::MAX == 0xFFFF_FFFF {
        assert(pow128(5nat) == 0x8_0000_0000) by {
            reveal_with_fuel(pow128, 6);
        }
        lemma_varint_enc_len(n, 5);
    } else {
        assert(pow128(10nat) == 0x40_0000_0000_0000_0000) by {
            reveal_with_fuel(pow128, 11);
        }
        lemma_varint_enc_len(n, 10);
    }
}

/// Splitting a byte run splits its value by the weight of the cut point.
pub proof fn lemma_vval_split(b: Seq<u8>, i: int)
    requires
        0 <= i <= b.len(),
    ensures
        vval(b) == vval(b.subrange(0, i)) + pow128(i as nat) * vval(b.skip(i)),
    decreases i,
{
    if i == 0 {
        assert(b.subrange(0, 0) =~= Seq::<u8>::empty());
        assert(b.skip(0) =~= b);
        assert(vval(Seq::<u8>::empty()) == 0);
        assert(pow128(0) == 1);
        assert(pow128(i as nat) * vval(b.skip(i)) == vval(b)) by (nonlinear_arith)
            requires
                pow128(i as nat) == 1,
                vval(b.skip(i)) == vval(b),
        ;
    } else {
        assert(b.len() >= 1);
        lemma_vval_split(b.drop_first(), i - 1);
        assert(b.drop_first().subrange(0, i - 1) =~= b.subrange(0, i).drop_first());
        assert(b.drop_first().skip(i - 1) =~= b.skip(i));
        let p = pow128((i - 1) as nat);
        let tail = vval(b.skip(i));
        let head = vval(b.subrange(0, i));
        assert(vval(b) == (b[0] % 128) + 128 * vval(b.drop_first()));
        assert(vval(b.drop_first()) == vval(b.subrange(0, i).drop_first()) + p * tail);
        assert(head == (b.subrange(0, i)[0] % 128) + 128 * vval(b.subrange(0, i).drop_first()));
        assert(b.subrange(0, i)[0] == b[0]);
        assert(128 * (vval(b.subrange(0, i).drop_first()) + p * tail) == 128 * vval(
            b.subrange(0, i).drop_first(),
        ) + 128 * (p * tail)) by (nonlinear_arith);
        assert(128 * (p * tail) == (128 * p) * tail) by (nonlinear_arith);
        assert(pow128(i as nat) == 128 * p);
        assert(vval(b) == head + pow128(i as nat) * tail);
    }
}

/// Canonical varint encoding of `x`, as a fresh byte vector.
pub fn varint_to_vec(x: usize) -> (r: Vec<u8>)
    ensures
        r@ == varint_enc(x as nat),
{
    let mut v: usize = x;
    let mut r: Vec<u8> = Vec::new();
    proof {
        assert(r@ + varint_enc(v as nat) =~= varint_enc(x as nat));
    }
    while v >= 128
        invariant
            r@ + varint_enc(v as nat) == varint_enc(x as nat),
        decreases v,
    {
        let byte: u8 = ((v % 128) + 128) as u8;
        proof {
            assert(varint_enc(v as nat) == seq![byte] + varint_enc(v as nat / 128));
            assert(r@.push(byte) + varint_enc(v as nat / 128) =~= r@ + varint_enc(v as nat));
        }
        r.push(byte);
        v = v / 128;
    }
    let last: u8 = v as u8;
    proof {
        assert(varint_enc(v as nat) =~= seq![last]);
        assert(r@.push(last) =~= r@ + varint_enc(v as nat));
    }
    r.push(last);
    r
}

/// A pointer-width integer earmarked for varint encoding.
pub struct VarintUsize(pub usize);

impl VarintUsize {
    /// A fresh scratch buffer for [`Self::to_buf`].
    pub fn new_buf() -> (r: Vec<u8>)
        ensures
            r@ == Seq::<u8>::empty(),
    {
        Vec::new()
    }

    /// The greatest number of bytes a pointer-width varint may occupy here.
    pub fn varint_usize_max() -> (r: usize)
        ensures
            r == vmax_groups(),
    {
        if usize::BITS == 32 {
            5
        } else {
            10
        }
    }

    /// Writes the canonical encoding of this value into `buf` (replacing its
    /// contents) and returns a copy of those bytes.
    pub fn to_buf(&self, buf: &mut Vec<u8>) -> (r: Vec<u8>)
        ensures
            r@ == varint_enc(self.0 as nat),
            final(buf)@ == varint_enc(self.0 as nat),
    {
        let r = varint_to_vec(self.0);
        buf.clear();
        let mut i: usize = 0;
        while i < r.len()
            invariant
                i <= r@.len(),
                buf@ == r@.subrange(0, i as int),
                r@ == varint_enc(self.0 as nat),
            decreases r@.len() - i,
        {
            let b = r[i];
            buf.push(b);
            proof {
                assert(buf@ =~= r@.subrange(0, i + 1));
            }
            i = i + 1;
        }
        proof {
            assert(buf@ =~= r@);
        }
        r
    }
}

proof fn lemma_pow128_mono(j: nat, k: nat)
    requires
        j <= k,
    ensures
        pow128(j) <= pow128(k),
    decreases k,
{
    if j < k {
        lemma_pow128_mono(j, (k - 1) as nat);
        assert(pow128(k) == 128 * pow128((k - 1) as nat));
        assert(pow128((k - 1) as nat) <= 128 * pow128((k - 1) as nat)) by (nonlinear_arith)
            requires
                pow128((k - 1) as nat) >= 0,
        ;
    }
}

proof fn lemma_pow128_fits()
    ensures
        pow128((vmax_groups() - 1) as nat) <= usize::MAX,
{
    if usize::MAX == 0xFFFF_FFFF {
        assert(pow128(4nat) == 0x1000_0000) by {
            reveal_with_fuel(pow128, 5);
        }
    } else {
        assert(pow128(9nat) == 0x8000_0000_0000_0000) by {
            reveal_with_fuel(pow128, 10);
        }
    }
}

/// A canonical encoding sitting at the front of `b` makes `b` decodable.
pub proof fn lemma_enc_prefix_has_varint(b: Seq<u8>, n0: nat)
    requires
        n0 <= usize::MAX,
        varint_enc(n0).is_prefix_of(b),
    ensures
        has_varint(b),
{
    lemma_varint_enc_term(n0);
    lemma_varint_enc_fits(n0);
    let e = varint_enc(n0);
    let k = e.len() - 1;
    assert(b.subrange(0, k + 1) =~= e);
    assert(forall|j: int| 0 <= j < k ==> b[j] == e[j]);
    assert(b[k] == e[k]);
    assert(0 <= k < vmax_groups() && k < b.len() && (forall|j: int| 0 <= j < k ==> b[j] >= 128)
        && b[k] < 128 && vval(b.subrange(0, k + 1)) <= usize::MAX);
}

/// How many bytes a greedy varint read inspects: up to and including the
/// first byte without the continuation bit.
pub open spec fn vused(b: Seq<u8>) -> nat
    decreases b.len(),
{
    if b.len() == 0 {
        0nat
    } else if b[0] < 128 {
        1nat
    } else {
        1 + vused(b.drop_first())
    }
}

/// The outcome of one liberal varint read from the front of `b`: the value
/// and the bytes consumed, or the one failure varints can raise.
pub open spec fn vparse(b: Seq<u8>) -> Result<(nat, nat), Error> {
    if has_varint(b) {
        Ok((vval(b.subrange(0, vused(b) as int)), vused(b)))
    } else {
        Err(Error::DeserializeBadVarint)
    }
}

/// A terminated run at the front of `b` is exactly what the greedy read
/// inspects.
pub proof fn lemma_vterm_vused(b: Seq<u8>, k: int)
    requires
        0 < k <= b.len(),
        vterm(b.subrange(0, k)),
    ensures
        vused(b) == k,
    decreases k,
{
    let c = b.subrange(0, k);
    if k == 1 {
        assert(c[0] == b[0]);
        assert(b[0] < 128);
    } else {
        assert(c[0] == b[0]);
        assert(b[0] >= 128);
        assert(b.drop_first().subrange(0, k - 1) =~= c.drop_first());
        assert(vterm(c.drop_first())) by {
            let d = c.drop_first();
            assert(forall|i: int| 0 <= i < d.len() - 1 ==> d[i] == c[i + 1]);
            assert(d[d.len() - 1] == c[c.len() - 1]);
        }
        lemma_vterm_vused(b.drop_first(), k - 1);
    }
}

proof fn lemma_vval_first(b: Seq<u8>)
    requires
        b.len() >= 1,
    ensures
        vval(b) >= b[0] % 128,
{
}

/// Reads one varint from `input` starting at `pos`.
///
/// Succeeds exactly when some prefix of the remaining input terminates within
/// the platform group bound and names a value that fits a `usize`; a
/// canonical encoding at the front is always read back as the value it
/// encodes, consuming exactly its own bytes.
pub fn try_take_varint(input: &[u8], pos: usize) -> (r: Result<(usize, usize), Error>)
    requires
        pos <= input@.len(),
    ensures
        match r {
            Ok(p) => {
                &&& pos < p.1 <= input@.len()
                &&& p.1 - pos <= vmax_groups()
                &&& vterm(input@.subrange(pos as int, p.1 as int))
                &&& p.0 == vval(input@.subrange(pos as int, p.1 as int))
            },
            Err(e) => {
                &&& e == Error::DeserializeBadVarint
                &&& !has_varint(input@.skip(pos as int))
            },
        },
        forall|n0: nat|
            n0 <= usize::MAX && (#[trigger] varint_enc(n0)).is_prefix_of(
                input@.skip(pos as int),
            ) ==> (r matches Ok(p) && p.0 == n0 && p.1 == pos + varint_enc(n0).len()),
        match r {
            Ok(p) => vparse(input@.skip(pos as int)) == Ok::<(nat, nat), Error>(
                (p.0 as nat, (p.1 - pos) as nat),
            ),
            Err(e) => vparse(input@.skip(pos as int)) == Err::<(nat, nat), Error>(e),
        },
{
    let ghost s = input@.skip(pos as int);
    let n: usize = input.len();
    let max: usize = VarintUsize::varint_usize_max();
    let mut acc: usize = 0;
    let mut mult: usize = 1;
    let mut i: usize = 0;
    loop
        invariant
            pos <= input@.len(),
            n == input@.len(),
            s == input@.skip(pos as int),
            max == vmax_groups(),
            i <= max,
            pos + i <= input@.len(),
            forall|j: int| 0 <= j < i ==> s[j] >= 128,
            i < max ==> mult == pow128(i as nat),
            acc == vval(s.subrange(0, i as int)),
        decreases max - i,
    {
        if i == max {
            proof {
                assert(!has_varint(s)) by {
                    if has_varint(s) {
                        let k = choose|k: int|
                            {
                                &&& 0 <= k < vmax_groups()
                                &&& k < s.len()
                                &&& (forall|j: int| 0 <= j < k ==> s[j] >= 128)
                                &&& s[k] < 128
                                &&& vval(s.subrange(0, k + 1)) <= usize::MAX
                            };
                        assert(s[k] >= 128);
                    }
                }
                assert forall|n0: nat|
                    n0 <= usize::MAX && (#[trigger] varint_enc(n0)).is_prefix_of(s) implies false by {
                    lemma_enc_prefix_has_varint(s, n0);
                }
            }
            return Err(Error::DeserializeBadVarint);
        }
        proof {
            lemma_pow128_fits();
            lemma_pow128_mono(i as nat, (vmax_groups() - 1) as nat);
            lemma_pow128_mono(0, i as nat);
        }
        if pos + i >= n {
            proof {
                assert(s.len() == i);
                assert(!has_varint(s)) by {
                    if has_varint(s) {
                        let k = choose|k: int|
                            {
                                &&& 0 <= k < vmax_groups()
                                &&& k < s.len()
                                &&& (forall|j: int| 0 <= j < k ==> s[j] >= 128)
                                &&& s[k] < 128
                                &&& vval(s.subrange(0, k + 1)) <= usize::MAX
                            };
                        assert(s[k] >= 128);
                    }
                }
                assert forall|n0: nat|
                    n0 <= usize::MAX && (#[trigger] varint_enc(n0)).is_prefix_of(s) implies false by {
                    lemma_enc_prefix_has_varint(s, n0);
                }
            }
            return Err(Error::DeserializeBadVarint);
        }
        let cur: usize = pos + i;
        let b: u8 = *vstd::slice::slice_index_get(input, cur);
        proof {
            assert(s[i as int] == b);
        }
        let low: usize = (b % 128) as usize;
        if low > (usize::MAX - acc) / mult {
            proof {
                lemma_varint_overflow_refute(s, i as nat, acc as nat, mult as nat, low as nat);
                assert forall|n0: nat|
                    n0 <= usize::MAX && (#[trigger] varint_enc(n0)).is_prefix_of(s) implies false by {
                    lemma_enc_prefix_has_varint(s, n0);
                }
            }
            return Err(Error::DeserializeBadVarint);
        }
        proof {
            vstd::arithmetic::div_mod::lemma_fundamental_div_mod((usize::MAX - acc) as int,
                mult as int);
            assert(low * mult <= usize::MAX - acc) by (nonlinear_arith)
                requires
                    low <= (usize::MAX - acc) as int / (mult as int),
                    mult >= 1,
                    (usize::MAX - acc) as int == (mult as int) * ((usize::MAX - acc) as int
                        / (mult as int)) + (usize::MAX - acc) as int % (mult as int),
                    (usize::MAX - acc) as int % (mult as int) >= 0,
            ;
        }
        let acc2: usize = acc + low * mult;
        proof {
            lemma_vval_split(s.subrange(0, i + 1), i as int);
            assert(s.subrange(0, i + 1).subrange(0, i as int) =~= s.subrange(0, i as int));
            let last = s.subrange(0, i + 1).skip(i as int);
            assert(last =~= seq![b]);
            assert(last.drop_first() =~= Seq::<u8>::empty());
            assert(vval(Seq::<u8>::empty()) == 0);
            assert(last[0] == b);
            assert(vval(last) == (b % 128) as nat + 128 * 0);
            assert(vval(s.subrange(0, i + 1)) == acc + pow128(i as nat) * (b % 128) as nat);
            assert(pow128(i as nat) * (b % 128) as nat == low * mult) by (nonlinear_arith)
                requires
                    mult == pow128(i as nat),
                    low == (b % 128) as nat,
            ;
        }
        if b < 128 {
            let end: usize = cur + 1;
            proof {
                let sub = input@.subrange(pos as int, end as int);
                assert(sub =~= s.subrange(0, i + 1));
                assert(vterm(sub));
                assert(acc2 == vval(sub));
                assert(vterm(s.subrange(0, i + 1)));
                lemma_vterm_vused(s, i + 1);
                assert({
                    &&& 0 <= i < vmax_groups()
                    &&& i < s.len()
                    &&& (forall|j: int| 0 <= j < i ==> s[j] >= 128)
                    &&& s[i as int] < 128
                    &&& vval(s.subrange(0, i + 1)) <= usize::MAX
                });
                assert(has_varint(s));
                assert(vparse(s) == Ok::<(nat, nat), Error>((acc2 as nat, (i + 1) as nat)));
                assert forall|n0: nat|
                    n0 <= usize::MAX && (#[trigger] varint_enc(n0)).is_prefix_of(s) implies acc2
                    == n0 && end == pos + varint_enc(n0).len() by {
                    lemma_varint_enc_term(n0);
                    let e = varint_enc(n0);
                    let ll = e.len() as int;
                    if ll - 1 < i {
                        assert(e[ll - 1] == s[ll - 1]);
                        assert(false);
                    }
                    if ll - 1 > i {
                        assert(e[i as int] == s[i as int]);
                        assert(false);
                    }
                    assert(ll == i + 1);
                    assert(e =~= s.subrange(0, i + 1));
                    assert(vval(e) == n0);
                }
            }
            return Ok((acc2, end));
        }
        acc = acc2;
        i = i + 1;
        if i < max {
            proof {
                lemma_pow128_mono(i as nat, (vmax_groups() - 1) as nat);
            }
            mult = mult * 128;
        }
        proof {
            assert(s.subrange(0, i as int).subrange(0, i - 1) =~= s.subrange(0, i - 1));
        }
    }
}

/// When the next group would push the value past `usize::MAX`, no acceptable
/// varint starts the input.
proof fn lemma_varint_overflow_refute(s: Seq<u8>, i: nat, acc: nat, mult: nat, low: nat)
    requires
        i < vmax_groups(),
        i < s.len(),
        forall|j: int| 0 <= j < i ==> s[j] >= 128,
        mult == pow128(i),
        acc == vval(s.subrange(0, i as int)),
        acc <= usize::MAX,
        low == s[i as int] % 128,
        low > (usize::MAX - acc) / (mult as int),
    ensures
        !has_varint(s),
{
    assert(mult >= 1) by {
        lemma_pow128_mono(0, i);
    }
    vstd::arithmetic::div_mod::lemma_fundamental_div_mod((usize::MAX - acc) as int, mult as int);
    assert(low * mult > usize::MAX - acc) by (nonlinear_arith)
        requires
            low > (usize::MAX - acc) as int / (mult as int),
            mult >= 1,
            (usize::MAX - acc) as int == (mult as int) * ((usize::MAX - acc) as int / (mult as int))
                + (usize::MAX - acc) as int % (mult as int),
            (usize::MAX - acc) as int % (mult as int) < (mult as int),
    ;
    if has_varint(s) {
        let k = choose|k: int|
            {
                &&& 0 <= k < vmax_groups()
                &&& k < s.len()
                &&& (forall|j: int| 0 <= j < k ==> s[j] >= 128)
                &&& s[k] < 128
                &&& vval(s.subrange(0, k + 1)) <= usize::MAX
            };
        assert(k >= i);
        lemma_vval_split(s.subrange(0, k + 1), i as int);
        let tail = s.subrange(0, k + 1).skip(i as int);
        assert(s.subrange(0, k + 1).subrange(0, i as int) =~= s.subrange(0, i as int));
        assert(tail.len() >= 1);
        assert(tail[0] == s[i as int]);
        lemma_vval_first(tail);
        assert(mult * vval(tail) >= mult * low) by (nonlinear_arith)
            requires
                vval(tail) >= low,
                mult >= 1,
        ;
        assert(vval(s.subrange(0, k + 1)) >= acc + mult * low);
        assert(mult * low == low * mult) by (nonlinear_arith);
        assert(false);
    }
}

} // verus!

