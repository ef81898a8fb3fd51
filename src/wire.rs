//! Unsigned integers as fixed-width byte sequences, least or most significant
//! byte first.
use vstd::prelude::*;

verus! {

/// Byte order of a multi-byte value on the wire.
#[derive(Clone, Copy, Debug, PartialEq, Eq, Structural)]
pub enum ByteOrder {
    Little,
    Big,
}

/// `256` to the power `w`: the number of values that `w` bytes can hold.
pub open spec fn pow256(w: nat) -> nat
    decreases w,
{
    if w == 0 {
        1
    } else {
        256 * pow256((w - 1) as nat)
    }
}

/// The `w` low bytes of `v`, least significant first.
pub open spec fn le_digits(v: nat, w: nat) -> Seq<u8>
    decreases w,
{
    if w == 0 {
        Seq::empty()
    } else {
        seq![(v % 256) as u8] + le_digits(v / 256, (w - 1) as nat)
    }
}

/// The value of `s` read least significant byte first.
pub open spec fn le_value(s: Seq<u8>) -> nat
    decreases s.len(),
{
    if s.len() == 0 {
        0
    } else {
        s[0] as nat + 256 * le_value(s.subrange(1, s.len() as int))
    }
}

/// The `w` low bytes of `v`, most significant first.
pub open spec fn be_digits(v: nat, w: nat) -> Seq<u8> {
    le_digits(v, w).reverse()
}

/// The value of `s` read most significant byte first.
pub open spec fn be_value(s: Seq<u8>) -> nat {
    le_value(s.reverse())
}

/// The `w` low bytes of `v` in the given order.
pub open spec fn digits(order: ByteOrder, v: nat, w: nat) -> Seq<u8> {
    match order {
        ByteOrder::Little => le_digits(v, w),
        ByteOrder::Big => be_digits(v, w),
    }
}

/// The value of `s` read in the given order.
pub open spec fn value_of(order: ByteOrder, s: Seq<u8>) -> nat {
    match order {
        ByteOrder::Little => le_value(s),
        ByteOrder::Big => be_value(s),
    }
}

pub proof fn lemma_pow256_monotonic(a: nat, b: nat)
    requires
        a <= b,
    ensures
        pow256(a) <= pow256(b),
    decreases b,
{
    if a < b {
        lemma_pow256_monotonic(a, (b - 1) as nat);
    }
}

pub proof fn lemma_pow256_16()
    ensures
        pow256(16) == 0x1_0000_0000_0000_0000_0000_0000_0000_0000,
        pow256(8) == 0x1_0000_0000_0000_0000,
        pow256(4) == 0x1_0000_0000,
        pow256(2) == 0x1_0000,
        pow256(1) == 0x100,
{
    reveal_with_fuel(pow256, 17);
}

pub proof fn lemma_le_digits_len(v: nat, w: nat)
    ensures
        le_digits(v, w).len() == w,
    decreases w,
{
    if w > 0 {
        lemma_le_digits_len(v / 256, (w - 1) as nat);
    }
}

pub proof fn lemma_le_value_bound(s: Seq<u8>)
    ensures
        le_value(s) < pow256(s.len()),
    decreases s.len(),
{
    if s.len() > 0 {
        let rest = s.subrange(1, s.len() as int);
        lemma_le_value_bound(rest);
        let r = le_value(rest);
        let p = pow256(rest.len());
        assert(s[0] as nat + 256 * r < 256 * p) by (nonlinear_arith)
            requires
                r < p,
                s[0] < 256,
        ;
    }
}

/// Reading the digits of a value back gives the value, when it fits.
pub proof fn lemma_le_value_of_digits(v: nat, w: nat)
    requires
        v < pow256(w),
    ensures
        le_value(le_digits(v, w)) == v,
    decreases w,
{
    if w > 0 {
        let d = le_digits(v, w);
        let rest = le_digits(v / 256, (w - 1) as nat);
        assert(v / 256 < pow256((w - 1) as nat)) by (nonlinear_arith)
            requires
                v < 256 * pow256((w - 1) as nat),
        ;
        lemma_le_value_of_digits(v / 256, (w - 1) as nat);
        lemma_le_digits_len(v / 256, (w - 1) as nat);
        assert(d.subrange(1, d.len() as int) =~= rest);
    }
}

/// Writing the value of a byte sequence gives the sequence back.
pub proof fn lemma_le_digits_of_value(s: Seq<u8>)
    ensures
        le_digits(le_value(s), s.len()) == s,
    decreases s.len(),
{
    if s.len() > 0 {
        let rest = s.subrange(1, s.len() as int);
        lemma_le_digits_of_value(rest);
        let v = le_value(s);
        let r = le_value(rest);
        assert(v % 256 == s[0] as nat && v / 256 == r) by (nonlinear_arith)
            requires
                v == s[0] as nat + 256 * r,
                s[0] < 256,
        ;
        assert(le_digits(v, s.len()) =~= s);
    }
}

pub proof fn lemma_digits_len(order: ByteOrder, v: nat, w: nat)
    ensures
        digits(order, v, w).len() == w,
{
    lemma_le_digits_len(v, w);
}

/// Reading back, in the same order, the digits of a value that fits gives the value.
pub proof fn lemma_value_of_digits(order: ByteOrder, v: nat, w: nat)
    requires
        v < pow256(w),
    ensures
        value_of(order, digits(order, v, w)) == v,
{
    lemma_le_value_of_digits(v, w);
    assert(le_digits(v, w).reverse().reverse() =~= le_digits(v, w));
}

/// Writing, in the same order, the value read from a sequence gives the sequence.
pub proof fn lemma_digits_of_value(order: ByteOrder, s: Seq<u8>)
    ensures
        digits(order, value_of(order, s), s.len()) == s,
        value_of(order, s) < pow256(s.len()),
{
    match order {
        ByteOrder::Little => {
            lemma_le_digits_of_value(s);
            lemma_le_value_bound(s);
        },
        ByteOrder::Big => {
            lemma_le_digits_of_value(s.reverse());
            lemma_le_value_bound(s.reverse());
            assert(s.reverse().reverse() =~= s);
        },
    }
}

/// Two values that fit in `w` bytes and have the same digits are equal.
pub proof fn lemma_digits_injective(order: ByteOrder, v: nat, u: nat, w: nat)
    requires
        v < pow256(w),
        u < pow256(w),
        digits(order, v, w) == digits(order, u, w),
    ensures
        v == u,
{
    lemma_value_of_digits(order, v, w);
    lemma_value_of_digits(order, u, w);
}

/// Appends the `w` low bytes of `v` to `out`, in the given order.
pub fn write_uint(out: &mut Vec<u8>, v: u128, w: usize, order: ByteOrder)
    requires
        w <= 16,
    ensures
        final(out)@ == old(out)@ + digits(order, v as nat, w as nat),
{
    let mut le: Vec<u8> = Vec::new();
    let mut rest: u128 = v;
    let mut i: usize = 0;
    while i < w
        invariant
            i <= w,
            le@ + le_digits(rest as nat, (w - i) as nat) == le_digits(v as nat, w as nat),
            le@.len() == i,
        decreases w - i,
    {
        le.push((rest % 256) as u8);
        proof {
            let k = (w - i) as nat;
            assert(le_digits(rest as nat, k) == seq![(rest as nat % 256) as u8] + le_digits(
                rest as nat / 256,
                (k - 1) as nat,
            ));
            assert(le@ + le_digits((rest / 256) as nat, (k - 1) as nat) =~= le_digits(
                v as nat,
                w as nat,
            ));
        }
        rest = rest / 256;
        i = i + 1;
    }
    assert(le@ =~= le_digits(v as nat, w as nat));
    match order {
        ByteOrder::Little => {
            let mut j: usize = 0;
            let ghost start = out@;
            while j < w
                invariant
                    j <= w,
                    le@.len() == w,
                    out@ == start + le@.subrange(0, j as int),
                decreases w - j,
            {
                out.push(le[j]);
                assert(le@.subrange(0, j as int).push(le@[j as int]) =~= le@.subrange(
                    0,
                    j as int + 1,
                ));
                j = j + 1;
            }
            assert(le@.subrange(0, w as int) =~= le@);
        },
        ByteOrder::Big => {
            let mut j: usize = 0;
            let ghost start = out@;
            while j < w
                invariant
                    j <= w,
                    le@.len() == w,
                    out@ == start + le@.reverse().subrange(0, j as int),
                decreases w - j,
            {
                out.push(le[w - 1 - j]);
                assert(le@.reverse().subrange(0, j as int).push(le@[w - 1 - j]) =~= le@.reverse().subrange(
                    0,
                    j as int + 1,
                ));
                j = j + 1;
            }
            assert(le@.reverse().subrange(0, w as int) =~= le@.reverse());
        },
    }
}

/// The value of the `w` bytes of `s` from `start` on, read in the given order.
pub fn read_uint(s: &[u8], start: usize, w: usize, order: ByteOrder) -> (r: u128)
    requires
        w <= 16,
        start + w <= s@.len(),
    ensures
        r as nat == value_of(order, s@.subrange(start as int, start + w)),
        (r as nat) < pow256(w as nat),
{
    let n = s.len();
    assert(start + w <= n);
    let end = start + w;
    let ghost field = s@.subrange(start as int, end as int);
    proof {
        lemma_pow256_16();
        lemma_pow256_monotonic(w as nat, 16);
    }
    match order {
        ByteOrder::Little => {
            let mut acc: u128 = 0;
            let mut i: usize = end;
            while i > start
                invariant
                    start <= i <= end,
                    end <= s@.len(),
                    w <= 16,
                    end == start + w,
                    pow256(w as nat) <= pow256(16),
                    pow256(16) == 0x1_0000_0000_0000_0000_0000_0000_0000_0000,
                    acc as nat == le_value(s@.subrange(i as int, end as int)),
                    (acc as nat) < pow256((end - i) as nat),
                decreases i,
            {
                let ghost tail = s@.subrange(i as int, end as int);
                let ghost next = s@.subrange(i - 1, end as int);
                assert(next.subrange(1, next.len() as int) =~= tail);
                proof {
                    lemma_pow256_monotonic((end - i + 1) as nat, w as nat);
                }
                let b = s[i - 1];
                let ghost p = pow256((end - i) as nat);
                assert((b as nat) + 256 * (acc as nat) < 256 * p) by (nonlinear_arith)
                    requires
                        (acc as nat) < p,
                        b < 256,
                ;
                acc = (b as u128) + 256 * acc;
                i = i - 1;
            }
            acc
        },
        ByteOrder::Big => {
            let mut acc: u128 = 0;
            let mut i: usize = start;
            while i < end
                invariant
                    start <= i <= end,
                    end <= s@.len(),
                    w <= 16,
                    end == start + w,
                    pow256(w as nat) <= pow256(16),
                    pow256(16) == 0x1_0000_0000_0000_0000_0000_0000_0000_0000,
                    acc as nat == le_value(s@.subrange(start as int, i as int).reverse()),
                    (acc as nat) < pow256((i - start) as nat),
                decreases end - i,
            {
                let ghost head = s@.subrange(start as int, i as int).reverse();
                let ghost next = s@.subrange(start as int, i + 1).reverse();
                assert(next.subrange(1, next.len() as int) =~= head);
                assert(next[0] == s@[i as int]);
                proof {
                    lemma_pow256_monotonic((i + 1 - start) as nat, w as nat);
                }
                let b = s[i];
                let ghost p = pow256((i - start) as nat);
                assert((b as nat) + 256 * (acc as nat) < 256 * p) by (nonlinear_arith)
                    requires
                        (acc as nat) < p,
                        b < 256,
                ;
                acc = (b as u128) + 256 * acc;
                i = i + 1;
            }
            acc
        },
    }
}

} // verus!
