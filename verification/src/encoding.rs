use vstd::prelude::*;

verus! {

/// 256 to the power `n`.
pub open spec fn pow256(n: nat) -> nat
    decreases n,
{
    if n == 0 {
        1
    } else {
        256 * pow256((n - 1) as nat)
    }
}

/// The number that the bytes `s` spell, least significant byte first:
/// `s[0] + 256 * s[1] + 256^2 * s[2]` and so on. `lemma_le_value_2`,
/// `lemma_le_value_4` and `lemma_le_value_8` write it out for two, four and
/// eight bytes.
pub open spec fn le_value(s: Seq<u8>) -> nat
    decreases s.len(),
{
    if s.len() == 0 {
        0
    } else {
        le_value(s.drop_last()) + (s.last() as nat) * pow256((s.len() - 1) as nat)
    }
}

/// The `n` low bytes of `x`, least significant byte first: `x % 256`,
/// `(x / 256) % 256`, `(x / 256^2) % 256` and so on. `lemma_le_bytes_2`,
/// `lemma_le_bytes_4` and `lemma_le_bytes_8` write them out for two, four
/// and eight bytes.
pub open spec fn le_bytes(x: nat, n: nat) -> Seq<u8>
    decreases n,
{
    if n == 0 {
        Seq::empty()
    } else {
        le_bytes(x, (n - 1) as nat).push(((x / pow256((n - 1) as nat)) % 256) as u8)
    }
}

/// The number that the bytes `s` spell, most significant byte first.
pub open spec fn be_value(s: Seq<u8>) -> nat
    decreases s.len(),
{
    if s.len() == 0 {
        0
    } else {
        256 * be_value(s.drop_last()) + (s.last() as nat)
    }
}

/// The unsigned number whose bits are those of `x` in two's complement on
/// `width` bytes.
pub open spec fn twos_complement(x: int, width: nat) -> nat {
    if x >= 0 {
        x as nat
    } else {
        (x + pow256(width)) as nat
    }
}

/// The signed number whose two's complement on `width` bytes is `u`.
pub open spec fn from_twos_complement(u: nat, width: nat) -> int {
    if 2 * u < pow256(width) {
        u as int
    } else {
        u - pow256(width)
    }
}

/// Every power of 256 is positive.
pub proof fn lemma_pow256_positive(n: nat)
    ensures
        pow256(n) > 0,
    decreases n,
{
    if n > 0 {
        lemma_pow256_positive((n - 1) as nat);
    }
}

/// The powers of 256 that the fixed-width scalars use.
pub proof fn lemma_pow256_values()
    ensures
        pow256(0) == 1,
        pow256(1) == 0x100,
        pow256(2) == 0x1_0000,
        pow256(3) == 0x100_0000,
        pow256(4) == 0x1_0000_0000,
        pow256(5) == 0x100_0000_0000,
        pow256(6) == 0x1_0000_0000_0000,
        pow256(7) == 0x100_0000_0000_0000,
        pow256(8) == 0x1_0000_0000_0000_0000,
{
    reveal_with_fuel(pow256, 10);
}

/// The `n` low bytes of a number are `n` bytes.
pub proof fn lemma_le_bytes_len(x: nat, n: nat)
    ensures
        le_bytes(x, n).len() == n,
    decreases n,
{
    if n > 0 {
        lemma_le_bytes_len(x, (n - 1) as nat);
    }
}

/// A number of `n` bytes is below 256 to the `n`.
pub proof fn lemma_le_value_bound(s: Seq<u8>)
    ensures
        le_value(s) < pow256(s.len()),
    decreases s.len(),
{
    if s.len() > 0 {
        lemma_le_value_bound(s.drop_last());
        let p = pow256((s.len() - 1) as nat);
        let b = s.last() as nat;
        assert(b * p <= 255 * p) by (nonlinear_arith)
            requires
                b <= 255,
        ;
    }
}

/// Reading back what was written gives the number, when it fits.
pub proof fn lemma_le_value_of_bytes(x: nat, n: nat)
    ensures
        le_value(le_bytes(x, n)) == x % pow256(n),
    decreases n,
{
    lemma_pow256_positive(n);
    if n == 0 {
    } else {
        let m = (n - 1) as nat;
        let p = pow256(m);
        lemma_pow256_positive(m);
        lemma_le_value_of_bytes(x, m);
        lemma_le_bytes_len(x, m);
        let s = le_bytes(x, n);
        assert(s.drop_last() =~= le_bytes(x, m));
        assert(s.last() == ((x / p) % 256) as u8);
        assert(x % (256 * p) == x % p + ((x / p) % 256) * p) by {
            vstd::arithmetic::div_mod::lemma_breakdown(x as int, p as int, 256);
            assert(p * 256 == 256 * p) by (nonlinear_arith);
            assert(p * ((x as int / p as int) % 256) == ((x as int / p as int) % 256) * p)
                by (nonlinear_arith);
        }
    }
}

/// Writing the number that bytes spell gives the bytes back.
pub proof fn lemma_le_bytes_of_value(s: Seq<u8>)
    ensures
        le_bytes(le_value(s), s.len()) == s,
    decreases s.len(),
{
    if s.len() == 0 {
        assert(le_bytes(le_value(s), 0) =~= s);
    } else {
        let m = (s.len() - 1) as nat;
        let p = pow256(m);
        let lo = le_value(s.drop_last());
        let b = s.last() as nat;
        let x = le_value(s);
        lemma_pow256_positive(m);
        lemma_le_value_bound(s.drop_last());
        lemma_le_bytes_of_value(s.drop_last());
        lemma_le_bytes_low(x, lo, b, m);
        assert(x / p == b) by {
            vstd::arithmetic::div_mod::lemma_fundamental_div_mod_converse(
                x as int,
                p as int,
                b as int,
                lo as int,
            );
        }
        assert(b % 256 == b);
        assert(le_bytes(x, s.len()) =~= s);
    }
}

/// The low `n` bytes of a number do not depend on what lies above them.
proof fn lemma_le_bytes_low(x: nat, lo: nat, b: nat, n: nat)
    requires
        x == lo + b * pow256(n),
        lo < pow256(n),
    ensures
        le_bytes(x, n) == le_bytes(lo, n),
{
    lemma_le_bytes_mod(x, n);
    lemma_le_bytes_mod(lo, n);
    lemma_pow256_positive(n);
    let p = pow256(n);
    assert(x % p == lo) by {
        vstd::arithmetic::div_mod::lemma_fundamental_div_mod_converse(
            x as int,
            p as int,
            b as int,
            lo as int,
        );
    }
    assert(lo % p == lo) by {
        vstd::arithmetic::div_mod::lemma_small_mod(lo, p);
    }
}

/// The low `n` bytes of a number are those of its remainder by 256 to the `n`.
proof fn lemma_le_bytes_mod(x: nat, n: nat)
    ensures
        le_bytes(x, n) == le_bytes(x % pow256(n), n),
    decreases n,
{
    lemma_pow256_positive(n);
    if n > 0 {
        let m = (n - 1) as nat;
        let p = pow256(m);
        let y = x % pow256(n);
        lemma_pow256_positive(m);
        lemma_le_bytes_mod(x, m);
        lemma_le_bytes_mod(y, m);
        assert(pow256(n) == p * 256) by (nonlinear_arith)
            requires
                pow256(n) == 256 * p,
        ;
        assert(y % p == x % p) by {
            vstd::arithmetic::div_mod::lemma_mod_mod(x as int, p as int, 256);
        }
        assert((y / p) % 256 == (x / p) % 256) by {
            vstd::arithmetic::div_mod::lemma_breakdown(x as int, p as int, 256);
            vstd::arithmetic::div_mod::lemma_small_mod(y, pow256(n));
            vstd::arithmetic::div_mod::lemma_breakdown(y as int, p as int, 256);
            let a = (x as int / p as int) % 256;
            let c = (y as int / p as int) % 256;
            assert(p * a + x % p == p * c + y % p);
            assert(a == c) by (nonlinear_arith)
                requires
                    p * a == p * c,
                    p > 0,
            ;
        }
    }
}

/// A number of `n` bytes, most significant first, is below 256 to the `n`.
pub proof fn lemma_be_value_bound(s: Seq<u8>)
    ensures
        be_value(s) < pow256(s.len()),
    decreases s.len(),
{
    if s.len() > 0 {
        lemma_be_value_bound(s.drop_last());
    }
}

/// Reads up to eight bytes as a number, least significant byte first.
pub fn read_le(bytes: &[u8]) -> (value: u64)
    requires
        bytes@.len() <= 8,
    ensures
        value == le_value(bytes@),
{
    let mut value: u64 = 0;
    let mut scale: u128 = 1;
    let mut i: usize = 0;
    proof {
        lemma_pow256_values();
    }
    while i < bytes.len()
        invariant
            i <= bytes@.len() <= 8,
            value == le_value(bytes@.take(i as int)),
            scale == pow256(i as nat),
        decreases bytes@.len() - i,
    {
        proof {
            let next = bytes@.take(i + 1);
            assert(next.drop_last() =~= bytes@.take(i as int));
            assert(next.last() == bytes@[i as int]);
            lemma_le_value_bound(next);
            lemma_pow256_values();
            lemma_pow256_monotonic((i + 1) as nat, 8);
            lemma_pow256_monotonic(i as nat, 7);
            assert((bytes@[i as int] as nat) * pow256(i as nat) <= le_value(next));
        }
        let term: u128 = (bytes[i] as u128) * scale;
        value = value + (term as u64);
        scale = scale * 256;
        i = i + 1;
    }
    assert(bytes@.take(i as int) =~= bytes@);
    value
}

/// Writes the `width` low bytes of `x`, least significant byte first.
pub fn write_le(x: u64, width: usize) -> (bytes: Vec<u8>)
    requires
        width <= 8,
    ensures
        bytes@ == le_bytes(x as nat, width as nat),
{
    let mut bytes: Vec<u8> = Vec::new();
    let mut scale: u128 = 1;
    let mut i: usize = 0;
    proof {
        lemma_pow256_values();
    }
    while i < width
        invariant
            i <= width <= 8,
            bytes@ == le_bytes(x as nat, i as nat),
            scale == pow256(i as nat),
        decreases width - i,
    {
        proof {
            lemma_pow256_values();
            lemma_pow256_positive(i as nat);
            lemma_pow256_monotonic(i as nat, 7);
        }
        let digit: u128 = ((x as u128) / scale) % 256;
        bytes.push(digit as u8);
        scale = scale * 256;
        i = i + 1;
    }
    bytes
}

/// Reads up to sixteen bytes as a number, most significant byte first.
pub fn read_be(bytes: &[u8]) -> (value: u128)
    requires
        bytes@.len() <= 16,
    ensures
        value == be_value(bytes@),
{
    let mut value: u128 = 0;
    let mut i: usize = 0;
    while i < bytes.len()
        invariant
            i <= bytes@.len() <= 16,
            value == be_value(bytes@.take(i as int)),
        decreases bytes@.len() - i,
    {
        proof {
            let next = bytes@.take(i + 1);
            assert(next.drop_last() =~= bytes@.take(i as int));
            lemma_be_value_bound(next);
            lemma_pow256_monotonic((i + 1) as nat, 16);
            lemma_pow256_16();
        }
        value = value * 256 + (bytes[i] as u128);
        i = i + 1;
    }
    assert(bytes@.take(i as int) =~= bytes@);
    value
}

/// A higher power of 256 is no smaller.
pub proof fn lemma_pow256_monotonic(a: nat, b: nat)
    requires
        a <= b,
    ensures
        pow256(a) <= pow256(b),
    decreases b,
{
    if a < b {
        lemma_pow256_monotonic(a, (b - 1) as nat);
    }
}

/// 256 to the 16 is 2 to the 128.
pub proof fn lemma_pow256_16()
    ensures
        pow256(16) == 0x1_0000_0000_0000_0000_0000_0000_0000_0000,
{
    lemma_pow256_values();
    reveal_with_fuel(pow256, 9);
}

/// 256 to a sum is the product of the powers.
pub proof fn lemma_pow256_add(a: nat, b: nat)
    ensures
        pow256(a + b) == pow256(a) * pow256(b),
    decreases b,
{
    if b == 0 {
        assert(pow256(a) * 1 == pow256(a)) by (nonlinear_arith);
    } else {
        lemma_pow256_add(a, (b - 1) as nat);
        let x = pow256(a);
        let y = pow256((b - 1) as nat);
        assert(256 * (x * y) == x * (256 * y)) by (nonlinear_arith);
    }
}

/// The number that two byte strings spell together: the first gives the
/// low part, the second the part above it.
pub proof fn lemma_le_value_concat(a: Seq<u8>, b: Seq<u8>)
    ensures
        le_value(a + b) == le_value(a) + le_value(b) * pow256(a.len()),
    decreases b.len(),
{
    if b.len() == 0 {
        assert(a + b =~= a);
        assert(le_value(b) * pow256(a.len()) == 0) by (nonlinear_arith)
            requires
                le_value(b) == 0,
        ;
    } else {
        let s = a + b;
        assert(s.drop_last() =~= a + b.drop_last());
        assert(s.last() == b.last());
        lemma_le_value_concat(a, b.drop_last());
        lemma_pow256_add(a.len(), (b.len() - 1) as nat);
        let p = pow256(a.len());
        let q = pow256((b.len() - 1) as nat);
        let lo = le_value(b.drop_last());
        let top = b.last() as nat;
        assert((lo + top * q) * p == lo * p + top * (p * q)) by (nonlinear_arith);
    }
}

/// `n` bytes that are all zero.
pub open spec fn zeros(n: nat) -> Seq<u8> {
    Seq::new(n, |i: int| 0u8)
}

/// Zero bytes spell zero.
pub proof fn lemma_le_value_zeros(n: nat)
    ensures
        le_value(zeros(n)) == 0,
    decreases n,
{
    if n > 0 {
        lemma_le_value_zeros((n - 1) as nat);
        assert(zeros(n).drop_last() =~= zeros((n - 1) as nat));
        assert(0 * pow256((n - 1) as nat) == 0) by (nonlinear_arith);
    }
}

/// Appends `n` zero bytes.
pub fn push_zeros(bytes: &mut Vec<u8>, n: usize)
    ensures
        final(bytes)@ == old(bytes)@ + zeros(n as nat),
{
    let mut i: usize = 0;
    assert(bytes@ =~= old(bytes)@ + zeros(0));
    while i < n
        invariant
            i <= n,
            bytes@ == old(bytes)@ + zeros(i as nat),
        decreases n - i,
    {
        bytes.push(0);
        i = i + 1;
        assert(bytes@ =~= old(bytes)@ + zeros(i as nat));
    }
}

/// Whether the number that `a` spells is below the number that `b`
/// spells, both least significant byte first and of one length.
pub fn le_less(a: &[u8], b: &[u8]) -> (less: bool)
    requires
        a@.len() == b@.len(),
    ensures
        less == (le_value(a@) < le_value(b@)),
{
    let mut i: usize = a.len();
    assert(a@.take(i as int) =~= a@);
    assert(b@.take(i as int) =~= b@);
    while i > 0
        invariant
            i <= a@.len(),
            a@.len() == b@.len(),
            (le_value(a@) < le_value(b@)) == (le_value(a@.take(i as int)) < le_value(
                b@.take(i as int),
            )),
        decreases i,
    {
        proof {
            let x = a@.take(i as int);
            let y = b@.take(i as int);
            assert(x.drop_last() =~= a@.take(i - 1));
            assert(y.drop_last() =~= b@.take(i - 1));
            lemma_le_value_bound(x.drop_last());
            lemma_le_value_bound(y.drop_last());
            let p = pow256((i - 1) as nat);
            let top_a = x.last() as nat;
            let top_b = y.last() as nat;
            if top_a < top_b {
                assert(top_a * p + p <= top_b * p) by (nonlinear_arith)
                    requires
                        top_a + 1 <= top_b,
                ;
            }
            if top_b < top_a {
                assert(top_b * p + p <= top_a * p) by (nonlinear_arith)
                    requires
                        top_b + 1 <= top_a,
                ;
            }
        }
        i = i - 1;
        if a[i] < b[i] {
            return true;
        }
        if a[i] > b[i] {
            return false;
        }
    }
    false
}

/// The two bytes of a number, written out.
pub proof fn lemma_le_bytes_2(x: nat)
    ensures
        le_bytes(x, 2) == seq![(x % 256) as u8, ((x / 0x100) % 256) as u8],
{
    reveal_with_fuel(le_bytes, 3);
    lemma_pow256_values();
    assert(x / 1 == x);
    assert(le_bytes(x, 1) =~= seq![(x % 256) as u8]);
    assert(le_bytes(x, 2) =~= seq![(x % 256) as u8, ((x / 0x100) % 256) as u8]);
}

/// The four bytes of a number, written out.
pub proof fn lemma_le_bytes_4(x: nat)
    ensures
        le_bytes(x, 4) == seq![
            (x % 256) as u8,
            ((x / 0x100) % 256) as u8,
            ((x / 0x1_0000) % 256) as u8,
            ((x / 0x100_0000) % 256) as u8,
        ],
{
    reveal_with_fuel(le_bytes, 5);
    lemma_pow256_values();
    assert(le_bytes(x, 4) =~= seq![
        (x % 256) as u8,
        ((x / 0x100) % 256) as u8,
        ((x / 0x1_0000) % 256) as u8,
        ((x / 0x100_0000) % 256) as u8,
    ]);
}

/// The eight bytes of a number, written out.
pub proof fn lemma_le_bytes_8(x: nat)
    ensures
        le_bytes(x, 8) == seq![
            (x % 256) as u8,
            ((x / 0x100) % 256) as u8,
            ((x / 0x1_0000) % 256) as u8,
            ((x / 0x100_0000) % 256) as u8,
            ((x / 0x1_0000_0000) % 256) as u8,
            ((x / 0x100_0000_0000) % 256) as u8,
            ((x / 0x1_0000_0000_0000) % 256) as u8,
            ((x / 0x100_0000_0000_0000) % 256) as u8,
        ],
{
    reveal_with_fuel(le_bytes, 9);
    lemma_pow256_values();
    assert(le_bytes(x, 8) =~= seq![
        (x % 256) as u8,
        ((x / 0x100) % 256) as u8,
        ((x / 0x1_0000) % 256) as u8,
        ((x / 0x100_0000) % 256) as u8,
        ((x / 0x1_0000_0000) % 256) as u8,
        ((x / 0x100_0000_0000) % 256) as u8,
        ((x / 0x1_0000_0000_0000) % 256) as u8,
        ((x / 0x100_0000_0000_0000) % 256) as u8,
    ]);
}

/// The number that two bytes spell, written out.
pub proof fn lemma_le_value_2(s: Seq<u8>)
    requires
        s.len() == 2,
    ensures
        le_value(s) == s[0] + 0x100 * s[1],
{
    reveal_with_fuel(le_value, 3);
    lemma_pow256_values();
    assert(s.drop_last().drop_last().len() == 0);
    assert(s.drop_last()[0] == s[0]);
    assert((s[1] as nat) * pow256(1) == 0x100 * s[1]);
}

/// The number that four bytes spell, written out.
pub proof fn lemma_le_value_4(s: Seq<u8>)
    requires
        s.len() == 4,
    ensures
        le_value(s) == s[0] + 0x100 * s[1] + 0x1_0000 * s[2] + 0x100_0000 * s[3],
{
    reveal_with_fuel(le_value, 3);
    lemma_pow256_values();
    let front = s.drop_last();
    let head = front.drop_last();
    assert(front.len() == 3);
    assert(head.len() == 2);
    lemma_le_value_2(head);
    assert(le_value(front) == le_value(head) + (front.last() as nat) * pow256(2));
    assert(le_value(s) == le_value(front) + (s.last() as nat) * pow256(3));
    assert(head[0] == s[0] && head[1] == s[1] && front.last() == s[2]);
    assert((s[2] as nat) * pow256(2) == 0x1_0000 * s[2]);
    assert((s[3] as nat) * pow256(3) == 0x100_0000 * s[3]);
}

/// The number that eight bytes spell, written out.
pub proof fn lemma_le_value_8(s: Seq<u8>)
    requires
        s.len() == 8,
    ensures
        le_value(s) == s[0] + 0x100 * s[1] + 0x1_0000 * s[2] + 0x100_0000 * s[3] + 0x1_0000_0000
            * s[4] + 0x100_0000_0000 * s[5] + 0x1_0000_0000_0000 * s[6] + 0x100_0000_0000_0000
            * s[7],
{
    lemma_pow256_values();
    let low = s.take(4);
    let high = s.skip(4);
    assert(s =~= low + high);
    lemma_le_value_concat(low, high);
    lemma_le_value_4(low);
    lemma_le_value_4(high);
    assert(low[0] == s[0] && low[1] == s[1] && low[2] == s[2] && low[3] == s[3]);
    assert(high[0] == s[4] && high[1] == s[5] && high[2] == s[6] && high[3] == s[7]);
    assert(low.len() == 4);
    assert(le_value(s) == le_value(low) + le_value(high) * 0x1_0000_0000);
}

} // verus!
