//! Little-endian encoding of machine words in user memory.
use vstd::prelude::*;

verus! {

/// Bytes in a machine word.
pub const WORD: usize = 8;

/// The `n` low-order bytes of `x`, least significant first.
pub open spec fn le_seq(x: nat, n: nat) -> Seq<u8>
    decreases n,
{
    if n == 0 {
        Seq::empty()
    } else {
        seq![(x % 256) as u8].add(le_seq(x / 256, (n - 1) as nat))
    }
}

pub proof fn lemma_le_len(x: nat, n: nat)
    ensures
        #[trigger] le_seq(x, n).len() == n,
    decreases n,
{
    if n > 0 {
        lemma_le_len(x / 256, (n - 1) as nat);
    }
}

/// The number whose bytes, least significant first, are `s`.
pub open spec fn le_val(s: Seq<u8>) -> nat
    decreases s.len(),
{
    if s.len() == 0 {
        0
    } else {
        s[0] as nat + 256 * le_val(s.drop_first())
    }
}

pub open spec fn pow256(n: nat) -> nat
    decreases n,
{
    if n == 0 {
        1
    } else {
        256 * pow256((n - 1) as nat)
    }
}

/// The `n` low-order bytes of `x`, least significant first.
pub fn to_le(x: u64, n: usize) -> (r: Vec<u8>)
    ensures
        r@ == le_seq(x as nat, n as nat),
        r@.len() == n,
{
    proof { lemma_le_len(x as nat, n as nat); }
    let mut out: Vec<u8> = Vec::new();
    let mut v: u64 = x;
    let mut i: usize = 0;
    while i < n
        invariant
            i <= n,
            out@.add(le_seq(v as nat, (n - i) as nat)) == le_seq(x as nat, n as nat),
        decreases n - i,
    {
        let ghost rest = le_seq(v as nat, (n - i) as nat);
        assert(rest == seq![(v % 256) as u8].add(le_seq((v / 256) as nat, (n - i - 1) as nat)));
        out.push((v % 256) as u8);
        v = v / 256;
        i += 1;
        assert(out@.add(le_seq(v as nat, (n - i) as nat)) =~= out@.drop_last().add(rest));
    }
    assert(out@.add(le_seq(v as nat, 0)) =~= out@);
    out
}

/// The number whose bytes, least significant first, are `b`.
pub fn from_le(b: &Vec<u8>) -> (r: u64)
    requires
        b@.len() <= 8,
    ensures
        r as nat == le_val(b@),
{
    proof { lemma_le_val_bound(b@); }
    let mut r: u64 = 0;
    let mut i: usize = b.len();
    while i > 0
        invariant
            i <= b@.len() <= 8,
            r as nat == le_val(b@.subrange(i as int, b@.len() as int)),
            r as nat <= pow256((b@.len() - i) as nat) - 1,
        decreases i,
    {
        i -= 1;
        let ghost tail = b@.subrange(i + 1, b@.len() as int);
        assert(b@.subrange(i as int, b@.len() as int).drop_first() =~= tail);
        proof {
            lemma_pow256_le8((b@.len() - i - 1) as nat);
            assert(256 * (r as nat) + b@[i as int] as nat <= pow256((b@.len() - i) as nat) - 1) by (nonlinear_arith)
                requires
                    r as nat <= pow256((b@.len() - i - 1) as nat) - 1,
                    b@[i as int] <= 255,
                    pow256((b@.len() - i) as nat) == 256 * pow256((b@.len() - i - 1) as nat);
        }
        r = (b[i] as u64) + 256 * r;
    }
    assert(b@.subrange(0, b@.len() as int) =~= b@);
    r
}

proof fn lemma_pow256_le8(n: nat)
    requires
        n <= 7,
    ensures
        256 * pow256(n) <= 18446744073709551616,
        pow256(n + 1) == 256 * pow256(n),
{
    reveal_with_fuel(pow256, 9);
}

/// A number read from four bytes fits 32 bits.
pub proof fn lemma_le_val_bound4(s: Seq<u8>)
    requires
        s.len() == 4,
    ensures
        le_val(s) < 0x1_0000_0000,
{
    lemma_le_val_bound(s);
    reveal_with_fuel(pow256, 5);
}

proof fn lemma_le_val_bound(s: Seq<u8>)
    ensures
        le_val(s) < pow256(s.len()),
    decreases s.len(),
{
    if s.len() > 0 {
        lemma_le_val_bound(s.drop_first());
        assert(s[0] as nat + 256 * le_val(s.drop_first()) < 256 * pow256((s.len() - 1) as nat)) by (nonlinear_arith)
            requires
                le_val(s.drop_first()) < pow256((s.len() - 1) as nat),
                s[0] <= 255;
    }
}

} // verus!
