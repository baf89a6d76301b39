//! Little-endian numbers in byte strings.

use vstd::prelude::*;

verus! {

/// The number that a little-endian byte string stands for.
pub open spec fn le_value(b: Seq<u8>) -> nat
    decreases b.len(),
{
    if b.len() == 0 {
        0
    } else {
        b[0] as nat + 256 * le_value(b.drop_first())
    }
}

/// The low `n` bytes of a number, little-endian.
pub open spec fn le_bytes(v: nat, n: nat) -> Seq<u8>
    decreases n,
{
    if n == 0 {
        Seq::empty()
    } else {
        seq![(v % 256) as u8] + le_bytes(v / 256, (n - 1) as nat)
    }
}

/// How many numbers `n` bytes can stand for.
pub open spec fn radix(n: nat) -> nat
    decreases n,
{
    if n == 0 {
        1
    } else {
        256 * radix((n - 1) as nat)
    }
}

/// `s` with `b` written over it from `at` on.
pub open spec fn patched(s: Seq<u8>, at: int, b: Seq<u8>) -> Seq<u8> {
    Seq::new(
        s.len(),
        |i: int|
            if at <= i < at + b.len() {
                b[i - at]
            } else {
                s[i]
            },
    )
}

/// The number in the `n` bytes from `at` on.
pub open spec fn le_at(s: Seq<u8>, at: int, n: int) -> nat {
    le_value(s.subrange(at, at + n))
}

pub proof fn lemma_radix_values()
    ensures
        radix(0) == 1,
        radix(1) == 0x100,
        radix(2) == 0x1_0000,
        radix(4) == 0x1_0000_0000,
        radix(8) == 0x1_0000_0000_0000_0000,
{
    reveal_with_fuel(radix, 9);
}

pub proof fn lemma_radix_grows(m: nat, n: nat)
    requires
        m <= n,
    ensures
        0 < radix(m) <= radix(n),
    decreases n,
{
    if m < n {
        lemma_radix_grows(m, (n - 1) as nat);
    } else if m > 0 {
        lemma_radix_grows((m - 1) as nat, (m - 1) as nat);
    }
}

pub proof fn lemma_le_value_bound(b: Seq<u8>)
    ensures
        le_value(b) < radix(b.len()),
    decreases b.len(),
{
    if b.len() > 0 {
        lemma_le_value_bound(b.drop_first());
    }
}

pub proof fn lemma_le_bytes_len(v: nat, n: nat)
    ensures
        le_bytes(v, n).len() == n,
    decreases n,
{
    if n > 0 {
        lemma_le_bytes_len(v / 256, (n - 1) as nat);
    }
}

/// A number that fits reads back from its bytes.
pub proof fn law_le_round_trip(v: nat, n: nat)
    requires
        v < radix(n),
    ensures
        le_bytes(v, n).len() == n,
        le_value(le_bytes(v, n)) == v,
    decreases n,
{
    lemma_le_bytes_len(v, n);
    if n > 0 {
        assert(v / 256 < radix((n - 1) as nat));
        law_le_round_trip(v / 256, (n - 1) as nat);
        assert(le_bytes(v, n).drop_first() =~= le_bytes(v / 256, (n - 1) as nat));
    }
}

/// A byte string is the bytes of its number.
pub proof fn law_le_bytes_of_value(b: Seq<u8>)
    ensures
        le_bytes(le_value(b), b.len()) == b,
    decreases b.len(),
{
    if b.len() > 0 {
        law_le_bytes_of_value(b.drop_first());
        let v = le_value(b);
        assert(v % 256 == b[0] && v / 256 == le_value(b.drop_first()));
        assert(le_bytes(v, b.len()) =~= b);
    }
}

/// Reading what was written gives it back; what lies elsewhere is unchanged.
pub proof fn law_le_patch_reads_back(s: Seq<u8>, at: int, v: nat, n: nat)
    requires
        0 <= at,
        at + n <= s.len(),
        v < radix(n),
    ensures
        le_at(patched(s, at, le_bytes(v, n)), at, n as int) == v,
        forall|b: int, m: int|
            0 <= b && 0 <= m && b + m <= s.len() && (b + m <= at || at + n <= b)
                ==> #[trigger] le_at(patched(s, at, le_bytes(v, n)), b, m) == le_at(s, b, m),
{
    law_le_round_trip(v, n);
    let t = patched(s, at, le_bytes(v, n));
    assert(t.subrange(at, at + n) =~= le_bytes(v, n));
    assert forall|b: int, m: int|
        0 <= b && 0 <= m && b + m <= s.len() && (b + m <= at || at + n <= b) implies
        #[trigger] le_at(t, b, m) == le_at(s, b, m) by {
        assert(t.subrange(b, b + m) =~= s.subrange(b, b + m));
    }
}

/// Read the `n`-byte number at `at`.
pub fn get_le(b: &[u8], at: usize, n: usize) -> (v: u64)
    requires
        n <= 8,
        at + n <= b@.len(),
    ensures
        v == le_at(b@, at as int, n as int),
        v < radix(n as nat),
{
    let len: usize = b.len();
    let end: usize = at + n;
    let mut i: usize = end;
    let mut v: u64 = 0;
    proof {
        lemma_radix_values();
    }
    while i > at
        invariant
            at <= i <= end,
            end == at + n,
            end <= len,
            len == b@.len(),
            n <= 8,
            radix(8) == 0x1_0000_0000_0000_0000,
            v == le_value(b@.subrange(i as int, end as int)),
        decreases i - at,
    {
        i = i - 1;
        proof {
            let s = b@.subrange(i as int, end as int);
            assert(s.drop_first() =~= b@.subrange(i + 1, end as int));
            lemma_le_value_bound(s);
            lemma_radix_grows(s.len(), 8);
        }
        v = v * 256 + b[i] as u64;
    }
    proof {
        lemma_le_value_bound(b@.subrange(at as int, end as int));
    }
    v
}

/// Write the low `n` bytes of `v` at `at`.
pub fn put_le(b: &mut [u8], at: usize, v: u64, n: usize)
    requires
        at + n <= old(b)@.len(),
    ensures
        final(b)@ == patched(old(b)@, at as int, le_bytes(v as nat, n as nat)),
{
    let len: usize = b.len();
    let mut i: usize = 0;
    let mut rest: u64 = v;
    let ghost all = le_bytes(v as nat, n as nat);
    proof {
        lemma_le_bytes_len(v as nat, n as nat);
        assert(all.skip(0) =~= all);
    }
    while i < n
        invariant
            i <= n,
            at + n <= len,
            len == b@.len(),
            b@.len() == old(b)@.len(),
            all.len() == n,
            all.skip(i as int) == le_bytes(rest as nat, (n - i) as nat),
            forall|k: int|
                0 <= k < b@.len() ==> #[trigger] b@[k] == (if at <= k < at + i {
                    all[k - at]
                } else {
                    old(b)@[k]
                }),
        decreases n - i,
    {
        proof {
            let m = (n - i) as nat;
            lemma_le_bytes_len(rest as nat, m);
            assert(all[i as int] == all.skip(i as int)[0]);
            assert(all.skip(i + 1) =~= all.skip(i as int).drop_first());
            assert(le_bytes(rest as nat, m).drop_first() =~= le_bytes(
                rest as nat / 256,
                (m - 1) as nat,
            ));
        }
        b[at + i] = (rest % 256) as u8;
        rest = rest / 256;
        i = i + 1;
    }
    assert(b@ =~= patched(old(b)@, at as int, all));
}


/// What is written over a byte string is there, and everything around it is as before.
pub proof fn law_writing_changes_those_bytes_alone(s: Seq<u8>, at: int, b: Seq<u8>, i: int)
    requires
        0 <= at,
        at + b.len() <= s.len(),
        0 <= i < s.len(),
    ensures
        patched(s, at, b).len() == s.len(),
        patched(s, at, b).subrange(at, at + b.len()) == b,
        i < at || at + b.len() <= i ==> patched(s, at, b)[i] == s[i],
{
    assert(patched(s, at, b).subrange(at, at + b.len()) =~= b);
}

} // verus!
