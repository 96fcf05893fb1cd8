//! Canonical prefix codes: code lengths, the codes they stand for, and the table that decodes
//! them.
//!
//! A code of length `len` is identified with the 15-bit windows that start with it: there are
//! `2^(15 - len)` of them, and they are consecutive.

use vstd::arithmetic::power2::*;
use vstd::prelude::*;

verus! {

/// The longest code, in bits.
pub const MAX_CODE_LEN: u8 = 15;

/// The number of windows of `MAX_CODE_LEN` bits.
pub const WINDOWS: usize = 32768;

/// How many windows start with a given code of length `len`; length 0 means that there is no
/// code.
pub open spec fn slots(len: u8) -> nat {
    if len == 0 {
        0
    } else {
        pow2((15 - len) as nat)
    }
}

/// The number of windows that the codes of the first `n` symbols take together.
pub open spec fn kraft(lengths: Seq<u8>, n: nat) -> nat
    decreases n,
{
    if n == 0 {
        0
    } else {
        kraft(lengths, (n - 1) as nat) + slots(lengths[n - 1])
    }
}

/// Code lengths of 256 symbols that a prefix code can have: none is longer than
/// `MAX_CODE_LEN`, and together they take no more windows than there are.
pub open spec fn valid_lengths(lengths: Seq<u8>) -> bool {
    &&& lengths.len() == 256
    &&& forall|s: int| 0 <= s < 256 ==> #[trigger] lengths[s] <= MAX_CODE_LEN
    &&& kraft(lengths, 256) <= WINDOWS
}

/// Codes are ordered by length, and those of one length by symbol.
pub open spec fn precedes(l1: int, s1: int, l2: int, s2: int) -> bool {
    0 < l1 && (l1 < l2 || (l1 == l2 && s1 < s2))
}

/// The number of windows of those of the first `n` symbols whose code comes before one of
/// length `len` for symbol `sym`.
pub open spec fn slots_before(lengths: Seq<u8>, len: int, sym: int, n: nat) -> nat
    decreases n,
{
    if n == 0 {
        0
    } else {
        slots_before(lengths, len, sym, (n - 1) as nat) + if precedes(
            lengths[n - 1] as int,
            n - 1,
            len,
            sym,
        ) {
            slots(lengths[n - 1])
        } else {
            0
        }
    }
}

/// The first window that starts with the code of symbol `s`: the codes take the windows from 0
/// on, in their order and without gaps.
pub open spec fn code_start(lengths: Seq<u8>, s: int) -> nat {
    slots_before(lengths, lengths[s] as int, s, lengths.len())
}

/// Window `w` starts with the code of symbol `s`.
pub open spec fn covers(lengths: Seq<u8>, s: int, w: int) -> bool {
    &&& 0 <= s < lengths.len()
    &&& lengths[s] > 0
    &&& code_start(lengths, s) <= w < code_start(lengths, s) + slots(lengths[s])
}

/// The symbol whose code window `w` starts with, and the length of that code; length 0 where
/// there is no such symbol.
pub open spec fn lookup(lengths: Seq<u8>, w: int) -> (u8, u8) {
    if exists|s: int| covers(lengths, s, w) {
        let s = choose|s: int| covers(lengths, s, w);
        (s as u8, lengths[s])
    } else {
        (0, 0)
    }
}

/// A code takes at most half of the windows.
pub proof fn lemma_slots_bound(len: u8)
    requires
        len <= MAX_CODE_LEN,
    ensures
        slots(len) <= 16384,
        len > 0 ==> slots(len) >= 1,
{
    lemma2_to64();
    if len > 0 {
        let k: int = 15 - len;
        assert(k == 0 || k == 1 || k == 2 || k == 3 || k == 4 || k == 5 || k == 6 || k == 7 || k
            == 8 || k == 9 || k == 10 || k == 11 || k == 12 || k == 13 || k == 14);
    }
}

/// A code of length `len` has `2^len - 1` others of its length beside it.
pub proof fn lemma_slots_share(len: u8)
    requires
        0 < len <= MAX_CODE_LEN,
    ensures
        pow2(len as nat) * slots(len) == WINDOWS,
{
    lemma2_to64();
    lemma_pow2_adds(len as nat, (15 - len) as nat);
}

proof fn lemma_slots_before_bound(lengths: Seq<u8>, len: int, sym: int, n: nat)
    requires
        n <= lengths.len(),
        forall|s: int| 0 <= s < lengths.len() ==> #[trigger] lengths[s] <= MAX_CODE_LEN,
    ensures
        slots_before(lengths, len, sym, n) <= 16384 * n,
    decreases n,
{
    if n > 0 {
        lemma_slots_before_bound(lengths, len, sym, (n - 1) as nat);
        lemma_slots_bound(lengths[n - 1]);
    }
}

/// A bound on the windows that symbols take together.
pub proof fn lemma_kraft_bound(lengths: Seq<u8>, n: nat)
    requires
        n <= lengths.len(),
        forall|s: int| 0 <= s < lengths.len() ==> #[trigger] lengths[s] <= MAX_CODE_LEN,
    ensures
        kraft(lengths, n) <= 16384 * n,
    decreases n,
{
    if n > 0 {
        lemma_kraft_bound(lengths, (n - 1) as nat);
        lemma_slots_bound(lengths[n - 1]);
    }
}

/// The number of windows that codes of the given lengths take together.
pub fn kraft_sum(lengths: &[u8; 256]) -> (sum: u32)
    requires
        forall|s: int| 0 <= s < 256 ==> #[trigger] lengths@[s] <= MAX_CODE_LEN,
    ensures
        sum == kraft(lengths@, 256),
{
    let mut sum: u32 = 0;
    let mut s: usize = 0;
    while s < 256
        invariant
            s <= 256,
            forall|t: int| 0 <= t < 256 ==> #[trigger] lengths@[t] <= MAX_CODE_LEN,
            sum == kraft(lengths@, s as nat),
        decreases 256 - s,
    {
        proof {
            lemma2_to64();
            lemma_kraft_bound(lengths@, (s + 1) as nat);
        }
        if lengths[s] > 0 {
            let shift: u8 = MAX_CODE_LEN - lengths[s];
            proof {
                lemma_slots_bound(lengths@[s as int]);
                vstd::bits::lemma_u32_shl_is_mul(1, shift as u32);
            }
            sum = sum + (1u32 << shift);
        }
        s = s + 1;
    }
    sum
}

proof fn lemma_next_symbol(lengths: Seq<u8>, len: int, sym: int, n: nat)
    requires
        len >= 1,
        0 <= sym,
    ensures
        slots_before(lengths, len, sym + 1, n) == slots_before(lengths, len, sym, n) + if sym < n
            && lengths[sym] == len {
            slots(lengths[sym])
        } else {
            0
        },
    decreases n,
{
    if n > 0 {
        lemma_next_symbol(lengths, len, sym, (n - 1) as nat);
    }
}

proof fn lemma_next_length(lengths: Seq<u8>, len: int, sym: int, n: nat)
    requires
        n <= sym,
    ensures
        slots_before(lengths, len + 1, 0, n) == slots_before(lengths, len, sym, n),
    decreases n,
{
    if n > 0 {
        lemma_next_length(lengths, len, sym, (n - 1) as nat);
    }
}

proof fn lemma_nothing_before(lengths: Seq<u8>, n: nat)
    ensures
        slots_before(lengths, 1, 0, n) == 0,
    decreases n,
{
    if n > 0 {
        lemma_nothing_before(lengths, (n - 1) as nat);
    }
}

proof fn lemma_before_grows(lengths: Seq<u8>, s: int, t: int, n: nat)
    requires
        0 <= s < lengths.len(),
        0 <= t < lengths.len(),
        n <= lengths.len(),
        precedes(lengths[s] as int, s, lengths[t] as int, t),
    ensures
        slots_before(lengths, lengths[s] as int, s, n) + if s < n {
            slots(lengths[s])
        } else {
            0
        } <= slots_before(lengths, lengths[t] as int, t, n),
    decreases n,
{
    if n > 0 {
        lemma_before_grows(lengths, s, t, (n - 1) as nat);
    }
}

proof fn lemma_before_within_kraft(lengths: Seq<u8>, s: int, n: nat)
    requires
        0 <= s < lengths.len(),
        n <= lengths.len(),
        lengths[s] > 0,
    ensures
        slots_before(lengths, lengths[s] as int, s, n) + if s < n {
            slots(lengths[s])
        } else {
            0
        } <= kraft(lengths, n),
    decreases n,
{
    if n > 0 {
        lemma_before_within_kraft(lengths, s, (n - 1) as nat);
    }
}

/// The code of a symbol takes windows that exist.
pub proof fn lemma_code_in_range(lengths: Seq<u8>, s: int)
    requires
        valid_lengths(lengths),
        0 <= s < 256,
        lengths[s] > 0,
    ensures
        code_start(lengths, s) + slots(lengths[s]) <= WINDOWS,
{
    lemma_before_within_kraft(lengths, s, 256);
}

/// The codes are prefix-free: no window starts with the codes of two symbols.
pub proof fn lemma_codes_prefix_free(lengths: Seq<u8>, s: int, t: int, w: int)
    requires
        covers(lengths, s, w),
        covers(lengths, t, w),
    ensures
        s == t,
{
    if s != t {
        if precedes(lengths[s] as int, s, lengths[t] as int, t) {
            lemma_before_grows(lengths, s, t, lengths.len());
        } else {
            lemma_before_grows(lengths, t, s, lengths.len());
        }
    }
}

/// A window that starts with the code of a symbol is looked up to that symbol.
pub proof fn lemma_lookup_finds(lengths: Seq<u8>, s: int, w: int)
    requires
        covers(lengths, s, w),
    ensures
        lookup(lengths, w) == (s as u8, lengths[s]),
{
    let t = choose|t: int| covers(lengths, t, w);
    lemma_codes_prefix_free(lengths, s, t, w);
}

/// The length that a window is looked up to is one of the code lengths.
pub proof fn lemma_lookup_len(lengths: Seq<u8>, w: int)
    requires
        valid_lengths(lengths),
    ensures
        lookup(lengths, w).1 <= MAX_CODE_LEN,
{
    if exists|s: int| covers(lengths, s, w) {
        let s = choose|s: int| covers(lengths, s, w);
        assert(lengths[s] <= MAX_CODE_LEN);
    }
}

/// What comes before a code takes a multiple of the windows that the code takes.
proof fn lemma_before_divides(lengths: Seq<u8>, len: u8, sym: int, n: nat) -> (code: nat)
    requires
        n <= lengths.len(),
        0 < len <= MAX_CODE_LEN,
    ensures
        code * slots(len) == slots_before(lengths, len as int, sym, n),
    decreases n,
{
    if n == 0 {
        assert(0 * slots(len) == 0) by (nonlinear_arith);
        0
    } else {
        let c = lemma_before_divides(lengths, len, sym, (n - 1) as nat);
        let l = lengths[n - 1];
        if precedes(l as int, n - 1, len as int, sym) {
            lemma_pow2_adds((len - l) as nat, (15 - len) as nat);
            let p = pow2((len - l) as nat);
            let k = slots(len);
            assert((c + p) * k == c * k + p * k) by (nonlinear_arith);
            c + p
        } else {
            c
        }
    }
}

/// The first window of a code is a multiple of the number of windows that the code takes.
pub proof fn lemma_code_start_divides(lengths: Seq<u8>, s: int) -> (code: nat)
    requires
        0 <= s < lengths.len(),
        0 < lengths[s] <= MAX_CODE_LEN,
    ensures
        code * slots(lengths[s]) == code_start(lengths, s),
{
    lemma_before_divides(lengths, lengths[s], s, lengths.len())
}

/// The codes that stand for given code lengths. Symbols without a code get 0.
pub fn canonical_codes_from_lengths(lengths: &[u8; 256]) -> (codes: [u32; 256])
    requires
        forall|s: int| 0 <= s < 256 ==> #[trigger] lengths@[s] <= MAX_CODE_LEN,
    ensures
        forall|s: int|
            0 <= s < 256 ==> if lengths@[s] == 0 {
                #[trigger] codes@[s] == 0
            } else {
                codes@[s] * slots(lengths@[s]) == code_start(lengths@, s)
            },
{
    let mut codes: [u32; 256] = [0u32; 256];
    let mut code: u32 = 0;
    let mut len: u8 = 1;
    proof {
        lemma_nothing_before(lengths@, 256);
        lemma2_to64();
    }
    while len <= MAX_CODE_LEN
        invariant
            1 <= len <= 16,
            forall|s: int| 0 <= s < 256 ==> #[trigger] lengths@[s] <= MAX_CODE_LEN,
            len <= 15 ==> code * slots(len) == slots_before(lengths@, len as int, 0, 256),
            code <= 4194304,
            forall|s: int|
                0 <= s < 256 ==> if precedes(lengths@[s] as int, s, len as int, 0) {
                    #[trigger] codes@[s] * slots(lengths@[s]) == code_start(lengths@, s)
                } else {
                    codes@[s] == 0
                },
        decreases 16 - len,
    {
        let mut sym: usize = 0;
        while sym < 256
            invariant
                1 <= len <= 15,
                sym <= 256,
                forall|s: int| 0 <= s < 256 ==> #[trigger] lengths@[s] <= MAX_CODE_LEN,
                code * slots(len) == slots_before(lengths@, len as int, sym as int, 256),
                forall|s: int|
                    0 <= s < 256 ==> if precedes(lengths@[s] as int, s, len as int, sym as int) {
                        #[trigger] codes@[s] * slots(lengths@[s]) == code_start(lengths@, s)
                    } else {
                        codes@[s] == 0
                    },
            decreases 256 - sym,
        {
            proof {
                lemma_next_symbol(lengths@, len as int, sym as int, 256);
                lemma_slots_before_bound(lengths@, len as int, sym as int, 256);
                lemma_slots_bound(len);
                let k = slots(len);
                assert(code <= code * k) by (nonlinear_arith)
                    requires
                        k >= 1,
                ;
                assert((code + 1) * k == code * k + k) by (nonlinear_arith);
            }
            if lengths[sym] == len {
                codes[sym] = code;
                code = code + 1;
            }
            sym = sym + 1;
        }
        proof {
            lemma_slots_before_bound(lengths@, len as int, 256, 256);
            lemma_slots_bound(len);
            let k = slots(len);
            assert(code <= code * k) by (nonlinear_arith)
                requires
                    k >= 1,
            ;
            lemma_next_length(lengths@, len as int, 256, 256);
            if len < 15 {
                let half = slots((len + 1) as u8);
                lemma_pow2_unfold((15 - len) as nat);
                assert(k == 2 * half);
                assert((2 * code) * half == code * (2 * half)) by (nonlinear_arith);
                lemma_slots_before_bound(lengths@, len + 1, 0, 256);
                lemma_slots_bound((len + 1) as u8);
                assert(2 * code <= (2 * code) * half) by (nonlinear_arith)
                    requires
                        half >= 1,
                ;
            }
        }
        if len < MAX_CODE_LEN {
            code = code * 2;
        }
        len = len + 1;
    }
    codes
}

/// The table that takes each window to the symbol whose code it starts with.
pub fn build_decode_table(lengths: &[u8; 256]) -> (table: Vec<(u8, u8)>)
    requires
        valid_lengths(lengths@),
    ensures
        table@.len() == WINDOWS,
        forall|w: int| 0 <= w < WINDOWS ==> #[trigger] table@[w] == lookup(lengths@, w),
{
    let mut table: Vec<(u8, u8)> = Vec::with_capacity(WINDOWS);
    while table.len() < WINDOWS
        invariant
            table@.len() <= WINDOWS,
            forall|w: int| 0 <= w < table@.len() ==> #[trigger] table@[w] == (0u8, 0u8),
        decreases WINDOWS - table@.len(),
    {
        table.push((0, 0));
    }
    let codes: [u32; 256] = canonical_codes_from_lengths(lengths);
    let mut s: usize = 0;
    while s < 256
        invariant
            s <= 256,
            valid_lengths(lengths@),
            table@.len() == WINDOWS,
            forall|t: int|
                0 <= t < 256 ==> if lengths@[t] == 0 {
                    #[trigger] codes@[t] == 0
                } else {
                    codes@[t] * slots(lengths@[t]) == code_start(lengths@, t)
                },
            forall|t: int, w: int|
                t < s && #[trigger] covers(lengths@, t, w) ==> table@[w] == (t as u8, lengths@[t]),
            forall|w: int|
                0 <= w < WINDOWS && (forall|t: int| t < s ==> !#[trigger] covers(lengths@, t, w))
                    ==> #[trigger] table@[w] == (0u8, 0u8),
        decreases 256 - s,
    {
        let len: u8 = lengths[s];
        if len > 0 {
            let shift: u8 = MAX_CODE_LEN - len;
            proof {
                lemma_code_in_range(lengths@, s as int);
                vstd::bits::lemma_usize_shl_is_mul(1, shift as usize);
                lemma2_to64();
                lemma_slots_bound(len);
            }
            let step: usize = 1usize << shift;
            proof {
                let c = codes@[s as int] as int;
                assert(c * slots(len) == code_start(lengths@, s as int));
            }
            let base: usize = codes[s] as usize * step;
            let ghost before = table@;
            let mut i: usize = 0;
            while i < step
                invariant
                    s < 256,
                    i <= step,
                    step == slots(len),
                    len > 0,
                    len == lengths@[s as int],
                    base == code_start(lengths@, s as int),
                    base + step <= WINDOWS,
                    table@.len() == WINDOWS,
                    before.len() == WINDOWS,
                    forall|w: int|
                        0 <= w < WINDOWS ==> #[trigger] table@[w] == if base <= w < base + i {
                            (s as u8, len)
                        } else {
                            before[w]
                        },
                decreases step - i,
            {
                table[base + i] = (s as u8, len);
                i = i + 1;
            }
            proof {
                assert forall|t: int, w: int| t < s + 1 && #[trigger] covers(lengths@, t, w) implies
                    table@[w] == (t as u8, lengths@[t]) by {
                    lemma_code_in_range(lengths@, t);
                    if t < s && base <= w < base + step {
                        assert(covers(lengths@, s as int, w));
                        lemma_codes_prefix_free(lengths@, s as int, t, w);
                    }
                }
                assert forall|w: int|
                    0 <= w < WINDOWS && (forall|t: int|
                        t < s + 1 ==> !#[trigger] covers(lengths@, t, w)) implies #[trigger] table@[w]
                    == (0u8, 0u8) by {
                    assert(!covers(lengths@, s as int, w));
                    assert forall|t: int| t < s implies !#[trigger] covers(lengths@, t, w) by {}
                    assert(before[w] == (0u8, 0u8));
                }
            }
        }
        s = s + 1;
    }
    proof {
        assert forall|w: int| 0 <= w < WINDOWS implies #[trigger] table@[w] == lookup(
            lengths@,
            w,
        ) by {
            if exists|t: int| covers(lengths@, t, w) {
                let t = choose|t: int| covers(lengths@, t, w);
                assert(covers(lengths@, t, w));
            } else {
                assert forall|t: int| t < 256 implies !#[trigger] covers(lengths@, t, w) by {}
            }
        }
    }
    table
}

} // verus!
