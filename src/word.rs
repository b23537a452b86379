use vstd::arithmetic::div_mod::{
    lemma_fundamental_div_mod, lemma_fundamental_div_mod_converse, lemma_mod_bound,
};
use core::ops::Neg;
use vstd::prelude::*;

use crate::trit::{add_trits, trit_neg, trit_of, trit_val, Trit};

verus! {

/// 27 trits, least significant first: the width of a register and of an instruction.
pub type Word = [Trit; 27];

/// 9 trits, least significant first: the unit of memory.
pub type Tryte = [Trit; 9];

/// `3` to the power `k`.
pub open spec fn pow3(k: nat) -> int
    decreases k,
{
    if k == 0 {
        1
    } else {
        3 * pow3((k - 1) as nat)
    }
}

/// The largest magnitude that `k` balanced trits can hold: `(3^k - 1) / 2`.
pub open spec fn half3(k: nat) -> int {
    (pow3(k) - 1) / 2
}

/// The integer a trit sequence stands for: the sum of `t_i * 3^i`, least
/// significant trit first.
pub open spec fn trits_val(s: Seq<Trit>) -> int
    decreases s.len(),
{
    if s.len() == 0 {
        0
    } else {
        trit_val(s[0]) + 3 * trits_val(s.drop_first())
    }
}

/// The lowest balanced trit of `n`: its remainder modulo 3 taken in {-1, 0, 1}.
pub open spec fn digit_of(n: int) -> int {
    if n % 3 == 2 {
        -1
    } else {
        n % 3
    }
}

/// The `k` lowest balanced trits of `n`, least significant first; the
/// higher trits are dropped.
pub open spec fn to_trits(n: int, k: nat) -> Seq<Trit>
    decreases k,
{
    if k == 0 {
        Seq::empty()
    } else {
        seq![trit_of(digit_of(n))] + to_trits((n - digit_of(n)) / 3, (k - 1) as nat)
    }
}

/// `n` reduced modulo `3^k` into the balanced range `[-half3(k), half3(k)]`.
pub open spec fn wrap(n: int, k: nat) -> int {
    (n + half3(k)) % pow3(k) - half3(k)
}

/// The word holding `n`, truncated to 27 trits.
pub open spec fn word_of(n: int) -> Seq<Trit> {
    to_trits(n, 27)
}

/// The word sum of two words: their integer sum, wrapped to 27 trits.
pub open spec fn word_add(a: Seq<Trit>, b: Seq<Trit>) -> Seq<Trit> {
    word_of(trits_val(a) + trits_val(b))
}

/// Trit-wise negation.
pub open spec fn word_neg(w: Seq<Trit>) -> Seq<Trit> {
    w.map_values(|t: Trit| trit_neg(t))
}

/// `k` zero trits.
pub open spec fn zeros(k: nat) -> Seq<Trit> {
    Seq::new(k, |i: int| Trit::Z)
}

/// The all-zero word.
pub open spec fn zero_word() -> Seq<Trit> {
    zeros(27)
}

/// Splitting off the lowest digit: `n == digit_of(n) + 3 * ((n - digit_of(n)) / 3)`.
pub proof fn lemma_digit(n: int)
    ensures
        -1 <= digit_of(n) <= 1,
        n - digit_of(n) == 3 * ((n - digit_of(n)) / 3),
        n % 3 == 2 ==> (n - digit_of(n)) / 3 == n / 3 + 1,
        n % 3 != 2 ==> (n - digit_of(n)) / 3 == n / 3,
{
    lemma_fundamental_div_mod(n, 3);
    if n % 3 == 2 {
        lemma_fundamental_div_mod_converse(n + 1, 3, n / 3 + 1, 0);
    } else {
        lemma_fundamental_div_mod_converse(n - n % 3, 3, n / 3, 0);
    }
}

/// A number written as a digit in {-1, 0, 1} plus three times `q` has that
/// digit as its lowest trit and `q` as the rest.
pub proof fn lemma_digit_of_split(t: int, q: int)
    requires
        -1 <= t <= 1,
    ensures
        digit_of(t + 3 * q) == t,
        (t + 3 * q - t) / 3 == q,
{
    if t == -1 {
        lemma_fundamental_div_mod_converse(t + 3 * q, 3, q - 1, 2);
    } else {
        lemma_fundamental_div_mod_converse(t + 3 * q, 3, q, t);
    }
    lemma_fundamental_div_mod_converse(3 * q, 3, q, 0);
}

/// A trit is the trit of its own value.
pub proof fn lemma_trit_of_val(t: Trit)
    ensures
        trit_of(trit_val(t)) == t,
{
}

/// Zero is written with zero trits only.
pub proof fn lemma_to_trits_zero(k: nat)
    ensures
        to_trits(0, k) == zeros(k),
    decreases k,
{
    if k > 0 {
        lemma_to_trits_zero((k - 1) as nat);
        assert(to_trits(0, k) =~= zeros(k));
    }
}

/// One step of the ripple-carry adder: the lowest trits and the carry in
/// give the sum trit, and the carry out joins the sum of the higher trits.
proof fn lemma_add_step(sa: Seq<Trit>, sb: Seq<Trit>, c: Trit, s: Trit, co: Trit)
    requires
        sa.len() == sb.len(),
        sa.len() > 0,
        trit_val(sa[0]) + trit_val(sb[0]) + trit_val(c) == 3 * trit_val(co) + trit_val(s),
    ensures
        to_trits(trits_val(sa) + trits_val(sb) + trit_val(c), sa.len()) == seq![s] + to_trits(
            trits_val(sa.drop_first()) + trits_val(sb.drop_first()) + trit_val(co),
            (sa.len() - 1) as nat,
        ),
{
    let rest = trits_val(sa.drop_first()) + trits_val(sb.drop_first()) + trit_val(co);
    let x = trits_val(sa) + trits_val(sb) + trit_val(c);
    assert(x == trit_val(s) + 3 * rest);
    lemma_digit_of_split(trit_val(s), rest);
    lemma_trit_of_val(s);
}

/// Ripple-carry addition of two words; the carry out of the top trit is
/// dropped, so the sum wraps modulo `3^27`.
pub fn add_words(a: &Word, b: &Word) -> (r: Word)
    ensures
        r@ == word_add(a@, b@),
{
    let mut result: Word = [Trit::Z; 27];
    let mut carry = Trit::Z;
    let mut i: usize = 0;
    assert(a@.subrange(0, 27) =~= a@);
    assert(b@.subrange(0, 27) =~= b@);
    assert(result@.subrange(0, 0) =~= Seq::<Trit>::empty());
    while i < 27
        invariant
            0 <= i <= 27,
            word_add(a@, b@) == result@.subrange(0, i as int) + to_trits(
                trits_val(a@.subrange(i as int, 27)) + trits_val(b@.subrange(i as int, 27))
                    + trit_val(carry),
                (27 - i) as nat,
            ),
        decreases 27 - i,
    {
        let (sum, new_carry) = add_trits(a[i], b[i], carry);
        proof {
            let sa = a@.subrange(i as int, 27);
            let sb = b@.subrange(i as int, 27);
            lemma_add_step(sa, sb, carry, sum, new_carry);
            assert(sa.drop_first() =~= a@.subrange(i + 1, 27));
            assert(sb.drop_first() =~= b@.subrange(i + 1, 27));
        }
        let ghost prev = result@;
        result[i] = sum;
        carry = new_carry;
        i = i + 1;
        proof {
            assert(result@.subrange(0, i as int) =~= prev.subrange(0, i - 1) + seq![sum]);
        }
    }
    proof {
        assert(result@.subrange(0, 27) =~= result@);
        assert(to_trits(trits_val(a@.subrange(27, 27)) + trits_val(b@.subrange(27, 27)) + trit_val(carry), 0) =~= Seq::<Trit>::empty());
    }
    result
}

/// Trit-wise negation of a word.
pub fn neg_word(word: &Word) -> (r: Word)
    ensures
        r@ == word_neg(word@),
{
    let mut result: Word = [Trit::Z; 27];
    let mut i: usize = 0;
    while i < 27
        invariant
            0 <= i <= 27,
            forall|j: int| 0 <= j < i ==> result@[j] == trit_neg(word@[j]),
        decreases 27 - i,
    {
        result[i] = word[i].neg();
        i = i + 1;
    }
    assert(result@ =~= word_neg(word@));
    result
}

/// `3^k` grows with `k`.
pub proof fn lemma_pow3_mono(j: nat, k: nat)
    requires
        j <= k,
    ensures
        1 <= pow3(j) <= pow3(k),
    decreases k,
{
    if j < k {
        lemma_pow3_mono(j, (k - 1) as nat);
    } else if k > 0 {
        lemma_pow3_mono(0, (k - 1) as nat);
    }
}

/// `3^k` is odd, so `half3(k)` is exact.
pub proof fn lemma_pow3_odd(k: nat)
    ensures
        pow3(k) == 2 * half3(k) + 1,
    decreases k,
{
    if k > 0 {
        lemma_pow3_odd((k - 1) as nat);
    }
}

/// `k` balanced trits hold a value of magnitude at most `half3(k)`.
pub proof fn lemma_trits_val_bound(s: Seq<Trit>)
    ensures
        -half3(s.len()) <= trits_val(s) <= half3(s.len()),
    decreases s.len(),
{
    lemma_pow3_odd(s.len());
    if s.len() > 0 {
        lemma_trits_val_bound(s.drop_first());
        lemma_pow3_odd((s.len() - 1) as nat);
    }
}

/// `3^39`, the largest power of three below `2^63`.
proof fn lemma_pow3_39()
    ensures
        pow3(39) == 4052555153018976267,
{
    reveal_with_fuel(pow3, 40);
}

/// One more Horner step on at most 39 trits stays within `i64`.
proof fn lemma_horner_fits(s: Seq<Trit>)
    requires
        s.len() <= 39,
    ensures
        -0x7fff_ffff_ffff_ffff <= 3 * trits_val(s) - 1,
        3 * trits_val(s) + 1 <= 0x7fff_ffff_ffff_ffff,
{
    lemma_trits_val_bound(s);
    lemma_pow3_mono(s.len(), 39);
    lemma_pow3_39();
}

/// The value of a sequence of at most 40 balanced trits, least significant
/// first.
pub fn trits_to_i64(trits: &[Trit]) -> (r: i64)
    requires
        trits@.len() <= 40,
    ensures
        r == trits_val(trits@),
{
    let n = trits.len();
    let mut value: i64 = 0;
    let mut i: usize = n;
    proof {
        assert(trits@.subrange(n as int, n as int) =~= Seq::<Trit>::empty());
    }
    while i > 0
        invariant
            n == trits@.len(),
            n <= 40,
            i <= n,
            value == trits_val(trits@.subrange(i as int, n as int)),
        decreases i,
    {
        i = i - 1;
        proof {
            let rest = trits@.subrange(i + 1, n as int);
            lemma_horner_fits(rest);
            assert(trits@.subrange(i as int, n as int).drop_first() =~= rest);
        }
        value = value * 3 + trits[i].to_i8() as i64;
    }
    assert(trits@.subrange(0, n as int) =~= trits@);
    value
}

/// The largest value of a word: `(3^27 - 1) / 2`.
pub const WORD_MAX: i64 = 3812798742493;

/// `half3(27)` is `WORD_MAX`.
pub proof fn lemma_half3_27()
    ensures
        half3(27) == WORD_MAX,
{
    reveal_with_fuel(pow3, 28);
}

/// A word's value lies in `[-WORD_MAX, WORD_MAX]`.
pub proof fn lemma_word_val_bound(w: Seq<Trit>)
    requires
        w.len() == 27,
    ensures
        -WORD_MAX <= trits_val(w) <= WORD_MAX,
{
    lemma_trits_val_bound(w);
    lemma_half3_27();
}

/// The value of a word.
pub fn word_to_i64(word: &Word) -> (r: i64)
    ensures
        r == trits_val(word@),
        -WORD_MAX <= r <= WORD_MAX,
{
    proof {
        lemma_word_val_bound(word@);
    }
    trits_to_i64(word.as_slice())
}

/// The lowest balanced trit of `value` and what is left above it.
fn split_digit(value: i64) -> (r: (i8, i64))
    ensures
        r.0 as int == digit_of(value as int),
        r.1 as int == (value - digit_of(value as int)) / 3,
{
    proof {
        lemma_digit(value as int);
    }
    let rem = value.checked_rem_euclid(3).unwrap();
    let quot = value.checked_div_euclid(3).unwrap();
    if rem == 2 {
        (-1, quot + 1)
    } else {
        (rem as i8, quot)
    }
}

/// The trit worth `v`, for `v` in {-1, 0, 1}.
fn trit_from_digit(v: i8) -> (r: Trit)
    requires
        -1 <= v <= 1,
    ensures
        r == trit_of(v as int),
        trit_val(r) == v,
{
    if v < 0 {
        Trit::N
    } else if v == 0 {
        Trit::Z
    } else {
        Trit::P
    }
}

/// The word holding `value`: its 27 lowest balanced trits.
pub fn i64_to_word(value: i64) -> (r: Word)
    ensures
        r@ == word_of(value as int),
{
    let mut word: Word = [Trit::Z; 27];
    let mut cur = value;
    let mut i: usize = 0;
    assert(word@.subrange(0, 0) + to_trits(value as int, 27) =~= to_trits(value as int, 27));
    while cur != 0 && i < 27
        invariant
            0 <= i <= 27,
            word_of(value as int) == word@.subrange(0, i as int) + to_trits(cur as int, (27 - i) as nat),
            forall|j: int| i <= j < 27 ==> word@[j] == Trit::Z,
        decreases 27 - i,
    {
        let (d, next) = split_digit(cur);
        let ghost prev = word@;
        word[i] = trit_from_digit(d);
        cur = next;
        i = i + 1;
        proof {
            assert(word@.subrange(0, i as int) =~= prev.subrange(0, i - 1) + seq![trit_of(d as int)]);
        }
    }
    proof {
        if cur == 0 {
            lemma_to_trits_zero((27 - i) as nat);
        }
        assert(word@ =~= word@.subrange(0, i as int) + to_trits(cur as int, (27 - i) as nat));
    }
    word
}

/// The `size` lowest balanced trits of `value`, least significant first.
pub(crate) fn i64_to_trits_fixed_size(value: i64, size: usize) -> (r: Vec<Trit>)
    ensures
        r@ == to_trits(value as int, size as nat),
        r@.len() == size,
{
    let mut trits: Vec<Trit> = Vec::new();
    let mut k: usize = 0;
    while k < size
        invariant
            k <= size,
            trits@ == zeros(k as nat),
        decreases size - k,
    {
        trits.push(Trit::Z);
        k = k + 1;
        assert(trits@ =~= zeros(k as nat));
    }
    let mut cur = value;
    let mut i: usize = 0;
    assert(trits@.subrange(0, 0) + to_trits(value as int, size as nat) =~= to_trits(value as int, size as nat));
    while cur != 0 && i < size
        invariant
            0 <= i <= size,
            trits@.len() == size,
            to_trits(value as int, size as nat) == trits@.subrange(0, i as int) + to_trits(cur as int, (size - i) as nat),
            forall|j: int| i <= j < size ==> trits@[j] == Trit::Z,
        decreases size - i,
    {
        let (d, next) = split_digit(cur);
        let ghost prev = trits@;
        trits.set(i, trit_from_digit(d));
        cur = next;
        i = i + 1;
        proof {
            assert(trits@.subrange(0, i as int) =~= prev.subrange(0, i - 1) + seq![trit_of(d as int)]);
        }
    }
    proof {
        if cur == 0 {
            lemma_to_trits_zero((size - i) as nat);
        }
        assert(trits@ =~= trits@.subrange(0, i as int) + to_trits(cur as int, (size - i) as nat));
    }
    trits
}

/// What is left of `n` above its `k` lowest balanced trits.
pub open spec fn to_trits_rest(n: int, k: nat) -> int
    decreases k,
{
    if k == 0 {
        n
    } else {
        to_trits_rest((n - digit_of(n)) / 3, (k - 1) as nat)
    }
}

/// `to_trits(n, k)` has `k` trits.
pub proof fn lemma_to_trits_len(n: int, k: nat)
    ensures
        to_trits(n, k).len() == k,
    decreases k,
{
    if k > 0 {
        lemma_to_trits_len((n - digit_of(n)) / 3, (k - 1) as nat);
    }
}

/// Reading a trit sequence back as trits gives the same sequence.
pub proof fn lemma_to_trits_of_val(s: Seq<Trit>)
    ensures
        to_trits(trits_val(s), s.len()) == s,
    decreases s.len(),
{
    if s.len() > 0 {
        let t = trit_val(s[0]);
        let rest = trits_val(s.drop_first());
        lemma_digit_of_split(t, rest);
        lemma_trit_of_val(s[0]);
        lemma_to_trits_of_val(s.drop_first());
        assert(to_trits(trits_val(s), s.len()) =~= s);
    }
}

/// `n` is its `k` lowest trits plus `3^k` times the rest.
pub proof fn lemma_to_trits_split(n: int, k: nat)
    ensures
        n == trits_val(to_trits(n, k)) + pow3(k) * to_trits_rest(n, k),
    decreases k,
{
    lemma_to_trits_len(n, k);
    if k > 0 {
        let d = digit_of(n);
        let m = (n - d) / 3;
        lemma_digit(n);
        lemma_to_trits_split(m, (k - 1) as nat);
        lemma_trit_of_val(trit_of(d));
        assert(to_trits(n, k).drop_first() =~= to_trits(m, (k - 1) as nat));
        let p = pow3((k - 1) as nat);
        let r = to_trits_rest(m, (k - 1) as nat);
        assert(3 * (p * r) == (3 * p) * r) by (nonlinear_arith);
    }
}

/// A value in the balanced range that differs from `n` by a multiple of
/// `3^k` is `wrap(n, k)`.
pub proof fn lemma_wrap_unique(n: int, k: nat, v: int, q: int)
    requires
        n == v + pow3(k) * q,
        -half3(k) <= v <= half3(k),
    ensures
        wrap(n, k) == v,
{
    lemma_pow3_odd(k);
    assert(n + half3(k) == q * pow3(k) + (v + half3(k))) by (nonlinear_arith)
        requires
            n == v + pow3(k) * q,
    ;
    lemma_fundamental_div_mod_converse(n + half3(k), pow3(k), q, v + half3(k));
}

/// `wrap(n, k)` lies in the balanced range and differs from `n` by a
/// multiple of `3^k`.
pub proof fn lemma_wrap_split(n: int, k: nat)
    ensures
        n == wrap(n, k) + pow3(k) * ((n + half3(k)) / pow3(k)),
        -half3(k) <= wrap(n, k) <= half3(k),
{
    lemma_pow3_odd(k);
    lemma_pow3_mono(0, k);
    lemma_fundamental_div_mod(n + half3(k), pow3(k));
    lemma_mod_bound(n + half3(k), pow3(k));
}

/// Adding a multiple of `3^k` does not change `wrap(n, k)`.
pub proof fn lemma_wrap_shift(n: int, k: nat, q: int)
    ensures
        wrap(n + pow3(k) * q, k) == wrap(n, k),
{
    lemma_wrap_split(n, k);
    let q0 = (n + half3(k)) / pow3(k);
    assert(n + pow3(k) * q == wrap(n, k) + pow3(k) * (q0 + q)) by (nonlinear_arith)
        requires
            n == wrap(n, k) + pow3(k) * q0,
    ;
    lemma_wrap_unique(n + pow3(k) * q, k, wrap(n, k), q0 + q);
}

/// The `k` lowest trits of `n` are worth `wrap(n, k)`.
pub proof fn lemma_val_to_trits(n: int, k: nat)
    ensures
        trits_val(to_trits(n, k)) == wrap(n, k),
{
    lemma_to_trits_split(n, k);
    lemma_to_trits_len(n, k);
    lemma_trits_val_bound(to_trits(n, k));
    lemma_wrap_unique(n, k, trits_val(to_trits(n, k)), to_trits_rest(n, k));
}

/// The `k` lowest trits of `n` depend only on `wrap(n, k)`.
pub proof fn lemma_to_trits_wrap(n: int, k: nat)
    ensures
        to_trits(wrap(n, k), k) == to_trits(n, k),
{
    lemma_val_to_trits(n, k);
    lemma_to_trits_len(n, k);
    lemma_to_trits_of_val(to_trits(n, k));
}

/// Adding the word of `m` to `v` gives the word of `v + m`.
pub proof fn lemma_add_word_of(v: int, m: int)
    ensures
        word_of(v + trits_val(word_of(m))) == word_of(v + m),
{
    lemma_val_to_trits(m, 27);
    lemma_wrap_split(m, 27);
    let q = (m + half3(27)) / pow3(27);
    lemma_wrap_shift(v + trits_val(word_of(m)), 27, q);
    assert(v + trits_val(word_of(m)) + pow3(27) * q == v + m);
    lemma_to_trits_wrap(v + trits_val(word_of(m)), 27);
    lemma_to_trits_wrap(v + m, 27);
}

/// Negating every trit negates the value.
pub proof fn lemma_neg_val(s: Seq<Trit>)
    ensures
        trits_val(word_neg(s)) == -trits_val(s),
    decreases s.len(),
{
    if s.len() > 0 {
        lemma_neg_val(s.drop_first());
        assert(word_neg(s).drop_first() =~= word_neg(s.drop_first()));
    }
}

/// Converting a word to an integer and back gives the same word.
pub proof fn law_word_int_round_trip(w: Seq<Trit>)
    requires
        w.len() == 27,
    ensures
        word_of(trits_val(w)) == w,
{
    lemma_to_trits_of_val(w);
}

/// Converting an integer of the word range to a word and back gives the
/// same integer.
pub proof fn law_int_word_round_trip(n: int)
    requires
        -half3(27) <= n <= half3(27),
    ensures
        trits_val(word_of(n)) == n,
{
    lemma_val_to_trits(n, 27);
    lemma_wrap_unique(n, 27, n, 0);
}

/// Word addition is commutative.
pub proof fn law_add_commutes(a: Seq<Trit>, b: Seq<Trit>)
    ensures
        word_add(a, b) == word_add(b, a),
{
    assert(trits_val(a) + trits_val(b) == trits_val(b) + trits_val(a));
}

/// A word plus its negation is the all-zero word.
pub proof fn law_add_neg_is_zero(a: Seq<Trit>)
    ensures
        word_add(a, word_neg(a)) == zero_word(),
{
    lemma_neg_val(a);
    lemma_to_trits_zero(27);
}

/// Negation is an involution.
pub proof fn law_neg_neg(w: Seq<Trit>)
    ensures
        word_neg(word_neg(w)) == w,
{
    assert(word_neg(word_neg(w)) =~= w);
}

/// Adding the words of two integers gives the word of their sum reduced
/// modulo `3^27` into the balanced range.
pub proof fn law_add_wraps(x: int, y: int)
    ensures
        trits_val(word_add(word_of(x), word_of(y))) == wrap(x + y, 27),
{
    lemma_add_word_of(trits_val(word_of(x)), y);
    lemma_add_word_of(y, x);
    lemma_val_to_trits(x + y, 27);
    assert(trits_val(word_of(x)) + y == y + trits_val(word_of(x)));
}

} // verus!
