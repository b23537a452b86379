use std::ops::Neg;

use btern::trit::{add_trits, Trit};
use btern::word::{add_words, i64_to_word, neg_word, trits_to_i64, word_to_i64, Word, WORD_MAX};

const ZERO: Word = [Trit::Z; 27];

#[test]
fn trit_values_and_conversions() {
    assert_eq!(Trit::N.to_i8(), -1);
    assert_eq!(Trit::Z.to_i8(), 0);
    assert_eq!(Trit::P.to_i8(), 1);
    assert_eq!(Trit::from_i8(-1), Ok(Trit::N));
    assert_eq!(Trit::from_i8(0), Ok(Trit::Z));
    assert_eq!(Trit::from_i8(1), Ok(Trit::P));
    assert!(Trit::from_i8(2).is_err());
    assert!(Trit::from_i8(-2).is_err());
    assert_eq!(Trit::default(), Trit::Z);
}

#[test]
fn trit_bct_forms() {
    assert_eq!(Trit::N.to_bct(), 0b00);
    assert_eq!(Trit::Z.to_bct(), 0b01);
    assert_eq!(Trit::P.to_bct(), 0b10);
    assert_eq!(Trit::from_bct(0b00), Ok(Trit::N));
    assert_eq!(Trit::from_bct(0b01), Ok(Trit::Z));
    assert_eq!(Trit::from_bct(0b10), Ok(Trit::P));
    assert!(Trit::from_bct(0b11).is_err());
    // Only the low two bits count.
    assert_eq!(Trit::from_bct(0b110), Ok(Trit::P));
}

#[test]
fn trit_negation_and_glyphs() {
    assert_eq!(Trit::N.neg(), Trit::P);
    assert_eq!(Trit::Z.neg(), Trit::Z);
    assert_eq!(Trit::P.neg(), Trit::N);
    assert_eq!(-Trit::P, Trit::N);
    assert_eq!(-(-Trit::N), Trit::N);
    assert_eq!(Trit::N.glyph(), '-');
    assert_eq!(Trit::Z.glyph(), '0');
    assert_eq!(Trit::P.glyph(), '+');
}

#[test]
fn full_adder_table() {
    let all = [Trit::N, Trit::Z, Trit::P];
    for a in all {
        for b in all {
            for c in all {
                let (s, co) = add_trits(a, b, c);
                let total = a.to_i8() + b.to_i8() + c.to_i8();
                assert_eq!(total, 3 * co.to_i8() + s.to_i8());
                let expected_carry = if total <= -2 {
                    -1
                } else if total >= 2 {
                    1
                } else {
                    0
                };
                assert_eq!(co.to_i8(), expected_carry);
            }
        }
    }
    assert_eq!(add_trits(Trit::P, Trit::P, Trit::P), (Trit::Z, Trit::P));
    assert_eq!(add_trits(Trit::N, Trit::N, Trit::Z), (Trit::P, Trit::N));
}

#[test]
fn word_integer_conversions() {
    assert_eq!(i64_to_word(0), ZERO);
    let five = i64_to_word(5);
    // 5 = 9 - 3 - 1
    assert_eq!(five[0], Trit::N);
    assert_eq!(five[1], Trit::N);
    assert_eq!(five[2], Trit::P);
    assert_eq!(five[3], Trit::Z);
    assert_eq!(word_to_i64(&five), 5);
    let minus = i64_to_word(-13);
    assert_eq!(&minus[0..4], &[Trit::N, Trit::N, Trit::N, Trit::Z]);
    assert_eq!(word_to_i64(&minus), -13);
    for n in [1i64, -1, 2, -2, 777, -265720, 265720, WORD_MAX, -WORD_MAX] {
        assert_eq!(word_to_i64(&i64_to_word(n)), n);
    }
}

#[test]
fn word_conversion_truncates() {
    // One past the largest word wraps to the smallest.
    assert_eq!(word_to_i64(&i64_to_word(WORD_MAX + 1)), -WORD_MAX);
    assert_eq!(word_to_i64(&i64_to_word(-WORD_MAX - 1)), WORD_MAX);
    assert_eq!(word_to_i64(&i64_to_word(2 * WORD_MAX + 1)), 0);
    assert_eq!(word_to_i64(&i64_to_word(i64::MAX)), {
        let m = 2 * (WORD_MAX as i128) + 1;
        let r = ((i64::MAX as i128 + WORD_MAX as i128).rem_euclid(m)) - WORD_MAX as i128;
        r as i64
    });
    assert_eq!(word_to_i64(&i64_to_word(i64::MIN)), {
        let m = 2 * (WORD_MAX as i128) + 1;
        let r = ((i64::MIN as i128 + WORD_MAX as i128).rem_euclid(m)) - WORD_MAX as i128;
        r as i64
    });
}

#[test]
fn word_round_trip_through_integer() {
    let mut w = ZERO;
    for i in 0..27 {
        w[i] = [Trit::N, Trit::Z, Trit::P][(i * 7 + 1) % 3];
    }
    assert_eq!(i64_to_word(word_to_i64(&w)), w);
    let all_p = [Trit::P; 27];
    assert_eq!(word_to_i64(&all_p), WORD_MAX);
    assert_eq!(i64_to_word(WORD_MAX), all_p);
}

#[test]
fn slice_values() {
    assert_eq!(trits_to_i64(&[]), 0);
    assert_eq!(trits_to_i64(&[Trit::P, Trit::P, Trit::P]), 13);
    assert_eq!(trits_to_i64(&[Trit::Z, Trit::N]), -3);
    let forty = [Trit::P; 40];
    assert_eq!(trits_to_i64(&forty), 6078832729528464400);
}

#[test]
fn addition_commutes_and_wraps() {
    let a = i64_to_word(123456789);
    let b = i64_to_word(-987654);
    assert_eq!(add_words(&a, &b), add_words(&b, &a));
    assert_eq!(word_to_i64(&add_words(&a, &b)), 123456789 - 987654);
    let big = i64_to_word(WORD_MAX);
    let one = i64_to_word(1);
    assert_eq!(word_to_i64(&add_words(&big, &one)), -WORD_MAX);
    let x = 3_000_000_000_000i64;
    let y = 2_500_000_000_000i64;
    let sum = word_to_i64(&add_words(&i64_to_word(x), &i64_to_word(y)));
    assert_eq!(sum, x + y - (2 * WORD_MAX + 1));
}

#[test]
fn negation_laws() {
    let w = i64_to_word(-4242);
    assert_eq!(neg_word(&neg_word(&w)), w);
    assert_eq!(word_to_i64(&neg_word(&w)), 4242);
    assert_eq!(add_words(&w, &neg_word(&w)), ZERO);
    let m = i64_to_word(WORD_MAX);
    assert_eq!(add_words(&m, &neg_word(&m)), ZERO);
}
