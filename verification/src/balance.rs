//! The fixed-point monetary amount: a nonnegative decimal with exactly four
//! fractional digits, stored as a count of ten-thousandths of a unit.
use crate::text::{
    all_digits, digit_char, digit_val, digits_val, digits_to_value, find_dot, has_dot, is_digit,
    is_space, lemma_dec_str_digits, lemma_dec_str_val, lemma_digit_char_props,
    lemma_digits_val_bound, lemma_digits_val_nonneg, lemma_find_dot_at, lemma_find_dot_none,
    lemma_trim_of_trimmed, dec_str, pow10, trim_bounds, trim_spec,
};
use vstd::arithmetic::div_mod::lemma_div_denominator;
use vstd::prelude::*;

verus! {

/// A nonnegative amount in ten-thousandths of a unit (four implied decimal
/// places). Subtraction below zero is refused, never clamped.
#[derive(Clone, Copy, Debug, Default, PartialEq, Eq, Structural, Hash)]
pub struct Balance(pub u128);

/// The error for text that does not denote an amount, or denotes one beyond
/// the representable range.
#[derive(Clone, Copy, Debug, PartialEq, Eq, Structural)]
pub struct DecimalError;

/// Whether every character is a digit or a decimal point.
pub open spec fn valid_amount_chars(t: Seq<char>) -> bool {
    forall|k: int| 0 <= k < t.len() ==> is_digit(#[trigger] t[k]) || t[k] == '.'
}

/// The value in ten-thousandths that a trimmed amount token denotes, with no
/// upper bound; `None` on malformed text. The fractional part is truncated
/// to four digits and conceptually right-padded with zeros.
pub open spec fn amount_value(t: Seq<char>) -> Option<int> {
    if !valid_amount_chars(t) {
        None
    } else {
        match find_dot(t) {
            None => if t.len() == 0 {
                None
            } else {
                Some(digits_val(t) * 10000)
            },
            Some(i) => {
                let intg = t.subrange(0, i);
                let fr = t.subrange(i + 1, t.len() as int);
                if has_dot(fr) || intg.len() == 0 {
                    None
                } else {
                    let fr4 = if fr.len() > 4 {
                        fr.subrange(0, 4)
                    } else {
                        fr
                    };
                    Some(
                        digits_val(intg) * 10000 + digits_val(fr4) * pow10(
                            (4 - fr4.len()) as nat,
                        ),
                    )
                }
            },
        }
    }
}

/// What parsing an amount string yields: trim the ends, read the token,
/// refuse values beyond the stored width.
pub open spec fn parse_amount(s: Seq<char>) -> Option<u128> {
    match amount_value(trim_spec(s)) {
        Some(v) => if v <= u128::MAX {
            Some(v as u128)
        } else {
            None
        },
        None => None,
    }
}

/// The canonical text of a fractional part, exactly four digits.
pub open spec fn frac4(f: int) -> Seq<char> {
    seq![
        digit_char(f / 1000),
        digit_char((f / 100) % 10),
        digit_char((f / 10) % 10),
        digit_char(f % 10),
    ]
}

/// The canonical text of a stored amount: integral digits, a point, four
/// fractional digits.
pub open spec fn render_spec(u: int) -> Seq<char> {
    dec_str(u / 10000) + seq!['.'] + frac4(u % 10000)
}

pub proof fn lemma_pow10_small()
    ensures
        pow10(0) == 1,
        pow10(1) == 10,
        pow10(2) == 100,
        pow10(3) == 1000,
        pow10(4) == 10000,
{
    assert(pow10(0) == 1);
    assert(pow10(1) == 10);
    assert(pow10(2) == 100);
    assert(pow10(3) == 1000);
    assert(pow10(4) == 10000);
}

impl Balance {
    /// Parses a decimal amount: surrounding whitespace is trimmed, the text
    /// must be digits with at most one point, the integral part must be
    /// nonempty, and fractional digits beyond the fourth are discarded.
    pub fn from_str(s: &str) -> (r: Result<Balance, DecimalError>)
        ensures
            match r {
                Ok(b) => parse_amount(s@) == Some(b.0),
                Err(_) => parse_amount(s@) is None,
            },
    {
        let (start, end): (usize, usize) = trim_bounds(s);
        let ghost t = trim_spec(s@);
        let mut dot: Option<usize> = None;
        let mut second: bool = false;
        let mut i: usize = start;
        while i < end
            invariant
                start <= i <= end <= s@.len(),
                t == trim_spec(s@),
                t == s@.subrange(start as int, end as int),
                forall|k: int|
                    start <= k < i ==> is_digit(#[trigger] s@[k]) || s@[k] == '.',
                match dot {
                    Some(j) => start <= j < i && s@[j as int] == '.' && (forall|k: int|
                        start <= k < j ==> s@[k] != '.'),
                    None => forall|k: int| start <= k < i ==> s@[k] != '.',
                },
                match dot {
                    Some(j) => second == exists|k: int| j < k < i && s@[k] == '.',
                    None => !second,
                },
            decreases end - i,
        {
            let c = s.get_char(i);
            proof {
                assert(t[i - start] == s@[i as int]);
            }
            if c == '.' {
                match dot {
                    None => {
                        dot = Some(i);
                    },
                    Some(_) => {
                        second = true;
                    },
                }
            } else {
                let u: u32 = c as u32;
                if u < 48 || u > 57 {
                    proof {
                        assert(!(is_digit(t[i - start]) || t[i - start] == '.'));
                        assert(!valid_amount_chars(t));
                    }
                    return Err(DecimalError);
                }
            }
            i = i + 1;
        }
        proof {
            assert forall|k: int| 0 <= k < t.len() implies is_digit(#[trigger] t[k]) || t[k]
                == '.' by {
                assert(t[k] == s@[start + k]);
            }
        }
        match dot {
            None => {
                proof {
                    assert forall|k: int| 0 <= k < t.len() implies t[k] != '.' by {
                        assert(t[k] == s@[start + k]);
                    }
                    lemma_find_dot_none(t);
                }
                if start == end {
                    return Err(DecimalError);
                }
                proof {
                    assert forall|k: int| 0 <= k < t.len() implies is_digit(#[trigger] t[k]) by {
                        assert(t[k] == s@[start + k]);
                    }
                }
                match digits_to_value(s, start, end) {
                    None => {
                        proof {
                            let v = digits_val(t);
                            assert(v * 10000 > u128::MAX) by (nonlinear_arith)
                                requires
                                    v > u128::MAX,
                            ;
                        }
                        Err(DecimalError)
                    },
                    Some(v) => {
                        if v <= u128::MAX / 10000 {
                            proof {
                                assert(v * 10000 <= (u128::MAX as int / 10000) * 10000);
                                assert((u128::MAX as int / 10000) * 10000 <= u128::MAX);
                            }
                            Ok(Balance(v * 10000))
                        } else {
                            proof {
                                assert(v as int * 10000 > u128::MAX);
                            }
                            Err(DecimalError)
                        }
                    },
                }
            },
            Some(j) => {
                proof {
                    assert(t[j - start] == '.');
                    assert forall|k: int| 0 <= k < j - start implies t[k] != '.' by {
                        assert(t[k] == s@[start + k]);
                    }
                    lemma_find_dot_at(t, j - start);
                }
                let ghost dt = j - start;
                let ghost intg = t.subrange(0, dt);
                let ghost fr = t.subrange(dt + 1, t.len() as int);
                if second {
                    proof {
                        let k = choose|k: int| j < k < end && s@[k] == '.';
                        assert(fr[k - j - 1] == s@[k]);
                        assert(has_dot(fr));
                    }
                    return Err(DecimalError);
                }
                proof {
                    assert forall|k: int| 0 <= k < fr.len() implies fr[k] != '.' by {
                        assert(fr[k] == s@[j + 1 + k]);
                        if s@[j + 1 + k] == '.' {
                            assert(j < j + 1 + k < end && s@[j + 1 + k] == '.');
                        }
                    }
                    assert(!has_dot(fr));
                    assert forall|k: int| 0 <= k < fr.len() implies is_digit(#[trigger] fr[k]) by {
                        assert(fr[k] == s@[j + 1 + k]);
                        assert(fr[k] == t[dt + 1 + k]);
                    }
                    assert forall|k: int| 0 <= k < intg.len() implies is_digit(
                        #[trigger] intg[k],
                    ) by {
                        assert(intg[k] == t[k]);
                        assert(t[k] == s@[start + k]);
                    }
                }
                if j == start {
                    return Err(DecimalError);
                }
                proof {
                    assert(intg =~= s@.subrange(start as int, j as int));
                }
                match digits_to_value(s, start, j) {
                    None => {
                        proof {
                            lemma_pow10_small();
                            let fr4 = if fr.len() > 4 {
                                fr.subrange(0, 4)
                            } else {
                                fr
                            };
                            assert(all_digits(fr4));
                            lemma_digits_val_nonneg(fr4);
                            let vi = digits_val(intg);
                            assert(vi * 10000 > u128::MAX) by (nonlinear_arith)
                                requires
                                    vi > u128::MAX,
                            ;
                            assert(pow10((4 - fr4.len()) as nat) >= 1);
                            assert(digits_val(fr4) * pow10((4 - fr4.len()) as nat) >= 0)
                                by (nonlinear_arith)
                                requires
                                    digits_val(fr4) >= 0,
                                    pow10((4 - fr4.len()) as nat) >= 1,
                            ;
                        }
                        Err(DecimalError)
                    },
                    Some(vi) => {
                        let fe: usize = if end - j - 1 > 4 {
                            j + 5
                        } else {
                            end
                        };
                        let ghost fr4 = if fr.len() > 4 {
                            fr.subrange(0, 4)
                        } else {
                            fr
                        };
                        proof {
                            assert(fr4 =~= s@.subrange(j + 1, fe as int));
                            assert(all_digits(fr4));
                            lemma_digits_val_bound(fr4);
                            lemma_pow10_small();
                        }
                        let flen: usize = fe - j - 1;
                        let fv: u128 = match digits_to_value(s, j + 1, fe) {
                            Some(fv) => fv,
                            None => {
                                proof {
                                    assert(pow10(fr4.len()) <= 10000);
                                    assert(false);
                                }
                                unreached()
                            },
                        };
                        let scale: u128 = if flen == 0 {
                            10000
                        } else if flen == 1 {
                            1000
                        } else if flen == 2 {
                            100
                        } else if flen == 3 {
                            10
                        } else {
                            1
                        };
                        proof {
                            assert(fr4.len() == flen);
                            assert(scale == pow10((4 - flen) as nat));
                            assert(fv < pow10(flen as nat));
                            if flen == 0 {
                                assert(fv == 0);
                            }
                            assert(fv * scale < 10000);
                        }
                        let fvs: u128 = fv * scale;
                        if vi <= (u128::MAX - fvs) / 10000 {
                            proof {
                                let m = (u128::MAX - fvs) as int;
                                assert(vi * 10000 <= (m / 10000) * 10000);
                                assert((m / 10000) * 10000 <= m);
                            }
                            Ok(Balance(vi * 10000 + fvs))
                        } else {
                            proof {
                                let m = (u128::MAX - fvs) as int;
                                assert(vi >= m / 10000 + 1);
                                assert(vi * 10000 >= (m / 10000 + 1) * 10000);
                                assert((m / 10000 + 1) * 10000 > m);
                                assert(vi as int * 10000 + fvs > u128::MAX);
                            }
                            Err(DecimalError)
                        }
                    },
                }
            },
        }
    }

    /// Renders the amount as integral digits, a point, and exactly four
    /// fractional digits.
    pub fn render(&self) -> (r: String)
        ensures
            r@ == render_spec(self.0 as int),
    {
        let mut out: String = String::from_str("");
        proof {
            reveal_strlit("");
            assert(out@ =~= Seq::<char>::empty());
        }
        crate::text::append_uint(&mut out, self.0 / 10000);
        proof {
            reveal_strlit(".");
        }
        out.append(".");
        let f: u128 = self.0 % 10000;
        crate::text::push_digit(&mut out, f / 1000);
        crate::text::push_digit(&mut out, (f / 100) % 10);
        crate::text::push_digit(&mut out, (f / 10) % 10);
        crate::text::push_digit(&mut out, f % 10);
        proof {
            assert(out@ =~= render_spec(self.0 as int));
        }
        out
    }

    /// Exact addition; `None` when the sum would not fit the stored width.
    pub fn checked_add(&self, rhs: &Balance) -> (r: Option<Balance>)
        ensures
            match r {
                Some(b) => b.0 == self.0 + rhs.0,
                None => self.0 + rhs.0 > u128::MAX,
            },
    {
        if self.0 <= u128::MAX - rhs.0 {
            Some(Balance(self.0 + rhs.0))
        } else {
            None
        }
    }

    /// Exact subtraction; `None` signals insufficient funds.
    pub fn checked_sub(&self, rhs: &Balance) -> (r: Option<Balance>)
        ensures
            match r {
                Some(b) => b.0 == self.0 - rhs.0 && rhs.0 <= self.0,
                None => self.0 < rhs.0,
            },
    {
        if rhs.0 <= self.0 {
            Some(Balance(self.0 - rhs.0))
        } else {
            None
        }
    }
}

/// Law: rendering an amount and parsing the text yields the amount back.
pub proof fn lemma_render_parse_round_trip(b: Balance)
    ensures
        parse_amount(render_spec(b.0 as int)) == Some(b.0),
{
    let u = b.0 as int;
    let q = u / 10000;
    let f = u % 10000;
    let ds = dec_str(q);
    let fs = frac4(f);
    let t = render_spec(u);
    lemma_dec_str_digits(q);
    lemma_dec_str_val(q);
    lemma_frac4_val(f);
    lemma_pow10_small();
    assert(t.len() == ds.len() + 5);
    assert(t[0] == ds[0]);
    assert(t[t.len() - 1] == fs[3]);
    assert(!is_space(t[0]));
    assert(!is_space(t[t.len() - 1]));
    lemma_trim_of_trimmed(t);
    assert forall|k: int| 0 <= k < t.len() implies is_digit(#[trigger] t[k]) || t[k] == '.' by {
        if k < ds.len() {
            assert(t[k] == ds[k]);
        } else if k == ds.len() {
            assert(t[k] == '.');
        } else {
            assert(t[k] == fs[k - ds.len() - 1]);
            lemma_digit_char_props(fs_arg(f, k - ds.len() - 1));
        }
    }
    assert forall|k: int| 0 <= k < ds.len() implies t[k] != '.' by {
        assert(t[k] == ds[k]);
        assert(is_digit(ds[k]));
    }
    lemma_find_dot_at(t, ds.len() as int);
    assert(find_dot(t) == Some(ds.len() as int));
    let intg = t.subrange(0, ds.len() as int);
    let fr = t.subrange(ds.len() + 1 as int, t.len() as int);
    assert(intg =~= ds);
    assert(fr =~= fs);
    assert forall|k: int| 0 <= k < fr.len() implies fr[k] != '.' by {
        lemma_digit_char_props(fs_arg(f, k));
    }
    assert(!has_dot(fr));
    assert(digits_val(fr) * pow10(0) == f);
    assert(amount_value(t) == Some(q * 10000 + f));
    assert(q * 10000 + f == u);
}

/// The digit value at position `k` of the four-digit fractional text.
pub open spec fn fs_arg(f: int, k: int) -> int {
    if k == 0 {
        f / 1000
    } else if k == 1 {
        (f / 100) % 10
    } else if k == 2 {
        (f / 10) % 10
    } else {
        f % 10
    }
}

pub proof fn lemma_frac4_val(f: int)
    requires
        0 <= f < 10000,
    ensures
        all_digits(frac4(f)),
        frac4(f).len() == 4,
        digits_val(frac4(f)) == f,
{
    let fs = frac4(f);
    assert forall|k: int| 0 <= k < 4 implies is_digit(#[trigger] fs[k]) by {
        lemma_digit_char_props(fs_arg(f, k));
    }
    let d0 = f / 1000;
    let d1 = (f / 100) % 10;
    let d2 = (f / 10) % 10;
    let d3 = f % 10;
    lemma_digit_char_props(d0);
    lemma_digit_char_props(d1);
    lemma_digit_char_props(d2);
    lemma_digit_char_props(d3);
    let s3 = fs.drop_last();
    let s2 = s3.drop_last();
    let s1 = s2.drop_last();
    assert(s1.drop_last() =~= Seq::<char>::empty());
    assert(digits_val(Seq::<char>::empty()) == 0);
    assert(s1.last() == digit_char(d0));
    assert(s2.last() == digit_char(d1));
    assert(s3.last() == digit_char(d2));
    assert(fs.last() == digit_char(d3));
    assert(digits_val(s1) == d0);
    assert(digits_val(s2) == d0 * 10 + d1);
    assert(digits_val(s3) == (d0 * 10 + d1) * 10 + d2);
    assert(digits_val(fs) == ((d0 * 10 + d1) * 10 + d2) * 10 + d3);
    lemma_div_denominator(f, 10, 10);
    lemma_div_denominator(f, 100, 10);
    assert((f / 10) / 10 == f / 100);
    assert((f / 100) / 10 == f / 1000);
    assert(f == (f / 10) * 10 + d3);
    assert(f / 10 == (f / 100) * 10 + d2);
    assert(f / 100 == d0 * 10 + d1);
    assert(((d0 * 10 + d1) * 10 + d2) * 10 + d3 == f);
}

} // verus!
