//! Character-level utilities shared by amount parsing, identifier parsing
//! and decimal rendering: whitespace trimming, digit runs and their values,
//! and the canonical decimal representation of an unsigned integer.
use vstd::prelude::*;

verus! {

/// Whitespace characters stripped from both ends of a field.
pub open spec fn is_space(c: char) -> bool {
    c == ' ' || c == '\t' || c == '\n' || c == '\r' || c == '\u{c}'
}

pub open spec fn is_digit(c: char) -> bool {
    48 <= c as u32 <= 57
}

pub open spec fn digit_val(c: char) -> int {
    c as u32 - 48
}

pub open spec fn all_digits(s: Seq<char>) -> bool {
    forall|k: int| 0 <= k < s.len() ==> is_digit(#[trigger] s[k])
}

/// Value of a run of decimal digits, most significant first.
pub open spec fn digits_val(s: Seq<char>) -> int
    decreases s.len(),
{
    if s.len() == 0 {
        0
    } else {
        digits_val(s.drop_last()) * 10 + digit_val(s.last())
    }
}

pub open spec fn pow10(n: nat) -> int
    decreases n,
{
    if n == 0 {
        1
    } else {
        10 * pow10((n - 1) as nat)
    }
}

/// The input with leading whitespace removed.
pub open spec fn trim_front(s: Seq<char>) -> Seq<char>
    decreases s.len(),
{
    if s.len() > 0 && is_space(s[0]) {
        trim_front(s.drop_first())
    } else {
        s
    }
}

/// The input with trailing whitespace removed.
pub open spec fn trim_back(s: Seq<char>) -> Seq<char>
    decreases s.len(),
{
    if s.len() > 0 && is_space(s[s.len() - 1]) {
        trim_back(s.drop_last())
    } else {
        s
    }
}

/// The input with surrounding whitespace removed.
pub open spec fn trim_spec(s: Seq<char>) -> Seq<char> {
    trim_back(trim_front(s))
}

/// Index of the first decimal point, if any.
pub open spec fn find_dot(s: Seq<char>) -> Option<int>
    decreases s.len(),
{
    if s.len() == 0 {
        None
    } else if s[0] == '.' {
        Some(0)
    } else {
        match find_dot(s.drop_first()) {
            Some(i) => Some(i + 1),
            None => None,
        }
    }
}

pub open spec fn has_dot(s: Seq<char>) -> bool {
    exists|k: int| 0 <= k < s.len() && s[k] == '.'
}

/// The value a nonempty, all-digit token denotes; `None` otherwise.
pub open spec fn uint_value(t: Seq<char>) -> Option<int> {
    if t.len() > 0 && all_digits(t) {
        Some(digits_val(t))
    } else {
        None
    }
}

pub proof fn lemma_digits_val_nonneg(s: Seq<char>)
    requires
        all_digits(s),
    ensures
        digits_val(s) >= 0,
    decreases s.len(),
{
    if s.len() > 0 {
        assert(all_digits(s.drop_last()));
        lemma_digits_val_nonneg(s.drop_last());
    }
}

pub proof fn lemma_digits_val_bound(s: Seq<char>)
    requires
        all_digits(s),
    ensures
        0 <= digits_val(s) < pow10(s.len()),
    decreases s.len(),
{
    if s.len() > 0 {
        assert(all_digits(s.drop_last()));
        lemma_digits_val_bound(s.drop_last());
    }
}

/// Reading one more digit can only increase the value.
pub proof fn lemma_digits_val_take_le(s: Seq<char>, i: int)
    requires
        all_digits(s),
        0 <= i <= s.len(),
    ensures
        digits_val(s.take(i)) <= digits_val(s),
    decreases s.len() - i,
{
    if i < s.len() {
        lemma_digits_val_take_le(s, i + 1);
        let t = s.take(i + 1);
        assert(t.drop_last() =~= s.take(i));
        assert(t.last() == s[i]);
        assert(all_digits(s.take(i)));
        lemma_digits_val_nonneg(s.take(i));
    } else {
        assert(s.take(i) =~= s);
    }
}

pub proof fn lemma_find_dot_at(s: Seq<char>, j: int)
    requires
        0 <= j < s.len(),
        s[j] == '.',
        forall|k: int| 0 <= k < j ==> s[k] != '.',
    ensures
        find_dot(s) == Some(j),
    decreases j,
{
    if j > 0 {
        lemma_find_dot_at(s.drop_first(), j - 1);
    }
}

pub proof fn lemma_find_dot_none(s: Seq<char>)
    requires
        forall|k: int| 0 <= k < s.len() ==> s[k] != '.',
    ensures
        find_dot(s) is None,
    decreases s.len(),
{
    if s.len() > 0 {
        lemma_find_dot_none(s.drop_first());
    }
}

/// A sequence whose ends are not whitespace is already trimmed.
pub proof fn lemma_trim_of_trimmed(s: Seq<char>)
    requires
        s.len() > 0,
        !is_space(s[0]),
        !is_space(s[s.len() - 1]),
    ensures
        trim_spec(s) == s,
{
}

/// The bounds of the input with surrounding whitespace removed.
pub fn trim_bounds(s: &str) -> (r: (usize, usize))
    ensures
        r.0 <= r.1 <= s@.len(),
        trim_spec(s@) == s@.subrange(r.0 as int, r.1 as int),
{
    let n: usize = s.unicode_len();
    let mut start: usize = 0;
    proof {
        assert(s@.skip(0) =~= s@);
    }
    loop
        invariant
            0 <= start <= n,
            n == s@.len(),
            trim_front(s@) == trim_front(s@.skip(start as int)),
        ensures
            0 <= start <= n,
            trim_front(s@) == s@.skip(start as int),
        decreases n - start,
    {
        if start < n && is_space_exec(s.get_char(start)) {
            proof {
                assert(s@.skip(start as int).drop_first() =~= s@.skip(start + 1));
                assert(s@.skip(start as int)[0] == s@[start as int]);
            }
            start = start + 1;
        } else {
            proof {
                if start < n {
                    assert(s@.skip(start as int)[0] == s@[start as int]);
                    assert(trim_front(s@.skip(start as int)) == s@.skip(start as int));
                } else {
                    assert(s@.skip(start as int) =~= Seq::<char>::empty());
                }
            }
            break;
        }
    }
    proof {
        assert(s@.skip(start as int) =~= s@.subrange(start as int, n as int));
    }
    let mut end: usize = n;
    loop
        invariant
            start <= end <= n,
            n == s@.len(),
            trim_front(s@) == s@.skip(start as int),
            trim_back(s@.subrange(start as int, n as int)) == trim_back(
                s@.subrange(start as int, end as int),
            ),
        ensures
            start <= end <= n,
            trim_spec(s@) == s@.subrange(start as int, end as int),
        decreases end,
    {
        let ghost u = s@.subrange(start as int, end as int);
        if end > start && is_space_exec(s.get_char(end - 1)) {
            proof {
                assert(u.drop_last() =~= s@.subrange(start as int, end - 1));
                assert(u[u.len() - 1] == s@[end - 1]);
            }
            end = end - 1;
        } else {
            proof {
                if end > start {
                    assert(u[u.len() - 1] == s@[end - 1]);
                    assert(trim_back(u) == u);
                } else {
                    assert(u =~= Seq::<char>::empty());
                }
            }
            break;
        }
    }
    (start, end)
}

pub fn is_space_exec(c: char) -> (r: bool)
    ensures
        r == is_space(c),
{
    c == ' ' || c == '\t' || c == '\n' || c == '\r' || c == '\u{c}'
}

/// Whether the input, less surrounding whitespace, equals the given token.
pub fn trimmed_eq(s: &str, t: &str) -> (r: bool)
    ensures
        r == (trim_spec(s@) == t@),
{
    let (start, end): (usize, usize) = trim_bounds(s);
    let tn: usize = t.unicode_len();
    if end - start != tn {
        proof {
            assert(trim_spec(s@).len() == end - start);
        }
        return false;
    }
    let mut i: usize = 0;
    while i < tn
        invariant
            0 <= i <= tn,
            tn == t@.len(),
            start <= end <= s@.len(),
            end - start == tn,
            trim_spec(s@) == s@.subrange(start as int, end as int),
            forall|k: int| 0 <= k < i ==> s@[start + k] == t@[k],
        decreases tn - i,
    {
        if s.get_char(start + i) != t.get_char(i) {
            proof {
                assert(trim_spec(s@)[i as int] != t@[i as int]);
            }
            return false;
        }
        i = i + 1;
    }
    proof {
        assert(trim_spec(s@) =~= t@);
    }
    true
}

/// The value of the digit run `s[from..to]`, or `None` if it exceeds `u128`.
pub fn digits_to_value(s: &str, from: usize, to: usize) -> (r: Option<u128>)
    requires
        from <= to <= s@.len(),
        all_digits(s@.subrange(from as int, to as int)),
    ensures
        match r {
            Some(x) => digits_val(s@.subrange(from as int, to as int)) == x,
            None => digits_val(s@.subrange(from as int, to as int)) > u128::MAX,
        },
{
    let ghost t = s@.subrange(from as int, to as int);
    let mut acc: u128 = 0;
    let mut i: usize = from;
    while i < to
        invariant
            from <= i <= to <= s@.len(),
            t == s@.subrange(from as int, to as int),
            all_digits(t),
            acc == digits_val(t.take(i - from)),
        decreases to - i,
    {
        let c = s.get_char(i);
        proof {
            assert(t[i - from] == s@[i as int]);
        }
        let u: u32 = c as u32;
        let d: u128 = (u - 48) as u128;
        proof {
            assert(t.take(i - from + 1).drop_last() =~= t.take(i - from));
            assert(t.take(i - from + 1).last() == t[i - from]);
            lemma_digits_val_nonneg(t.take(i - from));
        }
        if acc <= (u128::MAX - d) / 10 {
            acc = acc * 10 + d;
        } else {
            proof {
                assert(digits_val(t.take(i - from + 1)) > u128::MAX);
                assert(all_digits(t.take(i - from + 1)));
                lemma_digits_val_take_le(t, i - from + 1);
            }
            return None;
        }
        i = i + 1;
    }
    proof {
        assert(t.take(to - from) =~= t);
    }
    Some(acc)
}

/// Parses the input, less surrounding whitespace, as a nonnegative integer
/// of at most `max`; `None` on any other text or a larger value.
pub fn parse_bounded_uint(s: &str, max: u128) -> (r: Option<u128>)
    ensures
        match uint_value(trim_spec(s@)) {
            Some(v) => 0 <= v && if v <= max {
                r == Some(v as u128)
            } else {
                r is None
            },
            None => r is None,
        },
{
    let (start, end): (usize, usize) = trim_bounds(s);
    let ghost t = trim_spec(s@);
    if start == end {
        proof {
            assert(t.len() == 0);
        }
        return None;
    }
    let mut i: usize = start;
    while i < end
        invariant
            start <= i <= end <= s@.len(),
            t == trim_spec(s@),
            t == s@.subrange(start as int, end as int),
            forall|k: int| start <= k < i ==> is_digit(#[trigger] s@[k]),
        decreases end - i,
    {
        let c = s.get_char(i);
        let u: u32 = c as u32;
        if u < 48 || u > 57 {
            proof {
                assert(t[i - start] == s@[i as int]);
                assert(!is_digit(t[i - start]));
                assert(!all_digits(t));
                assert(uint_value(t) is None);
            }
            return None;
        }
        i = i + 1;
    }
    proof {
        assert forall|k: int| 0 <= k < t.len() implies is_digit(#[trigger] t[k]) by {
            assert(t[k] == s@[start + k]);
        }
    }
    match digits_to_value(s, start, end) {
        None => {
            proof {
                assert(digits_val(t) > max);
            }
            None
        },
        Some(v) => {
            if v <= max {
                Some(v)
            } else {
                None
            }
        },
    }
}

/// The canonical decimal digits of a nonnegative integer, no leading zeros
/// except for zero itself.
pub open spec fn dec_str(n: int) -> Seq<char>
    decreases n,
{
    if n < 10 {
        seq![digit_char(n)]
    } else {
        dec_str(n / 10).push(digit_char(n % 10))
    }
}

pub open spec fn digit_char(d: int) -> char {
    if d == 0 {
        '0'
    } else if d == 1 {
        '1'
    } else if d == 2 {
        '2'
    } else if d == 3 {
        '3'
    } else if d == 4 {
        '4'
    } else if d == 5 {
        '5'
    } else if d == 6 {
        '6'
    } else if d == 7 {
        '7'
    } else if d == 8 {
        '8'
    } else {
        '9'
    }
}

pub proof fn lemma_dec_str_digits(n: int)
    requires
        n >= 0,
    ensures
        dec_str(n).len() > 0,
        all_digits(dec_str(n)),
    decreases n,
{
    if n >= 10 {
        lemma_dec_str_digits(n / 10);
        let s = dec_str(n / 10);
        let w = s.push(digit_char(n % 10));
        assert forall|k: int| 0 <= k < w.len() implies is_digit(#[trigger] w[k]) by {
            if k < s.len() {
                assert(w[k] == s[k]);
            }
        }
    }
}

/// Parsing the canonical decimal digits gives back the integer.
pub proof fn lemma_dec_str_val(n: int)
    requires
        n >= 0,
    ensures
        digits_val(dec_str(n)) == n,
    decreases n,
{
    if n < 10 {
        let s = dec_str(n);
        assert(s.drop_last() =~= Seq::<char>::empty());
        assert(s.last() == digit_char(n));
        assert(digit_val(digit_char(n)) == n);
        assert(digits_val(s) == digits_val(s.drop_last()) * 10 + digit_val(s.last()));
        assert(digits_val(Seq::<char>::empty()) == 0);
        assert(digits_val(dec_str(n)) == n);
    } else {
        lemma_dec_str_val(n / 10);
        let s = dec_str(n / 10);
        let w = s.push(digit_char(n % 10));
        assert(w.drop_last() =~= s);
        assert(w.last() == digit_char(n % 10));
        assert(digit_val(digit_char(n % 10)) == n % 10);
        assert(w == dec_str(n));
        assert(digits_val(w) == digits_val(s) * 10 + digit_val(w.last()));
        assert(digits_val(dec_str(n)) == n);
    }
}

pub proof fn lemma_digit_char_props(d: int)
    ensures
        is_digit(digit_char(d)),
        digit_char(d) != '.',
        !is_space(digit_char(d)),
        0 <= d <= 9 ==> digit_val(digit_char(d)) == d,
{
}

pub fn push_digit(s: &mut String, d: u128)
    requires
        d < 10,
    ensures
        final(s)@ == old(s)@.push(digit_char(d as int)),
{
    proof {
        reveal_strlit("0");
        reveal_strlit("1");
        reveal_strlit("2");
        reveal_strlit("3");
        reveal_strlit("4");
        reveal_strlit("5");
        reveal_strlit("6");
        reveal_strlit("7");
        reveal_strlit("8");
        reveal_strlit("9");
    }
    if d == 0 {
        s.append("0");
    } else if d == 1 {
        s.append("1");
    } else if d == 2 {
        s.append("2");
    } else if d == 3 {
        s.append("3");
    } else if d == 4 {
        s.append("4");
    } else if d == 5 {
        s.append("5");
    } else if d == 6 {
        s.append("6");
    } else if d == 7 {
        s.append("7");
    } else if d == 8 {
        s.append("8");
    } else {
        s.append("9");
    }
    proof {
        assert(s@ =~= old(s)@.push(digit_char(d as int)));
    }
}

/// The digits of `digits`, least significant first, read back to front.
pub open spec fn chars_rev(ds: Seq<u8>) -> Seq<char> {
    Seq::new(ds.len(), |k: int| digit_char(ds[ds.len() - 1 - k] as int))
}

/// Appends the canonical decimal form of `n` to `out`.
pub fn append_uint(out: &mut String, n: u128)
    ensures
        final(out)@ == old(out)@ + dec_str(n as int),
{
    let mut digits: Vec<u8> = Vec::new();
    let mut m: u128 = n;
    let d0: u8 = (m % 10) as u8;
    proof {
        let ds2 = digits@.push(d0);
        assert(chars_rev(ds2) =~= seq![digit_char(d0 as int)] + chars_rev(digits@));
        assert(chars_rev(digits@) =~= Seq::<char>::empty());
        if m >= 10 {
            assert(dec_str(m as int) =~= dec_str(m as int / 10) + seq![
                digit_char(m as int % 10),
            ]);
        }
    }
    digits.push(d0);
    m = m / 10;
    while m > 0
        invariant
            forall|j: int| 0 <= j < digits@.len() ==> digits@[j] < 10,
            if m > 0 {
                dec_str(n as int) =~= dec_str(m as int) + chars_rev(digits@)
            } else {
                dec_str(n as int) =~= chars_rev(digits@)
            },
        decreases m,
    {
        let d: u8 = (m % 10) as u8;
        let m2: u128 = m / 10;
        proof {
            let ds2 = digits@.push(d);
            assert(chars_rev(ds2) =~= seq![digit_char(d as int)] + chars_rev(digits@));
            if m2 > 0 {
                assert(dec_str(m as int) =~= dec_str(m2 as int) + seq![digit_char(d as int)]);
                assert(dec_str(m2 as int) + chars_rev(ds2) =~= dec_str(m as int) + chars_rev(
                    digits@,
                ));
            } else {
                assert(dec_str(m as int) =~= seq![digit_char(d as int)]);
                assert(chars_rev(ds2) =~= dec_str(m as int) + chars_rev(digits@));
            }
        }
        digits.push(d);
        m = m2;
    }
    proof {
        assert(dec_str(n as int) =~= chars_rev(digits@));
    }
    let len: usize = digits.len();
    let mut k: usize = 0;
    while k < len
        invariant
            0 <= k <= len,
            len == digits@.len(),
            forall|j: int| 0 <= j < len ==> digits@[j] < 10,
            out@ =~= old(out)@ + chars_rev(digits@).take(k as int),
        decreases len - k,
    {
        let d = digits[len - 1 - k];
        push_digit(out, d as u128);
        proof {
            assert(chars_rev(digits@).take(k + 1) =~= chars_rev(digits@).take(k as int).push(
                digit_char(digits@[len - 1 - k as int] as int),
            ));
            assert(out@ =~= old(out)@ + chars_rev(digits@).take(k + 1));
        }
        k = k + 1;
    }
    proof {
        assert(chars_rev(digits@).take(len as int) =~= chars_rev(digits@));
        assert(out@ =~= old(out)@ + dec_str(n as int));
    }
}

} // verus!

