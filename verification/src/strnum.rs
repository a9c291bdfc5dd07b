//! Decimal and hexadecimal rendering and parsing of machine integers over
//! character sequences, with round-trip lemmas. These are the primitives the
//! element parsers and the transcript renderer are built from.

use vstd::prelude::*;

verus! {

/// ASCII whitespace, as the op grammar understands it.
pub open spec fn is_ws(c: char) -> bool {
    c == ' ' || c == '\t' || c == '\n' || c == '\r'
}

pub open spec fn trim_front(s: Seq<char>) -> Seq<char>
    decreases s.len(),
{
    if s.len() > 0 && is_ws(s[0]) {
        trim_front(s.drop_first())
    } else {
        s
    }
}

pub open spec fn trim_back(s: Seq<char>) -> Seq<char>
    decreases s.len(),
{
    if s.len() > 0 && is_ws(s[s.len() - 1]) {
        trim_back(s.drop_last())
    } else {
        s
    }
}

/// Both ends trimmed of ASCII whitespace.
pub open spec fn trim_of(s: Seq<char>) -> Seq<char> {
    trim_back(trim_front(s))
}

proof fn lemma_trim_front_range(s: Seq<char>) -> (lo: int)
    ensures
        0 <= lo <= s.len(),
        trim_front(s) == s.subrange(lo, s.len() as int),
        forall|k: int| 0 <= k < lo ==> is_ws(s[k]),
        lo < s.len() ==> !is_ws(s[lo]),
    decreases s.len(),
{
    if s.len() > 0 && is_ws(s[0]) {
        let lo1 = lemma_trim_front_range(s.drop_first());
        assert(s.drop_first().subrange(lo1, s.drop_first().len() as int) =~= s.subrange(
            lo1 + 1,
            s.len() as int,
        ));
        assert forall|k: int| 0 <= k < lo1 + 1 implies is_ws(s[k]) by {
            if k > 0 {
                assert(s.drop_first()[k - 1] == s[k]);
            }
        }
        if lo1 + 1 < s.len() {
            assert(s.drop_first()[lo1] == s[lo1 + 1]);
        }
        lo1 + 1
    } else {
        assert(s.subrange(0, s.len() as int) =~= s);
        0
    }
}

proof fn lemma_trim_back_range(s: Seq<char>) -> (hi: int)
    ensures
        0 <= hi <= s.len(),
        trim_back(s) == s.subrange(0, hi),
        forall|k: int| hi <= k < s.len() ==> is_ws(s[k]),
        hi > 0 ==> !is_ws(s[hi - 1]),
    decreases s.len(),
{
    if s.len() > 0 && is_ws(s[s.len() - 1]) {
        let hi = lemma_trim_back_range(s.drop_last());
        assert(s.drop_last().subrange(0, hi) =~= s.subrange(0, hi));
        assert forall|k: int| hi <= k < s.len() implies is_ws(s[k]) by {
            if k < s.len() - 1 {
                assert(s.drop_last()[k] == s[k]);
            }
        }
        if hi > 0 {
            assert(s.drop_last()[hi - 1] == s[hi - 1]);
        }
        hi
    } else {
        assert(s.subrange(0, s.len() as int) =~= s);
        s.len() as int
    }
}

/// A character sequence that neither starts nor ends with whitespace is its
/// own trim.
pub proof fn lemma_trim_of_no_ws(s: Seq<char>)
    requires
        s.len() > 0 ==> !is_ws(s[0]) && !is_ws(s[s.len() - 1]),
    ensures
        trim_of(s) == s,
{
}

/// True when the character at `i` is ASCII whitespace.
fn is_ws_at(s: &str, i: usize) -> (r: bool)
    requires
        i < s@.len(),
    ensures
        r == is_ws(s@[i as int]),
{
    let c = s.get_char(i);
    c == ' ' || c == '\t' || c == '\n' || c == '\r'
}

/// Extracts the whitespace-trimmed middle of a string.
pub fn trim(s: &str) -> (r: &str)
    ensures
        r@ == trim_of(s@),
{
    let n = s.unicode_len();
    let mut lo: usize = 0;
    while lo < n && is_ws_at(s, lo)
        invariant
            0 <= lo <= n,
            n == s@.len(),
            forall|k: int| 0 <= k < lo ==> is_ws(s@[k]),
        decreases n - lo,
    {
        lo = lo + 1;
    }
    let mut hi: usize = n;
    while hi > lo && is_ws_at(s, hi - 1)
        invariant
            lo <= hi <= n,
            n == s@.len(),
            forall|k: int| 0 <= k < lo ==> is_ws(s@[k]),
            lo < n ==> !is_ws(s@[lo as int]),
            forall|k: int| hi <= k < n ==> is_ws(s@[k]),
        decreases hi,
    {
        hi = hi - 1;
    }
    let r = s.substring_char(lo, hi);
    proof {
        let flo = lemma_trim_front_range(s@);
        assert(flo == lo as int);
        let tf = trim_front(s@);
        assert(tf == s@.subrange(lo as int, n as int));
        let fhi = lemma_trim_back_range(tf);
        if lo == hi {
            assert(trim_of(s@) =~= s@.subrange(lo as int, hi as int));
        } else {
            if fhi < hi - lo {
                assert(is_ws(tf[hi - lo - 1]));
                assert(tf[hi - lo - 1] == s@[hi - 1]);
            }
            if fhi > hi - lo {
                assert(!is_ws(tf[fhi - 1]));
                assert(tf[fhi - 1] == s@[lo + fhi - 1]);
            }
            assert(fhi == hi - lo);
            assert(trim_of(s@) =~= s@.subrange(lo as int, hi as int));
        }
    }
    r
}

/// Numeric value of a decimal digit character.
pub open spec fn dec_val(c: char) -> Option<int> {
    if '0' <= c <= '9' {
        Some(c as int - '0' as int)
    } else {
        None
    }
}

/// Numeric value of a hexadecimal digit character, either case.
pub open spec fn hex_val(c: char) -> Option<int> {
    if '0' <= c <= '9' {
        Some(c as int - '0' as int)
    } else if 'a' <= c <= 'f' {
        Some(10 + c as int - 'a' as int)
    } else if 'A' <= c <= 'F' {
        Some(10 + c as int - 'A' as int)
    } else {
        None
    }
}

/// The unbounded value of a digit string in the given base, `None` if it is
/// empty or holds a non-digit.
pub open spec fn digits_val(s: Seq<char>, base: int) -> Option<int>
    decreases s.len(),
{
    if s.len() == 0 {
        None
    } else {
        let d = if base == 16 {
            hex_val(s[s.len() - 1])
        } else {
            dec_val(s[s.len() - 1])
        };
        if s.len() == 1 {
            d
        } else {
            match (digits_val(s.drop_last(), base), d) {
                (Some(hi), Some(lo)) => Some(hi * base + lo),
                _ => None,
            }
        }
    }
}

/// `u64` parse of a digit string: the digits' value when it fits.
pub open spec fn parse_u64_digits(s: Seq<char>, base: int) -> Option<u64> {
    match digits_val(s, base) {
        Some(v) => if v <= u64::MAX {
            Some(v as u64)
        } else {
            None
        },
        None => None,
    }
}

/// `u64` parse in a base: an optional leading `+`, then digits, as
/// `u64::from_str_radix` accepts it.
pub open spec fn spec_parse_u64_radix(s: Seq<char>, base: int) -> Option<u64> {
    if s.len() > 0 && s[0] == '+' {
        parse_u64_digits(s.drop_first(), base)
    } else {
        parse_u64_digits(s, base)
    }
}

/// `u64` decimal parse as `str::parse::<u64>` accepts it: an optional
/// leading `+`, then decimal digits.
pub open spec fn spec_parse_u64(s: Seq<char>) -> Option<u64> {
    spec_parse_u64_radix(s, 10)
}

proof fn lemma_digits_val_nonneg(s: Seq<char>, base: int)
    requires
        base == 10 || base == 16,
        digits_val(s, base) is Some,
    ensures
        digits_val(s, base)->Some_0 >= 0,
    decreases s.len(),
{
    if s.len() > 1 {
        lemma_digits_val_nonneg(s.drop_last(), base);
    }
}

proof fn lemma_digits_val_extend(s: Seq<char>, base: int, i: int)
    requires
        base == 10 || base == 16,
        0 < i < s.len(),
        digits_val(s.take(i), base) is None || digits_val(s.take(i), base)->Some_0 > u64::MAX,
    ensures
        digits_val(s.take(i + 1), base) is None || digits_val(s.take(i + 1), base)->Some_0
            > u64::MAX,
{
    let t = s.take(i + 1);
    assert(t.drop_last() =~= s.take(i));
    if digits_val(s.take(i), base) is Some {
        lemma_digits_val_nonneg(s.take(i), base);
    }
}

proof fn lemma_digits_val_overflow(s: Seq<char>, base: int, i: int)
    requires
        base == 10 || base == 16,
        0 < i <= s.len(),
        digits_val(s.take(i), base) is None || digits_val(s.take(i), base)->Some_0 > u64::MAX,
    ensures
        digits_val(s, base) is None || digits_val(s, base)->Some_0 > u64::MAX,
    decreases s.len() - i,
{
    if i == s.len() {
        assert(s.take(i) =~= s);
    } else {
        lemma_digits_val_extend(s, base, i);
        lemma_digits_val_overflow(s, base, i + 1);
    }
}

/// Parses the digit substring `s[from..to]` in the given base.
pub(crate) fn parse_digits_range(s: &str, from: usize, to: usize, base: u64) -> (r: Option<u64>)
    requires
        base == 10 || base == 16,
        from <= to <= s@.len(),
    ensures
        r == parse_u64_digits(s@.subrange(from as int, to as int), base as int),
{
    let ghost t = s@.subrange(from as int, to as int);
    if from == to {
        return None;
    }
    let mut acc: u64 = 0;
    let mut i: usize = from;
    while i < to
        invariant
            from <= i <= to <= s@.len(),
            base == 10 || base == 16,
            t == s@.subrange(from as int, to as int),
            from < i ==> digits_val(t.take(i - from), base as int) == Some(acc as int),
            from == i ==> acc == 0,
        decreases to - i,
    {
        let c = s.get_char(i);
        let dv: u64 = if c >= '0' && c <= '9' {
            (c as u32 - '0' as u32) as u64
        } else if base == 16 && c >= 'a' && c <= 'f' {
            (c as u32 - 'a' as u32 + 10) as u64
        } else if base == 16 && c >= 'A' && c <= 'F' {
            (c as u32 - 'A' as u32 + 10) as u64
        } else {
            proof {
                let j = i - from;
                assert(t.take(j + 1).drop_last() =~= t.take(j));
                assert(t.take(j + 1)[j] == t[j]);
                assert(t[j] == c);
                if base == 16 {
                    assert(hex_val(c) is None);
                } else {
                    assert(dec_val(c) is None);
                }
                lemma_digits_val_overflow(t, base as int, j + 1);
            }
            return None;
        };
        proof {
            let j = i - from;
            assert(t.take(j + 1).drop_last() =~= t.take(j));
            assert(t.take(j + 1)[j] == t[j]);
            assert(t[j] == c);
        }
        if acc > (u64::MAX - dv) / base {
            proof {
                let j = i - from;
                if j > 0 {
                    lemma_digits_val_nonneg(t.take(j), base as int);
                }
                assert(digits_val(t.take(j + 1), base as int)->Some_0 > u64::MAX) by {
                    assert(acc * base + dv > u64::MAX) by (nonlinear_arith)
                        requires
                            acc > (u64::MAX - dv) / (base as int),
                            base == 10 || base == 16,
                            0 <= dv < base,
                            0 <= acc,
                    ;
                }
                lemma_digits_val_overflow(t, base as int, j + 1);
            }
            return None;
        }
        proof {
            assert(acc * base + dv <= u64::MAX) by (nonlinear_arith)
                requires
                    acc <= (u64::MAX - dv) / (base as int),
                    base == 10 || base == 16,
                    0 <= dv < base,
                    0 <= acc,
            ;
        }
        acc = acc * base + dv;
        i = i + 1;
    }
    proof {
        assert(t.take(to - from) =~= t);
    }
    Some(acc)
}

/// `u64` parse of a whole string in a base, as `u64::from_str_radix`
/// accepts it.
pub fn parse_u64_radix(s: &str, base: u64) -> (r: Option<u64>)
    requires
        base == 10 || base == 16,
    ensures
        r == spec_parse_u64_radix(s@, base as int),
{
    let n = s.unicode_len();
    if n > 0 && s.get_char(0) == '+' {
        let r = parse_digits_range(s, 1, n, base);
        proof {
            assert(s@.subrange(1, n as int) =~= s@.drop_first());
        }
        r
    } else {
        let r = parse_digits_range(s, 0, n, base);
        proof {
            assert(s@.subrange(0, n as int) =~= s@);
        }
        r
    }
}

/// `u64` decimal parse of a whole string, as `str::parse::<u64>` accepts it.
pub fn parse_u64_str(s: &str) -> (r: Option<u64>)
    ensures
        r == spec_parse_u64(s@),
{
    parse_u64_radix(s, 10)
}

/// Signed 32-bit decimal parse as `str::parse::<i32>` accepts it: an
/// optional sign, then digits; rejects `i32::MIN` (whose absolute value has
/// no `i32` form).
pub open spec fn spec_parse_i32(s: Seq<char>) -> Option<i32> {
    if s.len() > 0 && s[0] == '-' {
        match parse_u64_digits(s.drop_first(), 10) {
            Some(v) => if v <= 0x7fff_ffff {
                Some((-(v as int)) as i32)
            } else {
                None
            },
            None => None,
        }
    } else if s.len() > 0 && s[0] == '+' {
        match parse_u64_digits(s.drop_first(), 10) {
            Some(v) => if v <= 0x7fff_ffff {
                Some(v as i32)
            } else {
                None
            },
            None => None,
        }
    } else {
        match parse_u64_digits(s, 10) {
            Some(v) => if v <= 0x7fff_ffff {
                Some(v as i32)
            } else {
                None
            },
            None => None,
        }
    }
}

/// Parses the substring `s[from..to]` as a signed 32-bit decimal.
pub fn parse_i32_range(s: &str, from: usize, to: usize) -> (r: Option<i32>)
    requires
        from <= to <= s@.len(),
    ensures
        r == spec_parse_i32(s@.subrange(from as int, to as int)),
{
    let ghost t = s@.subrange(from as int, to as int);
    if from == to {
        return None;
    }
    let c0 = s.get_char(from);
    let (neg, start) = if c0 == '-' {
        (true, from + 1)
    } else if c0 == '+' {
        (false, from + 1)
    } else {
        (false, from)
    };
    let v = parse_digits_range(s, start, to, 10);
    proof {
        if start > from {
            assert(s@.subrange(start as int, to as int) =~= t.drop_first());
        }
    }
    match v {
        None => None,
        Some(v) => {
            if v > 0x7fff_ffff {
                None
            } else if neg {
                Some((-(v as i64)) as i32)
            } else {
                Some(v as i32)
            }
        },
    }
}

/// Decimal digit characters of an unsigned value, most significant first.
pub open spec fn dec_str(v: int) -> Seq<char>
    decreases v,
{
    if v < 0 {
        Seq::empty()
    } else if v < 10 {
        seq![crate::digest::hex_digit(v)]
    } else {
        dec_str(v / 10).push(crate::digest::hex_digit(v % 10))
    }
}

/// Decimal rendering of a signed value: a `-` sign, then the digits of the
/// absolute value.
pub open spec fn dec_str_i32(v: int) -> Seq<char> {
    if v < 0 {
        seq!['-'] + dec_str(-v)
    } else {
        dec_str(v)
    }
}

/// A rendered decimal has at least one digit and starts with a digit
/// (never a sign).
pub proof fn lemma_dec_str_digits(v: int)
    requires
        v >= 0,
    ensures
        dec_str(v).len() >= 1,
        forall|k: int| 0 <= k < dec_str(v).len() ==> dec_val(#[trigger] dec_str(v)[k]) is Some,
    decreases v,
{
    if v >= 10 {
        lemma_dec_str_digits(v / 10);
    }
}

/// Round trip: parsing the decimal rendering of `v` yields `v` again.
pub proof fn lemma_dec_roundtrip(v: int)
    requires
        0 <= v <= u64::MAX,
    ensures
        parse_u64_digits(dec_str(v), 10) == Some(v as u64),
    decreases v,
{
    lemma_digits_val_exact(v);
}

proof fn lemma_digits_val_exact(v: int)
    requires
        v >= 0,
    ensures
        digits_val(dec_str(v), 10) == Some(v),
    decreases v,
{
    if v < 10 {
    } else {
        lemma_digits_val_exact(v / 10);
        let s = dec_str(v);
        assert(s.drop_last() =~= dec_str(v / 10));
        assert(s[s.len() - 1] == crate::digest::hex_digit(v % 10));
    }
}

/// Appends one decimal digit character.
fn push_digit(out: &mut String, d: u64)
    requires
        d < 10,
    ensures
        final(out)@ == old(out)@.push(crate::digest::hex_digit(d as int)),
{
    let ghost c = crate::digest::hex_digit(d as int);
    if d == 0 {
        proof {
            reveal_strlit("0");
        }
        out.append("0");
    } else if d == 1 {
        proof {
            reveal_strlit("1");
        }
        out.append("1");
    } else if d == 2 {
        proof {
            reveal_strlit("2");
        }
        out.append("2");
    } else if d == 3 {
        proof {
            reveal_strlit("3");
        }
        out.append("3");
    } else if d == 4 {
        proof {
            reveal_strlit("4");
        }
        out.append("4");
    } else if d == 5 {
        proof {
            reveal_strlit("5");
        }
        out.append("5");
    } else if d == 6 {
        proof {
            reveal_strlit("6");
        }
        out.append("6");
    } else if d == 7 {
        proof {
            reveal_strlit("7");
        }
        out.append("7");
    } else if d == 8 {
        proof {
            reveal_strlit("8");
        }
        out.append("8");
    } else {
        proof {
            reveal_strlit("9");
        }
        out.append("9");
    }
    proof {
        assert(out@ =~= old(out)@.push(c));
    }
}

/// Appends the decimal rendering of `v`.
pub fn append_u64(out: &mut String, v: u64)
    ensures
        final(out)@ == old(out)@ + dec_str(v as int),
    decreases v,
{
    if v < 10 {
        push_digit(out, v);
        proof {
            assert(old(out)@.push(crate::digest::hex_digit(v as int)) =~= old(out)@ + dec_str(
                v as int,
            ));
        }
    } else {
        append_u64(out, v / 10);
        push_digit(out, v % 10);
        proof {
            assert(old(out)@ + dec_str((v / 10) as int) + seq![
                crate::digest::hex_digit((v % 10) as int),
            ] =~= old(out)@ + dec_str(v as int));
            assert(out@ =~= old(out)@ + dec_str(v as int));
        }
    }
}

/// Appends the decimal rendering of a signed value.
pub fn append_i32(out: &mut String, v: i32)
    ensures
        final(out)@ == old(out)@ + dec_str_i32(v as int),
{
    if v < 0 {
        proof {
            reveal_strlit("-");
        }
        out.append("-");
        let m: u64 = (-(v as i64)) as u64;
        append_u64(out, m);
        proof {
            assert(out@ =~= old(out)@ + dec_str_i32(v as int));
        }
    } else {
        append_u64(out, v as u64);
    }
}

} // verus!
