use vstd::prelude::*;

verus! {

pub open spec fn is_digit(c: char) -> bool {
    '0' <= c && c <= '9'
}

pub open spec fn digit_value(c: char) -> nat {
    ((c as u32) - ('0' as u32)) as nat
}

pub open spec fn digit_char(d: nat) -> char {
    if d == 0 {
        '0'
    } else if d == 1 {
        '1'
    } else if d == 2 {
        '2'
    } else if d == 3 {
        '3'
    } else if d == 4 {
        '4'
    } else if d == 5 {
        '5'
    } else if d == 6 {
        '6'
    } else if d == 7 {
        '7'
    } else if d == 8 {
        '8'
    } else {
        '9'
    }
}

pub open spec fn all_digits(s: Seq<char>) -> bool {
    forall|i: int| 0 <= i < s.len() ==> #[trigger] is_digit(s[i])
}

/// The number that a run of decimal digits denotes, most significant first.
pub open spec fn digits_value(s: Seq<char>) -> nat
    decreases s.len(),
{
    if s.len() == 0 {
        0
    } else {
        digits_value(s.drop_last()) * 10 + digit_value(s.last())
    }
}

/// The shortest decimal text of `n`.
pub open spec fn nat_text(n: nat) -> Seq<char>
    decreases n,
{
    if n < 10 {
        seq![digit_char(n)]
    } else {
        nat_text(n / 10).push(digit_char(n % 10))
    }
}

/// Decimal text of a signed number: a minus sign before the magnitude when
/// negative.
pub open spec fn int_text(i: int) -> Seq<char> {
    if i < 0 {
        seq!['-'] + nat_text((-i) as nat)
    } else {
        nat_text(i as nat)
    }
}

/// A non-empty run of digits read as a number; anything else is no number.
pub open spec fn parse_nat_text(s: Seq<char>) -> Option<nat> {
    if s.len() > 0 && all_digits(s) {
        Some(digits_value(s))
    } else {
        None
    }
}

/// Signed decimal text: an optional leading minus sign, then digits.
pub open spec fn parse_int_text(s: Seq<char>) -> Option<int> {
    if s.len() > 0 && s[0] == '-' {
        match parse_nat_text(s.drop_first()) {
            Some(n) => Some(-n),
            None => None,
        }
    } else {
        match parse_nat_text(s) {
            Some(n) => Some(n as int),
            None => None,
        }
    }
}

/// How the standard library reads an unsigned integer: an optional leading
/// plus sign, then at least one digit.
pub open spec fn parse_unsigned_text(s: Seq<char>) -> Option<nat> {
    if s.len() > 0 && s[0] == '+' {
        parse_nat_text(s.drop_first())
    } else {
        parse_nat_text(s)
    }
}

pub proof fn lemma_digit_char(d: nat)
    requires
        d < 10,
    ensures
        is_digit(digit_char(d)),
        digit_value(digit_char(d)) == d,
{
}

pub proof fn lemma_nat_text(n: nat)
    ensures
        nat_text(n).len() >= 1,
        all_digits(nat_text(n)),
        digits_value(nat_text(n)) == n,
    decreases n,
{
    if n < 10 {
        lemma_digit_char(n);
        assert(nat_text(n).drop_last() =~= Seq::<char>::empty());
        assert(digits_value(Seq::<char>::empty()) == 0);
        assert(nat_text(n).last() == digit_char(n));
    } else {
        lemma_nat_text(n / 10);
        lemma_digit_char(n % 10);
        let s = nat_text(n);
        assert(s.drop_last() =~= nat_text(n / 10));
        assert(s.last() == digit_char(n % 10));
        assert(digits_value(s) == digits_value(nat_text(n / 10)) * 10 + n % 10);
        assert(n == (n / 10) * 10 + n % 10);
        assert forall|i: int| 0 <= i < s.len() implies #[trigger] is_digit(s[i]) by {
            if i < s.len() - 1 {
                assert(s[i] == nat_text(n / 10)[i]);
            }
        }
    }
}

/// Reading back the decimal text of a number gives the number.
pub proof fn lemma_parse_nat_text(n: nat)
    ensures
        parse_nat_text(nat_text(n)) == Some(n),
        parse_unsigned_text(nat_text(n)) == Some(n),
        nat_text(n)[0] != '-',
        nat_text(n)[0] != '+',
{
    lemma_nat_text(n);
    assert(is_digit(nat_text(n)[0]));
}

pub proof fn lemma_parse_int_text(i: int)
    ensures
        parse_int_text(int_text(i)) == Some(i),
{
    if i < 0 {
        lemma_parse_nat_text((-i) as nat);
        assert((seq!['-'] + nat_text((-i) as nat)).drop_first() =~= nat_text((-i) as nat));
    } else {
        lemma_parse_nat_text(i as nat);
    }
}

/// A longer run of digits denotes a number at least as large.
pub proof fn lemma_digits_value_prefix(s: Seq<char>, j: int, k: int)
    requires
        0 <= j <= k <= s.len(),
    ensures
        digits_value(s.take(j)) <= digits_value(s.take(k)),
    decreases k - j,
{
    if j < k {
        lemma_digits_value_prefix(s, j, k - 1);
        assert(s.take(k).drop_last() =~= s.take(k - 1));
    }
}

/// The character of a digit value.
pub fn digit_to_char(d: u64) -> (c: char)
    requires
        d < 10,
    ensures
        c == digit_char(d as nat),
{
    if d == 0 {
        '0'
    } else if d == 1 {
        '1'
    } else if d == 2 {
        '2'
    } else if d == 3 {
        '3'
    } else if d == 4 {
        '4'
    } else if d == 5 {
        '5'
    } else if d == 6 {
        '6'
    } else if d == 7 {
        '7'
    } else if d == 8 {
        '8'
    } else {
        '9'
    }
}

/// The value of a digit character, if it is one.
pub fn char_to_digit(c: char) -> (r: Option<u64>)
    ensures
        r == (if is_digit(c) {
            Some(digit_value(c) as u64)
        } else {
            None::<u64>
        }),
{
    if '0' <= c && c <= '9' {
        Some((c as u32 - '0' as u32) as u64)
    } else {
        None
    }
}

/// Relies on `String::push`: appends one character.
#[verifier::external_body]
pub(crate) fn push_char(s: &mut String, c: char)
    ensures
        final(s)@ == old(s)@.push(c),
{
    s.push(c)
}

/// Appends the decimal text of `n`.
pub fn push_nat_text(out: &mut String, n: u64)
    ensures
        final(out)@ == old(out)@ + nat_text(n as nat),
    decreases n,
{
    if n >= 10 {
        push_nat_text(out, n / 10);
    }
    let c = digit_to_char(n % 10);
    push_char(out, c);
    assert(final(out)@ =~= old(out)@ + nat_text(n as nat));
}

/// Appends the decimal text of `i`, with a minus sign when negative.
pub fn push_int_text(out: &mut String, i: i64)
    ensures
        final(out)@ == old(out)@ + int_text(i as int),
{
    if i < 0 {
        push_char(out, '-');
        let magnitude: u64 = (0i128 - i as i128) as u64;
        push_nat_text(out, magnitude);
        assert(final(out)@ =~= old(out)@ + int_text(i as int));
    } else {
        push_nat_text(out, i as u64);
    }
}

/// The decimal text of `n` as a new string.
pub fn nat_to_text(n: u64) -> (r: String)
    ensures
        r@ == nat_text(n as nat),
{
    let mut out = String::new();
    push_nat_text(&mut out, n);
    assert(out@ =~= nat_text(n as nat));
    out
}

/// Reads `s[start..end]` as a run of digits, when it is a non-empty one
/// whose value fits in 64 bits.
pub fn parse_nat_range(s: &Vec<char>, start: usize, end: usize) -> (r: Option<u64>)
    requires
        start <= end <= s.len(),
    ensures
        r == (match parse_nat_text(s@.subrange(start as int, end as int)) {
            Some(n) => if n <= u64::MAX {
                Some(n as u64)
            } else {
                None::<u64>
            },
            None => None::<u64>,
        }),
{
    let ghost t = s@.subrange(start as int, end as int);
    if start == end {
        return None;
    }
    let mut acc: u64 = 0;
    let mut i: usize = start;
    while i < end
        invariant
            start <= i <= end <= s.len(),
            t == s@.subrange(start as int, end as int),
            all_digits(t.take(i - start)),
            acc as nat == digits_value(t.take(i - start)),
        decreases end - i,
    {
        let d = char_to_digit(s[i]);
        match d {
            None => {
                assert(!is_digit(t[i - start]));
                return None;
            },
            Some(d) => {
                let ghost k = i - start;
                assert(t.take(k + 1).drop_last() =~= t.take(k));
                assert(t.take(k + 1).last() == s@[i as int]);
                if acc > (u64::MAX - d) / 10 {
                    assert(digits_value(t.take(k + 1)) > u64::MAX) by (nonlinear_arith)
                        requires
                            acc > (u64::MAX - d) / 10,
                            digits_value(t.take(k + 1)) == acc * 10 + d,
                            d < 10,
                    ;
                    proof {
                        lemma_digits_value_prefix(t, k + 1, t.len() as int);
                        assert(t.take(t.len() as int) =~= t);
                    }
                    return None;
                }
                assert(acc * 10 + d <= u64::MAX) by (nonlinear_arith)
                    requires
                        acc <= (u64::MAX - d) / 10,
                        d < 10,
                ;
                acc = acc * 10 + d;
                i = i + 1;
                assert forall|j: int| 0 <= j < t.take(i - start).len() implies #[trigger] is_digit(
                    t.take(i - start)[j],
                ) by {
                    if j < k {
                        assert(t.take(i - start)[j] == t.take(k)[j]);
                    }
                }
            },
        }
    }
    assert(t.take(end - start) =~= t);
    Some(acc)
}

/// Reads `s[start..end]` as signed decimal text whose value fits in an `i64`.
pub fn parse_i64_range(s: &Vec<char>, start: usize, end: usize) -> (r: Option<i64>)
    requires
        start <= end <= s.len(),
    ensures
        r == (match parse_int_text(s@.subrange(start as int, end as int)) {
            Some(i) => if i64::MIN <= i <= i64::MAX {
                Some(i as i64)
            } else {
                None::<i64>
            },
            None => None::<i64>,
        }),
{
    let ghost t = s@.subrange(start as int, end as int);
    if start < end && s[start] == '-' {
        assert(t.drop_first() =~= s@.subrange(start + 1, end as int));
        match parse_nat_range(s, start + 1, end) {
            Some(m) => {
                if m <= 9_223_372_036_854_775_808u64 {
                    Some((0i128 - m as i128) as i64)
                } else {
                    None
                }
            },
            None => None,
        }
    } else {
        match parse_nat_range(s, start, end) {
            Some(m) => {
                if m <= 9_223_372_036_854_775_807u64 {
                    Some(m as i64)
                } else {
                    None
                }
            },
            None => None,
        }
    }
}

/// The characters of `s`, in order.
pub fn chars_of(s: &str) -> (r: Vec<char>)
    ensures
        r@ == s@,
{
    let n = s.unicode_len();
    let mut out: Vec<char> = Vec::new();
    let mut i: usize = 0;
    while i < n
        invariant
            n == s@.len(),
            i <= n,
            out@ == s@.take(i as int),
        decreases n - i,
    {
        let c = s.get_char(i);
        out.push(c);
        i = i + 1;
        assert(out@ =~= s@.take(i as int));
    }
    assert(s@.take(n as int) =~= s@);
    out
}

/// The string made of `s[start..end]`.
pub fn text_of_range(s: &Vec<char>, start: usize, end: usize) -> (r: String)
    requires
        start <= end <= s.len(),
    ensures
        r@ == s@.subrange(start as int, end as int),
{
    let mut out = String::new();
    let mut i: usize = start;
    while i < end
        invariant
            start <= i <= end <= s.len(),
            out@ == s@.subrange(start as int, i as int),
        decreases end - i,
    {
        push_char(&mut out, s[i]);
        i = i + 1;
        assert(out@ =~= s@.subrange(start as int, i as int));
    }
    out
}

/// Reads `s` the way the standard library reads a `u32`: an optional plus
/// sign, then digits whose value fits in 32 bits.
pub fn parse_u32_text(s: &str) -> (r: Option<u32>)
    ensures
        r == (match parse_unsigned_text(s@) {
            Some(n) => if n <= u32::MAX {
                Some(n as u32)
            } else {
                None::<u32>
            },
            None => None::<u32>,
        }),
{
    let cs = chars_of(s);
    let start: usize = if cs.len() > 0 && cs[0] == '+' {
        1
    } else {
        0
    };
    assert(cs@.subrange(start as int, cs@.len() as int) =~= if start == 1 {
        s@.drop_first()
    } else {
        s@
    });
    match parse_nat_range(&cs, start, cs.len()) {
        Some(n) => {
            if n <= 4_294_967_295u64 {
                Some(n as u32)
            } else {
                None
            }
        },
        None => None,
    }
}

/// Reads `s` the way the standard library reads a `u64`: an optional plus
/// sign, then digits whose value fits in 64 bits.
pub fn parse_u64_text(s: &str) -> (r: Option<u64>)
    ensures
        r == (match parse_unsigned_text(s@) {
            Some(n) => if n <= u64::MAX {
                Some(n as u64)
            } else {
                None::<u64>
            },
            None => None::<u64>,
        }),
{
    let cs = chars_of(s);
    let start: usize = if cs.len() > 0 && cs[0] == '+' {
        1
    } else {
        0
    };
    assert(cs@.subrange(start as int, cs@.len() as int) =~= if start == 1 {
        s@.drop_first()
    } else {
        s@
    });
    parse_nat_range(&cs, start, cs.len())
}

} // verus!
