use vstd::prelude::*;

verus! {

use crate::textutil::push_char;

/// Price parsing failure: the text is not a well-formed decimal amount.
#[derive(Clone, Copy, Debug, PartialEq, Eq, Structural)]
pub enum MoneyError {
    InvalidFormat,
}

/// `c` is a decimal digit.
pub open spec fn is_digit_char(c: char) -> bool {
    48 <= c as u32 <= 57
}

/// The numeric value of a digit character.
pub open spec fn digit_val(c: char) -> int {
    c as u32 - 48
}

/// The digit character for a value below ten.
pub open spec fn digit_char(d: int) -> char {
    if d == 0 {
        '0'
    } else if d == 1 {
        '1'
    } else if d == 2 {
        '2'
    } else if d == 3 {
        '3'
    } else if d == 4 {
        '4'
    } else if d == 5 {
        '5'
    } else if d == 6 {
        '6'
    } else if d == 7 {
        '7'
    } else if d == 8 {
        '8'
    } else {
        '9'
    }
}

/// Every character of `s` is a decimal digit.
pub open spec fn all_digits(s: Seq<char>) -> bool {
    forall|i: int| 0 <= i < s.len() ==> is_digit_char(#[trigger] s[i])
}

/// The value of a digit string read in base ten.
pub open spec fn digits_val(s: Seq<char>) -> int
    decreases s.len(),
{
    if s.len() == 0 {
        0
    } else {
        digits_val(s.drop_last()) * 10 + digit_val(s.last())
    }
}

/// The decimal digits of a non-negative number, most significant first.
pub open spec fn dec_digits(n: int) -> Seq<char>
    decreases n,
{
    if n < 10 {
        seq![digit_char(n)]
    } else {
        dec_digits(n / 10).push(digit_char(n % 10))
    }
}

/// Index of the first occurrence of `c` in `s`, or -1 when absent.
pub open spec fn first_occ(s: Seq<char>, c: char) -> int
    decreases s.len(),
{
    if s.len() == 0 {
        -1
    } else if s[0] == c {
        0
    } else if first_occ(s.drop_first(), c) < 0 {
        -1
    } else {
        first_occ(s.drop_first(), c) + 1
    }
}

/// How many times `c` occurs in `s`.
pub open spec fn count_occ(s: Seq<char>, c: char) -> int
    decreases s.len(),
{
    if s.len() == 0 {
        0
    } else {
        count_occ(s.drop_last(), c) + if s.last() == c {
            1int
        } else {
            0int
        }
    }
}

/// `s` with every `.` removed.
pub open spec fn strip_dots(s: Seq<char>) -> Seq<char>
    decreases s.len(),
{
    if s.len() == 0 {
        Seq::empty()
    } else if s.last() == '.' {
        strip_dots(s.drop_last())
    } else {
        strip_dots(s.drop_last()).push(s.last())
    }
}

/// `s` with every `,` replaced by `.`.
pub open spec fn repl_commas(s: Seq<char>) -> Seq<char>
    decreases s.len(),
{
    if s.len() == 0 {
        Seq::empty()
    } else {
        repl_commas(s.drop_last()).push(
            if s.last() == ',' {
                '.'
            } else {
                s.last()
            },
        )
    }
}

/// The cents contributed by the fraction digits: the first two digits,
/// rounded up by one when a third digit of five or more follows.
pub open spec fn frac_cents(fp: Seq<char>) -> int {
    let d0: int = if fp.len() >= 1 {
        digit_val(fp[0])
    } else {
        0
    };
    let d1: int = if fp.len() >= 2 {
        digit_val(fp[1])
    } else {
        0
    };
    let r: int = if fp.len() >= 3 && digit_val(fp[2]) >= 5 {
        1
    } else {
        0
    };
    d0 * 10 + d1 + r
}

/// Parse of a normalized amount, where `.` is the only decimal
/// separator: digits around at most one point, read as cents.
pub open spec fn spec_parse_norm(s: Seq<char>) -> Option<int> {
    let d = first_occ(s, '.');
    if d < 0 {
        if s.len() > 0 && all_digits(s) {
            Some(digits_val(s) * 100)
        } else {
            None
        }
    } else {
        let ip = s.take(d);
        let fp = s.skip(d + 1);
        if all_digits(ip) && all_digits(fp) && ip.len() + fp.len() > 0 {
            Some(digits_val(ip) * 100 + frac_cents(fp))
        } else {
            None
        }
    }
}

/// Parse of a locale-formatted amount. A single comma is the decimal
/// separator and the points before it are grouping marks; without a
/// comma, a point is the decimal separator.
pub open spec fn spec_parse_money(s: Seq<char>) -> Option<int> {
    let nc = count_occ(s, ',');
    if nc == 0 {
        spec_parse_norm(s)
    } else if nc == 1 {
        let ci = first_occ(s, ',');
        spec_parse_norm(strip_dots(s.take(ci)) + seq!['.'] + s.skip(ci + 1))
    } else {
        None
    }
}

/// Parse of a wire-format amount: every comma becomes a point first.
pub open spec fn spec_parse_wire(s: Seq<char>) -> Option<int> {
    spec_parse_norm(repl_commas(s))
}

/// The two fraction digits of a cents remainder below one hundred.
pub open spec fn two_frac(f: int) -> Seq<char> {
    seq![digit_char(f / 10), digit_char(f % 10)]
}

/// The wire rendering of a cents amount: integer digits, a comma,
/// and exactly two fraction digits, with no grouping.
pub open spec fn wire_fmt(c: int) -> Seq<char> {
    dec_digits(c / 100) + seq![','] + two_frac(c % 100)
}

/// Digits grouped in threes from the right with `.` marks.
pub open spec fn group3(s: Seq<char>) -> Seq<char>
    decreases s.len(),
{
    if s.len() <= 3 {
        s
    } else {
        group3(s.take(s.len() - 3)) + seq!['.'] + s.skip(s.len() - 3)
    }
}

/// The display rendering of a cents amount: grouped integer digits,
/// a comma, and exactly two fraction digits.
pub open spec fn display_fmt(c: int) -> Seq<char> {
    group3(dec_digits(c / 100)) + seq![','] + two_frac(c % 100)
}

/// Whether `c` is a decimal digit.
pub fn is_digit(c: char) -> (r: bool)
    ensures
        r == is_digit_char(c),
{
    48 <= c as u32 && c as u32 <= 57
}

/// The numeric value of a digit character.
pub fn digit_value(c: char) -> (r: u8)
    requires
        is_digit_char(c),
    ensures
        r == digit_val(c),
{
    (c as u32 - 48) as u8
}

/// The digit character of a value below ten.
pub fn digit_to_char(d: u8) -> (r: char)
    requires
        d < 10,
    ensures
        r == digit_char(d as int),
{
    if d == 0 {
        '0'
    } else if d == 1 {
        '1'
    } else if d == 2 {
        '2'
    } else if d == 3 {
        '3'
    } else if d == 4 {
        '4'
    } else if d == 5 {
        '5'
    } else if d == 6 {
        '6'
    } else if d == 7 {
        '7'
    } else if d == 8 {
        '8'
    } else {
        '9'
    }
}

/// Appends the decimal digits of `n` to `s`.
pub fn push_dec(s: &mut String, n: u64)
    ensures
        final(s)@ == old(s)@ + dec_digits(n as int),
    decreases n,
{
    if n < 10 {
        push_char(s, digit_to_char(n as u8));
        proof {
            assert(old(s)@ + dec_digits(n as int) == old(s)@.push(digit_char(n as int)));
        }
    } else {
        push_dec(s, n / 10);
        push_char(s, digit_to_char((n % 10) as u8));
        proof {
            assert(dec_digits(n as int) == dec_digits(n as int / 10).push(
                digit_char(n as int % 10),
            ));
            assert(old(s)@ + dec_digits(n as int) == (old(s)@ + dec_digits(n as int / 10)).push(
                digit_char(n as int % 10),
            ));
        }
    }
}

proof fn lemma_first_occ_at(s: Seq<char>, c: char, k: int)
    requires
        0 <= k <= s.len(),
        forall|i: int| 0 <= i < k ==> s[i] != c,
        k == s.len() || s[k] == c,
    ensures
        k == s.len() ==> first_occ(s, c) == -1,
        k < s.len() ==> first_occ(s, c) == k,
    decreases k,
{
    if k == 0 {
        if s.len() > 0 && s[0] != c {
            lemma_first_occ_at(s.drop_first(), c, 0);
        }
    } else {
        let t = s.drop_first();
        lemma_first_occ_at(t, c, k - 1);
    }
}

proof fn lemma_count_occ_zero(s: Seq<char>, c: char)
    requires
        forall|i: int| 0 <= i < s.len() ==> s[i] != c,
    ensures
        count_occ(s, c) == 0,
    decreases s.len(),
{
    if s.len() > 0 {
        lemma_count_occ_zero(s.drop_last(), c);
    }
}

/// Finds the first occurrence of `c` in `s`.
fn find_first(s: &str, c: char) -> (r: Option<usize>)
    ensures
        match r {
            Some(i) => first_occ(s@, c) == i && i < s@.len(),
            None => first_occ(s@, c) == -1,
        },
{
    let n = s.unicode_len();
    let mut i: usize = 0;
    while i < n && s.get_char(i) != c
        invariant
            n == s@.len(),
            0 <= i <= n,
            forall|j: int| 0 <= j < i ==> s@[j] != c,
        decreases n - i,
    {
        i = i + 1;
    }
    proof {
        lemma_first_occ_at(s@, c, i as int);
    }
    if i < n {
        Some(i)
    } else {
        None
    }
}

/// Counts how often `c` occurs in `s`.
fn count_char(s: &str, c: char) -> (r: usize)
    ensures
        r == count_occ(s@, c),
{
    let n = s.unicode_len();
    let mut i: usize = 0;
    let mut cnt: usize = 0;
    while i < n
        invariant
            n == s@.len(),
            0 <= i <= n,
            cnt == count_occ(s@.take(i as int), c),
            cnt <= i,
        decreases n - i,
    {
        proof {
            assert(s@.take(i as int + 1).drop_last() == s@.take(i as int));
            assert(s@.take(i as int + 1).last() == s@[i as int]);
        }
        if s.get_char(i) == c {
            cnt = cnt + 1;
        }
        i = i + 1;
    }
    proof {
        assert(s@.take(n as int) == s@);
    }
    cnt
}

/// Every character of `s` in `[from, to)` is a digit.
fn all_digits_range(s: &str, from: usize, to: usize) -> (r: bool)
    requires
        from <= to <= s@.len(),
    ensures
        r == all_digits(s@.subrange(from as int, to as int)),
{
    let mut i: usize = from;
    let mut ok: bool = true;
    while i < to
        invariant
            from <= i <= to <= s@.len(),
            ok == forall|j: int| from <= j < i ==> is_digit_char(#[trigger] s@[j]),
        decreases to - i,
    {
        if !is_digit(s.get_char(i)) {
            ok = false;
        }
        i = i + 1;
    }
    proof {
        let sub = s@.subrange(from as int, to as int);
        assert(forall|j: int|
            0 <= j < sub.len() ==> #[trigger] sub[j] == s@[from + j]);
        if ok {
            assert(all_digits(sub));
        } else {
            let j = choose|j: int| from <= j < to && !is_digit_char(#[trigger] s@[j]);
            assert(sub[j - from] == s@[j]);
            assert(!all_digits(sub));
        }
    }
    ok
}

proof fn lemma_digits_val_nonneg(s: Seq<char>)
    requires
        all_digits(s),
    ensures
        digits_val(s) >= 0,
    decreases s.len(),
{
    if s.len() > 0 {
        assert(all_digits(s.drop_last())) by {
            assert(forall|i: int|
                0 <= i < s.len() - 1 ==> #[trigger] s.drop_last()[i] == s[i]);
        }
        lemma_digits_val_nonneg(s.drop_last());
        assert(is_digit_char(s.last()));
        assert(digits_val(s.drop_last()) * 10 >= 0) by (nonlinear_arith)
            requires
                digits_val(s.drop_last()) >= 0,
        ;
    }
}

/// The base-ten value of the digits in `[from, to)`, or `None` when
/// it does not fit in a `u64`.
fn digits_value_range(s: &str, from: usize, to: usize) -> (r: Option<u64>)
    requires
        from <= to <= s@.len(),
        all_digits(s@.subrange(from as int, to as int)),
    ensures
        match r {
            Some(v) => v == digits_val(s@.subrange(from as int, to as int)),
            None => digits_val(s@.subrange(from as int, to as int)) > u64::MAX,
        },
{
    let ghost whole = s@.subrange(from as int, to as int);
    let mut i: usize = from;
    let mut acc: u64 = 0;
    let mut over: bool = false;
    while i < to
        invariant
            from <= i <= to <= s@.len(),
            all_digits(whole),
            whole == s@.subrange(from as int, to as int),
            !over ==> acc == digits_val(s@.subrange(from as int, i as int)),
            over ==> digits_val(s@.subrange(from as int, i as int)) > u64::MAX,
        decreases to - i,
    {
        let ghost pre = s@.subrange(from as int, i as int);
        let ghost post = s@.subrange(from as int, i as int + 1);
        proof {
            assert(post.drop_last() == pre);
            assert(post.last() == s@[i as int]);
            assert(whole[i - from] == s@[i as int]);
            assert(is_digit_char(s@[i as int]));
            assert(all_digits(pre)) by {
                assert(forall|j: int|
                    0 <= j < pre.len() ==> #[trigger] pre[j] == whole[j]);
            }
        }
        let c = s.get_char(i);
        let d = digit_value(c);
        if over {
            proof {
                lemma_digits_val_nonneg(pre);
                assert(digits_val(post) == digits_val(pre) * 10 + digit_val(s@[i as int]));
                assert(digits_val(pre) * 10 >= digits_val(pre)) by (nonlinear_arith)
                    requires
                        digits_val(pre) >= 0,
                ;
            }
        } else {
            match acc.checked_mul(10) {
                Some(t) => {
                    match t.checked_add(d as u64) {
                        Some(v) => {
                            acc = v;
                        },
                        None => {
                            over = true;
                        },
                    }
                },
                None => {
                    over = true;
                    proof {
                        assert(digits_val(post) == digits_val(pre) * 10 + digit_val(s@[i as int]));
                        assert(digit_val(s@[i as int]) >= 0);
                    }
                },
            }
            proof {
                assert(digits_val(post) == digits_val(pre) * 10 + digit_val(s@[i as int]));
            }
        }
        i = i + 1;
    }
    proof {
        assert(s@.subrange(from as int, to as int) == whole);
    }
    if over {
        None
    } else {
        Some(acc)
    }
}

/// The cents value of the fraction digits in `[from, to)`.
fn frac_value_range(s: &str, from: usize, to: usize) -> (r: u64)
    requires
        from <= to <= s@.len(),
        all_digits(s@.subrange(from as int, to as int)),
    ensures
        r == frac_cents(s@.subrange(from as int, to as int)),
        r <= 100,
{
    let ghost fp = s@.subrange(from as int, to as int);
    let len = to - from;
    let d0: u64 = if len >= 1 {
        proof {
            assert(fp[0] == s@[from as int]);
        }
        digit_value(s.get_char(from)) as u64
    } else {
        0
    };
    let d1: u64 = if len >= 2 {
        proof {
            assert(fp[1] == s@[from as int + 1]);
        }
        digit_value(s.get_char(from + 1)) as u64
    } else {
        0
    };
    let r: u64 = if len >= 3 {
        proof {
            assert(fp[2] == s@[from as int + 2]);
        }
        if digit_value(s.get_char(from + 2)) >= 5 {
            1
        } else {
            0
        }
    } else {
        0
    };
    d0 * 10 + d1 + r
}

/// Parses a normalized amount (only `.` as decimal separator) into
/// cents, as `spec_parse_norm` says; amounts beyond `u64` are refused.
pub fn parse_norm(s: &str) -> (r: Option<u64>)
    ensures
        (match spec_parse_norm(s@) {
            Some(v) => if v <= u64::MAX {
                r == Some(v as u64)
            } else {
                r is None
            },
            None => r is None,
        }),
{
    let n = s.unicode_len();
    match find_first(s, '.') {
        None => {
            if n == 0 {
                return None;
            }
            proof {
                assert(s@.subrange(0, n as int) == s@);
            }
            if !all_digits_range(s, 0, n) {
                return None;
            }
            proof {
                lemma_digits_val_nonneg(s@);
            }
            match digits_value_range(s, 0, n) {
                None => {
                    proof {
                        assert(digits_val(s@) * 100 >= digits_val(s@)) by (nonlinear_arith)
                            requires
                                digits_val(s@) >= 0,
                        ;
                    }
                    None
                },
                Some(iv) => {
                    match iv.checked_mul(100) {
                        None => None,
                        Some(v) => Some(v),
                    }
                },
            }
        },
        Some(di) => {
            let ghost ip = s@.take(di as int);
            let ghost fp = s@.skip(di as int + 1);
            proof {
                assert(s@.subrange(0, di as int) == ip);
                assert(s@.subrange(di as int + 1, n as int) == fp);
            }
            if !all_digits_range(s, 0, di) {
                return None;
            }
            if !all_digits_range(s, di + 1, n) {
                return None;
            }
            if di == 0 && di + 1 == n {
                return None;
            }
            let fc = frac_value_range(s, di + 1, n);
            proof {
                lemma_digits_val_nonneg(ip);
            }
            match digits_value_range(s, 0, di) {
                None => {
                    proof {
                        assert(digits_val(ip) * 100 >= digits_val(ip)) by (nonlinear_arith)
                            requires
                                digits_val(ip) >= 0,
                        ;
                        assert(frac_cents(fp) >= 0);
                    }
                    None
                },
                Some(iv) => {
                    match iv.checked_mul(100) {
                        None => {
                            proof {
                                assert(frac_cents(fp) >= 0);
                            }
                            None
                        },
                        Some(t) => {
                            match t.checked_add(fc) {
                                None => None,
                                Some(v) => Some(v),
                            }
                        },
                    }
                },
            }
        },
    }
}

proof fn lemma_first_occ_neg(s: Seq<char>, c: char)
    requires
        first_occ(s, c) < 0,
    ensures
        forall|i: int| 0 <= i < s.len() ==> s[i] != c,
    decreases s.len(),
{
    if s.len() > 0 {
        assert(s[0] != c);
        assert(first_occ(s.drop_first(), c) < 0);
        lemma_first_occ_neg(s.drop_first(), c);
        assert forall|i: int| 0 <= i < s.len() implies s[i] != c by {
            if i >= 1 {
                assert(s.drop_first()[i - 1] != c);
                assert(s[i] == s.drop_first()[i - 1]);
            }
        }
    }
}

/// Parses a locale-formatted price into cents, as `spec_parse_money`
/// says; empty, malformed, and over-large amounts are refused.
pub fn parse_price(s: &str) -> (r: Result<u64, MoneyError>)
    ensures
        (match spec_parse_money(s@) {
            Some(v) => if v <= u64::MAX {
                r == Ok::<u64, MoneyError>(v as u64)
            } else {
                r == Err::<u64, MoneyError>(MoneyError::InvalidFormat)
            },
            None => r == Err::<u64, MoneyError>(MoneyError::InvalidFormat),
        }),
{
    let n = s.unicode_len();
    let nc = count_char(s, ',');
    if nc == 0 {
        match parse_norm(s) {
            Some(v) => Ok(v),
            None => Err(MoneyError::InvalidFormat),
        }
    } else if nc == 1 {
        match find_first(s, ',') {
            None => {
                proof {
                    lemma_first_occ_neg(s@, ',');
                    lemma_count_occ_zero(s@, ',');
                }
                Err(MoneyError::InvalidFormat)
            },
            Some(ci) => {
                let mut norm = String::new();
                let mut i: usize = 0;
                while i < ci
                    invariant
                        0 <= i <= ci < n,
                        n == s@.len(),
                        norm@ == strip_dots(s@.take(i as int)),
                    decreases ci - i,
                {
                    proof {
                        assert(s@.take(i as int + 1).drop_last() == s@.take(i as int));
                        assert(s@.take(i as int + 1).last() == s@[i as int]);
                    }
                    let c = s.get_char(i);
                    if c != '.' {
                        push_char(&mut norm, c);
                    }
                    i = i + 1;
                }
                push_char(&mut norm, '.');
                let ghost head = strip_dots(s@.take(ci as int)) + seq!['.'];
                proof {
                    assert(norm@ == head);
                }
                let mut j: usize = ci + 1;
                while j < n
                    invariant
                        ci + 1 <= j <= n,
                        n == s@.len(),
                        norm@ == head + s@.subrange(ci as int + 1, j as int),
                    decreases n - j,
                {
                    let c = s.get_char(j);
                    push_char(&mut norm, c);
                    proof {
                        assert(s@.subrange(ci as int + 1, j as int + 1)
                            == s@.subrange(ci as int + 1, j as int).push(s@[j as int]));
                        assert(norm@ == head + s@.subrange(ci as int + 1, j as int + 1));
                    }
                    j = j + 1;
                }
                proof {
                    assert(s@.subrange(ci as int + 1, n as int) == s@.skip(ci as int + 1));
                    assert(norm@ == strip_dots(s@.take(ci as int)) + seq!['.'] + s@.skip(
                        ci as int + 1,
                    ));
                }
                match parse_norm(norm.as_str()) {
                    Some(v) => Ok(v),
                    None => Err(MoneyError::InvalidFormat),
                }
            },
        }
    } else {
        Err(MoneyError::InvalidFormat)
    }
}

/// Parses a wire-format price into cents, as `spec_parse_wire` says:
/// commas become points, then the text is read as a plain decimal.
pub fn parse_wire(s: &str) -> (r: Option<u64>)
    ensures
        (match spec_parse_wire(s@) {
            Some(v) => if v <= u64::MAX {
                r == Some(v as u64)
            } else {
                r is None
            },
            None => r is None,
        }),
{
    let n = s.unicode_len();
    let mut norm = String::new();
    let mut i: usize = 0;
    while i < n
        invariant
            0 <= i <= n,
            n == s@.len(),
            norm@ == repl_commas(s@.take(i as int)),
        decreases n - i,
    {
        proof {
            assert(s@.take(i as int + 1).drop_last() == s@.take(i as int));
            assert(s@.take(i as int + 1).last() == s@[i as int]);
        }
        let c = s.get_char(i);
        if c == ',' {
            push_char(&mut norm, '.');
        } else {
            push_char(&mut norm, c);
        }
        i = i + 1;
    }
    proof {
        assert(s@.take(n as int) == s@);
    }
    parse_norm(norm.as_str())
}

/// Relies on `num_format::ToFormattedString::to_formatted_string` with
/// `Locale::de`: renders the decimal digits of `n` grouped in threes
/// from the right, separated by `.` (standard grouping, `.` separator).
#[verifier::external_body]
fn group_de(n: u64) -> (r: String)
    ensures
        r@ == group3(dec_digits(n as int)),
{
    num_format::ToFormattedString::to_formatted_string(&n, &num_format::Locale::de)
}

/// Renders cents for display: grouped integer part, comma, two
/// fraction digits, as `display_fmt` says.
pub fn format_money(cents: u64) -> (r: String)
    ensures
        r@ == display_fmt(cents as int),
{
    let mut s = group_de(cents / 100);
    push_char(&mut s, ',');
    let f = cents % 100;
    push_char(&mut s, digit_to_char((f / 10) as u8));
    push_char(&mut s, digit_to_char((f % 10) as u8));
    proof {
        assert(f as int == cents as int % 100);
        assert(cents as int / 100 == (cents / 100) as int);
        assert(s@ =~= display_fmt(cents as int));
    }
    s
}

/// Renders cents for the CSV wire format: plain integer digits, comma,
/// two fraction digits, no grouping, as `wire_fmt` says.
pub fn format_money_wire(cents: u64) -> (r: String)
    ensures
        r@ == wire_fmt(cents as int),
{
    let mut s = String::new();
    push_dec(&mut s, cents / 100);
    push_char(&mut s, ',');
    let f = cents % 100;
    push_char(&mut s, digit_to_char((f / 10) as u8));
    push_char(&mut s, digit_to_char((f % 10) as u8));
    proof {
        assert(f as int == cents as int % 100);
        assert(cents as int / 100 == (cents / 100) as int);
        assert(s@ =~= wire_fmt(cents as int));
    }
    s
}

/// A digit below ten reads back as itself.
proof fn lemma_digit_roundtrip(d: int)
    requires
        0 <= d < 10,
    ensures
        digit_val(digit_char(d)) == d,
        is_digit_char(digit_char(d)),
{
}

/// The decimal rendering of a non-negative number is all digits and
/// never empty.
proof fn lemma_dec_digits_are_digits(n: int)
    requires
        n >= 0,
    ensures
        all_digits(dec_digits(n)),
        dec_digits(n).len() >= 1,
    decreases n,
{
    if n < 10 {
        lemma_digit_roundtrip(n);
    } else {
        lemma_dec_digits_are_digits(n / 10);
        lemma_digit_roundtrip(n % 10);
        let p = dec_digits(n / 10);
        assert(forall|i: int|
            0 <= i < p.len() ==> #[trigger] dec_digits(n)[i] == p[i]);
        assert(dec_digits(n).last() == digit_char(n % 10));
    }
}

/// The decimal rendering of a non-negative number reads back as the
/// number itself.
proof fn lemma_digits_val_dec(n: int)
    requires
        n >= 0,
    ensures
        digits_val(dec_digits(n)) == n,
    decreases n,
{
    if n < 10 {
        lemma_digit_roundtrip(n);
        let s0 = dec_digits(n);
        assert(s0 == seq![digit_char(n)]);
        assert(s0.len() == 1);
        assert(s0.last() == digit_char(n));
        assert(s0.drop_last() =~= Seq::<char>::empty());
        assert(digits_val(s0.drop_last()) == 0);
        assert(digits_val(s0) == digits_val(s0.drop_last()) * 10 + digit_val(s0.last()));
    } else {
        lemma_digits_val_dec(n / 10);
        lemma_digit_roundtrip(n % 10);
        assert(dec_digits(n).drop_last() =~= dec_digits(n / 10));
        assert(dec_digits(n).last() == digit_char(n % 10));
        assert(n / 10 * 10 + n % 10 == n) by (nonlinear_arith);
    }
}

/// A parsed amount is never negative.
proof fn lemma_parse_norm_nonneg(s: Seq<char>)
    ensures
        (spec_parse_norm(s) matches Some(v) ==> v >= 0),
{
    let d = first_occ(s, '.');
    if d < 0 {
        if s.len() > 0 && all_digits(s) {
            lemma_digits_val_nonneg(s);
            assert(digits_val(s) * 100 >= 0) by (nonlinear_arith)
                requires
                    digits_val(s) >= 0,
            ;
        }
    } else {
        let ip = s.take(d);
        let fp = s.skip(d + 1);
        if all_digits(ip) && all_digits(fp) && ip.len() + fp.len() > 0 {
            lemma_digits_val_nonneg(ip);
            assert(digits_val(ip) * 100 >= 0) by (nonlinear_arith)
                requires
                    digits_val(ip) >= 0,
            ;
            assert(frac_cents(fp) >= 0);
        }
    }
}

/// A wire-parsed amount is never negative.
pub proof fn lemma_parse_wire_nonneg(s: Seq<char>)
    ensures
        (spec_parse_wire(s) matches Some(v) ==> v >= 0),
{
    lemma_parse_norm_nonneg(repl_commas(s));
}

proof fn lemma_repl_pointwise(s: Seq<char>)
    ensures
        repl_commas(s).len() == s.len(),
        forall|i: int|
            0 <= i < s.len() ==> #[trigger] repl_commas(s)[i] == (if s[i] == ',' {
                '.'
            } else {
                s[i]
            }),
    decreases s.len(),
{
    if s.len() > 0 {
        lemma_repl_pointwise(s.drop_last());
        assert(forall|i: int|
            0 <= i < s.len() - 1 ==> #[trigger] s.drop_last()[i] == s[i]);
    }
}

/// A wire rendering holds digits and one comma only.
pub proof fn lemma_wire_fmt_chars(c: int)
    requires
        c >= 0,
    ensures
        wire_fmt(c).len() >= 4,
        forall|i: int|
            0 <= i < wire_fmt(c).len() ==> (is_digit_char(#[trigger] wire_fmt(c)[i]) || wire_fmt(
                c,
            )[i] == ','),
{
    let w = wire_fmt(c);
    let a = dec_digits(c / 100);
    lemma_dec_digits_are_digits(c / 100);
    lemma_digit_roundtrip(c % 100 / 10);
    lemma_digit_roundtrip(c % 100 % 10);
    assert(forall|i: int| 0 <= i < a.len() ==> w[i] == a[i]);
    assert(w[a.len() as int] == ',');
    assert(w[a.len() as int + 1] == digit_char(c % 100 / 10));
    assert(w[a.len() as int + 2] == digit_char(c % 100 % 10));
}

/// Formatting cents for the wire and parsing the text back yields the
/// same cents: the codec round-trips on every amount.
pub proof fn lemma_wire_roundtrip(c: u64)
    ensures
        spec_parse_wire(wire_fmt(c as int)) == Some(c as int),
{
    let w = wire_fmt(c as int);
    let a = dec_digits(c as int / 100);
    let f = c as int % 100;
    let tf = two_frac(f);
    lemma_dec_digits_are_digits(c as int / 100);
    lemma_digits_val_dec(c as int / 100);
    lemma_digit_roundtrip(f / 10);
    lemma_digit_roundtrip(f % 10);
    lemma_repl_pointwise(w);
    let r = repl_commas(w);
    // digits carry a code point below that of the comma, so only the
    // separator is rewritten
    assert(forall|i: int| 0 <= i < a.len() ==> w[i] == a[i]);
    assert(r =~= a + seq!['.'] + tf);
    lemma_first_occ_at(r, '.', a.len() as int);
    assert(first_occ(r, '.') == a.len());
    assert(r.take(a.len() as int) =~= a);
    assert(r.skip(a.len() as int + 1) =~= tf);
    assert(frac_cents(tf) == f);
    assert(digits_val(a) * 100 + f == c) by {
        assert(digits_val(a) == c as int / 100);
        assert(c as int / 100 * 100 + c as int % 100 == c as int);
    }
}

} // verus!
