use vstd::prelude::*;

verus! {

/// ASCII whitespace: space, tab, line feed, vertical tab, form feed,
/// carriage return.  The profiler's report is plain ASCII text, so this is
/// the whitespace that delimits its tokens.
pub open spec fn is_ws(b: u8) -> bool {
    b == 32 || b == 9 || b == 10 || b == 11 || b == 12 || b == 13
}

/// An ASCII decimal digit.
pub open spec fn is_digit(b: u8) -> bool {
    48 <= b <= 57
}

/// The position of the line feed that ends the line holding position `p`,
/// or the end of the text if none follows.
pub open spec fn line_end(s: Seq<u8>, p: int) -> int
    decreases s.len() - p,
{
    if p < 0 || p >= s.len() {
        s.len() as int
    } else if s[p] == 10u8 {
        p
    } else {
        line_end(s, p + 1)
    }
}

proof fn lemma_line_end_bounds(s: Seq<u8>, p: int)
    requires
        0 <= p <= s.len(),
    ensures
        p <= line_end(s, p) <= s.len(),
    decreases s.len() - p,
{
    if p < s.len() && s[p] != 10u8 {
        lemma_line_end_bounds(s, p + 1);
    }
}

/// The starting position of the `n`-th line at or after position `p`,
/// counting lines from zero and splitting them at line feeds; `None` when
/// the text ends before that line begins, so that a report of fewer lines
/// has no such line at all.
pub open spec fn line_start(s: Seq<u8>, p: int, n: int) -> Option<int>
    decreases n,
    when 0 <= n
{
    if p < 0 || p >= s.len() {
        None
    } else if n == 0 {
        Some(p)
    } else {
        line_start(s, line_end(s, p) + 1, n - 1)
    }
}

/// The first non-whitespace position in `[i, e)`, or `e` if all of it is
/// whitespace.
pub open spec fn skip_ws(s: Seq<u8>, i: int, e: int) -> int
    decreases e - i,
{
    if i < 0 || i >= e {
        e
    } else if is_ws(s[i]) {
        skip_ws(s, i + 1, e)
    } else {
        i
    }
}

/// The first whitespace position in `[i, e)`, or `e` if none.
pub open spec fn token_end(s: Seq<u8>, i: int, e: int) -> int
    decreases e - i,
{
    if i < 0 || i >= e {
        e
    } else if is_ws(s[i]) {
        i
    } else {
        token_end(s, i + 1, e)
    }
}

/// The index of the report line that carries the instruction count.
pub open spec fn count_line() -> int {
    5
}

/// The first whitespace-delimited token of the report's count line, or
/// `None` when the report has no such line or the line holds no token.
pub open spec fn count_token(s: Seq<u8>) -> Option<Seq<u8>> {
    match line_start(s, 0, count_line()) {
        None => None,
        Some(p) => {
            let e = line_end(s, p);
            let a = skip_ws(s, p, e);
            if a >= e {
                None
            } else {
                Some(s.subrange(a, token_end(s, a, e)))
            }
        },
    }
}

/// The token with its grouping commas removed.
pub open spec fn strip_commas(t: Seq<u8>) -> Seq<u8>
    decreases t.len(),
{
    if t.len() == 0 {
        seq![]
    } else if t.last() == 44u8 {
        strip_commas(t.drop_last())
    } else {
        strip_commas(t.drop_last()) + seq![t.last()]
    }
}

/// Every byte of `t` is a decimal digit.
pub open spec fn all_digits(t: Seq<u8>) -> bool {
    forall|i: int| 0 <= i < t.len() ==> is_digit(#[trigger] t[i])
}

/// The decimal value spelled by a digit string.
pub open spec fn digits_value(t: Seq<u8>) -> int
    decreases t.len(),
{
    if t.len() == 0 {
        0
    } else {
        digits_value(t.drop_last()) * 10 + (t.last() - 48u8)
    }
}

/// The count a token parses to: its comma-stripped bytes read as a decimal
/// integer, provided they are nonempty, all digits, and fit the counter's
/// width.
pub open spec fn token_value(t: Seq<u8>) -> Option<u64> {
    let d = strip_commas(t);
    if d.len() > 0 && all_digits(d) && digits_value(d) <= u64::MAX as int {
        Some(digits_value(d) as u64)
    } else {
        None
    }
}

/// The instruction count a profiler report holds: the value of the first
/// whitespace-delimited, comma-grouped token of its count line.
pub open spec fn report_count(s: Seq<u8>) -> Option<u64> {
    match count_token(s) {
        None => None,
        Some(t) => token_value(t),
    }
}

proof fn lemma_digits_value_nonneg(t: Seq<u8>)
    requires
        all_digits(t),
    ensures
        digits_value(t) >= 0,
    decreases t.len(),
{
    if t.len() > 0 {
        assert(all_digits(t.drop_last())) by {
            assert(forall|i: int| 0 <= i < t.len() - 1 ==> t.drop_last()[i] == #[trigger] t[i]);
        }
        lemma_digits_value_nonneg(t.drop_last());
    }
}

/// A digit string's value only grows as more digits follow: the value of a
/// prefix never exceeds the value of the whole.
proof fn lemma_digits_value_take_le(t: Seq<u8>, k: int)
    requires
        all_digits(t),
        0 <= k <= t.len(),
    ensures
        digits_value(t.take(k)) <= digits_value(t),
    decreases t.len() - k,
{
    if k == t.len() {
        assert(t.take(k) =~= t);
    } else {
        lemma_digits_value_take_le(t, k + 1);
        let pre = t.take(k + 1);
        assert(pre.drop_last() =~= t.take(k));
        assert(pre.last() == t[k]);
        assert(all_digits(t.take(k))) by {
            assert(forall|i: int| 0 <= i < k ==> t.take(k)[i] == #[trigger] t[i]);
        }
        lemma_digits_value_nonneg(t.take(k));
        assert(digits_value(pre) == digits_value(t.take(k)) * 10 + (t[k] - 48u8));
    }
}

fn is_ws_byte(b: u8) -> (r: bool)
    ensures
        r == is_ws(b),
{
    b == 32 || b == 9 || b == 10 || b == 11 || b == 12 || b == 13
}

/// Find the end of the line holding position `from`.
fn find_line_end(s: &[u8], from: usize) -> (r: usize)
    requires
        from <= s@.len(),
    ensures
        r as int == line_end(s@, from as int),
        from <= r <= s@.len(),
{
    let mut j: usize = from;
    while j < s.len() && s[j] != 10u8
        invariant
            from <= j <= s@.len(),
            line_end(s@, from as int) == line_end(s@, j as int),
        decreases s@.len() - j,
    {
        j = j + 1;
    }
    j
}

/// Parse a profiler report: read the first whitespace-delimited token of its
/// count line as a comma-grouped decimal instruction count.  `None` means
/// the report does not carry a count in that shape — a fatal condition for
/// the caller, not a measurement.
pub fn parse_report(report: &[u8]) -> (r: Option<u64>)
    ensures
        r == report_count(report@),
{
    // Locate the start of the count line.
    let mut p: usize = 0;
    let mut n: usize = 0;
    while n < 5
        invariant
            0 <= p <= report@.len(),
            n <= 5,
            line_start(report@, 0, count_line()) == line_start(
                report@,
                p as int,
                count_line() - n as int,
            ),
        decreases 5 - n,
    {
        if p >= report.len() {
            return None;
        }
        let e = find_line_end(report, p);
        if e >= report.len() {
            assert(line_start(report@, e + 1, count_line() - n - 1) is None);
            return None;
        }
        p = e + 1;
        n = n + 1;
    }
    if p >= report.len() {
        return None;
    }
    assert(line_start(report@, 0, count_line()) == Some(p as int));

    // Locate the first token of that line.
    let e = find_line_end(report, p);
    let mut a: usize = p;
    while a < e && is_ws_byte(report[a])
        invariant
            p <= a <= e <= report@.len(),
            skip_ws(report@, p as int, e as int) == skip_ws(report@, a as int, e as int),
        decreases e - a,
    {
        a = a + 1;
    }
    if a >= e {
        return None;
    }
    let mut b: usize = a;
    while b < e && !is_ws_byte(report[b])
        invariant
            a <= b <= e <= report@.len(),
            token_end(report@, a as int, e as int) == token_end(report@, b as int, e as int),
        decreases e - b,
    {
        b = b + 1;
    }
    let ghost token = report@.subrange(a as int, b as int);
    assert(count_token(report@) == Some(token));

    // Strip the grouping commas.
    let mut d: Vec<u8> = Vec::new();
    let mut i: usize = a;
    assert(report@.subrange(a as int, a as int) =~= Seq::<u8>::empty());
    while i < b
        invariant
            a <= i <= b <= report@.len(),
            d@ == strip_commas(report@.subrange(a as int, i as int)),
        decreases b - i,
    {
        let c = report[i];
        proof {
            let pre = report@.subrange(a as int, i + 1);
            assert(pre.drop_last() =~= report@.subrange(a as int, i as int));
            assert(pre.last() == report@[i as int]);
        }
        if c != 44u8 {
            d.push(c);
        }
        assert(d@ =~= strip_commas(report@.subrange(a as int, i + 1)));
        i = i + 1;
    }
    assert(d@ == strip_commas(token));

    // Read the digits as a decimal value, watching the counter's width.
    if d.len() == 0 {
        return None;
    }
    let mut k: usize = 0;
    while k < d.len()
        invariant
            k <= d@.len(),
            d@ == strip_commas(token),
            count_token(report@) == Some(token),
            forall|x: int| 0 <= x < k ==> is_digit(#[trigger] d@[x]),
        decreases d@.len() - k,
    {
        let c = d[k];
        if c < 48u8 || c > 57u8 {
            assert(!all_digits(d@));
            return None;
        }
        k = k + 1;
    }
    assert(all_digits(d@));
    let mut acc: u64 = 0;
    let mut k: usize = 0;
    assert(d@.take(0) =~= Seq::<u8>::empty());
    while k < d.len()
        invariant
            k <= d@.len(),
            all_digits(d@),
            d@ == strip_commas(token),
            count_token(report@) == Some(token),
            acc as int == digits_value(d@.take(k as int)),
        decreases d@.len() - k,
    {
        let c = d[k];
        assert(is_digit(c));
        let dig = (c - 48u8) as u64;
        proof {
            let pre = d@.take(k + 1);
            assert(pre.drop_last() =~= d@.take(k as int));
            assert(pre.last() == d@[k as int]);
            assert(digits_value(pre) == acc as int * 10 + dig as int);
        }
        if acc > (u64::MAX - dig) / 10 {
            proof {
                assert(acc as int * 10 + dig as int > u64::MAX as int) by (nonlinear_arith)
                    requires
                        acc as int > (u64::MAX - dig) as int / 10,
                        0 <= dig as int <= 9,
                        acc as int >= 0,
                ;
                lemma_digits_value_take_le(d@, k + 1);
            }
            return None;
        }
        proof {
            assert(acc as int * 10 + dig as int <= u64::MAX as int) by (nonlinear_arith)
                requires
                    acc as int <= (u64::MAX - dig) as int / 10,
                    0 <= dig as int <= 9,
                    acc as int >= 0,
            ;
        }
        acc = acc * 10 + dig;
        k = k + 1;
    }
    assert(d@.take(d@.len() as int) =~= d@);
    Some(acc)
}

/// The harness's outcome for one build: a build that exited successfully
/// yields its measured instruction count, and a failed build yields no
/// measurement at all, whatever the profiler wrote.
pub fn measure_outcome(build_succeeded: bool, count: u64) -> (r: Option<u64>)
    ensures
        r == if build_succeeded {
            Some(count)
        } else {
            None::<u64>
        },
{
    if build_succeeded {
        Some(count)
    } else {
        None
    }
}

} // verus!
