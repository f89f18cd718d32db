//! Lexical pieces of the target chart text: splitting on a separator,
//! trimming white space, and reading integers and decimal numbers.
use vstd::prelude::*;

verus! {

/// The pieces of `s` between occurrences of `sep` (one more piece than
/// there are separators).
pub open spec fn split_on(s: Seq<char>, sep: char) -> Seq<Seq<char>>
    decreases s.len(),
{
    if s.len() == 0 {
        seq![seq![]]
    } else {
        let init = split_on(s.drop_last(), sep);
        if s.last() == sep {
            init.push(seq![])
        } else {
            init.update(init.len() - 1, init.last().push(s.last()))
        }
    }
}

pub proof fn lemma_split_on_nonempty(s: Seq<char>, sep: char)
    ensures
        split_on(s, sep).len() >= 1,
    decreases s.len(),
{
    if s.len() > 0 {
        lemma_split_on_nonempty(s.drop_last(), sep);
    }
}

pub open spec fn views(v: Seq<Vec<char>>) -> Seq<Seq<char>> {
    v.map_values(|x: Vec<char>| x@)
}

/// Splits `s` on every `sep`.
pub fn split_chars(s: &Vec<char>, sep: char) -> (r: Vec<Vec<char>>)
    ensures
        views(r@) == split_on(s@, sep),
{
    let mut out: Vec<Vec<char>> = Vec::new();
    let mut cur: Vec<char> = Vec::new();
    let mut i: usize = 0;
    proof {
        assert(s@.take(0) =~= seq![]);
        assert(views(out@).push(cur@) =~= split_on(s@.take(0), sep));
    }
    while i < s.len()
        invariant
            i <= s@.len(),
            views(out@).push(cur@) == split_on(s@.take(i as int), sep),
        decreases s@.len() - i,
    {
        let c = s[i];
        let ghost pre = s@.take(i as int);
        proof {
            assert(s@.take(i as int + 1).drop_last() =~= pre);
            assert(s@.take(i as int + 1).last() == c);
        }
        if c == sep {
            let done = cur;
            out.push(done);
            cur = Vec::new();
            proof {
                assert(views(out@).push(cur@) =~= split_on(pre, sep).push(seq![]));
            }
        } else {
            cur.push(c);
            proof {
                let sp = split_on(pre, sep);
                assert(views(out@).push(cur@) =~= sp.update(sp.len() - 1, sp.last().push(c)));
            }
        }
        i = i + 1;
    }
    proof {
        assert(s@.take(s@.len() as int) =~= s@);
    }
    out.push(cur);
    proof {
        assert(views(out@) =~= split_on(s@, sep));
    }
    out
}

/// White space as `char::is_whitespace` has it (the Unicode `White_Space`
/// characters).
pub open spec fn is_ws(c: char) -> bool {
    let u = c as u32;
    (9 <= u <= 13) || u == 32 || u == 0x85 || u == 0xa0 || u == 0x1680 || (0x2000 <= u <= 0x200a)
        || u == 0x2028 || u == 0x2029 || u == 0x202f || u == 0x205f || u == 0x3000
}

pub open spec fn trim_start(s: Seq<char>) -> Seq<char>
    decreases s.len(),
{
    if s.len() > 0 && is_ws(s[0]) {
        trim_start(s.drop_first())
    } else {
        s
    }
}

pub open spec fn trim_end(s: Seq<char>) -> Seq<char>
    decreases s.len(),
{
    if s.len() > 0 && is_ws(s.last()) {
        trim_end(s.drop_last())
    } else {
        s
    }
}

/// `s` without leading and trailing white space.
pub open spec fn trim(s: Seq<char>) -> Seq<char> {
    trim_end(trim_start(s))
}

fn is_ws_char(c: char) -> (r: bool)
    ensures
        r == is_ws(c),
{
    let u = c as u32;
    (9 <= u && u <= 13) || u == 32 || u == 0x85 || u == 0xa0 || u == 0x1680 || (0x2000 <= u && u
        <= 0x200a) || u == 0x2028 || u == 0x2029 || u == 0x202f || u == 0x205f || u == 0x3000
}

proof fn lemma_trim_start(s: Seq<char>, i: int)
    requires
        0 <= i <= s.len(),
        forall|k: int| 0 <= k < i ==> is_ws(#[trigger] s[k]),
        i == s.len() || !is_ws(s[i]),
    ensures
        trim_start(s) == s.skip(i),
    decreases i,
{
    if i > 0 {
        lemma_trim_start(s.drop_first(), i - 1);
        assert(s.drop_first().skip(i - 1) =~= s.skip(i));
    } else {
        assert(s.skip(0) =~= s);
    }
}

proof fn lemma_trim_end(s: Seq<char>, j: int)
    requires
        0 <= j <= s.len(),
        forall|k: int| j <= k < s.len() ==> is_ws(#[trigger] s[k]),
        j == 0 || !is_ws(s[j - 1]),
    ensures
        trim_end(s) == s.take(j),
    decreases s.len() - j,
{
    if j < s.len() {
        lemma_trim_end(s.drop_last(), j);
        assert(s.drop_last().take(j) =~= s.take(j));
    } else {
        assert(s.take(j) =~= s);
    }
}

/// `s` without leading and trailing white space.
pub fn trim_chars(s: &Vec<char>) -> (r: Vec<char>)
    ensures
        r@ == trim(s@),
{
    let mut i: usize = 0;
    while i < s.len() && is_ws_char(s[i])
        invariant
            i <= s@.len(),
            forall|k: int| 0 <= k < i ==> is_ws(#[trigger] s@[k]),
        decreases s@.len() - i,
    {
        i = i + 1;
    }
    proof {
        lemma_trim_start(s@, i as int);
    }
    let ghost t = s@.skip(i as int);
    let mut j: usize = s.len();
    while j > i && is_ws_char(s[j - 1])
        invariant
            i <= j <= s@.len(),
            forall|k: int| j <= k < s@.len() ==> is_ws(#[trigger] s@[k]),
        decreases j,
    {
        j = j - 1;
    }
    proof {
        assert forall|k: int| j - i <= k < t.len() implies is_ws(#[trigger] t[k]) by {
            assert(t[k] == s@[k + i]);
        }
        if j > i {
            assert(t[j - i - 1] == s@[j - 1]);
        }
        lemma_trim_end(t, j - i);
    }
    let mut out: Vec<char> = Vec::new();
    let mut k: usize = i;
    while k < j
        invariant
            i <= k <= j <= s@.len(),
            out@ == s@.subrange(i as int, k as int),
        decreases j - k,
    {
        out.push(s[k]);
        k = k + 1;
        proof {
            assert(out@ =~= s@.subrange(i as int, k as int));
        }
    }
    proof {
        assert(out@ =~= t.take(j - i));
    }
    out
}

pub open spec fn is_digit(c: char) -> bool {
    48 <= (c as u32) <= 57
}

pub open spec fn all_digits(s: Seq<char>) -> bool {
    forall|i: int| 0 <= i < s.len() ==> is_digit(#[trigger] s[i])
}

/// The value of a string of decimal digits.
pub open spec fn digits_value(s: Seq<char>) -> int
    decreases s.len(),
{
    if s.len() == 0 {
        0
    } else {
        digits_value(s.drop_last()) * 10 + (s.last() as u32 - 48)
    }
}

proof fn lemma_digits_value_grows(s: Seq<char>, i: int)
    requires
        all_digits(s),
        0 <= i <= s.len(),
    ensures
        0 <= digits_value(s.take(i)) <= digits_value(s),
    decreases s.len() - i,
{
    if i < s.len() {
        assert(s.drop_last().take(i) =~= s.take(i));
        lemma_digits_value_grows(s.drop_last(), i);
        assert(is_digit(s.last()));
    } else {
        assert(s.take(i) =~= s);
        lemma_digits_value_nonneg(s);
    }
}

proof fn lemma_digits_value_nonneg(s: Seq<char>)
    requires
        all_digits(s),
    ensures
        digits_value(s) >= 0,
    decreases s.len(),
{
    if s.len() > 0 {
        lemma_digits_value_nonneg(s.drop_last());
        assert(is_digit(s.last()));
    }
}

/// The value of a non-empty string of digits that does not exceed `bound`.
pub open spec fn bounded_digits(s: Seq<char>, bound: int) -> Option<int> {
    if s.len() > 0 && all_digits(s) && digits_value(s) <= bound {
        Some(digits_value(s))
    } else {
        None
    }
}

/// Reads a non-empty run of digits whose value does not exceed `bound`.
pub fn read_digits(s: &Vec<char>, from: usize, to: usize, bound: u128) -> (r: Option<u128>)
    requires
        from <= to <= s@.len(),
        bound < 0x1_0000_0000_0000_0000_0000,
    ensures
        r matches Some(v) ==> bounded_digits(s@.subrange(from as int, to as int), bound as int) == Some(v as int),
        r is None ==> bounded_digits(s@.subrange(from as int, to as int), bound as int) is None,
{
    let ghost t = s@.subrange(from as int, to as int);
    if from == to {
        return None;
    }
    let mut acc: u128 = 0;
    let mut k: usize = from;
    while k < to
        invariant
            from <= k <= to <= s@.len(),
            t == s@.subrange(from as int, to as int),
            all_digits(t.take(k - from)),
            acc as int == digits_value(t.take(k - from)),
            acc <= bound,
            bound < 0x1_0000_0000_0000_0000_0000,
        decreases to - k,
    {
        let c = s[k];
        let u = c as u32;
        proof {
            assert(t[k - from] == c);
            assert(t.take(k - from + 1).drop_last() =~= t.take(k - from));
        }
        if u < 48 || u > 57 {
            proof {
                assert(!all_digits(t));
            }
            return None;
        }
        let next = acc * 10 + (u - 48) as u128;
        if next > bound {
            proof {
                assert(all_digits(t.take(k - from + 1)));
                if all_digits(t) {
                    lemma_digits_value_grows(t, k - from + 1);
                }
            }
            return None;
        }
        acc = next;
        k = k + 1;
    }
    proof {
        assert(t.take(to - from) =~= t);
    }
    Some(acc)
}

/// What `u32::from_str` accepts: an optional `+`, then digits, within range.
pub open spec fn parse_u32(s: Seq<char>) -> Option<int> {
    if s.len() > 0 && s[0] == '+' {
        bounded_digits(s.drop_first(), 0xffff_ffff)
    } else {
        bounded_digits(s, 0xffff_ffff)
    }
}

/// What `i32::from_str` accepts: an optional sign, then digits, within range.
pub open spec fn parse_i32(s: Seq<char>) -> Option<int> {
    if s.len() > 0 && s[0] == '-' {
        match bounded_digits(s.drop_first(), 0x8000_0000) {
            Some(v) => Some(-v),
            None => None,
        }
    } else if s.len() > 0 && s[0] == '+' {
        bounded_digits(s.drop_first(), 0x7fff_ffff)
    } else {
        bounded_digits(s, 0x7fff_ffff)
    }
}

pub fn read_u32(s: &Vec<char>) -> (r: Option<u32>)
    ensures
        r matches Some(v) ==> parse_u32(s@) == Some(v as int),
        r is None ==> parse_u32(s@) is None,
{
    let from: usize = if s.len() > 0 && s[0] == '+' { 1 } else { 0 };
    proof {
        assert(s@.subrange(from as int, s@.len() as int) =~= if from == 1 {
            s@.drop_first()
        } else {
            s@
        });
    }
    match read_digits(s, from, s.len(), 0xffff_ffff) {
        Some(v) => Some(v as u32),
        None => None,
    }
}

pub fn read_i32(s: &Vec<char>) -> (r: Option<i32>)
    ensures
        r matches Some(v) ==> parse_i32(s@) == Some(v as int),
        r is None ==> parse_i32(s@) is None,
{
    if s.len() > 0 && s[0] == '-' {
        proof {
            assert(s@.subrange(1, s@.len() as int) =~= s@.drop_first());
        }
        match read_digits(s, 1, s.len(), 0x8000_0000) {
            Some(v) => Some((0 - v as i64) as i32),
            None => None,
        }
    } else {
        let from: usize = if s.len() > 0 && s[0] == '+' { 1 } else { 0 };
        proof {
            assert(s@.subrange(from as int, s@.len() as int) =~= if from == 1 {
                s@.drop_first()
            } else {
                s@
            });
        }
        match read_digits(s, from, s.len(), 0x7fff_ffff) {
            Some(v) => Some(v as i32),
            None => None,
        }
    }
}

pub open spec fn pow10(k: nat) -> int
    decreases k,
{
    if k == 0 {
        1
    } else {
        10 * pow10((k - 1) as nat)
    }
}

/// Index of the first `c` in `s`, or its length.
pub open spec fn index_of(s: Seq<char>, c: char) -> int
    decreases s.len(),
{
    if s.len() == 0 {
        0
    } else if s[0] == c {
        0
    } else {
        1 + index_of(s.drop_first(), c)
    }
}

pub proof fn lemma_index_of(s: Seq<char>, c: char, i: int)
    requires
        0 <= i <= s.len(),
        forall|k: int| 0 <= k < i ==> s[k] != c,
        i == s.len() || s[i] == c,
    ensures
        index_of(s, c) == i,
    decreases s.len(),
{
    if s.len() > 0 && i > 0 {
        lemma_index_of(s.drop_first(), c, i - 1);
    }
}

/// The largest number of fractional digits read in a decimal number.
pub const MAX_FRACTION_DIGITS: usize = 18;

/// A decimal number `[+|-]digits[.digits]` with at least one digit, as
/// `(numerator, 10^fraction digits)`, when the numerator fits an `i64` and
/// there are at most eighteen fractional digits.
pub open spec fn parse_decimal(s: Seq<char>) -> Option<(int, int)> {
    let neg = s.len() > 0 && s[0] == '-';
    let body = if s.len() > 0 && (s[0] == '-' || s[0] == '+') {
        s.drop_first()
    } else {
        s
    };
    let dot = index_of(body, '.');
    let ip = body.take(dot);
    let fp = if dot < body.len() {
        body.skip(dot + 1)
    } else {
        seq![]
    };
    let mag = digits_value(ip) * pow10(fp.len()) + digits_value(fp);
    if all_digits(ip) && all_digits(fp) && ip.len() + fp.len() > 0 && fp.len()
        <= MAX_FRACTION_DIGITS && mag <= 0x7fff_ffff_ffff_ffff {
        Some(
            (
                if neg {
                    -mag
                } else {
                    mag
                },
                pow10(fp.len()),
            ),
        )
    } else {
        None
    }
}

proof fn lemma_pow10_le(k: nat, n: nat)
    requires
        k <= n,
    ensures
        1 <= pow10(k) <= pow10(n),
    decreases n,
{
    if k < n {
        lemma_pow10_le(k, (n - 1) as nat);
    } else if n > 0 {
        lemma_pow10_le((n - 1) as nat, (n - 1) as nat);
    }
}

proof fn lemma_pow10_bound(k: nat)
    requires
        k <= 18,
    ensures
        1 <= pow10(k) <= 1_000_000_000_000_000_000,
{
    lemma_pow10_le(k, 18);
    reveal_with_fuel(pow10, 19);
    assert(pow10(18) == 1_000_000_000_000_000_000);
}

fn read_optional(s: &Vec<char>, from: usize, to: usize, bound: u128) -> (r: Option<u128>)
    requires
        from <= to <= s@.len(),
        bound < 0x1_0000_0000_0000_0000_0000,
    ensures
        from == to ==> r == Some(0u128),
        from < to ==> (r matches Some(v) ==> bounded_digits(s@.subrange(from as int, to as int), bound as int) == Some(v as int)),
        from < to ==> (r is None ==> bounded_digits(s@.subrange(from as int, to as int), bound as int) is None),
{
    if from == to {
        Some(0)
    } else {
        read_digits(s, from, to, bound)
    }
}

/// Reads a decimal number as `(numerator, denominator)`.
pub fn read_decimal(s: &Vec<char>) -> (r: Option<(i64, u64)>)
    ensures
        r matches Some((n, d)) ==> parse_decimal(s@) == Some((n as int, d as int)) && d >= 1,
        r is None ==> parse_decimal(s@) is None,
{
    let neg = s.len() > 0 && s[0] == '-';
    let start: usize = if s.len() > 0 && (s[0] == '-' || s[0] == '+') { 1 } else { 0 };
    let ghost body = s@.skip(start as int);
    proof {
        assert(body =~= if s@.len() > 0 && (s@[0] == '-' || s@[0] == '+') {
            s@.drop_first()
        } else {
            s@
        });
    }
    let mut dot: usize = start;
    while dot < s.len() && s[dot] != '.'
        invariant
            start <= dot <= s@.len(),
            body == s@.skip(start as int),
            forall|k: int| 0 <= k < dot - start ==> body[k] != '.',
        decreases s@.len() - dot,
    {
        proof {
            assert(body[dot - start] == s@[dot as int]);
        }
        dot = dot + 1;
    }
    proof {
        if dot < s@.len() {
            assert(body[dot - start] == s@[dot as int]);
        }
        lemma_index_of(body, '.', dot - start);
    }
    let frac_from: usize = if dot < s.len() { dot + 1 } else { dot };
    let frac_len: usize = s.len() - frac_from;
    let ghost ip = body.take(dot - start);
    let ghost fp = if dot < s@.len() {
        body.skip(dot - start + 1)
    } else {
        seq![]
    };
    proof {
        assert(ip =~= s@.subrange(start as int, dot as int));
        assert(fp =~= s@.subrange(frac_from as int, s@.len() as int));
    }
    if dot == start && frac_len == 0 {
        return None;
    }
    if frac_len > MAX_FRACTION_DIGITS {
        return None;
    }
    proof {
        lemma_pow10_bound(frac_len as nat);
    }
    let ipart = match read_optional(s, start, dot, 0x7fff_ffff_ffff_ffff) {
        Some(v) => v,
        None => {
            proof {
                if all_digits(ip) && all_digits(fp) {
                    lemma_digits_value_nonneg(fp);
                    assert(digits_value(ip) * pow10(fp.len()) >= digits_value(ip)) by (nonlinear_arith)
                        requires
                            pow10(fp.len()) >= 1,
                            digits_value(ip) >= 0,
                    ;
                }
            }
            return None;
        },
    };
    let fpart = match read_optional(s, frac_from, s.len(), 0x7fff_ffff_ffff_ffff) {
        Some(v) => v,
        None => {
            proof {
                if all_digits(ip) && all_digits(fp) {
                    lemma_digits_value_nonneg(ip);
                    assert(digits_value(ip) * pow10(fp.len()) >= 0) by (nonlinear_arith)
                        requires
                            pow10(fp.len()) >= 1,
                            digits_value(ip) >= 0,
                    ;
                }
            }
            return None;
        },
    };
    proof {
        if dot == start {
            assert(ip =~= seq![]);
        }
        if frac_from == s@.len() {
            assert(fp =~= seq![]);
        }
        assert(ipart as int == digits_value(ip));
        assert(fpart as int == digits_value(fp));
    }
    let mut scale: u128 = 1;
    let mut k: usize = 0;
    while k < frac_len
        invariant
            k <= frac_len <= MAX_FRACTION_DIGITS,
            scale as int == pow10(k as nat),
        decreases frac_len - k,
    {
        proof {
            lemma_pow10_bound(k as nat);
        }
        scale = scale * 10;
        k = k + 1;
    }
    proof {
        assert(ipart * scale <= 0x7fff_ffff_ffff_ffff * 1_000_000_000_000_000_000) by (nonlinear_arith)
            requires
                ipart <= 0x7fff_ffff_ffff_ffff,
                scale <= 1_000_000_000_000_000_000,
        ;
    }
    let mag: u128 = ipart * scale + fpart;
    if mag > 0x7fff_ffff_ffff_ffff {
        return None;
    }
    let m = mag as i64;
    Some((if neg { -m } else { m }, scale as u64))
}

} // verus!
