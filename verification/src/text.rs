//! Decimal text of integers and character-sequence helpers.

use vstd::prelude::*;

verus! {

/// The character of a decimal digit `d < 10`.
pub open spec fn digit_char(d: nat) -> char {
    (d + 48) as char
}

/// The decimal text of `n`, most significant digit first, with no leading zeros.
pub open spec fn decimal(n: nat) -> Seq<char>
    decreases n,
{
    if n < 10 {
        seq![digit_char(n)]
    } else {
        decimal(n / 10).push(digit_char(n % 10))
    }
}

/// Returns the decimal digit character of `d`.
fn digit_to_char(d: u64) -> (c: char)
    requires
        d < 10,
    ensures
        c == digit_char(d as nat),
{
    let b: u8 = (d as u8) + 48;
    b as char
}

/// The decimal text of `n` as characters.
pub fn u64_to_decimal(n: u64) -> (s: Vec<char>)
    ensures
        s@ == decimal(n as nat),
    decreases n,
{
    if n < 10 {
        let mut v: Vec<char> = Vec::new();
        v.push(digit_to_char(n));
        v
    } else {
        let mut v = u64_to_decimal(n / 10);
        v.push(digit_to_char(n % 10));
        v
    }
}


/// Appends the characters of `s` to `v`.
pub fn push_str_chars(v: &mut Vec<char>, s: &str)
    ensures
        final(v)@ == old(v)@ + s@,
{
    let ghost start = v@;
    for c in it: s.chars()
        invariant
            it.seq() == s@,
            v@ == start + s@.take(it.index() as int),
    {
        proof {
            assert(s@.take(it.index() + 1) == s@.take(it.index() as int).push(c));
        }
        v.push(c);
    }
    proof {
        assert(s@.take(s@.len() as int) == s@);
    }
}

/// The characters of `s`.
pub fn str_chars(s: &str) -> (v: Vec<char>)
    ensures
        v@ == s@,
{
    let mut v: Vec<char> = Vec::new();
    push_str_chars(&mut v, s);
    proof {
        assert(Seq::<char>::empty() + s@ == s@);
    }
    v
}

/// Collects characters into a `String` (std's `FromIterator<char>` for `String`).
#[verifier::external_body]
pub(crate) fn chars_to_string(v: &[char]) -> (s: String)
    ensures
        s@ == v@,
{
    v.iter().collect()
}

/// Whether every character of `s` is an ASCII decimal digit.
pub open spec fn all_digits(s: Seq<char>) -> bool {
    forall|i: int| 0 <= i < s.len() ==> '0' <= #[trigger] s[i] <= '9'
}

/// The value of a sequence of decimal digits read most significant first.
pub open spec fn digits_value(s: Seq<char>) -> nat
    decreases s.len(),
{
    if s.len() == 0 {
        0
    } else {
        digits_value(s.drop_last()) * 10 + ((s.last() as int - 48) as nat)
    }
}

/// What std's `from_str` gives for an unsigned integer type whose largest value is
/// `max`: an optional leading `+`, then at least one ASCII digit and nothing else,
/// of a value that fits.
pub open spec fn parse_unsigned(s: Seq<char>, max: nat) -> Option<nat> {
    let body = if s.len() > 0 && s[0] == '+' {
        s.drop_first()
    } else {
        s
    };
    if body.len() > 0 && all_digits(body) && digits_value(body) <= max {
        Some(digits_value(body))
    } else {
        None
    }
}

proof fn lemma_digits_value_prefix(s: Seq<char>, k: int)
    requires
        all_digits(s),
        0 <= k <= s.len(),
    ensures
        digits_value(s.take(k)) <= digits_value(s),
    decreases s.len() - k,
{
    if k < s.len() {
        lemma_digits_value_prefix(s, k + 1);
        assert(s.take(k + 1).drop_last() == s.take(k));
        assert(s.take(k + 1).last() == s[k]);
    } else {
        assert(s.take(k) == s);
    }
}

/// Parses the digits `s[from..to]` as an integer of at most `max`.
fn parse_digits(s: &[char], from: usize, to: usize, max: u64) -> (r: Option<u64>)
    requires
        from < to <= s@.len(),
    ensures
        r == (if all_digits(s@.subrange(from as int, to as int)) && digits_value(
            s@.subrange(from as int, to as int),
        ) <= max {
            Some(digits_value(s@.subrange(from as int, to as int)) as u64)
        } else {
            None::<u64>
        }),
{
    let ghost body = s@.subrange(from as int, to as int);
    let mut i = from;
    let mut value: u64 = 0;
    while i < to
        invariant
            from <= i <= to <= s@.len(),
            body == s@.subrange(from as int, to as int),
            all_digits(body.take(i - from)),
            value == digits_value(body.take(i - from)),
            value <= max,
        decreases to - i,
    {
        let c = s[i];
        assert(body[i - from] == c);
        if c < '0' || c > '9' {
            assert(!all_digits(body));
            return None;
        }
        let d: u64 = ((c as u32) - 48) as u64;
        proof {
            assert(body.take(i - from + 1).drop_last() == body.take(i - from));
            assert(body.take(i - from + 1).last() == c);
            assert(all_digits(body.take(i - from + 1)));
        }
        if d > max || value > (max - d) / 10 {
            proof {
                assert(digits_value(body.take(i - from + 1)) == value * 10 + d);
                assert(value * 10 + d > max) by (nonlinear_arith)
                    requires
                        d > max || value > (max - d) / 10,
                ;
                if all_digits(body) {
                    lemma_digits_value_prefix(body, i - from + 1);
                }
            }
            return None;
        }
        proof {
            assert(value * 10 + d <= max) by (nonlinear_arith)
                requires
                    value <= (max - d) / 10,
                    d <= max,
            ;
        }
        value = value * 10 + d;
        i = i + 1;
    }
    proof {
        assert(body.take(i - from) == body);
    }
    Some(value)
}


/// Parses `s[from..to]` as std's `from_str` parses an unsigned integer type whose
/// largest value is `max`.
pub fn parse_unsigned_range(s: &[char], from: usize, to: usize, max: u64) -> (r: Option<u64>)
    requires
        from <= to <= s@.len(),
    ensures
        match parse_unsigned(s@.subrange(from as int, to as int), max as nat) {
            Some(v) => r == Some(v as u64),
            None => r is None,
        },
{
    let ghost t = s@.subrange(from as int, to as int);
    if from == to {
        return None;
    }
    if s[from] == '+' {
        assert(t[0] == '+');
        if from + 1 == to {
            return None;
        }
        proof {
            assert(t.drop_first() == s@.subrange(from + 1, to as int));
        }
        parse_digits(s, from + 1, to, max)
    } else {
        assert(t[0] != '+');
        parse_digits(s, from, to, max)
    }
}

proof fn lemma_decimal_digits(n: nat)
    ensures
        decimal(n).len() > 0,
        all_digits(decimal(n)),
        digits_value(decimal(n)) == n,
        decimal(n)[0] != '+',
    decreases n,
{
    if n >= 10 {
        lemma_decimal_digits(n / 10);
        let d = decimal(n);
        assert(d.drop_last() == decimal(n / 10));
        assert(d[0] == decimal(n / 10)[0]);
        assert(d.last() == digit_char(n % 10));
        assert(d.last() as int - 48 == n % 10);
        assert(digits_value(d) == (n / 10) * 10 + n % 10);
        assert forall|i: int| 0 <= i < d.len() implies '0' <= #[trigger] d[i] <= '9' by {
            if i < d.len() - 1 {
                assert(d[i] == decimal(n / 10)[i]);
            }
        }
    } else {
        let d = decimal(n);
        assert(d.drop_last() =~= Seq::<char>::empty());
        assert(digits_value(d.drop_last()) == 0);
        assert(d.last() as int - 48 == n);
    }
}

/// Reading the decimal text of a value that fits gives the value back.
pub proof fn lemma_parse_decimal(n: nat, max: nat)
    requires
        n <= max,
    ensures
        parse_unsigned(decimal(n), max) == Some(n),
{
    lemma_decimal_digits(n);
}


/// How many times `c` occurs in `s`.
pub open spec fn count_char(s: Seq<char>, c: char) -> nat
    decreases s.len(),
{
    if s.len() == 0 {
        0
    } else {
        (if s[0] == c { 1nat } else { 0nat }) + count_char(s.drop_first(), c)
    }
}

/// The position of the first `c` in `s`, or the length of `s` where there is none.
pub open spec fn char_index(s: Seq<char>, c: char) -> nat
    decreases s.len(),
{
    if s.len() == 0 {
        0
    } else if s[0] == c {
        0
    } else {
        1 + char_index(s.drop_first(), c)
    }
}

/// Counts the occurrences of `c` in `s` and finds the first one.
pub fn count_and_find(s: &[char], c: char) -> (r: (usize, usize))
    ensures
        r.0 == count_char(s@, c),
        r.1 == char_index(s@, c),
{
    let n = s.len();
    let mut i = n;
    let mut count: usize = 0;
    let mut first: usize = n;
    assert(s@.skip(n as int) =~= Seq::<char>::empty());
    while i > 0
        invariant
            i <= n == s@.len(),
            count == count_char(s@.skip(i as int), c),
            first == i + char_index(s@.skip(i as int), c),
            count <= n - i,
        decreases i,
    {
        i = i - 1;
        assert(s@.skip(i as int).drop_first() =~= s@.skip(i + 1));
        assert(s@.skip(i as int)[0] == s[i as int]);
        if s[i] == c {
            count = count + 1;
            first = i;
        }
    }
    assert(s@.skip(0) =~= s@);
    (count, first)
}

pub(crate) proof fn lemma_count_char_add(a: Seq<char>, b: Seq<char>, c: char)
    ensures
        count_char(a + b, c) == count_char(a, c) + count_char(b, c),
    decreases a.len(),
{
    if a.len() > 0 {
        assert((a + b).drop_first() =~= a.drop_first() + b);
        lemma_count_char_add(a.drop_first(), b, c);
    } else {
        assert(a + b =~= b);
    }
}

proof fn lemma_char_index_add(a: Seq<char>, b: Seq<char>, c: char)
    requires
        count_char(a, c) == 0,
    ensures
        char_index(a + b, c) == a.len() + char_index(b, c),
    decreases a.len(),
{
    if a.len() > 0 {
        assert((a + b).drop_first() =~= a.drop_first() + b);
        assert((a + b)[0] == a[0]);
        lemma_char_index_add(a.drop_first(), b, c);
    } else {
        assert(a + b =~= b);
    }
}

pub(crate) proof fn lemma_digits_no_char(s: Seq<char>, c: char)
    requires
        all_digits(s),
        !('0' <= c <= '9'),
    ensures
        count_char(s, c) == 0,
    decreases s.len(),
{
    if s.len() > 0 {
        assert(all_digits(s.drop_first()));
        lemma_digits_no_char(s.drop_first(), c);
    }
}

/// `decimal(n)` holds a single `c` nowhere: `a + [c] + b` with digits-only `a`
/// and `b` has one `c`, found right after `a`.
pub(crate) proof fn lemma_split_at_separator(n: nat, m: nat, c: char)
    requires
        !('0' <= c <= '9'),
    ensures
        count_char(decimal(n) + seq![c] + decimal(m), c) == 1,
        char_index(decimal(n) + seq![c] + decimal(m), c) == decimal(n).len(),
        (decimal(n) + seq![c] + decimal(m)).take(decimal(n).len() as int) == decimal(n),
        (decimal(n) + seq![c] + decimal(m)).skip(decimal(n).len() + 1int) == decimal(m),
{
    lemma_decimal_digits(n);
    lemma_decimal_digits(m);
    lemma_digits_no_char(decimal(n), c);
    lemma_digits_no_char(decimal(m), c);
    let a = decimal(n);
    let b = decimal(m);
    lemma_count_char_add(a + seq![c], b, c);
    lemma_count_char_add(a, seq![c], c);
    assert(count_char(seq![c], c) == 1) by {
        assert(seq![c].drop_first() =~= Seq::<char>::empty());
        assert(count_char(Seq::<char>::empty(), c) == 0);
    }
    assert(a + seq![c] + b =~= a + (seq![c] + b));
    lemma_char_index_add(a, seq![c] + b, c);
    assert((seq![c] + b)[0] == c);
    assert((a + seq![c] + b).take(a.len() as int) =~= a);
    assert((a + seq![c] + b).skip(a.len() + 1int) =~= b);
}

/// The decimal text of any value holds only digits, so never a `+` first.
pub(crate) proof fn lemma_decimal_is_digits(n: nat)
    ensures
        all_digits(decimal(n)),
        decimal(n).len() > 0,
{
    lemma_decimal_digits(n);
}


/// After the decimal text of `n`, a separator `c` that `rest` does not hold is
/// the only `c`, and splitting there gives back the text and `rest`.
pub(crate) proof fn lemma_split_prefix(n: nat, rest: Seq<char>, c: char)
    requires
        !('0' <= c <= '9'),
        count_char(rest, c) == 0,
    ensures
        count_char(decimal(n) + seq![c] + rest, c) == 1,
        char_index(decimal(n) + seq![c] + rest, c) == decimal(n).len(),
        (decimal(n) + seq![c] + rest).take(decimal(n).len() as int) == decimal(n),
        (decimal(n) + seq![c] + rest).skip(decimal(n).len() + 1int) == rest,
{
    lemma_decimal_digits(n);
    lemma_digits_no_char(decimal(n), c);
    let a = decimal(n);
    lemma_count_char_add(a + seq![c], rest, c);
    lemma_count_char_add(a, seq![c], c);
    assert(count_char(seq![c], c) == 1) by {
        assert(seq![c].drop_first() =~= Seq::<char>::empty());
        assert(count_char(Seq::<char>::empty(), c) == 0);
    }
    assert(a + seq![c] + rest =~= a + (seq![c] + rest));
    lemma_char_index_add(a, seq![c] + rest, c);
    assert((seq![c] + rest)[0] == c);
    assert((a + seq![c] + rest).take(a.len() as int) =~= a);
    assert((a + seq![c] + rest).skip(a.len() + 1int) =~= rest);
}

} // verus!
