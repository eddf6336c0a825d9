//! Character-level helpers shared by the XML codec and the query layer:
//! string comparison, conversions between `str` and `Vec<char>`, and
//! decimal reading and writing for `u64` values.
use vstd::prelude::*;

verus! {

/// The numeric value of a decimal digit character, or -1 for any other character.
pub open spec fn char_digit(c: char) -> int {
    if c == '0' {
        0
    } else if c == '1' {
        1
    } else if c == '2' {
        2
    } else if c == '3' {
        3
    } else if c == '4' {
        4
    } else if c == '5' {
        5
    } else if c == '6' {
        6
    } else if c == '7' {
        7
    } else if c == '8' {
        8
    } else if c == '9' {
        9
    } else {
        -1
    }
}

pub open spec fn is_digit_char(c: char) -> bool {
    char_digit(c) >= 0
}

pub open spec fn all_digits(s: Seq<char>) -> bool {
    forall|i: int| 0 <= i < s.len() ==> is_digit_char(#[trigger] s[i])
}

/// The value of a digit string read in base ten.
pub open spec fn digits_value(s: Seq<char>) -> int
    decreases s.len(),
{
    if s.len() == 0 {
        0
    } else {
        digits_value(s.drop_last()) * 10 + char_digit(s.last())
    }
}

/// The canonical decimal rendering of a non-negative number.
pub open spec fn decimal_chars(n: int) -> Seq<char>
    decreases n,
{
    if n < 10 {
        seq![digit_char(n)]
    } else {
        decimal_chars(n / 10).push(digit_char(n % 10))
    }
}

/// The digit character for a value in 0..=9 ('0' for anything else).
pub open spec fn digit_char(d: int) -> char {
    if d == 1 {
        '1'
    } else if d == 2 {
        '2'
    } else if d == 3 {
        '3'
    } else if d == 4 {
        '4'
    } else if d == 5 {
        '5'
    } else if d == 6 {
        '6'
    } else if d == 7 {
        '7'
    } else if d == 8 {
        '8'
    } else if d == 9 {
        '9'
    } else {
        '0'
    }
}

pub proof fn lemma_digits_value_nonneg(s: Seq<char>)
    requires
        all_digits(s),
    ensures
        digits_value(s) >= 0,
    decreases s.len(),
{
    if s.len() > 0 {
        assert(all_digits(s.drop_last()));
        lemma_digits_value_nonneg(s.drop_last());
    }
}

/// A digit string is worth at least as much as any of its prefixes.
pub proof fn lemma_digits_value_prefix(s: Seq<char>, j: int)
    requires
        all_digits(s),
        0 <= j <= s.len(),
    ensures
        digits_value(s.take(j)) <= digits_value(s),
    decreases s.len(),
{
    if j == s.len() {
        assert(s.take(j) =~= s);
    } else {
        assert(all_digits(s.drop_last()));
        assert(s.take(j) =~= s.drop_last().take(j));
        lemma_digits_value_prefix(s.drop_last(), j);
        lemma_digits_value_nonneg(s.drop_last());
    }
}

/// The canonical decimal rendering of `n` is a digit string worth `n`.
pub proof fn lemma_decimal_chars_value(n: int)
    requires
        n >= 0,
    ensures
        decimal_chars(n).len() > 0,
        all_digits(decimal_chars(n)),
        digits_value(decimal_chars(n)) == n,
    decreases n,
{
    if n < 10 {
        let d = decimal_chars(n);
        assert(d =~= seq![digit_char(n)]);
        assert(d.drop_last() =~= Seq::<char>::empty());
        assert(char_digit(digit_char(n)) == n);
        assert(d.last() == digit_char(n));
        assert(digits_value(Seq::<char>::empty()) == 0);
        assert(digits_value(d) == digits_value(d.drop_last()) * 10 + char_digit(d.last()));
        assert forall|i: int| 0 <= i < d.len() implies is_digit_char(#[trigger] d[i]) by {
            assert(d[i] == digit_char(n));
        }
    } else {
        lemma_decimal_chars_value(n / 10);
        let d = decimal_chars(n);
        let pre = decimal_chars(n / 10);
        assert(d == pre.push(digit_char(n % 10)));
        assert(d.drop_last() =~= pre);
        assert(d.last() == digit_char(n % 10));
        assert forall|i: int| 0 <= i < d.len() implies is_digit_char(#[trigger] d[i]) by {
            if i < d.len() - 1 {
                assert(d[i] == pre[i]);
            }
        }
        assert(digits_value(d) == (n / 10) * 10 + (n % 10));
    }
}

/// Digit characters are never a quote or an angle bracket.
pub proof fn lemma_digits_benign(t: Seq<char>)
    requires
        all_digits(t),
    ensures
        forall|j: int| 0 <= j < t.len() ==> #[trigger] t[j] != '"',
        forall|j: int| 0 <= j < t.len() ==> #[trigger] t[j] != '<',
{
    assert forall|j: int| 0 <= j < t.len() implies #[trigger] t[j] != '"' && t[j] != '<' by {
        assert(is_digit_char(t[j]));
    }
}

pub fn char_to_digit(c: char) -> (r: Option<u64>)
    ensures
        r is Some <==> is_digit_char(c),
        r is Some ==> r->Some_0 == char_digit(c),
{
    if c == '0' {
        Some(0)
    } else if c == '1' {
        Some(1)
    } else if c == '2' {
        Some(2)
    } else if c == '3' {
        Some(3)
    } else if c == '4' {
        Some(4)
    } else if c == '5' {
        Some(5)
    } else if c == '6' {
        Some(6)
    } else if c == '7' {
        Some(7)
    } else if c == '8' {
        Some(8)
    } else if c == '9' {
        Some(9)
    } else {
        None
    }
}

pub fn digit_to_char(d: u64) -> (c: char)
    requires
        d < 10,
    ensures
        c == digit_char(d as int),
{
    if d == 0 {
        '0'
    } else if d == 1 {
        '1'
    } else if d == 2 {
        '2'
    } else if d == 3 {
        '3'
    } else if d == 4 {
        '4'
    } else if d == 5 {
        '5'
    } else if d == 6 {
        '6'
    } else if d == 7 {
        '7'
    } else if d == 8 {
        '8'
    } else {
        '9'
    }
}

/// Reads a `u64` from a decimal digit string; fails exactly on an empty
/// string, a non-digit character, or a value above `u64::MAX`.
#[verifier::loop_isolation(false)]
pub fn parse_u64_chars(v: &Vec<char>) -> (r: Option<u64>)
    ensures
        r is Some <==> (v@.len() > 0 && all_digits(v@) && digits_value(v@) <= u64::MAX),
        r is Some ==> r->Some_0 == digits_value(v@),
{
    if v.len() == 0 {
        return None;
    }
    let mut acc: u128 = 0;
    let mut i: usize = 0;
    while i < v.len()
        invariant
            0 <= i <= v@.len(),
            all_digits(v@.take(i as int)),
            acc == digits_value(v@.take(i as int)),
            acc <= u64::MAX,
        decreases v@.len() - i,
    {
        let c = v[i];
        match char_to_digit(c) {
            None => {
                assert(!is_digit_char(v@[i as int]));
                return None;
            },
            Some(d) => {
                let acc2: u128 = acc * 10 + (d as u128);
                assert(v@.take(i + 1).drop_last() =~= v@.take(i as int));
                assert(v@.take(i + 1).last() == v@[i as int]);
                assert(acc2 == digits_value(v@.take(i + 1)));
                if acc2 > u64::MAX as u128 {
                    proof {
                        if all_digits(v@) {
                            lemma_digits_value_prefix(v@, i + 1);
                        }
                    }
                    return None;
                }
                acc = acc2;
            },
        }
        i = i + 1;
    }
    assert(v@.take(i as int) =~= v@);
    Some(acc as u64)
}

/// Writes a `u64` in decimal.
#[verifier::loop_isolation(false)]
pub fn u64_to_chars(n: u64) -> (v: Vec<char>)
    ensures
        v@ == decimal_chars(n as int),
{
    let mut out: Vec<char> = Vec::new();
    let mut x: u64 = n;
    while x >= 10
        invariant
            decimal_chars(n as int) =~= decimal_chars(x as int) + out@,
        decreases x,
    {
        let d: u64 = x % 10;
        let ghost prev = out@;
        out.insert(0, digit_to_char(d));
        proof {
            assert(out@ =~= seq![digit_char(d as int)] + prev);
            assert(decimal_chars(x as int) == decimal_chars(x as int / 10).push(
                digit_char(x as int % 10),
            ));
            assert(decimal_chars((x / 10) as int) + out@ =~= decimal_chars(x as int) + prev);
        }
        x = x / 10;
    }
    let ghost prev = out@;
    out.insert(0, digit_to_char(x));
    proof {
        assert(out@ =~= seq![digit_char(x as int)] + prev);
        assert(decimal_chars(x as int) =~= seq![digit_char(x as int)]);
    }
    out
}

/// Character-by-character string equality.
#[verifier::loop_isolation(false)]
pub fn str_eq(a: &str, b: &str) -> (r: bool)
    ensures
        r == (a@ == b@),
{
    let an: usize = a.unicode_len();
    let bn: usize = b.unicode_len();
    if an != bn {
        return false;
    }
    let mut i: usize = 0;
    while i < an
        invariant
            0 <= i <= an,
            an == a@.len(),
            an == b@.len(),
            forall|j: int| 0 <= j < i ==> a@[j] == b@[j],
        decreases an - i,
    {
        if a.get_char(i) != b.get_char(i) {
            return false;
        }
        i = i + 1;
    }
    assert(a@ =~= b@);
    true
}

/// Copies the characters of a string slice out into a vector.
#[verifier::loop_isolation(false)]
pub fn str_to_chars(s: &str) -> (v: Vec<char>)
    ensures
        v@ == s@,
{
    let n: usize = s.unicode_len();
    let mut v: Vec<char> = Vec::new();
    let mut i: usize = 0;
    while i < n
        invariant
            0 <= i <= n,
            n == s@.len(),
            v@ =~= s@.take(i as int),
        decreases n - i,
    {
        v.push(s.get_char(i));
        assert(s@.take(i + 1) =~= s@.take(i as int).push(s@[i as int]));
        i = i + 1;
    }
    assert(s@.take(n as int) =~= s@);
    v
}

/// Character-vector against string-slice equality.
#[verifier::loop_isolation(false)]
pub fn chars_eq_str(v: &Vec<char>, s: &str) -> (r: bool)
    ensures
        r == (v@ == s@),
{
    let n: usize = s.unicode_len();
    if v.len() != n {
        return false;
    }
    let mut i: usize = 0;
    while i < n
        invariant
            0 <= i <= n,
            n == s@.len(),
            n == v@.len(),
            forall|j: int| 0 <= j < i ==> v@[j] == s@[j],
        decreases n - i,
    {
        if v[i] != s.get_char(i) {
            return false;
        }
        i = i + 1;
    }
    assert(v@ =~= s@);
    true
}

/// Relies on `String`'s `FromIterator` impl: collecting characters yields
/// the string made of exactly those characters.
#[verifier::external_body]
pub fn chars_to_string(v: &Vec<char>) -> (s: String)
    ensures
        s@ == v@,
{
    v.iter().collect()
}

/// The characters of `s` between two positions, copied out.
#[verifier::loop_isolation(false)]
pub fn copy_range(s: &Vec<char>, from: usize, to: usize) -> (r: Vec<char>)
    requires
        from <= to <= s@.len(),
    ensures
        r@ == s@.subrange(from as int, to as int),
{
    let mut out: Vec<char> = Vec::new();
    let mut i: usize = from;
    while i < to
        invariant
            from <= i <= to,
            out@ =~= s@.subrange(from as int, i as int),
        decreases to - i,
    {
        out.push(s[i]);
        proof {
            assert(s@.subrange(from as int, i + 1) =~= s@.subrange(from as int, i as int).push(
                s@[i as int],
            ));
        }
        i = i + 1;
    }
    out
}

/// The first position at or after `from` holding `c`, or the length if none does.
pub open spec fn find_from(s: Seq<char>, c: char, from: int) -> int
    decreases s.len() - from,
{
    if from >= s.len() {
        s.len() as int
    } else if s[from] == c {
        from
    } else {
        find_from(s, c, from + 1)
    }
}

#[verifier::loop_isolation(false)]
pub fn find_char(v: &Vec<char>, c: char, from: usize) -> (r: usize)
    requires
        from <= v@.len(),
    ensures
        r == find_from(v@, c, from as int),
        from <= r <= v@.len(),
        r < v@.len() ==> v@[r as int] == c,
    decreases v@.len() - from,
{
    let mut i: usize = from;
    while i < v.len()
        invariant
            from <= i <= v@.len(),
            find_from(v@, c, from as int) == find_from(v@, c, i as int),
        decreases v@.len() - i,
    {
        if v[i] == c {
            return i;
        }
        i = i + 1;
    }
    i
}

} // verus!
