//! Text: decimal numerals, searching and trimming.

use vstd::prelude::*;

verus! {

/// The character of a decimal digit.
pub open spec fn digit_char(d: nat) -> char {
    if d == 0 {
        '0'
    } else if d == 1 {
        '1'
    } else if d == 2 {
        '2'
    } else if d == 3 {
        '3'
    } else if d == 4 {
        '4'
    } else if d == 5 {
        '5'
    } else if d == 6 {
        '6'
    } else if d == 7 {
        '7'
    } else if d == 8 {
        '8'
    } else {
        '9'
    }
}

/// The decimal numeral of a natural number, without leading zeros.
pub open spec fn digits(n: nat) -> Seq<char>
    decreases n,
{
    if n < 10 {
        seq![digit_char(n)]
    } else {
        digits(n / 10).push(digit_char(n % 10))
    }
}

/// The decimal numeral of an integer.
pub open spec fn numeral(i: int) -> Seq<char> {
    if i < 0 {
        seq!['-'] + digits((-i) as nat)
    } else {
        digits(i as nat)
    }
}

/// The number that a numeral stands for.
pub open spec fn value_of(s: Seq<char>) -> int
    decreases s.len(),
{
    if s.len() == 0 {
        0
    } else {
        value_of(s.drop_last()) * 10 + (s.last() as int - '0' as int)
    }
}

/// A numeral reads back as the number it was written from.
pub proof fn digits_read_back(n: nat)
    ensures
        value_of(digits(n)) == n,
        digits(n).len() > 0,
    decreases n,
{
    if n >= 10 {
        digits_read_back(n / 10);
        assert(digits(n).drop_last() =~= digits(n / 10));
    } else {
        assert(digits(n).drop_last() =~= Seq::<char>::empty());
        assert(value_of(Seq::<char>::empty()) == 0);
    }
}

/// Distinct integers have distinct numerals.
pub proof fn numerals_are_distinct(a: int, b: int)
    requires
        numeral(a) == numeral(b),
    ensures
        a == b,
{
    first_digit_is_no_sign(if a < 0 { (-a) as nat } else { a as nat });
    first_digit_is_no_sign(if b < 0 { (-b) as nat } else { b as nat });
    digits_read_back(if a < 0 { (-a) as nat } else { a as nat });
    digits_read_back(if b < 0 { (-b) as nat } else { b as nat });
    if a < 0 && b < 0 {
        assert(digits((-a) as nat) =~= numeral(a).skip(1));
        assert(digits((-b) as nat) =~= numeral(b).skip(1));
    } else {
        assert(a < 0 ==> numeral(a)[0] == '-');
        assert(b < 0 ==> numeral(b)[0] == '-');
    }
}

proof fn first_digit_is_no_sign(n: nat)
    ensures
        digits(n).len() > 0,
        digits(n)[0] != '-',
    decreases n,
{
    if n >= 10 {
        first_digit_is_no_sign(n / 10);
    }
}

/// Appends one digit.
fn append_digit(s: &mut String, d: u64)
    requires
        d < 10,
    ensures
        final(s)@ == old(s)@.push(digit_char(d as nat)),
{
    proof {
        reveal_strlit("0");
        reveal_strlit("1");
        reveal_strlit("2");
        reveal_strlit("3");
        reveal_strlit("4");
        reveal_strlit("5");
        reveal_strlit("6");
        reveal_strlit("7");
        reveal_strlit("8");
        reveal_strlit("9");
    }
    let t: &str = if d == 0 {
        "0"
    } else if d == 1 {
        "1"
    } else if d == 2 {
        "2"
    } else if d == 3 {
        "3"
    } else if d == 4 {
        "4"
    } else if d == 5 {
        "5"
    } else if d == 6 {
        "6"
    } else if d == 7 {
        "7"
    } else if d == 8 {
        "8"
    } else {
        "9"
    };
    let ghost before = s@;
    assert(t@ =~= seq![digit_char(d as nat)]);
    s.append(t);
    assert(s@ =~= before.push(digit_char(d as nat)));
}

/// Appends the numeral of `n`.
pub fn append_number(s: &mut String, n: u64)
    ensures
        final(s)@ == old(s)@ + digits(n as nat),
    decreases n,
{
    let ghost before = s@;
    if n < 10 {
        append_digit(s, n);
        assert(s@ =~= before + digits(n as nat));
    } else {
        append_number(s, n / 10);
        append_digit(s, n % 10);
        assert(s@ =~= before + digits(n as nat));
    }
}

/// Appends the numeral of `i`.
pub fn append_integer(s: &mut String, i: i64)
    ensures
        final(s)@ == old(s)@ + numeral(i as int),
{
    let ghost before = s@;
    if i < 0 {
        proof {
            reveal_strlit("-");
        }
        s.append("-");
        let n: u64 = (-(i + 1)) as u64 + 1;
        assert(n == -i);
        append_number(s, n);
        assert(s@ =~= before + numeral(i as int));
    } else {
        append_number(s, i as u64);
    }
}

/// The characters of a text.
pub fn chars_of(s: &str) -> (r: Vec<char>)
    ensures
        r@ == s@,
{
    let mut r: Vec<char> = Vec::new();
    let n: usize = s.unicode_len();
    let mut i: usize = 0;
    while i < n
        invariant
            i <= n == s@.len(),
            r@ == s@.take(i as int),
        decreases n - i,
    {
        r.push(s.get_char(i));
        i = i + 1;
        assert(r@ =~= s@.take(i as int));
    }
    assert(r@ =~= s@);
    r
}

/// `needle` stands in `hay` at position `i`.
pub open spec fn occurs_at<T>(hay: Seq<T>, needle: Seq<T>, i: int) -> bool {
    0 <= i && i + needle.len() <= hay.len() && hay.subrange(i, i + needle.len()) == needle
}

/// The first position at or behind `from` at which `needle` stands in `hay`.
pub open spec fn first_occurrence(hay: Seq<char>, needle: Seq<char>, from: int) -> Option<int>
    decreases hay.len() + 1 - from,
{
    if from > hay.len() {
        None
    } else if occurs_at(hay, needle, from) {
        Some(from)
    } else {
        first_occurrence(hay, needle, from + 1)
    }
}

/// Where a search succeeds, the text stands there and nowhere before it.
pub proof fn search_finds_the_first(hay: Seq<char>, needle: Seq<char>, from: int)
    requires
        0 <= from,
    ensures
        match first_occurrence(hay, needle, from) {
            Some(i) => from <= i && occurs_at(hay, needle, i) && forall|j: int|
                from <= j < i ==> !#[trigger] occurs_at(hay, needle, j),
            None => forall|j: int| from <= j ==> !#[trigger] occurs_at(hay, needle, j),
        },
    decreases hay.len() + 1 - from,
{
    if from <= hay.len() && !occurs_at(hay, needle, from) {
        search_finds_the_first(hay, needle, from + 1);
    }
}

/// Whether `needle` stands in `hay` at position `i`.
fn stands_at(hay: &Vec<char>, needle: &Vec<char>, i: usize) -> (r: bool)
    requires
        i <= hay.len(),
    ensures
        r == occurs_at(hay@, needle@, i as int),
{
    if needle.len() > hay.len() - i {
        return false;
    }
    let mut k: usize = 0;
    while k < needle.len()
        invariant
            k <= needle.len() <= hay.len() - i,
            forall|q: int| 0 <= q < k ==> hay[i + q] == #[trigger] needle[q],
        decreases needle.len() - k,
    {
        if hay[i + k] != needle[k] {
            proof {
                let part = hay@.subrange(i as int, i + needle.len());
                assert(part[k as int] == hay[i + k]);
            }
            return false;
        }
        k = k + 1;
    }
    assert(hay@.subrange(i as int, i + needle.len()) =~= needle@);
    true
}

/// The first position at or behind `from` at which `needle` stands in `hay`.
pub fn find(hay: &Vec<char>, needle: &str, from: usize) -> (r: Option<usize>)
    requires
        from <= hay.len(),
    ensures
        match r {
            Some(i) => first_occurrence(hay@, needle@, from as int) == Some(i as int) && i + needle@.len() <= hay.len(),
            None => first_occurrence(hay@, needle@, from as int) is None,
        },
{
    let pattern: Vec<char> = chars_of(needle);
    let mut i: usize = from;
    while i < hay.len()
        invariant
            from <= i <= hay.len(),
            pattern@ == needle@,
            first_occurrence(hay@, needle@, from as int) == first_occurrence(hay@, needle@, i as int),
        decreases hay.len() - i,
    {
        if stands_at(hay, &pattern, i) {
            return Some(i);
        }
        i = i + 1;
    }
    if stands_at(hay, &pattern, i) {
        return Some(i);
    }
    assert(first_occurrence(hay@, needle@, i + 1) is None);
    None
}

/// The characters that Unicode calls white space.
pub open spec fn is_space(c: char) -> bool {
    let u = c as int;
    ||| 0x9 <= u <= 0xd
    ||| u == 0x20
    ||| u == 0x85
    ||| u == 0xa0
    ||| u == 0x1680
    ||| 0x2000 <= u <= 0x200a
    ||| u == 0x2028
    ||| u == 0x2029
    ||| u == 0x202f
    ||| u == 0x205f
    ||| u == 0x3000
}

/// Whether a character is white space.
pub fn space(c: char) -> (r: bool)
    ensures
        r == is_space(c),
{
    let u: u32 = c as u32;
    (0x9 <= u && u <= 0xd) || u == 0x20 || u == 0x85 || u == 0xa0 || u == 0x1680 || (0x2000 <= u && u <= 0x200a)
        || u == 0x2028 || u == 0x2029 || u == 0x202f || u == 0x205f || u == 0x3000
}

/// Where the text between `from` and `to` begins once leading white space is
/// left out.
pub open spec fn trim_start(s: Seq<char>, from: int, to: int) -> int
    decreases to - from,
{
    if from < to && is_space(s[from]) {
        trim_start(s, from + 1, to)
    } else {
        from
    }
}

/// Where the text between `from` and `to` ends once trailing white space is
/// left out.
pub open spec fn trim_end(s: Seq<char>, from: int, to: int) -> int
    decreases to - from,
{
    if from < to && is_space(s[to - 1]) {
        trim_end(s, from, to - 1)
    } else {
        to
    }
}

/// The bounds of the text between `from` and `to` without surrounding white
/// space.
pub fn trim(s: &Vec<char>, from: usize, to: usize) -> (r: (usize, usize))
    requires
        from <= to <= s.len(),
    ensures
        r.0 == trim_start(s@, from as int, to as int),
        r.1 == trim_end(s@, r.0 as int, to as int),
        from <= r.0 <= r.1 <= to,
{
    let mut a: usize = from;
    while a < to && space(s[a])
        invariant
            from <= a <= to <= s.len(),
            trim_start(s@, from as int, to as int) == trim_start(s@, a as int, to as int),
        decreases to - a,
    {
        a = a + 1;
    }
    let mut b: usize = to;
    while a < b && space(s[b - 1])
        invariant
            a <= b <= to <= s.len(),
            trim_end(s@, a as int, to as int) == trim_end(s@, a as int, b as int),
        decreases b,
    {
        b = b - 1;
    }
    (a, b)
}

} // verus!
