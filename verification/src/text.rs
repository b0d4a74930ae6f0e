//! Numbers as text.
use vstd::prelude::*;
use vstd::string::{StrSliceExecFns, StringExecFns};
use vstd::utf8::encode_utf8;

verus! {

/// A decimal digit.
pub open spec fn digit(d: int) -> char {
    ('0' as int + d) as char
}

/// A number in decimal.
pub open spec fn decimal(n: nat) -> Seq<char>
    decreases n,
{
    if n < 10 {
        seq![digit(n as int)]
    } else {
        decimal(n / 10).push(digit((n % 10) as int))
    }
}

/// A digit, as text.
fn digit_text(d: u64) -> (s: &'static str)
    requires
        d < 10,
    ensures
        s@ == seq![digit(d as int)],
{
    proof {
        reveal_strlit("0");
        reveal_strlit("1");
        reveal_strlit("2");
        reveal_strlit("3");
        reveal_strlit("4");
        reveal_strlit("5");
        reveal_strlit("6");
        reveal_strlit("7");
        reveal_strlit("8");
        reveal_strlit("9");
    }
    let s = if d == 0 {
        "0"
    } else if d == 1 {
        "1"
    } else if d == 2 {
        "2"
    } else if d == 3 {
        "3"
    } else if d == 4 {
        "4"
    } else if d == 5 {
        "5"
    } else if d == 6 {
        "6"
    } else if d == 7 {
        "7"
    } else if d == 8 {
        "8"
    } else {
        "9"
    };
    assert(s@ =~= seq![digit(d as int)]);
    s
}

/// Adds a number in decimal.
pub fn push_number(out: &mut String, n: u128)
    ensures
        final(out)@ == old(out)@ + decimal(n as nat),
    decreases n,
{
    if n >= 10 {
        push_number(out, n / 10);
    }
    out.append(digit_text((n % 10) as u64));
    assert(out@ =~= old(out)@ + decimal(n as nat));
}

/// Adds a number in decimal.
pub fn push_decimal(out: &mut String, n: u64)
    ensures
        final(out)@ == old(out)@ + decimal(n as nat),
{
    push_number(out, n as u128);
}

/// The characters of a text.
pub fn chars_of(s: &str) -> (out: Vec<char>)
    ensures
        out@ == s@,
{
    let mut out: Vec<char> = Vec::new();
    for c in it: s.chars()
        invariant
            it.seq() == s@,
            out@ == s@.take(it.index() as int),
    {
        out.push(c);
        assert(out@ =~= s@.take(it.index() + 1));
    }
    assert(out@ =~= s@);
    out
}

/// How many units of 16 bits a text is in UTF-16: two for each character past those that fit in
/// one, and one for each other.
pub open spec fn utf16_len(s: Seq<char>) -> nat
    decreases s.len(),
{
    if s.len() == 0 {
        0
    } else {
        (if s[0] as u32 > 0xFFFF {
            2nat
        } else {
            1
        }) + utf16_len(s.drop_first())
    }
}

/// A text has no more units in UTF-16 than bytes.
proof fn units_are_bytes_at_most(s: Seq<char>)
    ensures
        utf16_len(s) <= encode_utf8(s).len(),
    decreases s.len(),
{
    if s.len() > 0 {
        units_are_bytes_at_most(s.drop_first());
    }
}

/// The end of a text has no more units than all of it.
proof fn an_end_has_no_more_units(s: Seq<char>, i: int)
    requires
        0 <= i <= s.len(),
    ensures
        utf16_len(s.skip(i)) <= utf16_len(s),
    decreases i,
{
    if i > 0 {
        an_end_has_no_more_units(s, i - 1);
        assert(s.skip(i - 1).drop_first() =~= s.skip(i));
    } else {
        assert(s.skip(0) =~= s);
    }
}

/// How many units of 16 bits a text is in UTF-16.
pub fn utf16_count(s: &str) -> (n: usize)
    ensures
        n == utf16_len(s@),
{
    let bytes = s.as_bytes().len();
    let list = chars_of(s);
    let mut i: usize = list.len();
    let mut n: usize = 0;
    proof {
        units_are_bytes_at_most(s@);
    }
    assert(s@.skip(i as int).len() == 0);
    while i > 0
        invariant
            i <= s@.len(),
            list@ == s@,
            utf16_len(s@) <= bytes,
            n == utf16_len(s@.skip(i as int)),
        decreases i,
    {
        proof {
            an_end_has_no_more_units(s@, i - 1);
            assert(s@.skip(i - 1).drop_first() =~= s@.skip(i as int));
        }
        i -= 1;
        if list[i] as u32 > 0xFFFF {
            n += 2;
        } else {
            n += 1;
        }
    }
    assert(s@.skip(0) =~= s@);
    n
}

/// A text has another in it from `i` on.
pub open spec fn has_at(text: Seq<char>, part: Seq<char>, i: int) -> bool {
    0 <= i && i + part.len() <= text.len() && text.subrange(i, i + part.len()) == part
}

/// A text has another in it.
pub open spec fn has(text: Seq<char>, part: Seq<char>) -> bool {
    exists|i: int| #[trigger] has_at(text, part, i)
}

/// Whether a text has another in it.
pub fn contains(text: &str, part: &str) -> (yes: bool)
    ensures
        yes == has(text@, part@),
{
    let t = chars_of(text);
    let p = chars_of(part);
    if p.len() > t.len() {
        return false;
    }
    let n = t.len();
    let last = n - p.len();
    let mut i: usize = 0;
    loop
        invariant
            t@ == text@,
            p@ == part@,
            p@.len() <= n,
            n == t@.len(),
            last == n - p@.len(),
            i <= last,
            forall|k: int| 0 <= k < i ==> !(#[trigger] has_at(t@, p@, k)),
        decreases last - i,
    {
        let mut j: usize = 0;
        while j < p.len() && t[i + j] == p[j]
            invariant
                j <= p@.len(),
                i <= last,
                n == t@.len(),
                last == n - p@.len(),
                forall|k: int| 0 <= k < j ==> t@[i + k] == p@[k],
            decreases p@.len() - j,
        {
            j += 1;
        }
        if j == p.len() {
            assert(t@.subrange(i as int, i + p@.len()) =~= p@);
            assert(has_at(t@, p@, i as int));
            return true;
        }
        assert(!has_at(t@, p@, i as int)) by {
            if has_at(t@, p@, i as int) {
                assert(t@.subrange(i as int, i + p@.len())[j as int] == p@[j as int]);
            }
        }
        if i == last {
            assert forall|k: int| !(#[trigger] has_at(t@, p@, k)) by {
            }
            return false;
        }
        i += 1;
    }
}

/// White space, as Unicode has it.
pub open spec fn is_space(c: char) -> bool {
    let n = c as u32;
    ||| 0x9 <= n <= 0xD
    ||| n == 0x20
    ||| n == 0x85
    ||| n == 0xA0
    ||| n == 0x1680
    ||| 0x2000 <= n <= 0x200A
    ||| n == 0x2028
    ||| n == 0x2029
    ||| n == 0x202F
    ||| n == 0x205F
    ||| n == 0x3000
}

/// Whether a character is white space.
fn is_blank(c: char) -> (yes: bool)
    ensures
        yes == is_space(c),
{
    let n = c as u32;
    (0x9 <= n && n <= 0xD) || n == 0x20 || n == 0x85 || n == 0xA0 || n == 0x1680 || (0x2000 <= n && n <= 0x200A) || n == 0x2028
        || n == 0x2029 || n == 0x202F || n == 0x205F || n == 0x3000
}

/// A text without the white space that it starts with.
pub open spec fn trimmed_start(s: Seq<char>) -> Seq<char>
    decreases s.len(),
{
    if s.len() > 0 && is_space(s[0]) {
        trimmed_start(s.skip(1))
    } else {
        s
    }
}

/// A text without the white space that it ends with.
pub open spec fn trimmed_end(s: Seq<char>) -> Seq<char>
    decreases s.len(),
{
    if s.len() > 0 && is_space(s.last()) {
        trimmed_end(s.drop_last())
    } else {
        s
    }
}

/// A text without the white space round it.
pub open spec fn trimmed(s: Seq<char>) -> Seq<char> {
    trimmed_end(trimmed_start(s))
}

/// A text without the white space round it.
pub fn trim(s: &str) -> (r: &str)
    ensures
        r@ == trimmed(s@),
{
    let c = chars_of(s);
    let n = c.len();
    let mut from: usize = 0;
    assert(s@.skip(0) =~= s@);
    while from < n && is_blank(c[from])
        invariant
            from <= n,
            n == c@.len(),
            c@ == s@,
            trimmed_start(s@) == trimmed_start(s@.skip(from as int)),
        decreases n - from,
    {
        assert(s@.skip(from as int)[0] == c@[from as int]);
        assert(s@.skip(from as int).skip(1) =~= s@.skip(from + 1));
        from += 1;
    }
    let ghost rest = s@.skip(from as int);
    proof {
        if from < n {
            assert(rest[0] == c@[from as int]);
        }
        assert(trimmed_start(s@) == rest);
    }
    let mut to = n;
    assert(s@.subrange(from as int, to as int) =~= rest);
    while from < to && is_blank(c[to - 1])
        invariant
            from <= to <= n,
            n == c@.len(),
            c@ == s@,
            rest == s@.skip(from as int),
            trimmed_end(rest) == trimmed_end(s@.subrange(from as int, to as int)),
        decreases to - from,
    {
        let ghost t = s@.subrange(from as int, to as int);
        assert(t.last() == c@[to - 1]);
        assert(t.drop_last() =~= s@.subrange(from as int, to - 1));
        to -= 1;
    }
    proof {
        let t = s@.subrange(from as int, to as int);
        if from < to {
            assert(t.last() == c@[to - 1]);
        }
    }
    s.substring_char(from, to)
}

/// What follows a prefix, if the text has it.
pub fn strip_prefix<'a>(s: &'a str, prefix: &str) -> (r: Option<&'a str>)
    ensures
        r is Some <==> has_at(s@, prefix@, 0),
        match r {
            Some(rest) => rest@ == s@.skip(prefix@.len() as int),
            None => true,
        },
{
    let c = chars_of(s);
    let p = chars_of(prefix);
    if p.len() > c.len() {
        return None;
    }
    let mut k: usize = 0;
    while k < p.len()
        invariant
            k <= p@.len() <= c@.len(),
            c@ == s@,
            p@ == prefix@,
            forall|i: int| 0 <= i < k ==> c@[i] == p@[i],
        decreases p@.len() - k,
    {
        if c[k] != p[k] {
            assert(s@.subrange(0, p@.len() as int)[k as int] != prefix@[k as int]);
            return None;
        }
        k += 1;
    }
    assert(s@.subrange(0, p@.len() as int) =~= prefix@);
    let rest = s.substring_char(p.len(), c.len());
    assert(rest@ =~= s@.skip(prefix@.len() as int));
    Some(rest)
}

/// A text is decimal digits, at least one.
pub open spec fn is_digits(s: Seq<char>) -> bool {
    s.len() > 0 && forall|i: int| 0 <= i < s.len() ==> '0' <= #[trigger] s[i] <= '9'
}

/// What some digits are worth.
pub open spec fn digits_value(s: Seq<char>) -> nat
    decreases s.len(),
{
    if s.len() == 0 {
        0
    } else {
        (digits_value(s.drop_last()) * 10 + (s.last() as int - '0' as int)) as nat
    }
}

/// The digits of a number that may have a plus in front.
pub open spec fn unsigned_part(s: Seq<char>) -> Seq<char> {
    if s.len() > 0 && s[0] == '+' {
        s.skip(1)
    } else {
        s
    }
}

/// The number that a text is: digits, with a plus in front or none, that are no more than a
/// `usize` holds.
pub open spec fn number_in(s: Seq<char>) -> Option<usize> {
    let d = unsigned_part(s);
    if is_digits(d) && digits_value(d) <= usize::MAX {
        Some(digits_value(d) as usize)
    } else {
        None
    }
}

/// The number that a text is.
pub fn parse_number(s: &str) -> (r: Option<usize>)
    ensures
        r == number_in(s@),
{
    let c = chars_of(s);
    let start: usize = if c.len() > 0 && c[0] == '+' {
        1
    } else {
        0
    };
    let ghost d = unsigned_part(s@);
    assert(d =~= s@.skip(start as int));
    if start == c.len() {
        return None;
    }
    let mut v: usize = 0;
    let mut k = start;
    let mut over = false;
    while k < c.len()
        invariant
            start <= k <= c@.len(),
            start <= 1,
            c@ == s@,
            d == s@.skip(start as int),
            d == unsigned_part(s@),
            forall|i: int| 0 <= i < k - start ==> '0' <= #[trigger] d[i] <= '9',
            !over ==> v == digits_value(d.take(k - start)),
            over ==> digits_value(d.take(k - start)) > usize::MAX,
        decreases c@.len() - k,
    {
        let x = c[k];
        assert(d[k - start] == x);
        if x < '0' || x > '9' {
            assert(!('0' <= d[k - start] <= '9'));
            assert(!is_digits(d));
            return None;
        }
        proof {
            let t = d.take(k + 1 - start);
            assert(t.drop_last() =~= d.take(k - start));
            assert(t.last() == x);
        }
        let digit = (x as u32 - '0' as u32) as usize;
        if over || v > (usize::MAX - digit) / 10 {
            over = true;
        } else {
            v = v * 10 + digit;
        }
        k += 1;
    }
    assert(d.take(k - start) =~= d);
    if over {
        None
    } else {
        Some(v)
    }
}

/// Whether two texts are the same.
pub fn same(a: &str, b: &str) -> (yes: bool)
    ensures
        yes == (a@ == b@),
{
    let (x, y) = (a.to_owned(), b.to_owned());
    x == y
}

/// A number in decimal is digits, and they are worth that number.
pub proof fn decimal_reads_back(n: nat)
    ensures
        is_digits(decimal(n)),
        digits_value(decimal(n)) == n,
        decimal(n)[0] != '+',
    decreases n,
{
    let d = decimal(n);
    if n < 10 {
        assert(d.drop_last() =~= Seq::<char>::empty());
        assert(digits_value(d.drop_last()) == 0);
    } else {
        decimal_reads_back(n / 10);
        assert(d.drop_last() =~= decimal(n / 10));
        assert(d[0] == decimal(n / 10)[0]);
    }
}

} // verus!
