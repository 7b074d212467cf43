//! Text: the operations on strings that the rest of the library is stated in.
use vstd::prelude::*;

verus! {

/// Whether two strings hold the same characters.
pub fn same(a: &str, b: &str) -> (r: bool)
    ensures
        r == (a@ == b@),
{
    let n: usize = a.unicode_len();
    if n != b.unicode_len() {
        return false;
    }
    let mut i: usize = 0;
    while i < n
        invariant
            i <= n,
            n == a@.len(),
            n == b@.len(),
            forall|j: int| 0 <= j < i ==> a@[j] == b@[j],
        decreases n - i,
    {
        if a.get_char(i) != b.get_char(i) {
            return false;
        }
        i += 1;
    }
    proof {
        assert(a@ =~= b@);
    }
    true
}

/// What follows `prefix` in `s`, where `s` begins with it.
pub fn strip_prefix<'a>(s: &'a str, prefix: &str) -> (r: Option<&'a str>)
    ensures
        r is Some == prefix@.is_prefix_of(s@),
        r matches Some(rest) ==> rest@ == s@.skip(prefix@.len() as int),
{
    let n: usize = s.unicode_len();
    let m: usize = prefix.unicode_len();
    if m > n {
        return None;
    }
    if same(s.substring_char(0, m), prefix) {
        Some(s.substring_char(m, n))
    } else {
        None
    }
}

/// What precedes `suffix` in `s`, where `s` ends with it.
pub fn strip_suffix<'a>(s: &'a str, suffix: &str) -> (r: Option<&'a str>)
    ensures
        r is Some == suffix@.is_suffix_of(s@),
        r matches Some(rest) ==> rest@ == s@.take(s@.len() - suffix@.len()),
{
    let n: usize = s.unicode_len();
    let m: usize = suffix.unicode_len();
    if m > n {
        return None;
    }
    if same(s.substring_char(n - m, n), suffix) {
        Some(s.substring_char(0, n - m))
    } else {
        None
    }
}

/// What stands between `prefix` and `suffix`, where `s` is the three of them.
pub open spec fn middle(s: Seq<char>, prefix: Seq<char>, suffix: Seq<char>) -> Option<Seq<char>> {
    let rest = s.skip(prefix.len() as int);
    if prefix.is_prefix_of(s) && suffix.is_suffix_of(rest) {
        Some(rest.take(rest.len() - suffix.len()))
    } else {
        None
    }
}

/// What stands between `prefix` and `suffix`, where `s` is the three of them.
pub fn between<'a>(s: &'a str, prefix: &str, suffix: &str) -> (r: Option<&'a str>)
    ensures
        match middle(s@, prefix@, suffix@) {
            Some(m) => r is Some && r->0@ == m,
            None => r is None,
        },
{
    match strip_prefix(s, prefix) {
        Some(rest) => strip_suffix(rest, suffix),
        None => None,
    }
}

/// Two strings, one after the other.
pub fn joined(a: &str, b: &str) -> (r: String)
    ensures
        r@ == a@ + b@,
{
    a.to_owned().concat(b)
}

/// Three strings, one after the other.
pub fn joined3(a: &str, b: &str, c: &str) -> (r: String)
    ensures
        r@ == a@ + b@ + c@,
{
    a.to_owned().concat(b).concat(c)
}

/// So many spaces.
pub open spec fn spaces(n: nat) -> Seq<char> {
    Seq::new(n, |i: int| ' ')
}

fn blank(n: usize) -> (r: String)
    ensures
        r@ == spaces(n as nat),
{
    let mut r: String = String::new();
    let mut i: usize = 0;
    assert(r@ =~= spaces(0));
    while i < n
        invariant
            i <= n,
            r@ == spaces(i as nat),
        decreases n - i,
    {
        proof {
            reveal_strlit(" ");
        }
        r.append(" ");
        i += 1;
        assert(r@ =~= spaces(i as nat));
    }
    r
}

/// The text with spaces behind it, at least `n` characters in all.
pub open spec fn filled_right(s: Seq<char>, n: int) -> Seq<char> {
    if s.len() < n {
        s + spaces((n - s.len()) as nat)
    } else {
        s
    }
}

/// The text with spaces in front of it, at least `n` characters in all.
pub open spec fn filled_left(s: Seq<char>, n: int) -> Seq<char> {
    if s.len() < n {
        spaces((n - s.len()) as nat) + s
    } else {
        s
    }
}

/// The text with spaces behind it, at least `n` characters in all.
pub fn fill_right(s: &str, n: usize) -> (r: String)
    ensures
        r@ == filled_right(s@, n as int),
{
    let m: usize = s.unicode_len();
    if m < n {
        joined(s, blank(n - m).as_str())
    } else {
        s.to_owned()
    }
}

/// The text with spaces in front of it, at least `n` characters in all.
pub fn fill_left(s: &str, n: usize) -> (r: String)
    ensures
        r@ == filled_left(s@, n as int),
{
    let m: usize = s.unicode_len();
    if m < n {
        joined(blank(n - m).as_str(), s)
    } else {
        s.to_owned()
    }
}

/// White space, by the Unicode property of that name.
pub open spec fn is_white(c: char) -> bool {
    let n = c as int;
    ||| 0x9 <= n <= 0xd
    ||| n == 0x20
    ||| n == 0x85
    ||| n == 0xa0
    ||| n == 0x1680
    ||| 0x2000 <= n <= 0x200a
    ||| n == 0x2028
    ||| n == 0x2029
    ||| n == 0x202f
    ||| n == 0x205f
    ||| n == 0x3000
}

fn white(c: char) -> (r: bool)
    ensures
        r == is_white(c),
{
    let n: u32 = c as u32;
    (0x9 <= n && n <= 0xd) || n == 0x20 || n == 0x85 || n == 0xa0 || n == 0x1680 || (0x2000 <= n
        && n <= 0x200a) || n == 0x2028 || n == 0x2029 || n == 0x202f || n == 0x205f || n == 0x3000
}

/// The text without the white space at its two ends.
pub open spec fn trimmed(s: Seq<char>) -> Seq<char>
    decreases s.len(),
{
    if s.len() > 0 && is_white(s.first()) {
        trimmed(s.drop_first())
    } else if s.len() > 0 && is_white(s.last()) {
        trimmed(s.drop_last())
    } else {
        s
    }
}

/// The text without the white space at its two ends.
pub fn trim(s: &str) -> (r: &str)
    ensures
        r@ == trimmed(s@),
{
    let n: usize = s.unicode_len();
    let mut i: usize = 0;
    assert(s@.subrange(0, n as int) =~= s@);
    while i < n && white(s.get_char(i))
        invariant
            i <= n,
            n == s@.len(),
            trimmed(s@.subrange(i as int, n as int)) == trimmed(s@),
        decreases n - i,
    {
        assert(s@.subrange(i as int, n as int).drop_first() =~= s@.subrange(i + 1, n as int));
        i += 1;
    }
    let mut j: usize = n;
    while j > i && white(s.get_char(j - 1))
        invariant
            i <= j <= n,
            n == s@.len(),
            j > i ==> !is_white(s@[i as int]),
            trimmed(s@.subrange(i as int, j as int)) == trimmed(s@),
        decreases j,
    {
        assert(s@.subrange(i as int, j as int).drop_last() =~= s@.subrange(i as int, j - 1));
        j -= 1;
    }
    s.substring_char(i, j)
}

/// Whether `a` stands before `b` in the order of their characters, which is also that of
/// their UTF-8 bytes.
pub open spec fn before(a: Seq<char>, b: Seq<char>) -> bool
    decreases a.len(),
{
    if b.len() == 0 {
        false
    } else if a.len() == 0 {
        true
    } else if a[0] != b[0] {
        (a[0] as int) < (b[0] as int)
    } else {
        before(a.drop_first(), b.drop_first())
    }
}

/// Whether `a` stands before `b`.
pub fn precedes(a: &str, b: &str) -> (r: bool)
    ensures
        r == before(a@, b@),
{
    let n: usize = a.unicode_len();
    let m: usize = b.unicode_len();
    let mut i: usize = 0;
    assert(a@.skip(0) =~= a@);
    assert(b@.skip(0) =~= b@);
    while i < n && i < m
        invariant
            i <= n,
            i <= m,
            n == a@.len(),
            m == b@.len(),
            before(a@.skip(i as int), b@.skip(i as int)) == before(a@, b@),
        decreases n - i,
    {
        let x: char = a.get_char(i);
        let y: char = b.get_char(i);
        assert(a@.skip(i as int).drop_first() =~= a@.skip(i + 1));
        assert(b@.skip(i as int).drop_first() =~= b@.skip(i + 1));
        if x != y {
            return (x as u32) < (y as u32);
        }
        i += 1;
    }
    i < m
}

pub proof fn lemma_before_irreflexive(a: Seq<char>)
    ensures
        !before(a, a),
    decreases a.len(),
{
    if a.len() > 0 {
        lemma_before_irreflexive(a.drop_first());
    }
}

pub proof fn lemma_before_transitive(a: Seq<char>, b: Seq<char>, c: Seq<char>)
    requires
        before(a, b),
        before(b, c),
    ensures
        before(a, c),
    decreases a.len(),
{
    if a.len() > 0 && b.len() > 0 && c.len() > 0 && a[0] == b[0] && b[0] == c[0] {
        lemma_before_transitive(a.drop_first(), b.drop_first(), c.drop_first());
    }
}

pub proof fn lemma_before_total(a: Seq<char>, b: Seq<char>)
    ensures
        a == b || before(a, b) || before(b, a),
    decreases a.len(),
{
    if a.len() == 0 && b.len() == 0 {
        assert(a =~= b);
    } else if a.len() > 0 && b.len() > 0 && a[0] == b[0] {
        lemma_before_total(a.drop_first(), b.drop_first());
        if a.drop_first() == b.drop_first() {
            assert(a =~= seq![a[0]] + a.drop_first());
            assert(b =~= seq![b[0]] + b.drop_first());
        }
    }
}

/// A decimal digit.
pub open spec fn is_digit(c: char) -> bool {
    0x30 <= c as int <= 0x39
}

/// The number that decimal digits write.
pub open spec fn digits_value(s: Seq<char>) -> int
    decreases s.len(),
{
    if s.len() == 0 {
        0
    } else {
        10 * digits_value(s.drop_last()) + (s.last() as int - 0x30)
    }
}

/// The number that `s` writes as one or more decimal digits.
pub open spec fn unsigned_value(s: Seq<char>) -> Option<int> {
    if s.len() > 0 && (forall|i: int| 0 <= i < s.len() ==> is_digit(#[trigger] s[i])) {
        Some(digits_value(s))
    } else {
        None
    }
}

/// The number that `s` writes: decimal digits behind an optional sign.
pub open spec fn integer_value(s: Seq<char>) -> Option<int> {
    if s.len() > 0 && s[0] == '+' {
        unsigned_value(s.skip(1))
    } else if s.len() > 0 && s[0] == '-' {
        match unsigned_value(s.skip(1)) {
            Some(n) => Some(-n),
            None => None,
        }
    } else {
        unsigned_value(s)
    }
}

/// The number that `s` writes: decimal digits behind an optional plus sign.
pub open spec fn natural_value(s: Seq<char>) -> Option<int> {
    if s.len() > 0 && s[0] == '+' {
        unsigned_value(s.skip(1))
    } else {
        unsigned_value(s)
    }
}

/// More digits never write a smaller number.
proof fn lemma_digits_grow(s: Seq<char>, i: int)
    requires
        0 <= i <= s.len(),
        forall|j: int| 0 <= j < s.len() ==> is_digit(#[trigger] s[j]),
    ensures
        0 <= digits_value(s.take(i)) <= digits_value(s),
    decreases s.len(),
{
    if i == s.len() {
        assert(s.take(i) =~= s);
        if s.len() > 0 {
            lemma_digits_grow(s.drop_last(), s.len() - 1);
            assert(s.drop_last().take(s.len() - 1) =~= s.drop_last());
        }
    } else {
        lemma_digits_grow(s.drop_last(), i);
        assert(s.drop_last().take(i) =~= s.take(i));
        assert(is_digit(s[s.len() - 1]));
    }
}

/// The number that the digits of `s` from `from` on write, where it is at most `u64::MAX`.
fn parse_digits(s: &str, from: usize) -> (r: Option<u64>)
    requires
        from <= s@.len(),
    ensures
        r matches Some(n) ==> unsigned_value(s@.skip(from as int)) == Some(n as int),
        r is None ==> (unsigned_value(s@.skip(from as int)) matches Some(n) ==> n > u64::MAX),
{
    let n: usize = s.unicode_len();
    if from == n {
        return None;
    }
    let ghost t = s@.skip(from as int);
    let mut acc: u128 = 0;
    let mut i: usize = from;
    assert(t.take(0) =~= Seq::<char>::empty());
    while i < n
        invariant
            from <= i <= n,
            n == s@.len(),
            t == s@.skip(from as int),
            acc <= u64::MAX,
            acc == digits_value(t.take(i - from)),
            forall|j: int| 0 <= j < i - from ==> is_digit(#[trigger] t[j]),
        decreases n - i,
    {
        let c: u32 = s.get_char(i) as u32;
        assert(t[i - from] == s@[i as int]);
        if c < 0x30 || c > 0x39 {
            assert(!is_digit(t[i - from]));
            return None;
        }
        acc = acc * 10 + (c - 0x30) as u128;
        assert(t.take(i + 1 - from).drop_last() =~= t.take(i - from));
        i += 1;
        if acc > u64::MAX as u128 {
            proof {
                if unsigned_value(t) is Some {
                    lemma_digits_grow(t, i - from);
                }
            }
            return None;
        }
    }
    assert(t.take(n - from) =~= t);
    Some(acc as u64)
}

/// The number that `s` writes as decimal digits behind an optional sign, where it is in range.
pub fn parse_i64(s: &str) -> (r: Option<i64>)
    ensures
        r == (match integer_value(s@) {
            Some(n) => if i64::MIN <= n <= i64::MAX {
                Some(n as i64)
            } else {
                None
            },
            None => None,
        }),
{
    let n: usize = s.unicode_len();
    let mut from: usize = 0;
    let mut neg: bool = false;
    assert(s@.skip(0) =~= s@);
    if n > 0 {
        let c: char = s.get_char(0);
        if c == '+' {
            from = 1;
        } else if c == '-' {
            from = 1;
            neg = true;
        }
    }
    match parse_digits(s, from) {
        None => {
            proof {
                if let Some(v) = unsigned_value(s@.skip(from as int)) {
                    lemma_digits_grow(s@.skip(from as int), 0);
                }
            }
            None
        },
        Some(m) => {
            if neg {
                if m <= 0x7fff_ffff_ffff_ffff {
                    Some(-(m as i64))
                } else if m == 0x8000_0000_0000_0000 {
                    Some(i64::MIN)
                } else {
                    None
                }
            } else {
                if m <= 0x7fff_ffff_ffff_ffff {
                    Some(m as i64)
                } else {
                    None
                }
            }
        },
    }
}

/// The number that `s` writes as decimal digits behind an optional plus sign, where it is
/// in range.
pub fn parse_u64(s: &str) -> (r: Option<u64>)
    ensures
        natural_value(s@) matches Some(n) ==> n >= 0,
        r == (match natural_value(s@) {
            Some(n) => if n <= u64::MAX {
                Some(n as u64)
            } else {
                None
            },
            None => None,
        }),
{
    let n: usize = s.unicode_len();
    let mut from: usize = 0;
    assert(s@.skip(0) =~= s@);
    if n > 0 && s.get_char(0) == '+' {
        from = 1;
    }
    proof {
        if unsigned_value(s@.skip(from as int)) is Some {
            lemma_digits_grow(s@.skip(from as int), 0);
        }
    }
    parse_digits(s, from)
}

/// The decimal digits of `n`.
pub open spec fn decimal(n: nat) -> Seq<char>
    decreases n,
{
    if n < 10 {
        seq![(0x30 + n) as char]
    } else {
        decimal(n / 10).push((0x30 + n % 10) as char)
    }
}

fn digit(n: u64) -> (r: &'static str)
    requires
        n < 10,
    ensures
        r@ == seq![(0x30 + n) as char],
{
    proof {
        reveal_strlit("0");
        reveal_strlit("1");
        reveal_strlit("2");
        reveal_strlit("3");
        reveal_strlit("4");
        reveal_strlit("5");
        reveal_strlit("6");
        reveal_strlit("7");
        reveal_strlit("8");
        reveal_strlit("9");
    }
    let r: &'static str = match n {
        0 => "0",
        1 => "1",
        2 => "2",
        3 => "3",
        4 => "4",
        5 => "5",
        6 => "6",
        7 => "7",
        8 => "8",
        _ => "9",
    };
    assert(r@ =~= seq![(0x30 + n) as char]);
    r
}

/// `n` written in decimal digits.
pub fn decimal_text(n: u64) -> (r: String)
    ensures
        r@ == decimal(n as nat),
    decreases n,
{
    if n < 10 {
        digit(n).to_owned()
    } else {
        let r: String = decimal_text(n / 10).concat(digit(n % 10));
        assert(r@ =~= decimal((n / 10) as nat).push((0x30 + n % 10) as char));
        r
    }
}

/// Decimal digits are digits, and write the number they were made of.
pub proof fn lemma_decimal_reads_back(n: nat)
    ensures
        unsigned_value(decimal(n)) == Some(n as int),
        integer_value(decimal(n)) == Some(n as int),
        trimmed(decimal(n)) == decimal(n),
{
    lemma_decimal_digits(n);
    let s = decimal(n);
    assert(is_digit(s[0]));
    assert(is_digit(s[s.len() - 1]));
}

proof fn lemma_decimal_digits(n: nat)
    ensures
        decimal(n).len() > 0,
        forall|i: int| 0 <= i < decimal(n).len() ==> is_digit(#[trigger] decimal(n)[i]),
        digits_value(decimal(n)) == n,
    decreases n,
{
    let s = decimal(n);
    if n < 10 {
        assert(s.drop_last() =~= Seq::<char>::empty());
        assert(s.last() == (0x30 + n) as char);
        assert(digits_value(s.drop_last()) == 0);
    } else {
        lemma_decimal_digits(n / 10);
        assert(s.drop_last() =~= decimal(n / 10));
    }
}

/// The texts of `list` one after the other, with `sep` between each two.
pub open spec fn separated(list: Seq<Seq<char>>, sep: Seq<char>) -> Seq<char>
    decreases list.len(),
{
    if list.len() == 0 {
        Seq::empty()
    } else if list.len() == 1 {
        list[0]
    } else {
        separated(list.drop_last(), sep) + sep + list.last()
    }
}

/// The characters of each string of a list.
pub open spec fn texts(list: Seq<String>) -> Seq<Seq<char>> {
    list.map_values(|s: String| s@)
}

/// The strings of `list` one after the other, with `sep` between each two.
pub fn join(list: &Vec<String>, sep: &str) -> (r: String)
    ensures
        r@ == separated(texts(list@), sep@),
{
    let mut r: String = String::new();
    let mut i: usize = 0;
    assert(texts(list@).take(0) =~= Seq::<Seq<char>>::empty());
    while i < list.len()
        invariant
            i <= list@.len(),
            r@ == separated(texts(list@).take(i as int), sep@),
        decreases list@.len() - i,
    {
        if i > 0 {
            r.append(sep);
        }
        r.append(list[i].as_str());
        assert(texts(list@).take(i + 1).drop_last() =~= texts(list@).take(i as int));
        assert(texts(list@).take(i + 1).last() == list@[i as int]@);
        assert(r@ =~= separated(texts(list@).take(i + 1), sep@));
        i += 1;
    }
    assert(texts(list@).take(i as int) =~= texts(list@));
    r
}

/// What stands between a prefix and a suffix is what the text is made of with the two of them,
/// and nothing stands there where the text is made of no such thing.
pub proof fn law_the_middle_is_what_is_left(s: Seq<char>, prefix: Seq<char>, suffix: Seq<char>)
    ensures
        forall|m: Seq<char>|
            s == #[trigger] (prefix + m + suffix) ==> middle(s, prefix, suffix) == Some(m),
        middle(s, prefix, suffix) matches Some(m) ==> s == prefix + m + suffix,
{
    assert forall|m: Seq<char>| s == #[trigger] (prefix + m + suffix) implies middle(
        s,
        prefix,
        suffix,
    ) == Some(m) by {
        assert(s.take(prefix.len() as int) =~= prefix);
        let rest = s.skip(prefix.len() as int);
        assert(rest =~= m + suffix);
        assert(rest.skip(rest.len() - suffix.len()) =~= suffix);
        assert(rest.take(rest.len() - suffix.len()) =~= m);
    }
    if let Some(m) = middle(s, prefix, suffix) {
        let rest = s.skip(prefix.len() as int);
        assert(rest =~= m + suffix);
        assert(s =~= prefix + m + suffix);
    }
}

/// Trimming takes white space off the two ends of a text, all of it, and nothing else.
pub proof fn law_trimming_takes_white_space_off_the_ends(s: Seq<char>) -> (ends: (nat, nat))
    ensures
        ({
            let (a, b) = ends;
            &&& a <= b <= s.len()
            &&& trimmed(s) == s.subrange(a as int, b as int)
            &&& forall|i: int| 0 <= i < a ==> is_white(#[trigger] s[i])
            &&& forall|i: int| b <= i < s.len() ==> is_white(#[trigger] s[i])
            &&& a < b ==> !is_white(s[a as int]) && !is_white(s[b - 1])
        }),
    decreases s.len(),
{
    if s.len() > 0 && is_white(s.first()) {
        let rest = s.drop_first();
        let (a, b) = law_trimming_takes_white_space_off_the_ends(rest);
        assert(rest.subrange(a as int, b as int) =~= s.subrange(a as int + 1, b as int + 1));
        assert forall|i: int| 0 <= i < a + 1 implies is_white(#[trigger] s[i]) by {
            if i > 0 {
                assert(rest[i - 1] == s[i]);
            }
        }
        assert forall|i: int| b + 1 <= i < s.len() implies is_white(#[trigger] s[i]) by {
            assert(rest[i - 1] == s[i]);
        }
        ((a + 1) as nat, (b + 1) as nat)
    } else if s.len() > 0 && is_white(s.last()) {
        let rest = s.drop_last();
        let (a, b) = law_trimming_takes_white_space_off_the_ends(rest);
        assert(rest.subrange(a as int, b as int) =~= s.subrange(a as int, b as int));
        assert forall|i: int| 0 <= i < a implies is_white(#[trigger] s[i]) by {
            assert(rest[i] == s[i]);
        }
        assert forall|i: int| b <= i < s.len() implies is_white(#[trigger] s[i]) by {
            if i < rest.len() {
                assert(rest[i] == s[i]);
            }
        }
        (a, b)
    } else {
        assert(s.subrange(0, s.len() as int) =~= s);
        (0, s.len())
    }
}

/// A text that begins and ends with what is not white space is what is left of it, whatever white
/// space is put around it.
pub proof fn law_white_space_around_a_text_is_trimmed(
    left: Seq<char>,
    s: Seq<char>,
    right: Seq<char>,
)
    requires
        forall|i: int| 0 <= i < left.len() ==> is_white(#[trigger] left[i]),
        forall|i: int| 0 <= i < right.len() ==> is_white(#[trigger] right[i]),
        s.len() > 0 ==> !is_white(s.first()) && !is_white(s.last()),
    ensures
        trimmed(left + s + right) == s,
    decreases left.len() + right.len(),
{
    let all = left + s + right;
    if left.len() > 0 {
        assert(all.first() == left[0]);
        let rest = left.drop_first();
        assert forall|i: int| 0 <= i < rest.len() implies is_white(#[trigger] rest[i]) by {
            assert(rest[i] == left[i + 1]);
        }
        assert(all.drop_first() =~= rest + s + right);
        law_white_space_around_a_text_is_trimmed(rest, s, right);
    } else if right.len() > 0 {
        let rest = right.drop_last();
        assert forall|i: int| 0 <= i < rest.len() implies is_white(#[trigger] rest[i]) by {
            assert(rest[i] == right[i]);
        }
        assert(all.last() == right[right.len() - 1]);
        if s.len() > 0 {
            assert(all.first() == s.first());
            assert(all.drop_last() =~= left + s + rest);
            law_white_space_around_a_text_is_trimmed(left, s, rest);
        } else {
            assert(all =~= right);
            assert(all.first() == right[0]);
            let tail = right.drop_first();
            assert forall|i: int| 0 <= i < tail.len() implies is_white(#[trigger] tail[i]) by {
                assert(tail[i] == right[i + 1]);
            }
            assert(all.drop_first() =~= left + s + tail);
            law_white_space_around_a_text_is_trimmed(left, s, tail);
        }
    } else {
        assert(all =~= s);
    }
}

/// What is white space.
pub proof fn law_white_space_is_what_unicode_says(c: char)
    ensures
        is_white(c) <==> {
            ||| c == ' '
            ||| '\u{9}' <= c <= '\u{d}'
            ||| c == '\u{85}' || c == '\u{a0}' || c == '\u{1680}'
            ||| '\u{2000}' <= c <= '\u{200a}'
            ||| c == '\u{2028}' || c == '\u{2029}' || c == '\u{202f}'
            ||| c == '\u{205f}' || c == '\u{3000}'
        },
{
}

/// One text stands before another exactly where the two agree up to some place, and there the one
/// has ended and the other has not, or has the lesser character.
pub proof fn law_texts_are_ordered_by_where_they_first_differ(a: Seq<char>, b: Seq<char>)
    ensures
        before(a, b) <==> exists|k: int|
            {
                &&& 0 <= k <= a.len()
                &&& k < b.len()
                &&& #[trigger] a.take(k) == b.take(k)
                &&& k < a.len() ==> (a[k] as int) < (b[k] as int)
            },
    decreases a.len(),
{
    if b.len() > 0 {
        if a.len() == 0 {
            assert(a.take(0) =~= b.take(0));
        } else if a[0] != b[0] {
            assert(a.take(0) =~= b.take(0));
            if exists|k: int|
                {
                    &&& 0 <= k <= a.len()
                    &&& k < b.len()
                    &&& #[trigger] a.take(k) == b.take(k)
                    &&& k < a.len() ==> (a[k] as int) < (b[k] as int)
                } {
                let k = choose|k: int|
                    {
                        &&& 0 <= k <= a.len()
                        &&& k < b.len()
                        &&& #[trigger] a.take(k) == b.take(k)
                        &&& k < a.len() ==> (a[k] as int) < (b[k] as int)
                    };
                if k > 0 {
                    assert(a.take(k)[0] == a[0] && b.take(k)[0] == b[0]);
                }
            }
        } else {
            let x = a.drop_first();
            let y = b.drop_first();
            law_texts_are_ordered_by_where_they_first_differ(x, y);
            if before(x, y) {
                let k = choose|k: int|
                    {
                        &&& 0 <= k <= x.len()
                        &&& k < y.len()
                        &&& #[trigger] x.take(k) == y.take(k)
                        &&& k < x.len() ==> (x[k] as int) < (y[k] as int)
                    };
                assert(a.take(k + 1) =~= seq![a[0]] + x.take(k));
                assert(b.take(k + 1) =~= seq![b[0]] + y.take(k));
                assert(a.take(k + 1) == b.take(k + 1));
            }
            if exists|k: int|
                {
                    &&& 0 <= k <= a.len()
                    &&& k < b.len()
                    &&& #[trigger] a.take(k) == b.take(k)
                    &&& k < a.len() ==> (a[k] as int) < (b[k] as int)
                } {
                let k = choose|k: int|
                    {
                        &&& 0 <= k <= a.len()
                        &&& k < b.len()
                        &&& #[trigger] a.take(k) == b.take(k)
                        &&& k < a.len() ==> (a[k] as int) < (b[k] as int)
                    };
                assert(k > 0);
                assert(x.take(k - 1) =~= a.take(k).drop_first());
                assert(y.take(k - 1) =~= b.take(k).drop_first());
                assert(x.take(k - 1) == y.take(k - 1));
            }
        }
    } else {
        assert forall|k: int| 0 <= k <= a.len() implies !(k < b.len() && #[trigger] a.take(k)
            == b.take(k)) by {}
    }
}

/// Decimal digits are written and read by tens: one more digit behind a number makes it ten times
/// as much and the digit.
pub proof fn law_digits_count_by_tens(n: nat, d: nat, s: Seq<char>, c: char)
    requires
        d < 10,
    ensures
        decimal(d) == seq![(0x30 + d) as char],
        n > 0 ==> decimal(10 * n + d) == decimal(n) + seq![(0x30 + d) as char],
        digits_value(s.push(c)) == 10 * digits_value(s) + (c as int - 0x30),
        digits_value(Seq::empty()) == 0,
{
    assert(s.push(c).drop_last() =~= s);
    assert((10 * n + d) / 10 == n && (10 * n + d) % 10 == d);
    assert(n > 0 ==> decimal(n).push((0x30 + d) as char) =~= decimal(n) + seq![
        (0x30 + d) as char,
    ]);
}

/// A text writes a number exactly where it is one digit or more, and nothing else, behind a sign
/// or none; with a minus sign it writes the negative one.
pub proof fn law_a_number_is_digits_behind_a_sign(s: Seq<char>)
    ensures
        ({
            let digits = s.len() > 0 && forall|i: int|
                0 <= i < s.len() ==> '0' <= (#[trigger] s[i]) <= '9';
            &&& unsigned_value(s) == (if digits {
                Some(digits_value(s))
            } else {
                None
            })
            &&& digits ==> integer_value(s) == Some(digits_value(s))
            &&& digits ==> natural_value(s) == Some(digits_value(s))
            &&& integer_value(seq!['+'] + s) == unsigned_value(s)
            &&& natural_value(seq!['+'] + s) == unsigned_value(s)
            &&& integer_value(seq!['-'] + s) == (if digits {
                Some(-digits_value(s))
            } else {
                None
            })
            &&& natural_value(seq!['-'] + s) is None
            &&& !digits && !(s.len() > 0 && (s[0] == '+' || s[0] == '-')) ==> integer_value(
                s,
            ) is None && natural_value(s) is None
        }),
{
    assert((seq!['+'] + s).skip(1) =~= s);
    assert((seq!['-'] + s).skip(1) =~= s);
    let minus = seq!['-'] + s;
    assert(minus[0] == '-');
    assert(!is_digit(minus[0]));
    if s.len() > 0 && forall|i: int| 0 <= i < s.len() ==> is_digit(#[trigger] s[i]) {
        assert(is_digit(s[0]));
    }
    let digits = s.len() > 0 && forall|i: int|
        0 <= i < s.len() ==> '0' <= (#[trigger] s[i]) <= '9';
    if digits {
        assert forall|i: int| 0 <= i < s.len() implies is_digit(#[trigger] s[i]) by {
            assert('0' <= s[i] <= '9');
        }
    } else if s.len() > 0 {
        let i = choose|i: int| 0 <= i < s.len() && !('0' <= (#[trigger] s[i]) <= '9');
        assert(!is_digit(s[i]));
    }
}

/// A text that is filled up is as long as it is to be, or as it was, begins or ends with what it
/// was, and has spaces for the rest.
pub proof fn law_a_text_is_filled_up_with_spaces(s: Seq<char>, n: int)
    ensures
        ({
            let right = filled_right(s, n);
            let left = filled_left(s, n);
            let len = if s.len() < n {
                n
            } else {
                s.len() as int
            };
            &&& right.len() == len && left.len() == len
            &&& right.take(s.len() as int) == s
            &&& left.skip(len - s.len()) == s
            &&& forall|i: int| s.len() <= i < len ==> #[trigger] right[i] == ' '
            &&& forall|i: int| 0 <= i < len - s.len() ==> #[trigger] left[i] == ' '
        }),
{
    let right = filled_right(s, n);
    let left = filled_left(s, n);
    assert(right.take(s.len() as int) =~= s);
    assert(left.skip(left.len() - s.len()) =~= s);
}

/// Texts are put one after the other, with the separator between each two and nowhere else.
pub proof fn law_texts_are_separated_between_each_two(
    a: Seq<Seq<char>>,
    b: Seq<Seq<char>>,
    x: Seq<char>,
    sep: Seq<char>,
)
    ensures
        separated(Seq::empty(), sep) == Seq::<char>::empty(),
        separated(seq![x], sep) == x,
        a.len() > 0 && b.len() > 0 ==> separated(a + b, sep) == separated(a, sep) + sep + separated(
            b,
            sep,
        ),
    decreases b.len(),
{
    if a.len() > 0 && b.len() > 0 {
        let all = a + b;
        assert(all.last() == b.last());
        assert(all.drop_last() =~= a + b.drop_last());
        if b.len() == 1 {
            assert(a + b.drop_last() =~= a);
            assert(b.last() == b[0]);
        } else {
            law_texts_are_separated_between_each_two(a, b.drop_last(), x, sep);
            assert(separated(all, sep) =~= separated(a, sep) + sep + separated(b, sep));
        }
    }
}

/// The texts of a list are those of its strings, in their order.
pub proof fn law_the_texts_of_a_list(list: Seq<String>, i: int)
    requires
        0 <= i < list.len(),
    ensures
        texts(list).len() == list.len(),
        texts(list)[i] == list[i]@,
{
}

} // verus!
