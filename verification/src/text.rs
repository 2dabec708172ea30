//! Text operations over the characters of a string.
//!
//! Every contract speaks of the view of a string, the sequence of its characters.
use vstd::prelude::*;

verus! {

/// `p` stands in `s` at position `i`.
pub open spec fn occurs_at(s: Seq<char>, p: Seq<char>, i: int) -> bool {
    0 <= i && i + p.len() <= s.len() && s.subrange(i, i + p.len()) == p
}

/// The first position of `p` in `s` that is not before `from`.
pub open spec fn find_from(s: Seq<char>, p: Seq<char>, from: int) -> Option<int>
    decreases s.len() - from,
{
    if from < 0 || from + p.len() > s.len() || from > s.len() {
        None
    } else if occurs_at(s, p, from) {
        Some(from)
    } else if from < s.len() {
        find_from(s, p, from + 1)
    } else {
        None
    }
}

/// The first position of `p` in `s`.
pub open spec fn find(s: Seq<char>, p: Seq<char>) -> Option<int> {
    find_from(s, p, 0)
}

/// The longest prefix of `s` whose characters all satisfy `keep`.
pub open spec fn prefix_while(s: Seq<char>, keep: spec_fn(char) -> bool) -> Seq<char>
    decreases s.len(),
{
    if s.len() > 0 && keep(s[0]) {
        seq![s[0]] + prefix_while(s.drop_first(), keep)
    } else {
        Seq::empty()
    }
}

/// The characters that carry the Unicode property `White_Space`.
pub open spec fn is_white_space(c: char) -> bool {
    ||| '\u{9}' <= c <= '\u{d}'
    ||| c == ' '
    ||| c == '\u{85}'
    ||| c == '\u{a0}'
    ||| c == '\u{1680}'
    ||| '\u{2000}' <= c <= '\u{200a}'
    ||| c == '\u{2028}'
    ||| c == '\u{2029}'
    ||| c == '\u{202f}'
    ||| c == '\u{205f}'
    ||| c == '\u{3000}'
}

/// ASCII letters and digits.
pub open spec fn is_alphanumeric(c: char) -> bool {
    '0' <= c <= '9' || 'a' <= c <= 'z' || 'A' <= c <= 'Z'
}

/// `s` without its leading white space.
pub open spec fn trim_start(s: Seq<char>) -> Seq<char>
    decreases s.len(),
{
    if s.len() > 0 && is_white_space(s[0]) {
        trim_start(s.drop_first())
    } else {
        s
    }
}

/// `s` without its trailing white space.
pub open spec fn trim_end(s: Seq<char>) -> Seq<char>
    decreases s.len(),
{
    if s.len() > 0 && is_white_space(s.last()) {
        trim_end(s.drop_last())
    } else {
        s
    }
}

/// The first maximal run of characters that are not white space.
pub open spec fn first_word(s: Seq<char>) -> Option<Seq<char>> {
    let rest = trim_start(s);
    if rest.len() == 0 {
        None
    } else {
        Some(prefix_while(rest, |c: char| !is_white_space(c)))
    }
}

/// The decimal digit of value `d`.
pub open spec fn digit(d: int) -> char {
    "0123456789"@[d]
}

/// The decimal notation of `n`, without leading zeros.
pub open spec fn decimal(n: nat) -> Seq<char>
    decreases n,
{
    if n < 10 {
        seq![digit(n as int)]
    } else {
        decimal(n / 10).push(digit((n % 10) as int))
    }
}

pub open spec fn is_digit(c: char) -> bool {
    '0' <= c <= '9'
}

/// The number that a sequence of decimal digits denotes.
pub open spec fn decimal_value(s: Seq<char>) -> nat
    decreases s.len(),
{
    if s.len() == 0 {
        0
    } else {
        (decimal_value(s.drop_last()) * 10 + (s.last() as u32 - '0' as u32)) as nat
    }
}

pub open spec fn all_digits(s: Seq<char>) -> bool {
    forall|i: int| 0 <= i < s.len() ==> is_digit(#[trigger] s[i])
}

/// `s` without one leading plus sign.
pub open spec fn without_plus(s: Seq<char>) -> Seq<char> {
    if s.len() > 0 && s[0] == '+' {
        s.drop_first()
    } else {
        s
    }
}

/// The number at most `max` that `s` denotes: one or more digits behind an optional plus sign.
pub open spec fn parsed(s: Seq<char>, max: nat) -> Option<nat> {
    let digits = without_plus(s);
    if digits.len() > 0 && all_digits(digits) && decimal_value(digits) <= max {
        Some(decimal_value(digits))
    } else {
        None
    }
}

/// The items one after the other, with `separator` between two neighbours.
pub open spec fn joined(items: Seq<Seq<char>>, separator: Seq<char>) -> Seq<char>
    decreases items.len(),
{
    if items.len() == 0 {
        Seq::empty()
    } else if items.len() == 1 {
        items[0]
    } else {
        joined(items.drop_last(), separator) + separator + items.last()
    }
}

/// Two strings, one after the other.
pub fn concat(a: &str, b: &str) -> (r: String)
    ensures
        r@ == a@ + b@,
{
    let mut r = a.to_owned();
    r.append(b);
    r
}

/// `s` with every space written as `%20`.
pub open spec fn spaces_escaped(s: Seq<char>) -> Seq<char>
    decreases s.len(),
{
    if s.len() == 0 {
        Seq::empty()
    } else {
        spaces_escaped(s.drop_last()) + (if s.last() == ' ' {
            "%20"@
        } else {
            seq![s.last()]
        })
    }
}

/// `s` filled up with spaces on the left to at least `width` characters.
pub open spec fn padded_left(s: Seq<char>, width: nat) -> Seq<char> {
    if s.len() >= width {
        s
    } else {
        Seq::new((width - s.len()) as nat, |i: int| ' ') + s
    }
}

/// The views of a vector of strings.
pub open spec fn views(items: Seq<String>) -> Seq<Seq<char>> {
    Seq::new(items.len(), |i: int| items[i]@)
}

/// The characters of a string.
pub fn chars_of(s: &str) -> (chars: Vec<char>)
    ensures
        chars@ == s@,
{
    let mut chars: Vec<char> = Vec::new();
    for c in it: s.chars()
        invariant
            chars@ == it.seq().take(it.index() as int),
            it.seq() == s@,
    {
        chars.push(c);
    }
    chars
}

/// Whether two strings hold the same characters.
pub fn same_text(a: &str, b: &str) -> (same: bool)
    ensures
        same == (a@ == b@),
{
    a.to_owned() == b.to_owned()
}

fn occurs(s: &Vec<char>, p: &Vec<char>, at: usize) -> (r: bool)
    requires
        at + p@.len() <= s@.len(),
    ensures
        r == occurs_at(s@, p@, at as int),
{
    let total: usize = s.len();
    let mut i: usize = 0;
    while i < p.len()
        invariant
            at + p@.len() <= s@.len(),
            total == s@.len(),
            0 <= i <= p@.len(),
            forall|k: int| 0 <= k < i ==> s@[at + k] == #[trigger] p@[k],
        decreases p@.len() - i,
    {
        if s[at + i] != p[i] {
            assert(s@.subrange(at as int, at + p@.len())[i as int] != p@[i as int]);
            return false;
        }
        i = i + 1;
    }
    assert(s@.subrange(at as int, at + p@.len()) =~= p@);
    true
}

/// The first position of `p` in `s`, counted in characters.
pub fn find_text(s: &str, p: &str) -> (r: Option<usize>)
    ensures
        match find(s@, p@) {
            Some(i) => r == Some(i as usize) && 0 <= i <= usize::MAX && i + p@.len() <= s@.len(),
            None => r is None,
        },
{
    let hay = chars_of(s);
    let needle = chars_of(p);
    if needle.len() > hay.len() {
        return None;
    }
    let last: usize = hay.len() - needle.len();
    let mut i: usize = 0;
    while i <= last
        invariant
            hay@ == s@,
            needle@ == p@,
            last == s@.len() - p@.len(),
            0 <= i <= last + 1,
            last < usize::MAX || p@.len() == 0,
            find(s@, p@) == find_from(s@, p@, i as int),
        decreases last + 1 - i,
    {
        if occurs(&hay, &needle, i) {
            return Some(i);
        }
        if i == last {
            return None;
        }
        i = i + 1;
    }
    None
}

/// Whether `s` begins with `p`.
pub fn has_prefix(s: &str, p: &str) -> (r: bool)
    ensures
        r == p@.is_prefix_of(s@),
{
    let hay = chars_of(s);
    let needle = chars_of(p);
    if needle.len() > hay.len() {
        return false;
    }
    occurs(&hay, &needle, 0)
}

/// Whether `s` ends with `p`.
pub fn has_suffix(s: &str, p: &str) -> (r: bool)
    ensures
        r == p@.is_suffix_of(s@),
{
    let hay = chars_of(s);
    let needle = chars_of(p);
    if needle.len() > hay.len() {
        return false;
    }
    occurs(&hay, &needle, hay.len() - needle.len())
}

/// What follows `p` in `s`, if `s` begins with `p`.
pub fn without_prefix<'a>(s: &'a str, p: &str) -> (r: Option<&'a str>)
    ensures
        r is Some <==> p@.is_prefix_of(s@),
        r matches Some(rest) ==> s@ == p@ + rest@,
{
    if has_prefix(s, p) {
        let rest = s.substring_char(p.unicode_len(), s.unicode_len());
        assert(s@ =~= p@ + rest@);
        Some(rest)
    } else {
        None
    }
}

/// What precedes `p` in `s`, if `s` ends with `p`.
pub fn without_suffix<'a>(s: &'a str, p: &str) -> (r: Option<&'a str>)
    ensures
        r is Some <==> p@.is_suffix_of(s@),
        r matches Some(rest) ==> s@ == rest@ + p@,
{
    if has_suffix(s, p) {
        let rest = s.substring_char(0, s.unicode_len() - p.unicode_len());
        assert(s@ =~= rest@ + p@);
        Some(rest)
    } else {
        None
    }
}

/// The first occurrence, characterised: it occurs at `k`, and nowhere before.
pub proof fn lemma_find_is_first(s: Seq<char>, p: Seq<char>, from: int, k: int)
    requires
        0 <= from <= k,
        occurs_at(s, p, k),
        forall|j: int| from <= j < k ==> !#[trigger] occurs_at(s, p, j),
    ensures
        find_from(s, p, from) == Some(k),
    decreases k - from,
{
    if from < k {
        assert(!occurs_at(s, p, from));
        lemma_find_is_first(s, p, from + 1, k);
    }
}

/// Nothing is found where nothing occurs.
pub proof fn lemma_find_none(s: Seq<char>, p: Seq<char>, from: int)
    requires
        0 <= from,
        forall|j: int| from <= j ==> !#[trigger] occurs_at(s, p, j),
    ensures
        find_from(s, p, from) is None,
    decreases s.len() - from,
{
    if from < s.len() {
        lemma_find_none(s, p, from + 1);
    }
    assert(!occurs_at(s, p, from));
}

/// What is found occurs there, and nowhere before.
pub proof fn found_is_the_first_occurrence(s: Seq<char>, p: Seq<char>, from: int)
    requires
        0 <= from,
        find_from(s, p, from) is Some,
    ensures
        from <= find_from(s, p, from)->0,
        occurs_at(s, p, find_from(s, p, from)->0),
        forall|j: int| from <= j < find_from(s, p, from)->0 ==> !#[trigger] occurs_at(s, p, j),
    decreases s.len() - from,
{
    if !occurs_at(s, p, from) {
        found_is_the_first_occurrence(s, p, from + 1);
    }
}

/// The longest kept prefix is a prefix whose characters are all kept, and it stops at the first
/// character that is not.
pub proof fn lemma_prefix_while(s: Seq<char>, keep: spec_fn(char) -> bool)
    ensures
        prefix_while(s, keep).is_prefix_of(s),
        forall|i: int|
            0 <= i < prefix_while(s, keep).len() ==> keep(#[trigger] prefix_while(s, keep)[i]),
        prefix_while(s, keep).len() < s.len() ==> !keep(s[prefix_while(s, keep).len() as int]),
    decreases s.len(),
{
    if s.len() > 0 && keep(s[0]) {
        lemma_prefix_while(s.drop_first(), keep);
        let rest = prefix_while(s.drop_first(), keep);
        assert forall|i: int| 0 <= i < prefix_while(s, keep).len() implies keep(
            #[trigger] prefix_while(s, keep)[i],
        ) by {
            if i > 0 {
                assert(prefix_while(s, keep)[i] == rest[i - 1]);
            }
        }
        assert(prefix_while(s, keep) =~= s.take(prefix_while(s, keep).len() as int));
    }
}

/// A sequence whose characters are all kept is its own longest kept prefix.
pub proof fn lemma_prefix_while_all(s: Seq<char>, keep: spec_fn(char) -> bool)
    requires
        forall|i: int| 0 <= i < s.len() ==> keep(#[trigger] s[i]),
    ensures
        prefix_while(s, keep) == s,
    decreases s.len(),
{
    if s.len() > 0 {
        assert(forall|i: int| 0 <= i < s.drop_first().len() ==> s.drop_first()[i] == s[i + 1]);
        lemma_prefix_while_all(s.drop_first(), keep);
        assert(seq![s[0]] + s.drop_first() =~= s);
    }
}

/// Whether a character has the Unicode property `White_Space`.
pub fn white_space(c: char) -> (r: bool)
    ensures
        r == is_white_space(c),
{
    ('\u{9}' <= c && c <= '\u{d}') || c == ' ' || c == '\u{85}' || c == '\u{a0}' || c == '\u{1680}'
        || ('\u{2000}' <= c && c <= '\u{200a}') || c == '\u{2028}' || c == '\u{2029}' || c
        == '\u{202f}' || c == '\u{205f}' || c == '\u{3000}'
}

/// Whether a character is an ASCII letter or digit.
pub fn alphanumeric(c: char) -> (r: bool)
    ensures
        r == is_alphanumeric(c),
{
    ('0' <= c && c <= '9') || ('a' <= c && c <= 'z') || ('A' <= c && c <= 'Z')
}

proof fn lemma_trim_start_step(s: Seq<char>, i: int)
    requires
        0 <= i < s.len(),
        is_white_space(s[i]),
    ensures
        trim_start(s.skip(i)) == trim_start(s.skip(i + 1)),
{
    assert(s.skip(i).drop_first() =~= s.skip(i + 1));
}

/// Where the leading white space of `chars` ends.
fn leading_space(chars: &Vec<char>) -> (start: usize)
    ensures
        0 <= start <= chars@.len(),
        chars@.skip(start as int) == trim_start(chars@),
{
    let mut start: usize = 0;
    assert(chars@.skip(0) =~= chars@);
    while start < chars.len() && white_space(chars[start])
        invariant
            0 <= start <= chars@.len(),
            trim_start(chars@) == trim_start(chars@.skip(start as int)),
        decreases chars@.len() - start,
    {
        proof {
            lemma_trim_start_step(chars@, start as int);
        }
        start = start + 1;
    }
    start
}

/// `s` without leading and trailing white space.
pub fn trim<'a>(s: &'a str) -> (r: &'a str)
    ensures
        r@ == trim_end(trim_start(s@)),
{
    let chars = chars_of(s);
    let start = leading_space(&chars);
    let mut end: usize = chars.len();
    let ghost body = trim_start(s@);
    assert(s@.subrange(start as int, end as int) =~= body);
    while start < end && white_space(chars[end - 1])
        invariant
            chars@ == s@,
            0 <= start <= end <= s@.len(),
            trim_end(body) == trim_end(s@.subrange(start as int, end as int)),
        decreases end,
    {
        assert(s@.subrange(start as int, end as int).drop_last() =~= s@.subrange(
            start as int,
            end - 1,
        ));
        end = end - 1;
    }
    s.substring_char(start, end)
}

proof fn lemma_prefix_while_step(s: Seq<char>, keep: spec_fn(char) -> bool, from: int, i: int)
    requires
        0 <= from <= i < s.len(),
        keep(s[i]),
        prefix_while(s.skip(from), keep) == s.subrange(from, i) + prefix_while(s.skip(i), keep),
    ensures
        prefix_while(s.skip(from), keep) == s.subrange(from, i + 1) + prefix_while(
            s.skip(i + 1),
            keep,
        ),
{
    assert(s.skip(i).drop_first() =~= s.skip(i + 1));
    assert(s.subrange(from, i + 1) =~= s.subrange(from, i) + seq![s[i]]);
    assert(s.subrange(from, i) + (seq![s[i]] + prefix_while(s.skip(i + 1), keep)) =~= (s.subrange(
        from,
        i,
    ) + seq![s[i]]) + prefix_while(s.skip(i + 1), keep));
}

/// The first maximal run of characters of `s` that are not white space.
pub fn word<'a>(s: &'a str) -> (r: Option<&'a str>)
    ensures
        match first_word(s@) {
            Some(w) => r matches Some(found) && found@ == w,
            None => r is None,
        },
{
    let chars = chars_of(s);
    let start = leading_space(&chars);
    if start == chars.len() {
        return None;
    }
    let ghost keep = |c: char| !is_white_space(c);
    let mut end: usize = start;
    assert(s@.subrange(start as int, start as int) =~= Seq::empty());
    assert(prefix_while(s@.skip(start as int), keep) =~= s@.subrange(start as int, start as int)
        + prefix_while(s@.skip(start as int), keep));
    while end < chars.len() && !white_space(chars[end])
        invariant
            chars@ == s@,
            keep == (|c: char| !is_white_space(c)),
            0 <= start <= end <= s@.len(),
            prefix_while(s@.skip(start as int), keep) == s@.subrange(start as int, end as int)
                + prefix_while(s@.skip(end as int), keep),
        decreases s@.len() - end,
    {
        proof {
            lemma_prefix_while_step(s@, keep, start as int, end as int);
        }
        end = end + 1;
    }
    assert(prefix_while(s@.skip(end as int), keep) =~= Seq::empty());
    assert(s@.subrange(start as int, end as int) + Seq::<char>::empty() =~= s@.subrange(
        start as int,
        end as int,
    ));
    Some(s.substring_char(start, end))
}

/// The longest run of ASCII letters, digits and dots in `s` from position `from` on.
pub fn dotted_run<'a>(s: &'a str, from: usize) -> (r: &'a str)
    requires
        from <= s@.len(),
    ensures
        r@ == prefix_while(s@.skip(from as int), |c: char| is_alphanumeric(c) || c == '.'),
{
    let chars = chars_of(s);
    let ghost keep = |c: char| is_alphanumeric(c) || c == '.';
    let mut end: usize = from;
    assert(prefix_while(s@.skip(from as int), keep) =~= s@.subrange(from as int, from as int)
        + prefix_while(s@.skip(from as int), keep));
    while end < chars.len() && (alphanumeric(chars[end]) || chars[end] == '.')
        invariant
            chars@ == s@,
            keep == (|c: char| is_alphanumeric(c) || c == '.'),
            0 <= from <= end <= s@.len(),
            prefix_while(s@.skip(from as int), keep) == s@.subrange(from as int, end as int)
                + prefix_while(s@.skip(end as int), keep),
        decreases s@.len() - end,
    {
        proof {
            lemma_prefix_while_step(s@, keep, from as int, end as int);
        }
        end = end + 1;
    }
    assert(prefix_while(s@.skip(end as int), keep) =~= Seq::empty());
    assert(s@.subrange(from as int, end as int) + Seq::<char>::empty() =~= s@.subrange(
        from as int,
        end as int,
    ));
    s.substring_char(from, end)
}

/// Appends the decimal notation of `n` to `out`.
pub fn push_decimal(out: &mut String, n: u64)
    ensures
        final(out)@ == old(out)@ + decimal(n as nat),
    decreases n,
{
    proof {
        reveal_strlit("0123456789");
    }
    if n >= 10 {
        push_decimal(out, n / 10);
    }
    let d: usize = (n % 10) as usize;
    out.append("0123456789".substring_char(d, d + 1));
    assert("0123456789"@.subrange(d as int, d + 1) =~= seq![digit(d as int)]);
    proof {
        if n >= 10 {
            assert(old(out)@ + decimal((n / 10) as nat) + seq![digit(d as int)] =~= old(out)@
                + decimal((n / 10) as nat).push(digit(d as int)));
        }
    }
}

/// The decimal notation of `n`.
pub fn decimal_text(n: u64) -> (r: String)
    ensures
        r@ == decimal(n as nat),
{
    let mut r = String::new();
    push_decimal(&mut r, n);
    assert(Seq::<char>::empty() + decimal(n as nat) =~= decimal(n as nat));
    r
}

/// A prefix of a sequence of digits denotes no more than the whole.
proof fn lemma_value_of_prefix(s: Seq<char>, i: int)
    requires
        0 <= i <= s.len(),
        all_digits(s),
    ensures
        decimal_value(s.take(i)) <= decimal_value(s),
    decreases s.len() - i,
{
    if i == s.len() {
        assert(s.take(i) =~= s);
    } else {
        lemma_value_of_prefix(s, i + 1);
        assert(s.take(i + 1).drop_last() =~= s.take(i));
        assert(is_digit(s[i]));
    }
}

/// A number is read back from its decimal notation.
pub proof fn decimal_is_read_back(n: nat, max: nat)
    requires
        n <= max,
    ensures
        parsed(decimal(n), max) == Some(n),
{
    lemma_decimal(n);
    let s = decimal(n);
    assert(is_digit(s[0]));
}

/// Different numbers have different decimal notations.
pub proof fn decimal_is_injective(a: nat, b: nat)
    requires
        decimal(a) == decimal(b),
    ensures
        a == b,
{
    lemma_decimal(a);
    lemma_decimal(b);
}

pub proof fn lemma_decimal(n: nat)
    ensures
        decimal(n).len() > 0,
        all_digits(decimal(n)),
        decimal_value(decimal(n)) == n,
    decreases n,
{
    let s = decimal(n);
    lemma_digit((n % 10) as int);
    if n < 10 {
        assert(s.drop_last() =~= Seq::empty());
        assert(decimal_value(Seq::empty()) == 0);
    } else {
        lemma_decimal(n / 10);
        assert(s.drop_last() =~= decimal(n / 10));
    }
}

proof fn lemma_digit(d: int)
    requires
        0 <= d < 10,
    ensures
        is_digit(digit(d)),
        digit(d) as u32 - '0' as u32 == d,
{
    reveal_strlit("0123456789");
}

/// The number at most `max` that `s` denotes.
pub fn parse_number(s: &str, max: u64) -> (r: Option<u64>)
    ensures
        match parsed(s@, max as nat) {
            Some(n) => r == Some(n as u64) && n <= max,
            None => r is None,
        },
{
    let chars = chars_of(s);
    let start: usize = if chars.len() > 0 && chars[0] == '+' {
        1
    } else {
        0
    };
    if start == chars.len() {
        return None;
    }
    let ghost digits = without_plus(s@);
    assert(digits =~= s@.skip(start as int));
    let mut value: u64 = 0;
    let mut i: usize = start;
    assert(digits.take(0) =~= Seq::empty());
    while i < chars.len()
        invariant
            chars@ == s@,
            start <= i <= s@.len(),
            start <= 1,
            digits == s@.skip(start as int),
            digits == without_plus(s@),
            forall|k: int| 0 <= k < i - start ==> is_digit(#[trigger] digits[k]),
            value == decimal_value(digits.take(i - start)),
            value <= max,
        decreases s@.len() - i,
    {
        let c = chars[i];
        assert(digits[i - start] == c);
        if !('0' <= c && c <= '9') {
            assert(!is_digit(digits[i - start]));
            return None;
        }
        let d: u64 = (c as u32 - '0' as u32) as u64;
        assert(digits.take(i + 1 - start).drop_last() =~= digits.take(i - start));
        assert(decimal_value(digits.take(i + 1 - start)) == value * 10 + d);
        if d > max || value > (max - d) / 10 {
            proof {
                assert(value * 10 + d > max);
                if parsed(s@, max as nat) is Some {
                    lemma_value_of_prefix(digits, i + 1 - start);
                }
            }
            return None;
        }
        value = value * 10 + d;
        i = i + 1;
    }
    assert(digits.take(i - start) =~= digits);
    Some(value)
}

/// The strings one after the other, with `separator` between two neighbours.
pub fn join(items: &Vec<String>, separator: &str) -> (r: String)
    ensures
        r@ == joined(views(items@), separator@),
{
    let mut r = String::new();
    let mut i: usize = 0;
    let ghost all = views(items@);
    assert(all.take(0) =~= Seq::empty());
    while i < items.len()
        invariant
            0 <= i <= items@.len(),
            all == views(items@),
            r@ == joined(all.take(i as int), separator@),
        decreases items@.len() - i,
    {
        assert(all.take(i + 1).drop_last() =~= all.take(i as int));
        let ghost before = r@;
        if i > 0 {
            r.append(separator);
        }
        r.append(items[i].as_str());
        proof {
            if i == 0 {
                assert(before + all[0] =~= all[0]);
            }
        }
        i = i + 1;
    }
    assert(all.take(i as int) =~= all);
    r
}

/// `s` with every space written as `%20`.
pub fn escape_spaces(s: &str) -> (r: String)
    ensures
        r@ == spaces_escaped(s@),
{
    let mut r = String::new();
    let n: usize = s.unicode_len();
    let mut i: usize = 0;
    assert(s@.take(0) =~= Seq::empty());
    while i < n
        invariant
            n == s@.len(),
            0 <= i <= n,
            r@ == spaces_escaped(s@.take(i as int)),
        decreases n - i,
    {
        assert(s@.take(i + 1).drop_last() =~= s@.take(i as int));
        if s.get_char(i) == ' ' {
            r.append("%20");
        } else {
            r.append(s.substring_char(i, i + 1));
            assert(s@.subrange(i as int, i + 1) =~= seq![s@[i as int]]);
        }
        i = i + 1;
    }
    assert(s@.take(i as int) =~= s@);
    r
}

/// Appends `s`, filled up with spaces on the left to at least `width` characters.
pub fn push_padded(out: &mut String, s: &str, width: usize)
    ensures
        final(out)@ == old(out)@ + padded_left(s@, width as nat),
{
    let n: usize = s.unicode_len();
    let mut i: usize = n;
    proof {
        reveal_strlit(" ");
    }
    assert(old(out)@ =~= old(out)@ + Seq::new(0, |k: int| ' '));
    while i < width
        invariant
            n == s@.len(),
            n <= i,
            i <= width || i == n,
            out@ == old(out)@ + Seq::new((i - n) as nat, |k: int| ' '),
        decreases width - i,
    {
        proof {
            reveal_strlit(" ");
        }
        out.append(" ");
        assert(out@ =~= old(out)@ + Seq::new((i + 1 - n) as nat, |k: int| ' '));
        i = i + 1;
    }
    out.append(s);
    assert(out@ =~= old(out)@ + padded_left(s@, width as nat));
}

/// What trimming takes off at the beginning is white space, and what is left begins with none.
pub proof fn lemma_trimmed_start(s: Seq<char>) -> (margin: Seq<char>)
    ensures
        s == margin + trim_start(s),
        forall|i: int| 0 <= i < margin.len() ==> is_white_space(#[trigger] margin[i]),
        trim_start(s).len() > 0 ==> !is_white_space(trim_start(s)[0]),
    decreases s.len(),
{
    if s.len() > 0 && is_white_space(s[0]) {
        let rest = lemma_trimmed_start(s.drop_first());
        let margin = seq![s[0]] + rest;
        assert(s =~= seq![s[0]] + s.drop_first());
        assert(seq![s[0]] + (rest + trim_start(s)) =~= margin + trim_start(s));
        margin
    } else {
        assert(s =~= Seq::<char>::empty() + s);
        Seq::empty()
    }
}

/// What trimming takes off at the end is white space, and what is left ends with none.
pub proof fn lemma_trimmed_end(s: Seq<char>) -> (margin: Seq<char>)
    ensures
        s == trim_end(s) + margin,
        forall|i: int| 0 <= i < margin.len() ==> is_white_space(#[trigger] margin[i]),
        trim_end(s).len() > 0 ==> !is_white_space(trim_end(s).last()),
    decreases s.len(),
{
    if s.len() > 0 && is_white_space(s.last()) {
        let rest = lemma_trimmed_end(s.drop_last());
        let margin = rest.push(s.last());
        assert(s =~= s.drop_last().push(s.last()));
        assert((trim_end(s) + rest).push(s.last()) =~= trim_end(s) + margin);
        margin
    } else {
        assert(s =~= s + Seq::<char>::empty());
        Seq::empty()
    }
}

/// Two lists that are joined one behind the other are joined with the separator between them; a
/// single item is joined to itself.
pub proof fn joining_puts_the_separator_between(
    a: Seq<Seq<char>>,
    b: Seq<Seq<char>>,
    separator: Seq<char>,
)
    requires
        a.len() > 0,
        b.len() > 0,
    ensures
        joined(a + b, separator) == joined(a, separator) + separator + joined(b, separator),
        a.len() == 1 ==> joined(a, separator) == a[0],
    decreases b.len(),
{
    let all = a + b;
    assert(all.last() == b.last());
    if b.len() == 1 {
        assert(all.drop_last() =~= a);
    } else {
        assert(all.drop_last() =~= a + b.drop_last());
        joining_puts_the_separator_between(a, b.drop_last(), separator);
        let (x, y) = (joined(a, separator), joined(b.drop_last(), separator));
        assert(x + separator + y + separator + b.last() =~= x + separator + (y + separator
            + b.last()));
    }
}

/// Escaping goes character by character: a space becomes three characters, any other one stays, and
/// no space is left.
pub proof fn spaces_are_escaped_one_by_one(a: Seq<char>, b: Seq<char>, c: char)
    ensures
        spaces_escaped(a + b) == spaces_escaped(a) + spaces_escaped(b),
        spaces_escaped(seq![' ']) == seq!['%', '2', '0'],
        c != ' ' ==> spaces_escaped(seq![c]) == seq![c],
        !spaces_escaped(b).contains(' '),
    decreases b.len(),
{
    reveal_strlit("%20");
    let (space, one) = (seq![' '], seq![c]);
    assert(space.drop_last() =~= Seq::empty());
    assert(one.drop_last() =~= Seq::empty());
    assert(spaces_escaped(Seq::<char>::empty()) =~= Seq::empty());
    assert(spaces_escaped(space) =~= "%20"@);
    assert("%20"@ =~= seq!['%', '2', '0']);
    if c != ' ' {
        assert(spaces_escaped(one) =~= seq![c]);
    }
    if b.len() == 0 {
        assert(a + b =~= a);
        assert(spaces_escaped(a) + spaces_escaped(b) =~= spaces_escaped(a));
    } else {
        spaces_are_escaped_one_by_one(a, b.drop_last(), c);
        assert((a + b).drop_last() =~= a + b.drop_last());
        let last = if b.last() == ' ' {
            "%20"@
        } else {
            seq![b.last()]
        };
        assert(spaces_escaped(a + b) =~= spaces_escaped(a) + (spaces_escaped(b.drop_last())
            + last));
        assert(!last.contains(' '));
        assert(!spaces_escaped(b).contains(' ')) by {
            if spaces_escaped(b).contains(' ') {
                let before = spaces_escaped(b.drop_last());
                let i = choose|i: int| 0 <= i < spaces_escaped(b).len() && spaces_escaped(b)[i] == ' ';
                if i < before.len() {
                    assert(before[i] == ' ');
                } else {
                    assert(last[i - before.len()] == ' ');
                }
            }
        }
    }
}

/// The first word stands behind white space alone, has no white space in it, and goes up to the
/// next white space or to the end. Without a word there is only white space.
pub proof fn first_word_stands_alone(s: Seq<char>) -> (parts: (Seq<char>, Seq<char>))
    ensures
        forall|i: int| 0 <= i < parts.0.len() ==> is_white_space(#[trigger] parts.0[i]),
        match first_word(s) {
            Some(w) => {
                &&& s == parts.0 + w + parts.1
                &&& w.len() > 0
                &&& forall|i: int| 0 <= i < w.len() ==> !is_white_space(#[trigger] w[i])
                &&& parts.1.len() > 0 ==> is_white_space(parts.1[0])
            },
            None => s == parts.0,
        },
{
    let margin = lemma_trimmed_start(s);
    let rest = trim_start(s);
    let keep = |c: char| !is_white_space(c);
    lemma_prefix_while(rest, keep);
    let w = prefix_while(rest, keep);
    if rest.len() == 0 {
        assert(s =~= margin);
        (margin, Seq::empty())
    } else {
        let behind = rest.skip(w.len() as int);
        assert(rest =~= w + behind);
        assert(s =~= margin + w + behind);
        (margin, behind)
    }
}

/// Padding puts spaces before a text, as many as it takes to the width and no more.
pub proof fn padding_stands_before_the_text(s: Seq<char>, width: nat)
    ensures
        padded_left(s, width).len() == if s.len() < width {
            width
        } else {
            s.len()
        },
        s.is_suffix_of(padded_left(s, width)),
        forall|i: int|
            0 <= i < padded_left(s, width).len() - s.len() ==> #[trigger] padded_left(s, width)[i]
                == ' ',
{
    let p = padded_left(s, width);
    assert(p.skip(p.len() - s.len()) =~= s);
}

/// A number in words has no leading zeros, and the words of a number ten times as large are one
/// digit longer.
pub proof fn decimals_have_no_leading_zeros(n: nat)
    ensures
        n > 0 ==> decimal(n)[0] != '0',
        n > 0 ==> decimal(10 * n).len() == decimal(n).len() + 1,
    decreases n,
{
    reveal_strlit("0123456789");
    if n >= 10 {
        decimals_have_no_leading_zeros(n / 10);
        lemma_decimal(n / 10);
    }
}

/// A text is read as a number with or without a plus sign before it; what is not made of digits is
/// read as none, and neither is what is larger than allowed.
pub proof fn numbers_are_read_from_digits(s: Seq<char>, max: nat, n: nat, i: int)
    ensures
        n <= max ==> parsed(decimal(n), max) == Some(n) && parsed(seq!['+'] + decimal(n), max)
            == Some(n),
        n > max ==> parsed(decimal(n), max) is None,
        1 <= i < s.len() && !('0' <= s[i] <= '9') ==> parsed(s, max) is None,
        s.len() > 0 && !('0' <= s[0] <= '9') && s[0] != '+' ==> parsed(s, max) is None,
        s.len() == 0 ==> parsed(s, max) is None,
        s.len() == 1 && s[0] == '+' ==> parsed(s, max) is None,
        parsed(s, max) matches Some(m) ==> m <= max,
{
    lemma_decimal(n);
    let d = decimal(n);
    assert(is_digit(d[0]));
    assert((seq!['+'] + d).drop_first() =~= d);
    let digits = without_plus(s);
    if 1 <= i < s.len() && !('0' <= s[i] <= '9') {
        if s[0] == '+' {
            assert(digits[i - 1] == s[i]);
        } else {
            assert(digits[i] == s[i]);
        }
    }
    if s.len() > 0 && s[0] != '+' {
        assert(digits[0] == s[0]);
    }
}

}
