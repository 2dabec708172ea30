//! Compiled tables of characters: which of them are sound.
//!
//! A normalizer may hold a table that says what becomes of which characters. It is a trie in an array
//! of units, and behind it the texts that its leaves refer to. A walk through the trie that leaves the
//! array, or a leaf that refers to no text, would end in a panic.
use crate::text;
use vstd::prelude::*;

verus! {

/// The value of a digit of base 64.
pub open spec fn sextet(c: char) -> Option<u8> {
    if 'A' <= c <= 'Z' {
        Some((c as u32 - 'A' as u32) as u8)
    } else if 'a' <= c <= 'z' {
        Some((c as u32 - 'a' as u32 + 26) as u8)
    } else if '0' <= c <= '9' {
        Some((c as u32 - '0' as u32 + 52) as u8)
    } else if c == '+' {
        Some(62)
    } else if c == '/' {
        Some(63)
    } else {
        None
    }
}

/// The bytes of four digits of base 64, of which the last or the last two may be padding.
pub open spec fn group_bytes(a: char, b: char, c: char, d: char) -> Option<Seq<u8>> {
    match (sextet(a), sextet(b)) {
        (Some(a), Some(b)) => {
            let first = (a * 4 + b / 16) as u8;
            match (sextet(c), sextet(d)) {
                (Some(c), Some(d)) => Some(
                    seq![first, ((b % 16) * 16 + c / 4) as u8, ((c % 4) * 64 + d) as u8],
                ),
                (Some(c), None) => if d == '=' {
                    Some(seq![first, ((b % 16) * 16 + c / 4) as u8])
                } else {
                    None
                },
                (None, _) => if c == '=' && d == '=' {
                    Some(seq![first])
                } else {
                    None
                },
            }
        },
        _ => None,
    }
}

/// The bytes that a text stands for in base 64.
pub open spec fn bytes_of(s: Seq<char>) -> Option<Seq<u8>>
    decreases s.len(),
{
    if s.len() == 0 {
        Some(Seq::empty())
    } else if s.len() % 4 != 0 {
        None
    } else {
        let n = s.len() as int;
        match (bytes_of(s.take(n - 4)), group_bytes(s[n - 4], s[n - 3], s[n - 2], s[n - 1])) {
            (Some(before), Some(group)) => Some(before + group),
            _ => None,
        }
    }
}

/// The number in the four bytes from `at` on, the lowest first.
pub open spec fn number_at(bytes: Seq<u8>, at: int) -> u32 {
    (bytes[at] + bytes[at + 1] * 0x100 + bytes[at + 2] * 0x10000 + bytes[at + 3] * 0x1000000) as u32
}

/// How many units the array of a table has; the array stands behind its size in bytes.
pub open spec fn unit_count(bytes: Seq<u8>) -> int {
    number_at(bytes, 0) as int / 4
}

/// The unit of a table at a position of its array.
pub open spec fn unit_at(bytes: Seq<u8>, i: int) -> u32 {
    number_at(bytes, 4 + 4 * i)
}

/// Where the successors of the unit at position `i` begin.
pub open spec fn successors(i: u32, unit: u32) -> u32 {
    i ^ (if (unit / 0x200) % 2 == 1 {
        ((unit / 0x400) * 0x100) as u32
    } else {
        unit / 0x400
    })
}

/// A text begins at this place behind the array: not within a character.
pub open spec fn text_begins(bytes: Seq<u8>, place: int) -> bool {
    let at = 4 + 4 * unit_count(bytes) + place;
    at == bytes.len() || (at < bytes.len() && !(0x80 <= bytes[at] < 0xc0))
}

/// The unit at position `i` is sound: all successors it can have are in the array, and its leaf, where
/// it has one, refers to a text.
pub open spec fn unit_is_sound(bytes: Seq<u8>, i: int) -> bool {
    let unit = unit_at(bytes, i);
    let next = successors(i as u32, unit);
    &&& next - next % 0x100 + 0xff < unit_count(bytes)
    &&& (unit / 0x100) % 2 == 1 ==> text_begins(
        bytes,
        unit_at(bytes, next as int) as int % 0x8000_0000,
    )
}

/// A table is sound: its array is there and not empty, and its root and every unit that a character
/// can lead to are sound. To a unit with its highest bit set, none leads.
pub open spec fn table_is_sound(bytes: Seq<u8>) -> bool {
    &&& 4 <= bytes.len()
    &&& 0 < unit_count(bytes)
    &&& 4 + 4 * unit_count(bytes) <= bytes.len()
    &&& forall|i: int|
        0 <= i < unit_count(bytes) && (i == 0 || unit_at(bytes, i) < 0x8000_0000)
            ==> #[trigger] unit_is_sound(bytes, i)
}

/// A sound table, written in base 64.
pub open spec fn is_sound_table(written: Seq<char>) -> bool {
    bytes_of(written) matches Some(bytes) && table_is_sound(bytes)
}

fn digit_value(c: char) -> (r: Option<u8>)
    ensures
        r == sextet(c),
        r matches Some(v) ==> v < 64,
{
    let code: u32 = c as u32;
    if 'A' <= c && c <= 'Z' {
        Some((code - 65) as u8)
    } else if 'a' <= c && c <= 'z' {
        Some((code - 97 + 26) as u8)
    } else if '0' <= c && c <= '9' {
        Some((code - 48 + 52) as u8)
    } else if c == '+' {
        Some(62)
    } else if c == '/' {
        Some(63)
    } else {
        None
    }
}

/// Appends the bytes of four digits; tells whether they stand for any.
fn push_group(out: &mut Vec<u8>, a: char, b: char, c: char, d: char) -> (r: bool)
    ensures
        r == (group_bytes(a, b, c, d) is Some),
        r ==> final(out)@ == old(out)@ + group_bytes(a, b, c, d)->0,
{
    let (x, y) = match (digit_value(a), digit_value(b)) {
        (Some(x), Some(y)) => (x, y),
        _ => {
            return false;
        },
    };
    let z = digit_value(c);
    let w = digit_value(d);
    if z.is_none() && (c != '=' || d != '=') {
        return false;
    }
    if z.is_some() && w.is_none() && d != '=' {
        return false;
    }
    out.push(x * 4 + y / 16);
    if let Some(z) = z {
        out.push((y % 16) * 16 + z / 4);
        if let Some(w) = w {
            out.push((z % 4) * 64 + w);
        }
    }
    assert(out@ =~= old(out)@ + group_bytes(a, b, c, d)->0);
    true
}

proof fn lemma_bytes_stop(s: Seq<char>, n: int, m: int)
    requires
        0 <= n <= m <= s.len(),
        n % 4 == 0,
        m % 4 == 0,
        bytes_of(s.take(n)) is None,
    ensures
        bytes_of(s.take(m)) is None,
    decreases m,
{
    if n < m {
        lemma_bytes_stop(s, n, m - 4);
        assert(s.take(m).take(m - 4) =~= s.take(m - 4));
    }
}

/// The bytes that a text stands for in base 64.
fn decoded_bytes(written: &str) -> (r: Option<Vec<u8>>)
    ensures
        r is Some == bytes_of(written@) is Some,
        r matches Some(bytes) ==> bytes_of(written@) == Some(bytes@),
{
    let chars = text::chars_of(written);
    if chars.len() % 4 != 0 {
        return None;
    }
    let mut out: Vec<u8> = Vec::new();
    let mut i: usize = 0;
    assert(chars@.take(chars@.len() as int) =~= written@);
    while i < chars.len()
        invariant
            0 <= i <= chars@.len(),
            i % 4 == 0,
            chars@.len() % 4 == 0,
            chars@ == written@,
            chars@.take(chars@.len() as int) == written@,
            bytes_of(chars@.take(i as int)) == Some(out@),
        decreases chars@.len() - i,
    {
        let ghost next = chars@.take(i + 4);
        assert(next.take(i as int) =~= chars@.take(i as int));
        if !push_group(&mut out, chars[i], chars[i + 1], chars[i + 2], chars[i + 3]) {
            proof {
                lemma_bytes_stop(chars@, i + 4, chars@.len() as int);
            }
            return None;
        }
        i = i + 4;
    }
    Some(out)
}

fn number(bytes: &Vec<u8>, at: usize) -> (r: u32)
    requires
        at + 4 <= bytes@.len(),
    ensures
        r == number_at(bytes@, at as int),
{
    assert(bytes.len() == bytes@.len());
    let low: u32 = bytes[at] as u32 + bytes[at + 1] as u32 * 0x100;
    low + bytes[at + 2] as u32 * 0x10000 + bytes[at + 3] as u32 * 0x1000000
}

fn sound_unit(bytes: &Vec<u8>, count: usize, i: usize, unit: u32) -> (r: bool)
    requires
        4 <= bytes@.len(),
        count == unit_count(bytes@),
        4 + 4 * count <= bytes@.len(),
        i < count,
        unit == unit_at(bytes@, i as int),
    ensures
        r == unit_is_sound(bytes@, i as int),
{
    let step: u32 = if (unit / 0x200) % 2 == 1 {
        (unit / 0x400) * 0x100
    } else {
        unit / 0x400
    };
    let next: u32 = (i as u32) ^ step;
    let count: u64 = count as u64;
    if (next - next % 0x100) as u64 + 0xff >= count {
        return false;
    }
    if (unit / 0x100) % 2 == 0 {
        return true;
    }
    let leaf: u32 = number(bytes, 4 + 4 * next as usize);
    let at: u64 = 4 + 4 * count + (leaf % 0x8000_0000) as u64;
    if at >= bytes.len() as u64 {
        at == bytes.len() as u64
    } else {
        let first: u8 = bytes[at as usize];
        first < 0x80 || first >= 0xc0
    }
}

fn sound_table(bytes: &Vec<u8>) -> (r: bool)
    ensures
        r == table_is_sound(bytes@),
{
    if bytes.len() < 4 {
        return false;
    }
    let count: usize = (number(bytes, 0) / 4) as usize;
    if count == 0 || (bytes.len() - 4) / 4 < count {
        return false;
    }
    let mut i: usize = 0;
    while i < count
        invariant
            0 <= i <= count,
            4 <= bytes@.len(),
            count == unit_count(bytes@),
            4 + 4 * count <= bytes@.len(),
            forall|k: int|
                0 <= k < i && (k == 0 || unit_at(bytes@, k) < 0x8000_0000)
                    ==> #[trigger] unit_is_sound(bytes@, k),
        decreases count - i,
    {
        let unit = number(bytes, 4 + 4 * i);
        if (i == 0 || unit < 0x8000_0000) && !sound_unit(bytes, count, i, unit) {
            assert(!unit_is_sound(bytes@, i as int));
            return false;
        }
        i = i + 1;
    }
    true
}

/// Whether a table that is written in base 64 is sound.
pub fn written_table_is_sound(written: &str) -> (r: bool)
    ensures
        r == is_sound_table(written@),
{
    match decoded_bytes(written) {
        Some(bytes) => sound_table(&bytes),
        None => false,
    }
}

/// The digits of base 64 in their order: the capitals, the small letters, the decimal digits, and
/// two more.
pub proof fn digits_in_their_order(c: char)
    ensures
        sextet(c) matches Some(v) ==> v < 64 && c as u32 == (if v < 26 {
            'A' as u32 + v
        } else if v < 52 {
            'a' as u32 + v - 26
        } else if v < 62 {
            '0' as u32 + v - 52
        } else if v == 62 {
            '+' as u32 as int
        } else {
            '/' as u32 as int
        }),
        sextet(c) is Some <==> ('A' <= c <= 'Z' || 'a' <= c <= 'z' || '0' <= c <= '9' || c == '+'
            || c == '/'),
{
}

/// Four digits write the number that their three bytes make, the highest byte first. Where the last
/// digits are padding, the bytes are those that the other digits fill.
pub proof fn four_digits_are_three_bytes(a: char, b: char, c: char, d: char)
    requires
        sextet(a) is Some,
        sextet(b) is Some,
    ensures
        sextet(c) is Some && sextet(d) is Some ==> (group_bytes(a, b, c, d) matches Some(bytes)
            && bytes.len() == 3 && bytes[0] * 0x10000 + bytes[1] * 0x100 + bytes[2] == sextet(a)->0
            * 0x40000 + sextet(b)->0 * 0x1000 + sextet(c)->0 * 0x40 + sextet(d)->0),
        sextet(c) is Some && d == '=' ==> (group_bytes(a, b, c, d) matches Some(bytes)
            && bytes.len() == 2 && bytes[0] * 0x100 + bytes[1] == (sextet(a)->0 * 0x1000 + sextet(
            b,
        )->0 * 0x40 + sextet(c)->0) / 4),
        c == '=' && d == '=' ==> (group_bytes(a, b, c, d) matches Some(bytes) && bytes.len() == 1
            && bytes[0] == (sextet(a)->0 * 0x40 + sextet(b)->0) / 16),
        sextet(c) is None && c != '=' ==> group_bytes(a, b, c, d) is None,
        sextet(d) is None && d != '=' ==> group_bytes(a, b, c, d) is None,
        c == '=' && d != '=' ==> group_bytes(a, b, c, d) is None,
{
    digits_in_their_order(a);
    digits_in_their_order(b);
    digits_in_their_order(c);
    digits_in_their_order(d);
}

/// Texts of whole groups stand for their bytes one behind the other; a text that is not made of whole
/// groups stands for none.
#[verifier::spinoff_prover]
#[verifier::rlimit(60)]
pub proof fn groups_are_read_one_behind_the_other(a: Seq<char>, b: Seq<char>)
    requires
        a.len() % 4 == 0,
    ensures
        match (bytes_of(a), bytes_of(b)) {
            (Some(x), Some(y)) => bytes_of(a + b) == Some(x + y),
            _ => bytes_of(a + b) is None,
        },
        b.len() % 4 != 0 ==> bytes_of(b) is None,
    decreases b.len(),
{
    let (n, m) = (b.len() as int, (a + b).len() as int);
    if n == 0 {
        assert(a + b =~= a);
        if let Some(x) = bytes_of(a) {
            assert(x + Seq::<u8>::empty() =~= x);
        }
    } else if n % 4 == 0 {
        groups_are_read_one_behind_the_other(a, b.take(n - 4));
        assert((a + b).take(m - 4) =~= a + b.take(n - 4));
        let group = lemma_last_group(a, b);
        lemma_put_behind(bytes_of(a), bytes_of(b.take(n - 4)), group);
    }
}

/// The bytes of two texts, if both have any.
spec fn put_behind(first: Option<Seq<u8>>, second: Option<Seq<u8>>) -> Option<Seq<u8>> {
    match (first, second) {
        (Some(x), Some(y)) => Some(x + y),
        _ => None,
    }
}

proof fn lemma_last_group(a: Seq<char>, b: Seq<char>) -> (group: Option<Seq<u8>>)
    requires
        a.len() % 4 == 0,
        b.len() % 4 == 0,
        b.len() > 0,
    ensures
        bytes_of(b) == put_behind(bytes_of(b.take(b.len() - 4)), group),
        bytes_of(a + b) == put_behind(bytes_of((a + b).take((a + b).len() - 4)), group),
{
    let n = b.len() as int;
    let group = group_bytes(b[n - 4], b[n - 3], b[n - 2], b[n - 1]);
    lemma_group_behind(b, group);
    lemma_group_behind(a + b, group);
    group
}

proof fn lemma_group_behind(s: Seq<char>, group: Option<Seq<u8>>)
    requires
        s.len() > 0,
        s.len() % 4 == 0,
        group == group_bytes(
            s[s.len() - 4],
            s[s.len() - 3],
            s[s.len() - 2],
            s[s.len() - 1],
        ),
    ensures
        bytes_of(s) == put_behind(bytes_of(s.take(s.len() - 4)), group),
{
}

proof fn lemma_put_behind(a: Option<Seq<u8>>, b: Option<Seq<u8>>, c: Option<Seq<u8>>)
    ensures
        put_behind(put_behind(a, b), c) == put_behind(a, put_behind(b, c)),
{
    if let (Some(x), Some(y), Some(z)) = (a, b, c) {
        assert((x + y) + z =~= x + (y + z));
    }
}

/// A walk through a sound table stays in its array: from a unit that a character can lead to, every
/// byte leads to a unit of the array, and so does what is looked up where a text may end.
pub proof fn walk_stays_in_the_array(bytes: Seq<u8>, i: u32, byte: u8)
    requires
        table_is_sound(bytes),
        i < unit_count(bytes),
        i == 0 || unit_at(bytes, i as int) < 0x8000_0000,
    ensures
        (successors(i, unit_at(bytes, i as int)) ^ (byte as u32)) < unit_count(bytes),
        successors(i, unit_at(bytes, i as int)) < unit_count(bytes),
{
    assert(unit_is_sound(bytes, i as int));
    let next = successors(i, unit_at(bytes, i as int));
    let low = byte as u32;
    assert((next ^ low) <= next - next % 0x100 + 0xff && next <= next - next % 0x100 + 0xff)
        by (bit_vector)
        requires
            low <= 0xff,
    ;
}

/// A unit leads on by its upper bits, which count in steps of 256 where its tenth bit says so.
pub proof fn units_lead_by_their_upper_bits(i: u32, unit: u32)
    ensures
        unit & 0x200 == 0 ==> successors(i, unit) == i ^ (unit >> 10),
        unit & 0x200 != 0 ==> successors(i, unit) == i ^ ((unit >> 10) << 8),
{
    assert(unit >> 10 == unit / 0x400) by (bit_vector);
    assert((unit >> 10) << 8 == (unit / 0x400) * 0x100) by (bit_vector);
    assert((unit & 0x200 != 0) == ((unit / 0x200) % 2 == 1)) by (bit_vector);
}

/// A number has its lowest byte first.
pub proof fn numbers_have_their_lowest_byte_first(bytes: Seq<u8>, at: int)
    ensures
        number_at(bytes, at) % 0x100 == bytes[at],
        (number_at(bytes, at) / 0x100) % 0x100 == bytes[at + 1],
        (number_at(bytes, at) / 0x10000) % 0x100 == bytes[at + 2],
        number_at(bytes, at) / 0x1000000 == bytes[at + 3],
{
    let (a, b, c, d) = (bytes[at], bytes[at + 1], bytes[at + 2], bytes[at + 3]);
    let n = number_at(bytes, at);
    assert(n % 0x100 == a && (n / 0x100) % 0x100 == b && (n / 0x10000) % 0x100 == c && n / 0x1000000
        == d) by (bit_vector)
        requires
            n == (a + b * 0x100 + c * 0x10000 + d * 0x1000000) as u32,
    ;
}

}
