//! Reading user input: island names, ignoring ASCII case, and `HH:MM` clock
//! times.

use vstd::prelude::*;
use crate::timetable::{ISLAND_COUNT, DAY_END, spec_island_name, island_name};

verus! {

/// The code of `c` after ASCII lower-casing: `A`..`Z` become `a`..`z`, every
/// other character is left alone.
pub open spec fn ascii_lower(c: char) -> u32 {
    if 'A' <= c && c <= 'Z' {
        (c as u32 + 32) as u32
    } else {
        c as u32
    }
}

/// `a` and `b` are equal when ASCII letters are compared without case.
pub open spec fn same_ignoring_ascii_case(a: Seq<char>, b: Seq<char>) -> bool {
    &&& a.len() == b.len()
    &&& forall|i: int| 0 <= i < a.len() ==> ascii_lower(a[i]) == ascii_lower(b[i])
}

fn lower_code(c: char) -> (r: u32)
    ensures
        r == ascii_lower(c),
{
    if 'A' <= c && c <= 'Z' {
        c as u32 + 32
    } else {
        c as u32
    }
}

fn eq_ignore_ascii_case(a: &str, b: &str) -> (r: bool)
    ensures
        r == same_ignoring_ascii_case(a@, b@),
{
    let n = a.unicode_len();
    if n != b.unicode_len() {
        return false;
    }
    let mut i: usize = 0;
    while i < n
        invariant
            n == a@.len(),
            n == b@.len(),
            i <= n,
            forall|j: int| 0 <= j < i ==> ascii_lower(a@[j]) == ascii_lower(b@[j]),
        decreases n - i,
    {
        if lower_code(a.get_char(i)) != lower_code(b.get_char(i)) {
            return false;
        }
        i = i + 1;
    }
    true
}

/// The index of the island called `name`, ignoring ASCII case.
pub fn island(name: &str) -> (r: Option<usize>)
    ensures
        match r {
            Some(i) => {
                &&& i < ISLAND_COUNT
                &&& same_ignoring_ascii_case(name@, spec_island_name(i as int))
                &&& forall|j: int| 0 <= j < i ==> !same_ignoring_ascii_case(name@, spec_island_name(j))
            },
            None => forall|j: int|
                0 <= j < ISLAND_COUNT ==> !same_ignoring_ascii_case(name@, spec_island_name(j)),
        },
{
    let mut j: usize = 0;
    while j < ISLAND_COUNT
        invariant
            j <= ISLAND_COUNT,
            forall|k: int| 0 <= k < j ==> !same_ignoring_ascii_case(name@, spec_island_name(k)),
        decreases ISLAND_COUNT - j,
    {
        if eq_ignore_ascii_case(name, island_name(j)) {
            return Some(j);
        }
        j = j + 1;
    }
    None
}

/// `c` is one of the ASCII digits `0`..`9`.
pub open spec fn is_digit(c: char) -> bool {
    '0' <= c && c <= '9'
}

/// The value of the decimal digits `s`, most significant first.
pub open spec fn digits_value(s: Seq<char>) -> nat
    decreases s.len(),
{
    if s.len() == 0 {
        0
    } else {
        digits_value(s.drop_last()) * 10 + ((s.last() as u32 - '0' as u32) as nat)
    }
}

/// `s` is a non-empty run of ASCII digits.
pub open spec fn all_digits(s: Seq<char>) -> bool {
    &&& s.len() > 0
    &&& forall|i: int| 0 <= i < s.len() ==> is_digit(#[trigger] s[i])
}

/// `s` without its leading `+`, if it has one.
pub open spec fn unsigned_body(s: Seq<char>) -> Seq<char> {
    if s.len() > 0 && s[0] == '+' {
        s.drop_first()
    } else {
        s
    }
}

/// The value of `s` read as an unsigned 32-bit decimal: an optional `+`, then
/// at least one ASCII digit, with a value that fits in 32 bits.
pub open spec fn u32_text(s: Seq<char>) -> Option<nat> {
    if all_digits(unsigned_body(s)) && digits_value(unsigned_body(s)) <= u32::MAX {
        Some(digits_value(unsigned_body(s)))
    } else {
        None
    }
}

/// `p` is the position of the only `:` in `v`.
pub open spec fn sole_colon(v: Seq<char>, p: int) -> bool {
    &&& 0 <= p < v.len()
    &&& v[p] == ':'
    &&& forall|j: int| 0 <= j < v.len() && j != p ==> v[j] != ':'
}

/// The minute of the day that the clock text `v` names: `HH:MM` with exactly
/// one colon, both parts unsigned decimals, hour at most 24, minute below 60,
/// and the total not past the end of the day.
pub open spec fn clock_minutes(v: Seq<char>) -> Option<nat> {
    if exists|p: int| sole_colon(v, p) {
        let p = choose|p: int| sole_colon(v, p);
        match (u32_text(v.take(p)), u32_text(v.skip(p + 1))) {
            (Some(h), Some(m)) => if h <= 24 && m < 60 && h * 60 + m <= DAY_END {
                Some((h * 60 + m) as nat)
            } else {
                None
            },
            _ => None,
        }
    } else {
        None
    }
}

proof fn lemma_digits_value_grows(s: Seq<char>, k: int)
    requires
        0 <= k <= s.len(),
        forall|i: int| 0 <= i < s.len() ==> is_digit(s[i]),
    ensures
        digits_value(s.take(k)) <= digits_value(s),
    decreases s.len() - k,
{
    if k < s.len() {
        lemma_digits_value_grows(s, k + 1);
        assert(s.take(k + 1).drop_last() =~= s.take(k));
    } else {
        assert(s.take(k) =~= s);
    }
}

/// Parses the characters `lo..hi` of `v` as an unsigned 32-bit decimal.
fn parse_u32(v: &str, lo: usize, hi: usize) -> (r: Option<u32>)
    requires
        lo <= hi <= v@.len(),
    ensures
        match u32_text(v@.subrange(lo as int, hi as int)) {
            Some(x) => r == Some(x as u32),
            None => r is None,
        },
{
    let ghost s = v@.subrange(lo as int, hi as int);
    let mut start = lo;
    if lo < hi && v.get_char(lo) == '+' {
        start = lo + 1;
    }
    let ghost body = v@.subrange(start as int, hi as int);
    assert(body =~= unsigned_body(s));
    if start == hi {
        return None;
    }
    let mut value: u64 = 0;
    let mut i = start;
    while i < hi
        invariant
            lo <= start <= i <= hi <= v@.len(),
            body == v@.subrange(start as int, hi as int),
            s == v@.subrange(lo as int, hi as int),
            body == unsigned_body(s),
            body.len() > 0,
            forall|j: int| 0 <= j < i - start ==> is_digit(body[j]),
            value == digits_value(body.take(i - start)),
            value <= u32::MAX,
        decreases hi - i,
    {
        let c = v.get_char(i);
        if !('0' <= c && c <= '9') {
            assert(body[i - start] == c);
            assert(!is_digit(body[i - start]));
            assert(u32_text(s) is None);
            return None;
        }
        let d = (c as u32 - '0' as u32) as u64;
        assert(body.take(i + 1 - start).drop_last() =~= body.take(i - start));
        value = value * 10 + d;
        if value > 0xffff_ffff {
            proof {
                if all_digits(body) {
                    lemma_digits_value_grows(body, i + 1 - start);
                    assert(digits_value(body) > u32::MAX);
                }
                assert(u32_text(s) is None);
            }
            return None;
        }
        i = i + 1;
    }
    assert(body.take(i - start) =~= body);
    Some(value as u32)
}

/// The minute of the day named by the clock text `value` (`HH:MM`).
pub fn parse_clock(value: &str) -> (r: Option<u32>)
    ensures
        match clock_minutes(value@) {
            Some(t) => r == Some(t as u32),
            None => r is None,
        },
{
    let n = value.unicode_len();
    let mut p: usize = 0;
    while p < n && value.get_char(p) != ':'
        invariant
            n == value@.len(),
            p <= n,
            forall|j: int| 0 <= j < p ==> value@[j] != ':',
        decreases n - p,
    {
        p = p + 1;
    }
    if p == n {
        proof {
            if exists|q: int| sole_colon(value@, q) {
                let q = choose|q: int| sole_colon(value@, q);
                assert(value@[q] == ':');
            }
        }
        return None;
    }
    let mut q: usize = p + 1;
    while q < n && value.get_char(q) != ':'
        invariant
            n == value@.len(),
            p < q <= n,
            forall|j: int| p < j < q ==> value@[j] != ':',
        decreases n - q,
    {
        q = q + 1;
    }
    if q < n {
        proof {
            if exists|c: int| sole_colon(value@, c) {
                let c = choose|c: int| sole_colon(value@, c);
                assert(value@[p as int] == ':' && value@[q as int] == ':');
            }
        }
        return None;
    }
    assert(sole_colon(value@, p as int));
    assert(value@.take(p as int) =~= value@.subrange(0, p as int));
    assert(value@.skip(p + 1) =~= value@.subrange(p + 1, n as int));
    let hour = match parse_u32(value, 0, p) {
        Some(h) => h,
        None => return None,
    };
    let minute = match parse_u32(value, p + 1, n) {
        Some(m) => m,
        None => return None,
    };
    if hour > 24 || minute >= 60 {
        return None;
    }
    let total = hour * 60 + minute;
    if total <= DAY_END {
        Some(total)
    } else {
        None
    }
}

/// The two-digit decimal text of `n` (below a hundred), with a leading zero.
pub open spec fn two_digit_text(n: nat) -> Seq<char> {
    seq![(('0' as u32) + n / 10) as char, (('0' as u32) + n % 10) as char]
}

proof fn lemma_two_digits(n: nat)
    requires
        n < 100,
    ensures
        u32_text(two_digit_text(n)) == Some(n),
{
    let s = two_digit_text(n);
    assert(unsigned_body(s) == s);
    assert(all_digits(s));
    assert(s.drop_last() =~= seq![s[0]]);
    assert(seq![s[0]].drop_last() =~= Seq::<char>::empty());
    assert(seq![s[0]].last() == s[0]);
    assert(digits_value(Seq::<char>::empty()) == 0);
    assert((s[0] as u32) == ('0' as u32) + n / 10);
    assert(digits_value(seq![s[0]]) == n / 10);
    assert(digits_value(s) == (n / 10) * 10 + n % 10);
}

/// Every minute of the day written as `HH:MM` with two-digit fields reads
/// back as that minute; `24:00` is the end of the day.
pub proof fn law_clock_round_trip(h: nat, m: nat)
    requires
        (h < 24 && m < 60) || (h == 24 && m == 0),
    ensures
        clock_minutes(two_digit_text(h) + seq![':'] + two_digit_text(m)) == Some(h * 60 + m),
{
    let v = two_digit_text(h) + seq![':'] + two_digit_text(m);
    assert(sole_colon(v, 2));
    assert forall|p: int| sole_colon(v, p) implies p == 2 by {}
    assert(v.take(2) =~= two_digit_text(h));
    assert(v.skip(3) =~= two_digit_text(m));
    lemma_two_digits(h);
    lemma_two_digits(m);
}

/// Reads all of `value` as an unsigned 32-bit decimal (an optional `+`, then
/// ASCII digits, with a value that fits in 32 bits).
pub fn parse_u32_text(value: &str) -> (r: Option<u32>)
    ensures
        match u32_text(value@) {
            Some(x) => r == Some(x as u32),
            None => r is None,
        },
{
    let n = value.unicode_len();
    assert(value@.subrange(0, n as int) =~= value@);
    parse_u32(value, 0, n)
}

/// Why a directed hop `FROM:TO` could not be read.
#[derive(Clone, Copy, PartialEq, Eq, Structural, Debug)]
pub enum HopError {
    /// The text has no `:`.
    MissingColon,
    /// One side of the first `:` names no island.
    UnknownIsland,
}

/// `p` is the position of the first `:` in `v`.
pub open spec fn first_colon(v: Seq<char>, p: int) -> bool {
    &&& 0 <= p < v.len()
    &&& v[p] == ':'
    &&& forall|j: int| 0 <= j < p ==> v[j] != ':'
}

/// The island that `name` names, ignoring ASCII case, if any.
pub open spec fn named_island(name: Seq<char>) -> Option<int> {
    if exists|i: int| 0 <= i < ISLAND_COUNT && same_ignoring_ascii_case(name, spec_island_name(i)) {
        Some(choose|i: int| 0 <= i < ISLAND_COUNT && same_ignoring_ascii_case(name, spec_island_name(i)))
    } else {
        None
    }
}

/// The island names are told apart even without case.
proof fn lemma_names_distinct(name: Seq<char>, i: int, j: int)
    requires
        0 <= i < ISLAND_COUNT,
        0 <= j < ISLAND_COUNT,
        same_ignoring_ascii_case(name, spec_island_name(i)),
        same_ignoring_ascii_case(name, spec_island_name(j)),
    ensures
        i == j,
{
    if i != j {
        assert(ascii_lower(spec_island_name(i)[0]) != ascii_lower(spec_island_name(j)[0]));
    }
}

/// Reads a directed hop `FROM:TO`: the text before the first `:` and the
/// text after it must each name an island, ignoring ASCII case.
pub fn parse_hop(value: &str) -> (r: Result<(usize, usize), HopError>)
    ensures
        (r is Err && r->Err_0 == HopError::MissingColon) <==> (forall|j: int|
            0 <= j < value@.len() ==> value@[j] != ':'),
        forall|p: int| #[trigger] first_colon(value@, p) ==> match r {
            Ok((a, b)) => named_island(value@.take(p)) == Some(a as int) && named_island(
                value@.skip(p + 1),
            ) == Some(b as int),
            Err(e) => e == HopError::UnknownIsland && (named_island(value@.take(p)) is None
                || named_island(value@.skip(p + 1)) is None),
        },
{
    let n = value.unicode_len();
    let mut p: usize = 0;
    while p < n && value.get_char(p) != ':'
        invariant
            n == value@.len(),
            p <= n,
            forall|j: int| 0 <= j < p ==> value@[j] != ':',
        decreases n - p,
    {
        p = p + 1;
    }
    if p == n {
        return Err(HopError::MissingColon);
    }
    assert(first_colon(value@, p as int));
    assert forall|q: int| first_colon(value@, q) implies q == p by {}
    let left = value.substring_char(0, p);
    let right = value.substring_char(p + 1, n);
    assert(left@ =~= value@.take(p as int));
    assert(right@ =~= value@.skip(p + 1));
    let a = island(left);
    let b = island(right);
    proof {
        if let Some(i) = a {
            let c = choose|c: int| 0 <= c < ISLAND_COUNT && same_ignoring_ascii_case(left@, spec_island_name(c));
            lemma_names_distinct(left@, i as int, c);
        }
        if let Some(i) = b {
            let c = choose|c: int| 0 <= c < ISLAND_COUNT && same_ignoring_ascii_case(right@, spec_island_name(c));
            lemma_names_distinct(right@, i as int, c);
        }
    }
    match (a, b) {
        (Some(a), Some(b)) => Ok((a, b)),
        _ => Err(HopError::UnknownIsland),
    }
}


/// The name the planner prints for an island reads back as that island.
pub proof fn law_island_name_reads_back(i: int)
    requires
        0 <= i < ISLAND_COUNT,
    ensures
        named_island(spec_island_name(i)) == Some(i),
{
    let name = spec_island_name(i);
    assert(same_ignoring_ascii_case(name, name));
    let c = choose|c: int| 0 <= c < ISLAND_COUNT && same_ignoring_ascii_case(name, spec_island_name(c));
    lemma_names_distinct(name, i, c);
}

} // verus!
