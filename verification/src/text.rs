use vstd::prelude::*;
use vstd::string::*;

verus! {

/// Whether `needle` stands in `hay` at position `at`.
pub open spec fn occurs_at(hay: Seq<char>, needle: Seq<char>, at: int) -> bool {
    &&& 0 <= at
    &&& at + needle.len() <= hay.len()
    &&& hay.subrange(at, at + needle.len()) == needle
}

/// Whether `needle` stands anywhere in `hay`.
pub open spec fn contains(hay: Seq<char>, needle: Seq<char>) -> bool {
    exists|at: int| occurs_at(hay, needle, at)
}

/// Whether `at` is the first position at or after `from` where `needle` stands in `hay`.
pub open spec fn first_occurrence(hay: Seq<char>, needle: Seq<char>, from: int, at: int) -> bool {
    &&& from <= at
    &&& occurs_at(hay, needle, at)
    &&& forall|j: int| from <= j < at ==> !occurs_at(hay, needle, j)
}

/// The characters that `trim` removes at both ends: the white space of Unicode.
pub open spec fn is_space(c: char) -> bool {
    ||| '\u{9}' <= c <= '\u{d}'
    ||| c == ' '
    ||| c == '\u{85}'
    ||| c == '\u{a0}'
    ||| c == '\u{1680}'
    ||| '\u{2000}' <= c <= '\u{200a}'
    ||| c == '\u{2028}'
    ||| c == '\u{2029}'
    ||| c == '\u{202f}'
    ||| c == '\u{205f}'
    ||| c == '\u{3000}'
}

/// Number of leading space characters.
pub open spec fn leading_spaces(s: Seq<char>) -> nat
    decreases s.len(),
{
    if s.len() > 0 && is_space(s[0]) {
        1 + leading_spaces(s.skip(1))
    } else {
        0
    }
}

/// Number of trailing space characters.
pub open spec fn trailing_spaces(s: Seq<char>) -> nat
    decreases s.len(),
{
    if s.len() > 0 && is_space(s.last()) {
        1 + trailing_spaces(s.drop_last())
    } else {
        0
    }
}

/// `s` without the space characters at its two ends.
pub open spec fn trimmed(s: Seq<char>) -> Seq<char> {
    let lead = leading_spaces(s) as int;
    let rest = s.skip(lead);
    rest.take(rest.len() - trailing_spaces(rest))
}

/// If the first `n` characters are spaces and the next one is not (or the text ends), `n` is the
/// number of leading spaces.
pub proof fn lemma_leading_spaces_is(s: Seq<char>, n: int)
    requires
        0 <= n <= s.len(),
        forall|i: int| 0 <= i < n ==> is_space(#[trigger] s[i]),
        n < s.len() ==> !is_space(s[n]),
    ensures
        leading_spaces(s) == n,
    decreases n,
{
    if n > 0 {
        let t = s.skip(1);
        assert forall|i: int| 0 <= i < n - 1 implies is_space(#[trigger] t[i]) by {
            assert(t[i] == s[i + 1]);
        }
        if n - 1 < t.len() {
            assert(t[n - 1] == s[n]);
        }
        lemma_leading_spaces_is(t, n - 1);
    }
}

/// The mirror image of `lemma_leading_spaces_is` for the end of the text.
pub proof fn lemma_trailing_spaces_is(s: Seq<char>, n: int)
    requires
        0 <= n <= s.len(),
        forall|i: int| s.len() - n <= i < s.len() ==> is_space(#[trigger] s[i]),
        n < s.len() ==> !is_space(s[s.len() - n - 1]),
    ensures
        trailing_spaces(s) == n,
    decreases n,
{
    if n > 0 {
        let t = s.drop_last();
        assert forall|i: int| t.len() - (n - 1) <= i < t.len() implies is_space(#[trigger] t[i]) by {
            assert(t[i] == s[i]);
        }
        if n - 1 < t.len() {
            assert(t[t.len() - (n - 1) - 1] == s[s.len() - n - 1]);
        }
        lemma_trailing_spaces_is(t, n - 1);
    }
}

/// The characters of a string slice, one by one.
pub fn to_chars(s: &str) -> (v: Vec<char>)
    ensures
        v@ == s@,
{
    let n = s.unicode_len();
    let mut v: Vec<char> = Vec::new();
    let mut i: usize = 0;
    while i < n
        invariant
            n == s@.len(),
            i <= n,
            v@ == s@.take(i as int),
        decreases n - i,
    {
        v.push(s.get_char(i));
        assert(s@.take(i as int + 1) == s@.take(i as int).push(s@[i as int]));
        i = i + 1;
    }
    assert(s@.take(n as int) == s@);
    v
}

/// Whether `needle` stands in `hay` at `at`.
pub fn matches_at(hay: &Vec<char>, needle: &Vec<char>, at: usize) -> (r: bool)
    ensures
        r == occurs_at(hay@, needle@, at as int),
{
    if needle.len() > hay.len() || at > hay.len() - needle.len() {
        return false;
    }
    let mut k: usize = 0;
    while k < needle.len()
        invariant
            k <= needle.len(),
            at + needle.len() <= hay.len(),
            forall|j: int| 0 <= j < k ==> hay@[at + j] == needle@[j],
        decreases needle.len() - k,
    {
        if hay[at + k] != needle[k] {
            proof {
                let sub = hay@.subrange(at as int, at + needle.len());
                assert(sub[k as int] == hay@[at + k]);
            }
            return false;
        }
        k = k + 1;
    }
    assert(hay@.subrange(at as int, at + needle.len()) =~= needle@);
    true
}

/// The first position at or after `from` where `needle` stands in `hay`.
pub fn find_from(hay: &Vec<char>, needle: &Vec<char>, from: usize) -> (r: Option<usize>)
    ensures
        match r {
            Some(at) => first_occurrence(hay@, needle@, from as int, at as int),
            None => forall|j: int| from <= j ==> !occurs_at(hay@, needle@, j),
        },
{
    let mut i: usize = from;
    while i < hay.len()
        invariant
            from <= i,
            forall|j: int| from <= j < i ==> !occurs_at(hay@, needle@, j),
        decreases hay.len() - i,
    {
        if matches_at(hay, needle, i) {
            return Some(i);
        }
        i = i + 1;
    }
    if i == hay.len() && matches_at(hay, needle, i) {
        return Some(i);
    }
    None
}

/// Whether `needle` stands anywhere in `hay`.
pub fn has_substring(hay: &Vec<char>, needle: &Vec<char>) -> (r: bool)
    ensures
        r == contains(hay@, needle@),
{
    find_from(hay, needle, 0).is_some()
}

/// The bounds `[from, to)` of what `trim` leaves of `s[lo..hi]`.
pub fn trim_bounds(s: &Vec<char>, lo: usize, hi: usize) -> (r: (usize, usize))
    requires
        lo <= hi <= s.len(),
    ensures
        lo <= r.0 <= r.1 <= hi,
        s@.subrange(r.0 as int, r.1 as int) == trimmed(s@.subrange(lo as int, hi as int)),
{
    let ghost part = s@.subrange(lo as int, hi as int);
    let mut a: usize = lo;
    while a < hi && is_space_char(s[a])
        invariant
            lo <= a <= hi <= s.len(),
            part == s@.subrange(lo as int, hi as int),
            forall|i: int| 0 <= i < a - lo ==> is_space(#[trigger] part[i]),
        decreases hi - a,
    {
        a = a + 1;
    }
    proof {
        lemma_leading_spaces_is(part, a - lo);
    }
    let ghost rest = part.skip(a - lo);
    assert(rest =~= s@.subrange(a as int, hi as int));
    let mut b: usize = hi;
    while b > a && is_space_char(s[b - 1])
        invariant
            a <= b <= hi <= s.len(),
            rest == s@.subrange(a as int, hi as int),
            forall|i: int| b - a <= i < rest.len() ==> is_space(#[trigger] rest[i]),
        decreases b,
    {
        b = b - 1;
    }
    proof {
        lemma_trailing_spaces_is(rest, hi - b);
        assert(rest.take(rest.len() - (hi - b)) =~= s@.subrange(a as int, b as int));
    }
    (a, b)
}

/// Executable form of `is_space`.
pub fn is_space_char(c: char) -> (r: bool)
    ensures
        r == is_space(c),
{
    ('\u{9}' <= c && c <= '\u{d}') || c == ' ' || c == '\u{85}' || c == '\u{a0}' || c == '\u{1680}' || (
    '\u{2000}' <= c && c <= '\u{200a}') || c == '\u{2028}' || c == '\u{2029}' || c == '\u{202f}' || c
        == '\u{205f}' || c == '\u{3000}'
}

/// The character of a decimal digit.
pub open spec fn digit_char(d: nat) -> char {
    if d == 0 {
        '0'
    } else if d == 1 {
        '1'
    } else if d == 2 {
        '2'
    } else if d == 3 {
        '3'
    } else if d == 4 {
        '4'
    } else if d == 5 {
        '5'
    } else if d == 6 {
        '6'
    } else if d == 7 {
        '7'
    } else if d == 8 {
        '8'
    } else {
        '9'
    }
}

/// A number in decimal, without leading zeros.
pub open spec fn decimal(n: nat) -> Seq<char>
    decreases n,
{
    if n < 10 {
        seq![digit_char(n)]
    } else {
        decimal(n / 10).push(digit_char(n % 10))
    }
}

/// The text of one decimal digit.
pub fn digit_str(d: usize) -> (r: &'static str)
    requires
        d < 10,
    ensures
        r@ == seq![digit_char(d as nat)],
{
    proof {
        reveal_strlit("0");
        reveal_strlit("1");
        reveal_strlit("2");
        reveal_strlit("3");
        reveal_strlit("4");
        reveal_strlit("5");
        reveal_strlit("6");
        reveal_strlit("7");
        reveal_strlit("8");
        reveal_strlit("9");
    }
    let r = if d == 0 {
        "0"
    } else if d == 1 {
        "1"
    } else if d == 2 {
        "2"
    } else if d == 3 {
        "3"
    } else if d == 4 {
        "4"
    } else if d == 5 {
        "5"
    } else if d == 6 {
        "6"
    } else if d == 7 {
        "7"
    } else if d == 8 {
        "8"
    } else {
        "9"
    };
    assert(r@ =~= seq![digit_char(d as nat)]);
    r
}

/// Appends a number in decimal to a text.
pub fn push_decimal(s: &mut String, n: usize)
    ensures
        final(s)@ == old(s)@ + decimal(n as nat),
    decreases n,
{
    if n < 10 {
        s.append(digit_str(n));
    } else {
        push_decimal(s, n / 10);
        s.append(digit_str(n % 10));
        assert(s@ =~= old(s)@ + decimal(n as nat));
    }
}

/// The first position of `c` in `s`, if it occurs.
pub open spec fn index_of(s: Seq<char>, c: char) -> Option<int>
    decreases s.len(),
{
    if s.len() == 0 {
        None
    } else if s[0] == c {
        Some(0)
    } else {
        match index_of(s.skip(1), c) {
            Some(i) => Some(i + 1),
            None => None,
        }
    }
}

/// `index_of` gives the first position of the character, and nothing where it does not occur.
pub proof fn lemma_index_of(s: Seq<char>, c: char)
    ensures
        match index_of(s, c) {
            Some(i) => 0 <= i < s.len() && s[i] == c && forall|j: int| 0 <= j < i ==> s[j] != c,
            None => forall|j: int| 0 <= j < s.len() ==> s[j] != c,
        },
    decreases s.len(),
{
    if s.len() > 0 && s[0] != c {
        let t = s.skip(1);
        lemma_index_of(t, c);
        match index_of(t, c) {
            Some(i) => {
                assert(s[i + 1] == t[i]);
                assert forall|j: int| 0 <= j < i + 1 implies s[j] != c by {
                    if j > 0 {
                        assert(s[j] == t[j - 1]);
                    }
                }
            },
            None => {
                assert forall|j: int| 0 <= j < s.len() implies s[j] != c by {
                    if j > 0 {
                        assert(s[j] == t[j - 1]);
                    }
                }
            },
        }
    }
}

/// A position that holds the character, with none before it, is what `index_of` gives.
pub proof fn lemma_index_of_is(s: Seq<char>, c: char, at: int)
    requires
        0 <= at <= s.len(),
        forall|j: int| 0 <= j < at ==> s[j] != c,
        at < s.len() ==> s[at] == c,
    ensures
        index_of(s, c) == if at < s.len() {
            Some(at)
        } else {
            None::<int>
        },
{
    lemma_index_of(s, c);
}

/// The pieces of `s` between the occurrences of `sep`; a text without `sep` is one piece.
pub open spec fn split(s: Seq<char>, sep: char) -> Seq<Seq<char>>
    decreases s.len(),
{
    match index_of(s, sep) {
        Some(i) => if 0 <= i < s.len() {
            seq![s.take(i)] + split(s.skip(i + 1), sep)
        } else {
            seq![s]
        },
        None => seq![s],
    }
}

/// The first position of `c` in `v[lo..hi]`.
pub fn find_char(v: &Vec<char>, lo: usize, hi: usize, c: char) -> (r: Option<usize>)
    requires
        lo <= hi <= v.len(),
    ensures
        match r {
            Some(at) => lo <= at < hi && index_of(v@.subrange(lo as int, hi as int), c) == Some(
                at - lo,
            ),
            None => index_of(v@.subrange(lo as int, hi as int), c).is_none(),
        },
{
    let ghost part = v@.subrange(lo as int, hi as int);
    let mut i: usize = lo;
    while i < hi
        invariant
            lo <= i <= hi <= v.len(),
            part == v@.subrange(lo as int, hi as int),
            forall|j: int| 0 <= j < i - lo ==> part[j] != c,
        decreases hi - i,
    {
        if v[i] == c {
            proof {
                lemma_index_of_is(part, c, i - lo);
            }
            return Some(i);
        }
        i = i + 1;
    }
    proof {
        lemma_index_of_is(part, c, hi - lo);
    }
    None
}

/// What a list of bounds cuts out of `s`.
pub open spec fn pieces(s: Seq<char>, bounds: Seq<(usize, usize)>) -> Seq<Seq<char>> {
    Seq::new(bounds.len(), |i: int| s.subrange(bounds[i].0 as int, bounds[i].1 as int))
}

/// Whether every pair of a list of bounds lies within `[lo, hi]`, its start not after its end.
pub open spec fn bounds_within(bounds: Seq<(usize, usize)>, lo: int, hi: int) -> bool {
    forall|i: int| 0 <= i < bounds.len() ==> lo <= (#[trigger] bounds[i]).0 <= bounds[i].1 <= hi
}

/// The bounds of the pieces of `v[lo..hi]` between the occurrences of `sep`.
pub fn split_bounds(v: &Vec<char>, lo: usize, hi: usize, sep: char) -> (r: Vec<(usize, usize)>)
    requires
        lo <= hi <= v.len(),
    ensures
        r.len() >= 1,
        bounds_within(r@, lo as int, hi as int),
        pieces(v@, r@) == split(v@.subrange(lo as int, hi as int), sep),
{
    let mut r: Vec<(usize, usize)> = Vec::new();
    let mut start: usize = lo;
    loop
        invariant_except_break
            split(v@.subrange(lo as int, hi as int), sep) == pieces(v@, r@) + split(
                v@.subrange(start as int, hi as int),
                sep,
            ),
        invariant
            lo <= start <= hi <= v.len(),
            bounds_within(r@, lo as int, hi as int),
        ensures
            r.len() >= 1,
            bounds_within(r@, lo as int, hi as int),
            pieces(v@, r@) == split(v@.subrange(lo as int, hi as int), sep),
        decreases hi - start,
    {
        let ghost rest = v@.subrange(start as int, hi as int);
        let ghost before = r@;
        match find_char(v, start, hi, sep) {
            Some(at) => {
                r.push((start, at));
                proof {
                    assert(rest.take(at - start) == v@.subrange(start as int, at as int));
                    assert(rest.skip(at - start + 1) == v@.subrange(at + 1, hi as int));
                    assert(pieces(v@, r@) =~= pieces(v@, before) + seq![
                        v@.subrange(start as int, at as int),
                    ]);
                }
                start = at + 1;
            },
            None => {
                r.push((start, hi));
                proof {
                    assert(pieces(v@, r@) =~= pieces(v@, before) + seq![rest]);
                }
                break ;
            },
        }
    }
    r
}

/// The first position in `v[lo..hi]` at which `needle` stands wholly within `v[lo..hi]`.
pub fn find_within(v: &Vec<char>, lo: usize, hi: usize, needle: &Vec<char>) -> (r: Option<usize>)
    requires
        lo <= hi <= v.len(),
    ensures
        match r {
            Some(at) => lo <= at <= hi && first_occurrence(
                v@.subrange(lo as int, hi as int),
                needle@,
                0,
                at - lo,
            ),
            None => !contains(v@.subrange(lo as int, hi as int), needle@),
        },
{
    let ghost part = v@.subrange(lo as int, hi as int);
    if needle.len() > hi - lo {
        return None;
    }
    let last = hi - needle.len();
    let mut i: usize = lo;
    loop
        invariant
            lo <= i <= last,
            last == hi - needle.len(),
            lo <= hi <= v.len(),
            part == v@.subrange(lo as int, hi as int),
            forall|j: int| 0 <= j < i - lo ==> !occurs_at(part, needle@, j),
        decreases last - i,
    {
        proof {
            assert(part.subrange(i - lo, i - lo + needle@.len()) == v@.subrange(
                i as int,
                i + needle@.len(),
            ));
        }
        if matches_at(v, needle, i) {
            return Some(i);
        }
        if i == last {
            return None;
        }
        i = i + 1;
    }
}

/// Whether `v[lo..hi]` is the text `word`.
pub fn range_is(v: &Vec<char>, lo: usize, hi: usize, word: &str) -> (r: bool)
    requires
        lo <= hi <= v.len(),
    ensures
        r == (v@.subrange(lo as int, hi as int) == word@),
{
    let w = to_chars(word);
    if hi - lo != w.len() {
        return false;
    }
    let r = matches_at(v, &w, lo);
    r
}

/// The value of a decimal digit.
pub open spec fn digit_value(c: char) -> Option<nat> {
    if '0' <= c <= '9' {
        Some((c as u32 - 48) as nat)
    } else {
        None
    }
}

/// The number that a text of decimal digits spells; a text that is empty or holds anything
/// but digits spells none.
pub open spec fn decimal_value(s: Seq<char>) -> Option<nat>
    decreases s.len(),
{
    if s.len() == 0 {
        None
    } else {
        match digit_value(s.last()) {
            None => None,
            Some(d) => if s.len() == 1 {
                Some(d)
            } else {
                match decimal_value(s.drop_last()) {
                    Some(n) => Some(n * 10 + d),
                    None => None,
                }
            },
        }
    }
}

/// The digits of a text that spells a number: the text itself, without the one `+` that may
/// stand before them.
pub open spec fn unsigned_part(s: Seq<char>) -> Seq<char> {
    if s.len() > 0 && s[0] == '+' {
        s.skip(1)
    } else {
        s
    }
}

/// The number that a text spells as `usize`: decimal digits, with one `+` before them at
/// most, whose value a machine word holds.
pub open spec fn parsed_number(s: Seq<char>) -> Option<usize> {
    match decimal_value(unsigned_part(s)) {
        Some(n) => if n <= usize::MAX {
            Some(n as usize)
        } else {
            None
        },
        None => None,
    }
}

/// Reads `v[lo..hi]` as a number.
pub fn parse_number(v: &Vec<char>, lo: usize, hi: usize) -> (r: Option<usize>)
    requires
        lo <= hi <= v.len(),
    ensures
        r == parsed_number(v@.subrange(lo as int, hi as int)),
{
    let ghost whole = v@.subrange(lo as int, hi as int);
    let from = if lo < hi && v[lo] == '+' {
        lo + 1
    } else {
        lo
    };
    let ghost digits = v@.subrange(from as int, hi as int);
    assert(digits == unsigned_part(whole));
    if from == hi {
        return None;
    }
    let mut n: usize = 0;
    let mut i: usize = from;
    let mut overflow = false;
    while i < hi
        invariant
            from <= i <= hi <= v.len(),
            from < hi,
            digits == v@.subrange(from as int, hi as int),
            digits == unsigned_part(whole),
            whole == v@.subrange(lo as int, hi as int),
            i == from ==> n == 0 && !overflow,
            i > from ==> match decimal_value(digits.take(i - from)) {
                Some(value) => if overflow {
                    value > usize::MAX
                } else {
                    value == n
                },
                None => false,
            },
        decreases hi - i,
    {
        let c = v[i];
        let ghost now = digits.take(i - from + 1);
        proof {
            assert(now.drop_last() == digits.take(i - from));
            assert(now.last() == c);
        }
        if c < '0' || c > '9' {
            proof {
                lemma_no_digit_no_value(digits, i - from);
            }
            return None;
        }
        let d = (c as u32 - 48) as usize;
        if overflow || n > (usize::MAX - d) / 10 {
            overflow = true;
        } else {
            n = n * 10 + d;
        }
        i = i + 1;
    }
    assert(digits.take(hi - from) == digits);
    if overflow {
        None
    } else {
        Some(n)
    }
}

/// A text that holds something that is no digit spells no number.
pub proof fn lemma_no_digit_no_value(s: Seq<char>, at: int)
    requires
        0 <= at < s.len(),
        digit_value(s[at]).is_none(),
    ensures
        decimal_value(s).is_none(),
    decreases s.len(),
{
    if at < s.len() - 1 {
        lemma_no_digit_no_value(s.drop_last(), at);
    }
}


} // verus!
