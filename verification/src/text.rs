//! Character classes, sequence scanning and decimal rendering used by the
//! wire grammar.
use vstd::prelude::*;

verus! {

use vstd::string::StrSliceExecFns;
use vstd::string::StringExecFns;

/// Space characters accepted between grammar tokens: space and horizontal tab.
pub open spec fn is_space_char(c: char) -> bool {
    c == ' ' || c == '\t'
}

/// Characters allowed in a header name: ASCII alphanumerics, `-` and `_`.
pub open spec fn is_name_char(c: char) -> bool {
    ||| (c as u32 >= 48 && c as u32 <= 57)
    ||| (c as u32 >= 65 && c as u32 <= 90)
    ||| (c as u32 >= 97 && c as u32 <= 122)
    ||| c == '-'
    ||| c == '_'
}

/// ASCII decimal digits.
pub open spec fn is_digit_char(c: char) -> bool {
    c as u32 >= 48 && c as u32 <= 57
}

/// ASCII lower-case letters.
pub open spec fn is_lower_char(c: char) -> bool {
    c as u32 >= 97 && c as u32 <= 122
}

/// Two characters are equal up to ASCII case.
pub open spec fn eq_ic(a: char, b: char) -> bool {
    ||| a == b
    ||| (is_lower_char(a) && a as u32 - 32 == b as u32)
    ||| (is_lower_char(b) && b as u32 - 32 == a as u32)
}

/// `s` begins with `kw`, compared ASCII-case-insensitively.
pub open spec fn starts_ic(s: Seq<char>, kw: Seq<char>) -> bool {
    kw.len() <= s.len() && (forall|i: int| 0 <= i < kw.len() ==> eq_ic(s[i], kw[i]))
}

/// Whole sequences equal up to ASCII case.
pub open spec fn seq_eq_ic(a: Seq<char>, b: Seq<char>) -> bool {
    a.len() == b.len() && (forall|i: int| 0 <= i < a.len() ==> eq_ic(a[i], b[i]))
}

/// Length of the longest prefix of `s` made of header-name characters.
pub open spec fn count_name(s: Seq<char>) -> int
    decreases s.len(),
{
    if s.len() == 0 || !is_name_char(s[0]) {
        0int
    } else {
        1 + count_name(s.drop_first())
    }
}

/// Length of the longest prefix of `s` made of space characters.
pub open spec fn count_spaces(s: Seq<char>) -> int
    decreases s.len(),
{
    if s.len() == 0 || !is_space_char(s[0]) {
        0int
    } else {
        1 + count_spaces(s.drop_first())
    }
}

/// Length of the longest prefix of `s` made of decimal digits.
pub open spec fn count_digits(s: Seq<char>) -> int
    decreases s.len(),
{
    if s.len() == 0 || !is_digit_char(s[0]) {
        0int
    } else {
        1 + count_digits(s.drop_first())
    }
}

/// `count_name` is exactly the position of the first non-name character.
pub proof fn lemma_count_name_is(s: Seq<char>, n: int)
    requires
        0 <= n <= s.len(),
        forall|j: int| 0 <= j < n ==> is_name_char(s[j]),
        n == s.len() || !is_name_char(s[n]),
    ensures
        count_name(s) == n,
    decreases n,
{
    if n > 0 {
        let t = s.drop_first();
        assert forall|j: int| 0 <= j < n - 1 implies is_name_char(t[j]) by {
            assert(t[j] == s[j + 1]);
        }
        lemma_count_name_is(t, n - 1);
    }
}

/// `count_spaces` is exactly the position of the first non-space character.
pub proof fn lemma_count_spaces_is(s: Seq<char>, n: int)
    requires
        0 <= n <= s.len(),
        forall|j: int| 0 <= j < n ==> is_space_char(s[j]),
        n == s.len() || !is_space_char(s[n]),
    ensures
        count_spaces(s) == n,
    decreases n,
{
    if n > 0 {
        let t = s.drop_first();
        assert forall|j: int| 0 <= j < n - 1 implies is_space_char(t[j]) by {
            assert(t[j] == s[j + 1]);
        }
        lemma_count_spaces_is(t, n - 1);
    }
}

/// `count_digits` is exactly the position of the first non-digit character.
pub proof fn lemma_count_digits_is(s: Seq<char>, n: int)
    requires
        0 <= n <= s.len(),
        forall|j: int| 0 <= j < n ==> is_digit_char(s[j]),
        n == s.len() || !is_digit_char(s[n]),
    ensures
        count_digits(s) == n,
    decreases n,
{
    if n > 0 {
        let t = s.drop_first();
        assert forall|j: int| 0 <= j < n - 1 implies is_digit_char(t[j]) by {
            assert(t[j] == s[j + 1]);
        }
        lemma_count_digits_is(t, n - 1);
    }
}

/// Prefix counts never exceed the sequence length.
pub proof fn lemma_count_name_le(s: Seq<char>)
    ensures
        0 <= count_name(s) <= s.len(),
    decreases s.len(),
{
    if s.len() > 0 && is_name_char(s[0]) {
        lemma_count_name_le(s.drop_first());
    }
}

pub proof fn lemma_count_spaces_le(s: Seq<char>)
    ensures
        0 <= count_spaces(s) <= s.len(),
    decreases s.len(),
{
    if s.len() > 0 && is_space_char(s[0]) {
        lemma_count_spaces_le(s.drop_first());
    }
}

pub proof fn lemma_count_digits_le(s: Seq<char>)
    ensures
        0 <= count_digits(s) <= s.len(),
    decreases s.len(),
{
    if s.len() > 0 && is_digit_char(s[0]) {
        lemma_count_digits_le(s.drop_first());
    }
}


/// What a count means: name characters up to it, none at it.
pub proof fn lemma_count_name_props(s: Seq<char>)
    ensures
        0 <= count_name(s) <= s.len(),
        forall|j: int| 0 <= j < count_name(s) ==> is_name_char(#[trigger] s[j]),
        count_name(s) < s.len() ==> !is_name_char(s[count_name(s)]),
    decreases s.len(),
{
    if s.len() > 0 && is_name_char(s[0]) {
        let t = s.drop_first();
        lemma_count_name_props(t);
        assert forall|j: int| 0 <= j < count_name(s) implies is_name_char(#[trigger] s[j]) by {
            if j > 0 {
                assert(t[j - 1] == s[j]);
            }
        }
        if count_name(s) < s.len() {
            assert(t[count_name(t)] == s[count_name(s)]);
        }
    }
}

/// What a count means: spaces up to it, none at it.
pub proof fn lemma_count_spaces_props(s: Seq<char>)
    ensures
        0 <= count_spaces(s) <= s.len(),
        forall|j: int| 0 <= j < count_spaces(s) ==> is_space_char(#[trigger] s[j]),
        count_spaces(s) < s.len() ==> !is_space_char(s[count_spaces(s)]),
    decreases s.len(),
{
    if s.len() > 0 && is_space_char(s[0]) {
        let t = s.drop_first();
        lemma_count_spaces_props(t);
        assert forall|j: int| 0 <= j < count_spaces(s) implies is_space_char(#[trigger] s[j]) by {
            if j > 0 {
                assert(t[j - 1] == s[j]);
            }
        }
        if count_spaces(s) < s.len() {
            assert(t[count_spaces(t)] == s[count_spaces(s)]);
        }
    }
}

/// What a count means: digits up to it, none at it.
pub proof fn lemma_count_digits_props(s: Seq<char>)
    ensures
        0 <= count_digits(s) <= s.len(),
        forall|j: int| 0 <= j < count_digits(s) ==> is_digit_char(#[trigger] s[j]),
        count_digits(s) < s.len() ==> !is_digit_char(s[count_digits(s)]),
    decreases s.len(),
{
    if s.len() > 0 && is_digit_char(s[0]) {
        let t = s.drop_first();
        lemma_count_digits_props(t);
        assert forall|j: int| 0 <= j < count_digits(s) implies is_digit_char(#[trigger] s[j]) by {
            if j > 0 {
                assert(t[j - 1] == s[j]);
            }
        }
        if count_digits(s) < s.len() {
            assert(t[count_digits(t)] == s[count_digits(s)]);
        }
    }
}


/// Index of the first occurrence of `pat` as a contiguous subsequence of `s`.
pub open spec fn find_sub(s: Seq<char>, pat: Seq<char>) -> Option<int>
    decreases s.len(),
{
    if pat.len() > s.len() {
        None
    } else if s.take(pat.len() as int) == pat {
        Some(0int)
    } else if s.len() == 0 {
        None
    } else {
        match find_sub(s.drop_first(), pat) {
            Some(i) => Some(i + 1),
            None => None,
        }
    }
}

/// What a `find_sub` result means: a match at the index and none before it.
pub proof fn lemma_find_sub_props(s: Seq<char>, pat: Seq<char>)
    requires
        pat.len() >= 1,
    ensures
        match find_sub(s, pat) {
            Some(i) => 0 <= i && i + pat.len() <= s.len() && s.subrange(i, i + pat.len() as int)
                == pat && (forall|j: int|
                0 <= j < i ==> #[trigger] s.subrange(j, j + pat.len() as int) != pat),
            None => forall|j: int|
                0 <= j && j + pat.len() <= s.len() ==> #[trigger] s.subrange(j, j + pat.len() as int)
                    != pat,
        },
    decreases s.len(),
{
    if pat.len() > s.len() {
        assert forall|j: int| 0 <= j && j + pat.len() <= s.len() implies #[trigger] s.subrange(
            j,
            j + pat.len() as int,
        ) != pat by {}
    } else if s.take(pat.len() as int) == pat {
        assert(s.subrange(0, pat.len() as int) =~= s.take(pat.len() as int));
    } else {
        let t = s.drop_first();
        lemma_find_sub_props(t, pat);
        assert(s.subrange(0, pat.len() as int) =~= s.take(pat.len() as int));
        assert forall|j: int|
            1 <= j && j + pat.len() <= s.len() implies #[trigger] s.subrange(j, j + pat.len() as int)
            == t.subrange(j - 1, j - 1 + pat.len() as int) by {
            assert(s.subrange(j, j + pat.len() as int) =~= t.subrange(
                j - 1,
                j - 1 + pat.len() as int,
            ));
        }
        match find_sub(t, pat) {
            Some(i) => {
                assert(s.subrange(i + 1, i + 1 + pat.len() as int) == pat);
            },
            None => {},
        }
    }
}

/// If `pat` occurs at `k` and nowhere earlier, `find_sub` returns `k`.
pub proof fn lemma_find_sub_at(s: Seq<char>, pat: Seq<char>, k: int)
    requires
        pat.len() >= 1,
        0 <= k,
        k + pat.len() <= s.len(),
        s.subrange(k, k + pat.len() as int) == pat,
        forall|j: int| 0 <= j < k ==> #[trigger] s.subrange(j, j + pat.len() as int) != pat,
    ensures
        find_sub(s, pat) == Some(k),
    decreases k,
{
    if k == 0 {
        assert(s.take(pat.len() as int) =~= s.subrange(0, pat.len() as int));
    } else {
        let t = s.drop_first();
        assert(s.subrange(0, 0 + pat.len() as int) != pat);
        assert(s.take(pat.len() as int) =~= s.subrange(0, 0 + pat.len() as int));
        assert(s.take(pat.len() as int) != pat);
        assert forall|j: int|
            0 <= j && j + pat.len() <= t.len() implies #[trigger] t.subrange(j, j + pat.len() as int)
            == s.subrange(j + 1, j + 1 + pat.len() as int) by {
            assert(t.subrange(j, j + pat.len() as int) =~= s.subrange(
                j + 1,
                j + 1 + pat.len() as int,
            ));
        }
        lemma_find_sub_at(t, pat, k - 1);
    }
}

/// Index of the last occurrence of `c` in `s`.
pub open spec fn rfind(s: Seq<char>, c: char) -> Option<int>
    decreases s.len(),
{
    if s.len() == 0 {
        None
    } else if s[s.len() - 1] == c {
        Some(s.len() - 1)
    } else {
        rfind(s.drop_last(), c)
    }
}

/// What a `rfind` result means: `c` there and nowhere after.
pub proof fn lemma_rfind_props(s: Seq<char>, c: char)
    ensures
        match rfind(s, c) {
            Some(i) => 0 <= i < s.len() && s[i] == c && (forall|j: int|
                i < j < s.len() ==> s[j] != c),
            None => forall|j: int| 0 <= j < s.len() ==> s[j] != c,
        },
    decreases s.len(),
{
    if s.len() == 0 {
    } else if s[s.len() - 1] == c {
    } else {
        let t = s.drop_last();
        lemma_rfind_props(t, c);
        assert forall|j: int| 0 <= j < s.len() - 1 implies s[j] == t[j] by {}
        match rfind(t, c) {
            Some(i) => {
                assert forall|j: int| i < j < s.len() implies s[j] != c by {
                    if j < s.len() - 1 {
                        assert(s[j] == t[j]);
                    }
                }
            },
            None => {
                assert forall|j: int| 0 <= j < s.len() implies s[j] != c by {
                    if j < s.len() - 1 {
                        assert(s[j] == t[j]);
                    }
                }
            },
        }
    }
}

/// Exec check of ASCII case-insensitive character equality.
pub fn eq_ic_exec(a: char, b: char) -> (r: bool)
    ensures
        r == eq_ic(a, b),
{
    let x = a as u32;
    let y = b as u32;
    x == y || (x >= 97 && x <= 122 && x - 32 == y) || (y >= 97 && y <= 122 && y - 32 == x)
}

/// Exec check of a single character against the header-name class.
pub fn is_name_char_exec(c: char) -> (r: bool)
    ensures
        r == is_name_char(c),
{
    let x = c as u32;
    (x >= 48 && x <= 57) || (x >= 65 && x <= 90) || (x >= 97 && x <= 122) || c == '-' || c == '_'
}

/// Exec string equality on views.
pub fn str_eq(a: &str, b: &str) -> (r: bool)
    ensures
        r == (a@ == b@),
{
    let la = a.unicode_len();
    let lb = b.unicode_len();
    if la != lb {
        assert(a@ != b@);
        return false;
    }
    let mut i: usize = 0;
    while i < la
        invariant
            la == a@.len(),
            la == b@.len(),
            0 <= i <= la,
            forall|j: int| 0 <= j < i ==> a@[j] == b@[j],
        decreases la - i,
    {
        if a.get_char(i) != b.get_char(i) {
            assert(a@ != b@);
            return false;
        }
        i += 1;
    }
    assert(a@ =~= b@);
    true
}

/// Exec string equality up to ASCII case.
pub fn str_eq_ic(a: &str, b: &str) -> (r: bool)
    ensures
        r == seq_eq_ic(a@, b@),
{
    let la = a.unicode_len();
    let lb = b.unicode_len();
    if la != lb {
        return false;
    }
    let mut i: usize = 0;
    while i < la
        invariant
            la == a@.len(),
            la == b@.len(),
            0 <= i <= la,
            forall|j: int| 0 <= j < i ==> eq_ic(a@[j], b@[j]),
        decreases la - i,
    {
        if !eq_ic_exec(a.get_char(i), b.get_char(i)) {
            return false;
        }
        i += 1;
    }
    true
}

/// Exec scan from `from` over header-name characters; returns where the scan stops.
pub fn scan_name(s: &str, from: usize) -> (r: usize)
    requires
        from <= s@.len(),
    ensures
        from <= r <= s@.len(),
        r - from == count_name(s@.skip(from as int)),
{
    let len = s.unicode_len();
    let mut i = from;
    let mut stopped = false;
    while !stopped && i < len
        invariant
            from <= i <= len,
            len == s@.len(),
            forall|j: int| from <= j < i ==> is_name_char(s@[j]),
            stopped ==> i < len && !is_name_char(s@[i as int]),
        decreases len - i + (if stopped { 0int } else { 1int }),
    {
        if is_name_char_exec(s.get_char(i)) {
            i += 1;
        } else {
            stopped = true;
        }
    }
    proof {
        let t = s@.skip(from as int);
        assert forall|j: int| 0 <= j < i - from implies is_name_char(t[j]) by {
            assert(t[j] == s@[from + j]);
        }
        if (i - from) < t.len() {
            assert(t[i - from] == s@[i as int]);
        }
        lemma_count_name_is(t, i - from);
    }
    i
}

/// Exec scan from `from` over space characters; returns where the scan stops.
pub fn scan_spaces(s: &str, from: usize) -> (r: usize)
    requires
        from <= s@.len(),
    ensures
        from <= r <= s@.len(),
        r - from == count_spaces(s@.skip(from as int)),
{
    let len = s.unicode_len();
    let mut i = from;
    let mut stopped = false;
    while !stopped && i < len
        invariant
            from <= i <= len,
            len == s@.len(),
            forall|j: int| from <= j < i ==> is_space_char(s@[j]),
            stopped ==> i < len && !is_space_char(s@[i as int]),
        decreases len - i + (if stopped { 0int } else { 1int }),
    {
        let c = s.get_char(i);
        if c == ' ' || c == '\t' {
            i += 1;
        } else {
            stopped = true;
        }
    }
    proof {
        let t = s@.skip(from as int);
        assert forall|j: int| 0 <= j < i - from implies is_space_char(t[j]) by {
            assert(t[j] == s@[from + j]);
        }
        if (i - from) < t.len() {
            assert(t[i - from] == s@[i as int]);
        }
        lemma_count_spaces_is(t, i - from);
    }
    i
}

/// Exec scan from `from` over decimal digits; returns where the scan stops.
pub fn scan_digits(s: &str, from: usize) -> (r: usize)
    requires
        from <= s@.len(),
    ensures
        from <= r <= s@.len(),
        r - from == count_digits(s@.skip(from as int)),
{
    let len = s.unicode_len();
    let mut i = from;
    let mut stopped = false;
    while !stopped && i < len
        invariant
            from <= i <= len,
            len == s@.len(),
            forall|j: int| from <= j < i ==> is_digit_char(s@[j]),
            stopped ==> i < len && !is_digit_char(s@[i as int]),
        decreases len - i + (if stopped { 0int } else { 1int }),
    {
        let c = s.get_char(i);
        let u = c as u32;
        if u >= 48 && u <= 57 {
            i += 1;
        } else {
            stopped = true;
        }
    }
    proof {
        let t = s@.skip(from as int);
        assert forall|j: int| 0 <= j < i - from implies is_digit_char(t[j]) by {
            assert(t[j] == s@[from + j]);
        }
        if (i - from) < t.len() {
            assert(t[i - from] == s@[i as int]);
        }
        lemma_count_digits_is(t, i - from);
    }
    i
}

/// Exec check that `pat` occurs in `s` exactly at position `at`.
pub fn match_at(s: &str, at: usize, pat: &str) -> (r: bool)
    requires
        at + pat@.len() <= s@.len(),
    ensures
        r == (s@.subrange(at as int, at + pat@.len()) == pat@),
{
    let slen = s.unicode_len();
    let plen = pat.unicode_len();
    let mut k: usize = 0;
    while k < plen
        invariant
            0 <= k <= plen,
            plen == pat@.len(),
            slen == s@.len(),
            at + plen <= slen,
            forall|j: int| 0 <= j < k ==> s@[at + j] == pat@[j],
        decreases plen - k,
    {
        if s.get_char(at + k) != pat.get_char(k) {
            proof {
                assert(s@.subrange(at as int, at + pat@.len())[k as int] == s@[at + k]);
            }
            return false;
        }
        k += 1;
    }
    proof {
        assert(s@.subrange(at as int, at + pat@.len()) =~= pat@);
    }
    true
}

/// Exec search for the first occurrence of `pat` in `s` at or after `from`.
pub fn find_pattern(s: &str, from: usize, pat: &str) -> (r: Option<usize>)
    requires
        from <= s@.len(),
        pat@.len() >= 1,
    ensures
        match r {
            Some(i) => from <= i && i + pat@.len() <= s@.len() && find_sub(
                s@.skip(from as int),
                pat@,
            ) == Some(i - from),
            None => find_sub(s@.skip(from as int), pat@) is None,
        },
{
    let len = s.unicode_len();
    let plen = pat.unicode_len();
    if plen > len - from {
        return None;
    }
    let mut i = from;
    while i <= len - plen
        invariant
            from <= i,
            i + plen <= len + 1,
            plen <= len,
            len == s@.len(),
            plen == pat@.len(),
            plen >= 1,
            from + plen <= len,
            forall|j: int|
                from <= j < i ==> #[trigger] s@.subrange(j, j + pat@.len()) != pat@,
        decreases len - i,
    {
        if match_at(s, i, pat) {
            proof {
                let t = s@.skip(from as int);
                assert forall|j: int|
                    0 <= j && j + pat@.len() <= t.len() implies #[trigger] t.subrange(
                    j,
                    j + pat@.len(),
                ) == s@.subrange(from + j, from + j + pat@.len()) by {
                    assert(t.subrange(j, j + pat@.len()) =~= s@.subrange(
                        from + j,
                        from + j + pat@.len(),
                    ));
                }
                lemma_find_sub_at(t, pat@, i - from);
            }
            return Some(i);
        }
        i += 1;
    }
    proof {
        let t = s@.skip(from as int);
        assert forall|j: int|
            0 <= j && j + pat@.len() <= t.len() implies #[trigger] t.subrange(j, j + pat@.len())
            != pat@ by {
            assert(t.subrange(j, j + pat@.len()) =~= s@.subrange(from + j, from + j + pat@.len()));
        }
        lemma_find_sub_props(t, pat@);
    }
    None
}

/// Exec check that `s`, from position `from`, begins with `kw` up to ASCII case.
pub fn starts_with_ic(s: &str, from: usize, kw: &str) -> (r: bool)
    requires
        from <= s@.len(),
    ensures
        r == starts_ic(s@.skip(from as int), kw@),
{
    let len = s.unicode_len();
    let klen = kw.unicode_len();
    if klen > len - from {
        return false;
    }
    let mut k: usize = 0;
    while k < klen
        invariant
            0 <= k <= klen,
            klen == kw@.len(),
            from + klen <= len,
            len == s@.len(),
            forall|j: int| 0 <= j < k ==> eq_ic(s@[from + j], kw@[j]),
        decreases klen - k,
    {
        if !eq_ic_exec(s.get_char(from + k), kw.get_char(k)) {
            proof {
                assert(s@.skip(from as int)[k as int] == s@[from + k]);
            }
            return false;
        }
        k += 1;
    }
    proof {
        let t = s@.skip(from as int);
        assert forall|j: int| 0 <= j < kw@.len() implies eq_ic(t[j], kw@[j]) by {
            assert(t[j] == s@[from + j]);
        }
    }
    true
}

/// Decimal digit character of a value below ten.
pub open spec fn dec_digit(d: int) -> char {
    if d == 0 {
        '0'
    } else if d == 1 {
        '1'
    } else if d == 2 {
        '2'
    } else if d == 3 {
        '3'
    } else if d == 4 {
        '4'
    } else if d == 5 {
        '5'
    } else if d == 6 {
        '6'
    } else if d == 7 {
        '7'
    } else if d == 8 {
        '8'
    } else {
        '9'
    }
}

/// Decimal representation of a non-negative integer, most significant digit first.
pub open spec fn dec_chars(n: int) -> Seq<char>
    decreases n,
{
    if n < 0 {
        Seq::empty()
    } else if n < 10 {
        seq![dec_digit(n)]
    } else {
        dec_chars(n / 10).push(dec_digit(n % 10))
    }
}

/// One decimal digit as a string slice.
fn digit_str(d: usize) -> (r: &'static str)
    requires
        d < 10,
    ensures
        r@ == seq![dec_digit(d as int)],
{
    let r: &'static str = match d {
        0 => "0",
        1 => "1",
        2 => "2",
        3 => "3",
        4 => "4",
        5 => "5",
        6 => "6",
        7 => "7",
        8 => "8",
        _ => "9",
    };
    proof {
        reveal_strlit("0");
        reveal_strlit("1");
        reveal_strlit("2");
        reveal_strlit("3");
        reveal_strlit("4");
        reveal_strlit("5");
        reveal_strlit("6");
        reveal_strlit("7");
        reveal_strlit("8");
        reveal_strlit("9");
        assert(r@ =~= seq![dec_digit(d as int)]);
    }
    r
}

/// Render a machine integer in decimal.
pub fn usize_to_string(n: usize) -> (r: String)
    ensures
        r@ == dec_chars(n as int),
    decreases n,
{
    if n < 10 {
        String::from_str(digit_str(n))
    } else {
        let mut s = usize_to_string(n / 10);
        s.append(digit_str(n % 10));
        proof {
            assert(s@ =~= dec_chars(n as int));
        }
        s
    }
}

/// If `c` sits at `k` and nowhere after, `rfind` returns `k`.
pub proof fn lemma_rfind_at(s: Seq<char>, c: char, k: int)
    requires
        0 <= k < s.len(),
        s[k] == c,
        forall|j: int| k < j < s.len() ==> s[j] != c,
    ensures
        rfind(s, c) == Some(k),
    decreases s.len(),
{
    if s[s.len() - 1] == c {
        assert(k == s.len() - 1);
    } else {
        let t = s.drop_last();
        assert forall|j: int| k < j < t.len() implies t[j] != c by {
            assert(t[j] == s[j]);
        }
        assert(t[k] == s[k]);
        lemma_rfind_at(t, c, k);
    }
}

/// Exec search for the last occurrence of `c` in `s`.
pub fn rfind_char(s: &str, c: char) -> (r: Option<usize>)
    ensures
        match r {
            Some(i) => i < s@.len() && rfind(s@, c) == Some(i as int),
            None => rfind(s@, c) is None,
        },
{
    let len = s.unicode_len();
    let mut i = len;
    while i > 0
        invariant
            0 <= i <= len,
            len == s@.len(),
            forall|j: int| i <= j < len ==> s@[j] != c,
        decreases i,
    {
        if s.get_char(i - 1) == c {
            proof {
                lemma_rfind_at(s@, c, i - 1);
            }
            return Some(i - 1);
        }
        i -= 1;
    }
    proof {
        lemma_rfind_props(s@, c);
    }
    None
}

/// Copy a byte vector.
pub fn clone_bytes(v: &Vec<u8>) -> (r: Vec<u8>)
    ensures
        r@ == v@,
{
    let mut out: Vec<u8> = Vec::new();
    let mut i: usize = 0;
    while i < v.len()
        invariant
            0 <= i <= v@.len(),
            out@ == v@.take(i as int),
        decreases v@.len() - i,
    {
        out.push(v[i]);
        proof {
            assert(v@.take(i + 1) =~= v@.take(i as int).push(v@[i as int]));
        }
        i += 1;
    }
    proof {
        assert(v@.take(v@.len() as int) =~= v@);
    }
    out
}

} // verus!
