use vstd::prelude::*;

verus! {

// Wire-significant byte values.
pub const CR: u8 = 13;
pub const LF: u8 = 10;
pub const SP: u8 = 32;
pub const HT: u8 = 9;
pub const COLON: u8 = 58;

/// A CRLF pair starts at index `i` of `s`.
pub open spec fn is_crlf_at(s: Seq<u8>, i: int) -> bool {
    0 <= i && i + 2 <= s.len() && s[i] == 13u8 && s[i + 1] == 10u8
}

/// Index of the first CRLF pair at or after `from`, if any.
pub open spec fn find_crlf(s: Seq<u8>, from: int) -> Option<int>
    decreases s.len() - from,
{
    if from < 0 || from + 2 > s.len() {
        None
    } else if s[from] == 13u8 && s[from + 1] == 10u8 {
        Some(from)
    } else {
        find_crlf(s, from + 1)
    }
}

/// What `find_crlf` returns is the first CRLF position, and `None` means
/// there is none at or after `from`.
pub proof fn lemma_find_crlf_props(s: Seq<u8>, from: int)
    requires
        0 <= from <= s.len(),
    ensures
        match find_crlf(s, from) {
            Some(i) => from <= i && is_crlf_at(s, i) && (forall|j: int|
                from <= j < i ==> !is_crlf_at(s, j)),
            None => forall|j: int| from <= j ==> !is_crlf_at(s, j),
        },
    decreases s.len() - from,
{
    if from + 2 > s.len() {
    } else if s[from] == 13u8 && s[from + 1] == 10u8 {
    } else {
        lemma_find_crlf_props(s, from + 1);
    }
}

/// The first CRLF at or after `from` is at `i`.
pub proof fn lemma_find_crlf_is(s: Seq<u8>, from: int, i: int)
    requires
        0 <= from <= i,
        is_crlf_at(s, i),
        forall|j: int| from <= j < i ==> !is_crlf_at(s, j),
    ensures
        find_crlf(s, from) == Some(i),
    decreases i - from,
{
    if from < i {
        assert(!is_crlf_at(s, from));
        lemma_find_crlf_is(s, from + 1, i);
        assert(find_crlf(s, from) == find_crlf(s, from + 1));
    } else {
        assert(from + 2 <= s.len() && s[from] == 13u8 && s[from + 1] == 10u8);
    }
}

/// Index of the first CRLF pair at or after `from`, if any.
pub fn find_crlf_exec(s: &Vec<u8>, from: usize) -> (r: Option<usize>)
    requires
        from <= s@.len(),
    ensures
        match r {
            Some(i) => find_crlf(s@, from as int) == Some(i as int),
            None => find_crlf(s@, from as int) is None,
        },
{
    let mut i: usize = from;
    loop
        invariant
            from <= i <= s@.len(),
            find_crlf(s@, from as int) == find_crlf(s@, i as int),
        decreases s@.len() - i,
    {
        if s.len() - i < 2 {
            return None;
        }
        if s[i] == CR && s[i + 1] == LF {
            return Some(i);
        }
        proof {
            assert(find_crlf(s@, i as int) == find_crlf(s@, i + 1 as int));
        }
        i = i + 1;
    }
}

/// Index of the first occurrence of `b` at or after `from`, if any.
pub open spec fn find_byte(s: Seq<u8>, from: int, b: u8) -> Option<int>
    decreases s.len() - from,
{
    if from < 0 || from >= s.len() {
        None
    } else if s[from] == b {
        Some(from)
    } else {
        find_byte(s, from + 1, b)
    }
}

/// What `find_byte` returns is the first occurrence, and `None` means
/// `b` does not occur at or after `from`.
pub proof fn lemma_find_byte_props(s: Seq<u8>, from: int, b: u8)
    requires
        0 <= from <= s.len(),
    ensures
        match find_byte(s, from, b) {
            Some(i) => from <= i < s.len() && s[i] == b && (forall|j: int|
                from <= j < i ==> s[j] != b),
            None => forall|j: int| from <= j < s.len() ==> s[j] != b,
        },
    decreases s.len() - from,
{
    if from >= s.len() {
    } else if s[from] == b {
    } else {
        lemma_find_byte_props(s, from + 1, b);
    }
}

/// The first occurrence of `b` at or after `from` is at `i`.
pub proof fn lemma_find_byte_is(s: Seq<u8>, from: int, i: int, b: u8)
    requires
        0 <= from <= i < s.len(),
        s[i] == b,
        forall|j: int| from <= j < i ==> s[j] != b,
    ensures
        find_byte(s, from, b) == Some(i),
    decreases i - from,
{
    if from < i {
        lemma_find_byte_is(s, from + 1, i, b);
    }
}

/// Index of the first occurrence of `b` at or after `from`, if any.
pub fn find_byte_exec(s: &Vec<u8>, from: usize, b: u8) -> (r: Option<usize>)
    requires
        from <= s@.len(),
    ensures
        match r {
            Some(i) => find_byte(s@, from as int, b) == Some(i as int),
            None => find_byte(s@, from as int, b) is None,
        },
{
    let mut i: usize = from;
    loop
        invariant
            from <= i <= s@.len(),
            find_byte(s@, from as int, b) == find_byte(s@, i as int, b),
        decreases s@.len() - i,
    {
        if i >= s.len() {
            return None;
        }
        if s[i] == b {
            return Some(i);
        }
        proof {
            assert(find_byte(s@, i as int, b) == find_byte(s@, i + 1 as int, b));
        }
        i = i + 1;
    }
}

/// Copy of `s[start..end]` as a fresh vector.
pub fn sub_vec(s: &Vec<u8>, start: usize, end: usize) -> (r: Vec<u8>)
    requires
        start <= end <= s@.len(),
    ensures
        r@ == s@.subrange(start as int, end as int),
{
    let mut r: Vec<u8> = Vec::new();
    let mut i: usize = start;
    while i < end
        invariant
            start <= i <= end <= s@.len(),
            r@ == s@.subrange(start as int, i as int),
        decreases end - i,
    {
        r.push(s[i]);
        proof {
            assert(s@.subrange(start as int, i + 1 as int) =~= s@.subrange(
                start as int,
                i as int,
            ).push(s@[i as int]));
        }
        i = i + 1;
    }
    r
}

/// Byte-for-byte equality of two vectors.
pub fn bytes_eq(a: &Vec<u8>, b: &Vec<u8>) -> (r: bool)
    ensures
        r == (a@ == b@),
{
    if a.len() != b.len() {
        return false;
    }
    let mut i: usize = 0;
    while i < a.len()
        invariant
            i <= a@.len(),
            a@.len() == b@.len(),
            forall|j: int| 0 <= j < i ==> a@[j] == b@[j],
        decreases a@.len() - i,
    {
        if a[i] != b[i] {
            return false;
        }
        i = i + 1;
    }
    proof {
        assert(a@ =~= b@);
    }
    true
}

/// ASCII lower-casing of one byte.
pub open spec fn to_lower(c: u8) -> u8 {
    if 65 <= c <= 90 {
        (c + 32) as u8
    } else {
        c
    }
}

/// ASCII lower-casing of a byte sequence.
pub open spec fn lower(s: Seq<u8>) -> Seq<u8> {
    s.map_values(|c: u8| to_lower(c))
}

/// ASCII lower-casing of one byte.
pub fn to_lower_exec(c: u8) -> (r: u8)
    ensures
        r == to_lower(c),
{
    if 65 <= c && c <= 90 {
        c + 32
    } else {
        c
    }
}

/// ASCII case-insensitive equality of two byte vectors.
pub fn eq_ignore_case(a: &Vec<u8>, b: &Vec<u8>) -> (r: bool)
    ensures
        r == (lower(a@) == lower(b@)),
{
    if a.len() != b.len() {
        proof {
            assert(lower(a@).len() != lower(b@).len());
        }
        return false;
    }
    let mut i: usize = 0;
    while i < a.len()
        invariant
            i <= a@.len(),
            a@.len() == b@.len(),
            forall|j: int| 0 <= j < i ==> to_lower(a@[j]) == to_lower(b@[j]),
        decreases a@.len() - i,
    {
        if to_lower_exec(a[i]) != to_lower_exec(b[i]) {
            proof {
                assert(lower(a@)[i as int] != lower(b@)[i as int]);
            }
            return false;
        }
        i = i + 1;
    }
    proof {
        assert(lower(a@) =~= lower(b@));
    }
    true
}

/// Space or horizontal tab.
pub open spec fn is_ws(c: u8) -> bool {
    c == 32u8 || c == 9u8
}

/// Index of the first non-whitespace byte at or after `from`
/// (`s.len()` if all whitespace).
pub open spec fn first_non_ws(s: Seq<u8>, from: int) -> int
    decreases s.len() - from,
{
    if from < 0 || from >= s.len() {
        s.len() as int
    } else if is_ws(s[from]) {
        first_non_ws(s, from + 1)
    } else {
        from
    }
}

/// One past the last non-whitespace byte before `end` (0 if all whitespace).
pub open spec fn last_non_ws_end(s: Seq<u8>, end: int) -> int
    decreases end,
{
    if end <= 0 || end > s.len() {
        0
    } else if is_ws(s[end - 1]) {
        last_non_ws_end(s, end - 1)
    } else {
        end
    }
}

/// `s` with leading and trailing spaces and tabs removed.
pub open spec fn trim_ws(s: Seq<u8>) -> Seq<u8> {
    let a = first_non_ws(s, 0);
    let b = last_non_ws_end(s, s.len() as int);
    if a <= b {
        s.subrange(a, b)
    } else {
        Seq::empty()
    }
}

/// Trimming keeps indices in range.
pub proof fn lemma_first_non_ws_bounds(s: Seq<u8>, from: int)
    requires
        0 <= from <= s.len(),
    ensures
        from <= first_non_ws(s, from) <= s.len(),
    decreases s.len() - from,
{
    if from < s.len() && is_ws(s[from]) {
        lemma_first_non_ws_bounds(s, from + 1);
    }
}

/// The cut made by `last_non_ws_end` stays in range.
pub proof fn lemma_last_non_ws_end_bounds(s: Seq<u8>, end: int)
    requires
        0 <= end <= s.len(),
    ensures
        0 <= last_non_ws_end(s, end) <= end,
    decreases end,
{
    if end > 0 && is_ws(s[end - 1]) {
        lemma_last_non_ws_end_bounds(s, end - 1);
    }
}

/// Copy of `s` with leading and trailing spaces and tabs removed.
pub fn trim_ws_exec(s: &Vec<u8>) -> (r: Vec<u8>)
    ensures
        r@ == trim_ws(s@),
{
    let mut a: usize = 0;
    while a < s.len() && (s[a] == SP || s[a] == HT)
        invariant
            a <= s@.len(),
            first_non_ws(s@, 0) == first_non_ws(s@, a as int),
        decreases s@.len() - a,
    {
        proof {
            assert(first_non_ws(s@, a as int) == first_non_ws(s@, a + 1 as int));
        }
        a = a + 1;
    }
    assert(first_non_ws(s@, 0) == a as int);
    let mut b: usize = s.len();
    while b > 0 && (s[b - 1] == SP || s[b - 1] == HT)
        invariant
            b <= s@.len(),
            last_non_ws_end(s@, s@.len() as int) == last_non_ws_end(s@, b as int),
        decreases b,
    {
        proof {
            assert(last_non_ws_end(s@, b as int) == last_non_ws_end(s@, b - 1 as int));
        }
        b = b - 1;
    }
    assert(last_non_ws_end(s@, s@.len() as int) == b as int);
    if a <= b {
        sub_vec(s, a, b)
    } else {
        let r: Vec<u8> = Vec::new();
        proof {
            assert(r@ =~= trim_ws(s@));
        }
        r
    }
}

/// Decimal digit.
pub open spec fn is_digit(c: u8) -> bool {
    48 <= c <= 57
}

/// Every byte of `s` is a decimal digit.
pub open spec fn all_digits(s: Seq<u8>) -> bool {
    forall|i: int| 0 <= i < s.len() ==> is_digit(s[i])
}

/// Value of `s` read as a decimal numeral.
pub open spec fn dec_value(s: Seq<u8>) -> nat
    decreases s.len(),
{
    if s.len() == 0 {
        0
    } else {
        dec_value(s.drop_last()) * 10 + ((s.last() - 48) as nat)
    }
}

/// Hexadecimal digit.
pub open spec fn is_hex_digit(c: u8) -> bool {
    (48 <= c <= 57) || (97 <= c <= 102) || (65 <= c <= 70)
}

/// Every byte of `s` is a hexadecimal digit.
pub open spec fn all_hex_digits(s: Seq<u8>) -> bool {
    forall|i: int| 0 <= i < s.len() ==> is_hex_digit(s[i])
}

/// Numeric value of one hexadecimal digit.
pub open spec fn hex_digit_value(c: u8) -> nat {
    if 48 <= c <= 57 {
        (c - 48) as nat
    } else if 97 <= c <= 102 {
        (c - 87) as nat
    } else if 65 <= c <= 70 {
        (c - 55) as nat
    } else {
        0
    }
}

/// Value of `s` read as a hexadecimal numeral.
pub open spec fn hex_value(s: Seq<u8>) -> nat
    decreases s.len(),
{
    if s.len() == 0 {
        0
    } else {
        hex_value(s.drop_last()) * 16 + hex_digit_value(s.last())
    }
}

/// Numeric value of one hexadecimal digit (0 for a non-digit).
pub fn hex_digit_value_exec(c: u8) -> (r: u8)
    ensures
        r as nat == hex_digit_value(c),
{
    if 48 <= c && c <= 57 {
        c - 48
    } else if 97 <= c && c <= 102 {
        c - 87
    } else if 65 <= c && c <= 70 {
        c - 55
    } else {
        0
    }
}

/// Concatenation of a sequence of byte chunks.
pub open spec fn concat_chunks(chunks: Seq<Seq<u8>>) -> Seq<u8>
    decreases chunks.len(),
{
    if chunks.len() == 0 {
        Seq::empty()
    } else {
        concat_chunks(chunks.drop_last()) + chunks.last()
    }
}

} // verus!
