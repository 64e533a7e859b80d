//! Byte-level text checks used by the catalogues.

use vstd::prelude::*;
use vstd::string::StringSliceAdditionalSpecFns;

verus! {

/// ASCII lower-casing of one byte; other bytes are left alone.
pub open spec fn ascii_lower(b: u8) -> u8 {
    if 65 <= b <= 90 {
        (b + 32) as u8
    } else {
        b
    }
}

/// ASCII case-insensitive equality of two byte strings, as
/// `str::eq_ignore_ascii_case` defines it.
pub open spec fn ascii_eq_ignore_case(a: Seq<u8>, b: Seq<u8>) -> bool {
    &&& a.len() == b.len()
    &&& forall|i: int| 0 <= i < a.len() ==> ascii_lower(#[trigger] a[i]) == ascii_lower(b[i])
}

/// Whether `id` is a snake_case identifier: a lowercase ASCII letter, then
/// lowercase ASCII letters, digits and underscores.
pub open spec fn is_snake_case(id: Seq<u8>) -> bool {
    &&& id.len() > 0
    &&& 97 <= id[0] <= 122
    &&& forall|i: int|
        1 <= i < id.len() ==> (97 <= #[trigger] id[i] <= 122 || 48 <= id[i] <= 57 || id[i] == 95)
}

fn lower(b: u8) -> (r: u8)
    ensures
        r == ascii_lower(b),
{
    if 65 <= b && b <= 90 {
        b + 32
    } else {
        b
    }
}

/// Byte-wise equality.
pub fn bytes_eq(a: &[u8], b: &[u8]) -> (r: bool)
    ensures
        r == (a@ == b@),
{
    if a.len() != b.len() {
        return false;
    }
    let mut i: usize = 0;
    while i < a.len()
        invariant
            a@.len() == b@.len(),
            i <= a@.len(),
            forall|j: int| 0 <= j < i ==> a@[j] == b@[j],
        decreases a@.len() - i,
    {
        if a[i] != b[i] {
            return false;
        }
        i = i + 1;
    }
    assert(a@ =~= b@);
    true
}

/// ASCII case-insensitive comparison of two strings.
pub fn eq_ignore_ascii_case(a: &str, b: &str) -> (r: bool)
    ensures
        r == ascii_eq_ignore_case(a.spec_bytes(), b.spec_bytes()),
{
    let x = a.as_bytes();
    let y = b.as_bytes();
    if x.len() != y.len() {
        return false;
    }
    let mut i: usize = 0;
    while i < x.len()
        invariant
            x@ == a.spec_bytes(),
            y@ == b.spec_bytes(),
            x@.len() == y@.len(),
            i <= x@.len(),
            forall|j: int| 0 <= j < i ==> ascii_lower(#[trigger] x@[j]) == ascii_lower(y@[j]),
        decreases x@.len() - i,
    {
        if lower(x[i]) != lower(y[i]) {
            assert(ascii_lower(x@[i as int]) != ascii_lower(y@[i as int]));
            return false;
        }
        i = i + 1;
    }
    true
}

/// Law: a snake_case identifier is a non-empty string that starts with a
/// lowercase ASCII letter and holds nothing but lowercase ASCII letters
/// (`a`-`z`), digits (`0`-`9`) and underscores; a hyphen, an upper-case
/// letter or any other byte anywhere makes it not snake_case.
pub proof fn law_snake_case_bytes(s: Seq<u8>)
    ensures
        is_snake_case(s) <==> (s.len() > 0 && 97 <= s[0] <= 122 && forall|i: int|
            0 <= i < s.len() ==> (97 <= #[trigger] s[i] <= 122 || 48 <= s[i] <= 57 || s[i] == 95)),
        forall|i: int| 0 <= i < s.len() && (s[i] == 45 || 65 <= s[i] <= 90) ==> !is_snake_case(s),
{
    if is_snake_case(s) {
        assert forall|i: int| 0 <= i < s.len() implies (97 <= #[trigger] s[i] <= 122 || 48 <= s[i]
            <= 57 || s[i] == 95) by {
            if i > 0 {
                assert(97 <= s[i] <= 122 || 48 <= s[i] <= 57 || s[i] == 95);
            }
        }
    }
}

/// Whether `id` is a snake_case identifier (see [`is_snake_case`]): a
/// lowercase ASCII letter, then only lowercase ASCII letters, digits and
/// underscores.
pub fn is_snake_case_id(id: &str) -> (r: bool)
    ensures
        r == is_snake_case(id.spec_bytes()),
        r <==> (id.spec_bytes().len() > 0 && 97 <= id.spec_bytes()[0] <= 122 && forall|i: int|
            0 <= i < id.spec_bytes().len() ==> (97 <= #[trigger] id.spec_bytes()[i] <= 122 || 48
                <= id.spec_bytes()[i] <= 57 || id.spec_bytes()[i] == 95)),
{
    proof {
        law_snake_case_bytes(id.spec_bytes());
    }
    let b = id.as_bytes();
    if b.len() == 0 {
        return false;
    }
    if !(97 <= b[0] && b[0] <= 122) {
        return false;
    }
    let mut i: usize = 1;
    while i < b.len()
        invariant
            b@ == id.spec_bytes(),
            97 <= b@[0] <= 122,
            1 <= i <= b@.len(),
            forall|j: int|
                1 <= j < i ==> (97 <= #[trigger] b@[j] <= 122 || 48 <= b@[j] <= 57 || b@[j] == 95),
        decreases b@.len() - i,
    {
        let c = b[i];
        if !((97 <= c && c <= 122) || (48 <= c && c <= 57) || c == 95) {
            assert(!(97 <= b@[i as int] <= 122 || 48 <= b@[i as int] <= 57 || b@[i as int] == 95));
            return false;
        }
        i = i + 1;
    }
    true
}

} // verus!

verus! {

/// Strict lexicographic order on byte strings (the order of `str`).
pub open spec fn lex_lt(a: Seq<u8>, b: Seq<u8>) -> bool
    decreases a.len(),
{
    if a.len() == 0 {
        b.len() > 0
    } else if b.len() == 0 {
        false
    } else if a[0] != b[0] {
        a[0] < b[0]
    } else {
        lex_lt(a.drop_first(), b.drop_first())
    }
}

/// The strict lexicographic order is asymmetric.
pub proof fn lemma_lex_lt_asymmetric(a: Seq<u8>, b: Seq<u8>)
    ensures
        !(lex_lt(a, b) && lex_lt(b, a)),
    decreases a.len(),
{
    if a.len() > 0 && b.len() > 0 && a[0] == b[0] {
        lemma_lex_lt_asymmetric(a.drop_first(), b.drop_first());
    }
}

/// The strict lexicographic order is transitive.
pub proof fn lemma_lex_lt_transitive(a: Seq<u8>, b: Seq<u8>, c: Seq<u8>)
    requires
        lex_lt(a, b),
        lex_lt(b, c),
    ensures
        lex_lt(a, c),
    decreases a.len(),
{
    if a.len() > 0 && b.len() > 0 && c.len() > 0 && a[0] == b[0] && b[0] == c[0] {
        lemma_lex_lt_transitive(a.drop_first(), b.drop_first(), c.drop_first());
    }
}

/// Lexicographic comparison: whether `a` sorts strictly before `b`.
pub fn bytes_lt(a: &[u8], b: &[u8]) -> (r: bool)
    ensures
        r == lex_lt(a@, b@),
{
    let mut i: usize = 0;
    assert(a@.skip(0) =~= a@);
    assert(b@.skip(0) =~= b@);
    while i < a.len() && i < b.len() && a[i] == b[i]
        invariant
            i <= a@.len(),
            i <= b@.len(),
            lex_lt(a@, b@) == lex_lt(a@.skip(i as int), b@.skip(i as int)),
        decreases a@.len() - i,
    {
        proof {
            assert(a@.skip(i as int).drop_first() =~= a@.skip(i + 1));
            assert(b@.skip(i as int).drop_first() =~= b@.skip(i + 1));
        }
        i = i + 1;
    }
    if i == a.len() {
        i < b.len()
    } else if i == b.len() {
        false
    } else {
        a[i] < b[i]
    }
}

/// Whether a character is white space in the sense of `char::is_whitespace`
/// (the Unicode `White_Space` property).
pub open spec fn is_white_space(c: char) -> bool {
    let u = c as u32;
    ||| 9 <= u <= 13
    ||| u == 32
    ||| u == 0x85
    ||| u == 0xA0
    ||| u == 0x1680
    ||| 0x2000 <= u <= 0x200A
    ||| u == 0x2028
    ||| u == 0x2029
    ||| u == 0x202F
    ||| u == 0x205F
    ||| u == 0x3000
}

/// Whether `s` is empty once surrounding white space is trimmed, that is,
/// whether every character of `s` is white space.
pub open spec fn is_blank(s: Seq<char>) -> bool {
    forall|i: int| 0 <= i < s.len() ==> is_white_space(#[trigger] s[i])
}

fn white_space(c: char) -> (r: bool)
    ensures
        r == is_white_space(c),
{
    let u = c as u32;
    (9 <= u && u <= 13) || u == 32 || u == 0x85 || u == 0xA0 || u == 0x1680 || (0x2000 <= u && u
        <= 0x200A) || u == 0x2028 || u == 0x2029 || u == 0x202F || u == 0x205F || u == 0x3000
}

/// Whether `s.trim().is_empty()`: every character of `s` is white space.
pub fn is_blank_str(s: &str) -> (r: bool)
    ensures
        r == is_blank(s@),
{
    let mut all = true;
    for c in it: s.chars()
        invariant
            it.seq() == s@,
            all == (forall|j: int| 0 <= j < it.index() ==> is_white_space(#[trigger] s@[j])),
    {
        if !white_space(c) {
            all = false;
        }
    }
    all
}

} // verus!
