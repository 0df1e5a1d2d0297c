//! Sequence, character and number helpers shared by the parsers, together with
//! the few standard-library calls that have no specification in vstd.

use vstd::prelude::*;
use vstd::utf8::*;

verus! {

// ---------------------------------------------------------------------------
// Searching in sequences
// ---------------------------------------------------------------------------

/// `pat` occurs in `hay` starting at index `i`.
pub open spec fn matches_at<T>(hay: Seq<T>, pat: Seq<T>, i: int) -> bool {
    0 <= i && i + pat.len() <= hay.len() && hay.subrange(i, i + pat.len()) == pat
}

/// The first index `>= i` at which `pat` occurs in `hay`.
pub open spec fn find_from<T>(hay: Seq<T>, pat: Seq<T>, i: int) -> Option<int>
    decreases hay.len() + 1 - i,
{
    if i < 0 || i + pat.len() > hay.len() {
        None
    } else if matches_at(hay, pat, i) {
        Some(i)
    } else {
        find_from(hay, pat, i + 1)
    }
}

/// The first index at which `pat` occurs in `hay`.
pub open spec fn find_seq<T>(hay: Seq<T>, pat: Seq<T>) -> Option<int> {
    find_from(hay, pat, 0)
}

/// `find_from` finds the first occurrence at or after `i`.
pub proof fn lemma_find_from<T>(hay: Seq<T>, pat: Seq<T>, i: int)
    requires
        0 <= i,
    ensures
        match find_from(hay, pat, i) {
            Some(k) => i <= k && matches_at(hay, pat, k) && forall|j: int|
                i <= j < k ==> !matches_at(hay, pat, j),
            None => forall|j: int| i <= j ==> !matches_at(hay, pat, j),
        },
    decreases hay.len() + 1 - i,
{
    if i + pat.len() > hay.len() {
    } else if matches_at(hay, pat, i) {
    } else {
        lemma_find_from(hay, pat, i + 1);
    }
}

/// An occurrence found in `hay` is still the first one once more bytes follow.
pub proof fn lemma_find_from_extend<T>(hay: Seq<T>, more: Seq<T>, pat: Seq<T>, i: int)
    requires
        0 <= i,
        find_from(hay, pat, i) is Some,
    ensures
        find_from(hay + more, pat, i) == find_from(hay, pat, i),
    decreases hay.len() + 1 - i,
{
    let ext = hay + more;
    if i + pat.len() <= hay.len() {
        assert(ext.subrange(i, i + pat.len()) =~= hay.subrange(i, i + pat.len()));
        if !matches_at(hay, pat, i) {
            lemma_find_from_extend(hay, more, pat, i + 1);
        }
    }
}

/// The first index `>= i` holding `x`.
pub open spec fn index_of_from<T>(s: Seq<T>, x: T, i: int) -> Option<int>
    decreases s.len() - i,
{
    if i < 0 || i >= s.len() {
        None
    } else if s[i] == x {
        Some(i)
    } else {
        index_of_from(s, x, i + 1)
    }
}

/// The first index holding `x`.
pub open spec fn index_of<T>(s: Seq<T>, x: T) -> Option<int> {
    index_of_from(s, x, 0)
}

/// `index_of_from` finds the first `x` at or after `i`.
pub proof fn lemma_index_of_from<T>(s: Seq<T>, x: T, i: int)
    requires
        0 <= i,
    ensures
        match index_of_from(s, x, i) {
            Some(k) => i <= k < s.len() && s[k] == x && forall|j: int| i <= j < k ==> s[j] != x,
            None => forall|j: int| i <= j < s.len() ==> s[j] != x,
        },
    decreases s.len() - i,
{
    if i < s.len() && s[i] != x {
        lemma_index_of_from(s, x, i + 1);
    }
}

/// The last index below `j` holding `x`.
pub open spec fn last_index_of_before<T>(s: Seq<T>, x: T, j: int) -> Option<int>
    decreases j,
{
    if j <= 0 || j > s.len() {
        None
    } else if s[j - 1] == x {
        Some(j - 1)
    } else {
        last_index_of_before(s, x, j - 1)
    }
}

/// The last index holding `x`.
pub open spec fn last_index_of<T>(s: Seq<T>, x: T) -> Option<int> {
    last_index_of_before(s, x, s.len() as int)
}

/// The pieces of `s` between occurrences of `sep`, like `slice::split`.
pub open spec fn split_on<T>(s: Seq<T>, sep: T) -> Seq<Seq<T>>
    decreases s.len(),
{
    match index_of(s, sep) {
        Some(k) => {
            proof {
                lemma_index_of_from(s, sep, 0);
            }
            seq![s.take(k)] + split_on(s.skip(k + 1), sep)
        },
        None => seq![s],
    }
}

// ---------------------------------------------------------------------------
// Exact searches
// ---------------------------------------------------------------------------

/// Whether `needle` occurs in `haystack` at `i`.
fn bytes_match_at(haystack: &[u8], needle: &[u8], i: usize) -> (r: bool)
    requires
        i + needle@.len() <= haystack@.len(),
    ensures
        r == matches_at(haystack@, needle@, i as int),
{
    let hlen = haystack.len();
    let mut j: usize = 0;
    while j < needle.len()
        invariant
            i + needle@.len() <= haystack@.len(),
            hlen == haystack@.len(),
            j <= needle@.len(),
            forall|k: int| 0 <= k < j ==> haystack@[i + k] == needle@[k],
        decreases needle@.len() - j,
    {
        let k = i + j;
        if haystack[k] != needle[j] {
            assert(haystack@.subrange(i as int, i + needle@.len())[j as int] != needle@[j as int]);
            return false;
        }
        j = j + 1;
    }
    assert(haystack@.subrange(i as int, i + needle@.len()) =~= needle@);
    true
}

/// Find a byte subsequence in a slice: the first index at which `needle`
/// occurs in `haystack`, or `None` if `needle` is empty or does not occur.
pub fn find_subsequence(haystack: &[u8], needle: &[u8]) -> (r: Option<usize>)
    ensures
        needle@.len() == 0 ==> r is None,
        needle@.len() > 0 ==> (r is None <==> find_seq(haystack@, needle@) is None),
        r matches Some(k) ==> find_seq(haystack@, needle@) == Some(k as int),
        r matches Some(k) ==> matches_at(haystack@, needle@, k as int) && forall|j: int|
            0 <= j < k ==> !matches_at(haystack@, needle@, j),
        r is None && needle@.len() > 0 ==> forall|j: int| !matches_at(haystack@, needle@, j),
{
    proof {
        lemma_find_from(haystack@, needle@, 0);
    }
    if needle.len() == 0 || needle.len() > haystack.len() {
        return None;
    }
    let mut i: usize = 0;
    while i <= haystack.len() - needle.len()
        invariant
            0 < needle@.len() <= haystack@.len(),
            i <= haystack@.len(),
            find_from(haystack@, needle@, 0) == find_from(haystack@, needle@, i as int),
            forall|j: int| 0 <= j < i ==> !matches_at(haystack@, needle@, j),
        decreases haystack@.len() - i,
    {
        if bytes_match_at(haystack, needle, i) {
            return Some(i);
        }
        i = i + 1;
    }
    None
}

// ---------------------------------------------------------------------------
// Characters
// ---------------------------------------------------------------------------

/// `char::is_whitespace`: the Unicode `White_Space` property.
pub open spec fn is_whitespace(c: char) -> bool {
    let u = c as u32;
    (9 <= u <= 13) || u == 32 || u == 0x85 || u == 0xA0 || u == 0x1680 || (0x2000 <= u
        <= 0x200A) || u == 0x2028 || u == 0x2029 || u == 0x202F || u == 0x205F || u == 0x3000
}

/// Index of the first non-whitespace character at or after `i` (or `s.len()`).
pub open spec fn skip_ws_from(s: Seq<char>, i: int) -> int
    decreases s.len() - i,
{
    if i < 0 || i >= s.len() {
        i
    } else if is_whitespace(s[i]) {
        skip_ws_from(s, i + 1)
    } else {
        i
    }
}

/// One past the last non-whitespace character before `j` (or `0`).
pub open spec fn skip_ws_back(s: Seq<char>, j: int) -> int
    decreases j,
{
    if j <= 0 || j > s.len() {
        j
    } else if is_whitespace(s[j - 1]) {
        skip_ws_back(s, j - 1)
    } else {
        j
    }
}

/// `str::trim_start`.
pub open spec fn trim_start(s: Seq<char>) -> Seq<char> {
    s.skip(skip_ws_from(s, 0))
}

/// `str::trim`: the characters between the first and the last
/// non-whitespace character.
pub open spec fn trim(s: Seq<char>) -> Seq<char> {
    let a = skip_ws_from(s, 0);
    let b = skip_ws_back(s, s.len() as int);
    if b <= a {
        seq![]
    } else {
        s.subrange(a, b)
    }
}

/// `skip_ws_from` stops at the first non-whitespace character at or after `i`.
pub proof fn lemma_skip_ws_from(s: Seq<char>, i: int)
    requires
        0 <= i <= s.len(),
    ensures
        i <= skip_ws_from(s, i) <= s.len(),
        forall|j: int| i <= j < skip_ws_from(s, i) ==> is_whitespace(s[j]),
        skip_ws_from(s, i) < s.len() ==> !is_whitespace(s[skip_ws_from(s, i)]),
    decreases s.len() - i,
{
    if i < s.len() && is_whitespace(s[i]) {
        lemma_skip_ws_from(s, i + 1);
    }
}

/// `skip_ws_back` stops after the last non-whitespace character before `j`.
pub proof fn lemma_skip_ws_back(s: Seq<char>, j: int)
    requires
        0 <= j <= s.len(),
    ensures
        0 <= skip_ws_back(s, j) <= j,
        forall|k: int| skip_ws_back(s, j) <= k < j ==> is_whitespace(s[k]),
        skip_ws_back(s, j) > 0 ==> !is_whitespace(s[skip_ws_back(s, j) - 1]),
    decreases j,
{
    if j > 0 && is_whitespace(s[j - 1]) {
        lemma_skip_ws_back(s, j - 1);
    }
}

fn is_whitespace_exec(c: char) -> (r: bool)
    ensures
        r == is_whitespace(c),
{
    let u = c as u32;
    (9 <= u && u <= 13) || u == 32 || u == 0x85 || u == 0xA0 || u == 0x1680 || (0x2000 <= u && u
        <= 0x200A) || u == 0x2028 || u == 0x2029 || u == 0x202F || u == 0x205F || u == 0x3000
}

/// Index of the first non-whitespace character of `s` at or after `from`.
pub fn skip_whitespace(s: &[char], from: usize) -> (r: usize)
    requires
        from <= s@.len(),
    ensures
        r == skip_ws_from(s@, from as int),
{
    let mut i = from;
    while i < s.len() && is_whitespace_exec(s[i])
        invariant
            from <= i <= s@.len(),
            skip_ws_from(s@, from as int) == skip_ws_from(s@, i as int),
        decreases s@.len() - i,
    {
        i = i + 1;
    }
    i
}

/// One past the last non-whitespace character of `s` before `to`, not below `from`.
pub fn skip_whitespace_back(s: &[char], from: usize, to: usize) -> (r: usize)
    requires
        from <= to <= s@.len(),
    ensures
        from <= r <= to,
        r > from ==> r == skip_ws_back(s@, to as int),
        r == from ==> forall|k: int| from <= k < to ==> is_whitespace(s@[k]),
        r > from ==> !is_whitespace(s@[r - 1]),
        forall|k: int| r <= k < to ==> is_whitespace(s@[k]),
{
    let mut j = to;
    while j > from && is_whitespace_exec(s[j - 1])
        invariant
            from <= j <= to <= s@.len(),
            skip_ws_back(s@, to as int) == skip_ws_back(s@, j as int),
            forall|k: int| j <= k < to ==> is_whitespace(s@[k]),
        decreases j,
    {
        j = j - 1;
    }
    j
}

/// ASCII lower-casing of a character, by code point.
pub open spec fn lower_code(c: char) -> u32 {
    let u = c as u32;
    if 65 <= u <= 90 {
        (u + 32) as u32
    } else {
        u
    }
}

/// `str::eq_ignore_ascii_case`.
pub open spec fn eq_ignore_ascii_case(a: Seq<char>, b: Seq<char>) -> bool {
    a.len() == b.len() && forall|i: int| 0 <= i < a.len() ==> lower_code(a[i]) == lower_code(b[i])
}

/// ASCII lower-casing of a character sequence, by code point.
pub open spec fn lower_codes(s: Seq<char>) -> Seq<u32> {
    s.map_values(|c: char| lower_code(c))
}

/// `lower_code` of one character.
pub fn lower_code_exec(c: char) -> (r: u32)
    ensures
        r == lower_code(c),
{
    let u = c as u32;
    if 65 <= u && u <= 90 {
        u + 32
    } else {
        u
    }
}

/// ASCII case-insensitive equality of two character slices.
pub fn chars_eq_ignore_ascii_case(a: &[char], b: &[char]) -> (r: bool)
    ensures
        r == eq_ignore_ascii_case(a@, b@),
{
    if a.len() != b.len() {
        return false;
    }
    let mut i: usize = 0;
    while i < a.len()
        invariant
            a@.len() == b@.len(),
            i <= a@.len(),
            forall|k: int| 0 <= k < i ==> lower_code(a@[k]) == lower_code(b@[k]),
        decreases a@.len() - i,
    {
        if lower_code_exec(a[i]) != lower_code_exec(b[i]) {
            return false;
        }
        i = i + 1;
    }
    true
}

/// Exact equality of two character slices.
pub fn chars_eq(a: &[char], b: &[char]) -> (r: bool)
    ensures
        r == (a@ == b@),
{
    if a.len() != b.len() {
        return false;
    }
    let mut i: usize = 0;
    while i < a.len()
        invariant
            a@.len() == b@.len(),
            i <= a@.len(),
            forall|k: int| 0 <= k < i ==> a@[k] == b@[k],
        decreases a@.len() - i,
    {
        if a[i] != b[i] {
            return false;
        }
        i = i + 1;
    }
    assert(a@ =~= b@);
    true
}

/// Whether `prefix` is a prefix of `s`.
pub open spec fn starts_with<T>(s: Seq<T>, prefix: Seq<T>) -> bool {
    prefix.len() <= s.len() && s.take(prefix.len() as int) == prefix
}

/// Whether `prefix` is a prefix of `s` (exact comparison).
pub fn chars_start_with(s: &[char], prefix: &[char]) -> (r: bool)
    ensures
        r == starts_with(s@, prefix@),
{
    if prefix.len() > s.len() {
        return false;
    }
    let mut i: usize = 0;
    while i < prefix.len()
        invariant
            prefix@.len() <= s@.len(),
            i <= prefix@.len(),
            forall|k: int| 0 <= k < i ==> s@[k] == prefix@[k],
        decreases prefix@.len() - i,
    {
        if s[i] != prefix[i] {
            assert(s@.take(prefix@.len() as int)[i as int] != prefix@[i as int]);
            return false;
        }
        i = i + 1;
    }
    assert(s@.take(prefix@.len() as int) =~= prefix@);
    true
}

/// The first index at or after `from` holding `c`.
pub fn index_of_char(s: &[char], c: char, from: usize) -> (r: Option<usize>)
    requires
        from <= s@.len(),
    ensures
        match index_of_from(s@, c, from as int) {
            Some(k) => r == Some(k as usize),
            None => r is None,
        },
{
    let mut i = from;
    while i < s.len()
        invariant
            from <= i <= s@.len(),
            index_of_from(s@, c, from as int) == index_of_from(s@, c, i as int),
        decreases s@.len() - i,
    {
        if s[i] == c {
            return Some(i);
        }
        i = i + 1;
    }
    None
}

/// The last index holding `c`.
pub fn last_index_of_char(s: &[char], c: char) -> (r: Option<usize>)
    ensures
        match last_index_of(s@, c) {
            Some(k) => r == Some(k as usize),
            None => r is None,
        },
{
    let mut j = s.len();
    while j > 0
        invariant
            j <= s@.len(),
            last_index_of(s@, c) == last_index_of_before(s@, c, j as int),
        decreases j,
    {
        if s[j - 1] == c {
            return Some(j - 1);
        }
        j = j - 1;
    }
    None
}

/// The ASCII-lower-cased code points of `cs`.
pub fn lower_codes_of(cs: &[char]) -> (r: Vec<u32>)
    ensures
        r@ == lower_codes(cs@),
{
    let mut v: Vec<u32> = Vec::new();
    let mut i: usize = 0;
    while i < cs.len()
        invariant
            i <= cs@.len(),
            v@ == lower_codes(cs@.take(i as int)),
        decreases cs@.len() - i,
    {
        v.push(lower_code_exec(cs[i]));
        i = i + 1;
        assert(v@ =~= lower_codes(cs@.take(i as int)));
    }
    assert(cs@.take(i as int) =~= cs@);
    v
}

/// Whether `pat` occurs in `hay`.
pub fn contains_codes(hay: &[u32], pat: &[u32]) -> (r: bool)
    ensures
        r == find_seq(hay@, pat@) is Some,
{
    if pat.len() > hay.len() {
        return false;
    }
    let hlen = hay.len();
    let mut i: usize = 0;
    while i <= hay.len() - pat.len()
        invariant
            hlen == hay@.len(),
            pat@.len() <= hay@.len(),
            i <= hay@.len() - pat@.len() + 1,
            find_from(hay@, pat@, 0) == find_from(hay@, pat@, i as int),
        decreases hay@.len() - pat@.len() + 1 - i,
    {
        let mut j: usize = 0;
        let mut ok = true;
        while j < pat.len()
            invariant
                hlen == hay@.len(),
                pat@.len() <= hay@.len(),
                i + pat@.len() <= hay@.len(),
                j <= pat@.len(),
                ok == forall|k: int| 0 <= k < j ==> hay@[i + k] == pat@[k],
            decreases pat@.len() - j,
        {
            if hay[i + j] != pat[j] {
                ok = false;
            }
            j = j + 1;
        }
        if ok {
            assert(hay@.subrange(i as int, i + pat@.len()) =~= pat@);
            return true;
        } else {
            assert(!matches_at(hay@, pat@, i as int)) by {
                let k = choose|k: int| 0 <= k < pat@.len() && hay@[i + k] != pat@[k];
                assert(hay@.subrange(i as int, i + pat@.len())[k] != pat@[k]);
            }
        }
        if i == hay.len() - pat.len() {
            assert(find_from(hay@, pat@, i + 1) is None);
            return false;
        }
        i = i + 1;
    }
    false
}

// ---------------------------------------------------------------------------
// Unsigned integers
// ---------------------------------------------------------------------------

/// Value of an ASCII digit in base 10, or in base 16 when `hex`.
pub open spec fn digit_value(c: char, hex: bool) -> Option<nat> {
    let u = c as u32;
    if 48 <= u <= 57 {
        Some((u - 48) as nat)
    } else if hex && 97 <= u <= 102 {
        Some((u - 87) as nat)
    } else if hex && 65 <= u <= 70 {
        Some((u - 55) as nat)
    } else {
        None
    }
}

/// The base of a number: 16 for hexadecimal, 10 otherwise.
pub open spec fn radix(hex: bool) -> nat {
    if hex {
        16
    } else {
        10
    }
}

/// Every character is a digit.
pub open spec fn all_digits(s: Seq<char>, hex: bool) -> bool {
    forall|i: int| 0 <= i < s.len() ==> digit_value(s[i], hex) is Some
}

/// The number written by the digits `s`, most significant first.
pub open spec fn digits_value(s: Seq<char>, hex: bool) -> nat
    decreases s.len(),
{
    if s.len() == 0 {
        0
    } else {
        digits_value(s.drop_last(), hex) * radix(hex) + match digit_value(s.last(), hex) {
            Some(d) => d,
            None => 0,
        }
    }
}

/// The digits of an unsigned number: a single leading `+` is allowed when
/// something follows it.
pub open spec fn unsigned_digits(s: Seq<char>) -> Seq<char> {
    if s.len() > 1 && s[0] == '+' {
        s.drop_first()
    } else {
        s
    }
}

/// Unsigned integer parsing as `FromStr` / `from_str_radix` do it for a type
/// whose largest value is `max`: an optional `+`, then at least one digit, and
/// no overflow.
pub open spec fn parse_unsigned(s: Seq<char>, hex: bool, max: nat) -> Option<nat> {
    let d = unsigned_digits(s);
    if d.len() > 0 && all_digits(d, hex) && digits_value(d, hex) <= max {
        Some(digits_value(d, hex))
    } else {
        None
    }
}

/// The digit character for `d` (lower-case for hexadecimal).
pub open spec fn digit_char(d: nat) -> char {
    if d == 0 { '0' } else if d == 1 { '1' } else if d == 2 { '2' } else if d == 3 { '3' }
    else if d == 4 { '4' } else if d == 5 { '5' } else if d == 6 { '6' } else if d == 7 { '7' }
    else if d == 8 { '8' } else if d == 9 { '9' } else if d == 10 { 'a' } else if d == 11 { 'b' }
    else if d == 12 { 'c' } else if d == 13 { 'd' } else if d == 14 { 'e' } else { 'f' }
}

/// The digits of `n` in decimal (or hexadecimal), most significant first,
/// without leading zeros.
pub open spec fn number_chars(n: nat, hex: bool) -> Seq<char>
    decreases n,
{
    if n < radix(hex) {
        seq![digit_char(n)]
    } else {
        number_chars(n / radix(hex), hex).push(digit_char(n % radix(hex)))
    }
}

/// A digit is plain ASCII, and none of the separators that the parsers look
/// for (`/`, `:`, `;`, `+`, line ends, whitespace).
pub proof fn lemma_digit_is_plain(c: char, hex: bool)
    requires
        digit_value(c, hex) is Some,
    ensures
        (c as u32) < 128,
        c != '/',
        c != ':',
        c != ';',
        c != '+',
        c != '\r',
        c != '\n',
        !is_whitespace(c),
{
}

/// `digit_char` writes the digits that `digit_value` reads.
pub proof fn lemma_digit_char(d: nat, hex: bool)
    requires
        d < radix(hex),
    ensures
        digit_value(digit_char(d), hex) == Some(d),
{
}

/// The digits of a number read back as that number.
pub proof fn lemma_number_chars(n: nat, hex: bool)
    ensures
        number_chars(n, hex).len() > 0,
        all_digits(number_chars(n, hex), hex),
        digits_value(number_chars(n, hex), hex) == n,
    decreases n,
{
    let r = radix(hex);
    if n < r {
        lemma_digit_char(n, hex);
        let s = number_chars(n, hex);
        assert(s.drop_last() =~= Seq::<char>::empty());
        assert(digits_value(s.drop_last(), hex) == 0);
        assert(digits_value(s, hex) == 0 * r + n);
    } else {
        lemma_number_chars(n / r, hex);
        lemma_digit_char(n % r, hex);
        let s = number_chars(n, hex);
        assert(s.drop_last() =~= number_chars(n / r, hex));
        assert(s.last() == digit_char(n % r));
        assert(digits_value(s, hex) == digits_value(s.drop_last(), hex) * r + n % r);
        assert(digits_value(s.drop_last(), hex) * r == (n / r) * r);
        assert(n == (n / r) * r + n % r) by (nonlinear_arith)
            requires
                r > 0,
        ;
    }
}

/// `parse_unsigned` reads the digits of a number back as that number.
pub proof fn lemma_parse_number_chars(n: nat, hex: bool, max: nat)
    requires
        n <= max,
    ensures
        parse_unsigned(number_chars(n, hex), hex, max) == Some(n),
        forall|i: int|
            0 <= i < number_chars(n, hex).len() ==> digit_value(#[trigger] number_chars(n, hex)[i], hex)
                is Some,
{
    lemma_number_chars(n, hex);
    let s = number_chars(n, hex);
    assert(digit_value(s[0], hex) is Some);
    lemma_digit_is_plain(s[0], hex);
    assert(unsigned_digits(s) == s);
}

/// Appending a digit never makes the value smaller.
pub proof fn lemma_digits_value_prefix(s: Seq<char>, hex: bool, j: int)
    requires
        0 <= j <= s.len(),
    ensures
        digits_value(s.take(j), hex) <= digits_value(s, hex),
    decreases s.len() - j,
{
    if j < s.len() {
        lemma_digits_value_prefix(s, hex, j + 1);
        let t = s.take(j + 1);
        assert(t.drop_last() =~= s.take(j));
        assert(digits_value(t, hex) >= digits_value(s.take(j), hex)) by (nonlinear_arith)
            requires
                digits_value(t, hex) == digits_value(s.take(j), hex) * radix(hex) + match digit_value(t.last(), hex) {
                    Some(d) => d,
                    None => 0,
                },
                radix(hex) >= 1,
        ;
    } else {
        assert(s.take(j) =~= s);
    }
}

fn digit_value_exec(c: char, hex: bool) -> (r: Option<u64>)
    ensures
        match digit_value(c, hex) {
            Some(d) => r == Some(d as u64),
            None => r is None,
        },
{
    let u = c as u32;
    if 48 <= u && u <= 57 {
        Some((u - 48) as u64)
    } else if hex && 97 <= u && u <= 102 {
        Some((u - 87) as u64)
    } else if hex && 65 <= u && u <= 70 {
        Some((u - 55) as u64)
    } else {
        None
    }
}

/// Parse `s` as an unsigned number no larger than `max`.
pub fn parse_unsigned_chars(s: &[char], hex: bool, max: u64) -> (r: Option<u64>)
    ensures
        match parse_unsigned(s@, hex, max as nat) {
            Some(v) => r == Some(v as u64),
            None => r is None,
        },
{
    let start: usize = if s.len() > 1 && s[0] == '+' {
        1
    } else {
        0
    };
    let ghost d = unsigned_digits(s@);
    assert(d =~= s@.skip(start as int));
    if start >= s.len() {
        return None;
    }
    let base: u64 = if hex {
        16
    } else {
        10
    };
    let mut acc: u64 = 0;
    let mut i = start;
    while i < s.len()
        invariant
            start <= i <= s@.len(),
            d == s@.skip(start as int),
            d == unsigned_digits(s@),
            base as nat == radix(hex),
            acc as nat == digits_value(d.take(i - start), hex),
            acc <= max,
            all_digits(d.take(i - start), hex),
        decreases s@.len() - i,
    {
        let ghost t = d.take(i - start + 1);
        assert(t.drop_last() =~= d.take(i - start));
        assert(t.last() == s@[i as int]);
        match digit_value_exec(s[i], hex) {
            None => {
                assert(!all_digits(d, hex)) by {
                    assert(d[i - start] == s@[i as int]);
                }
                return None;
            },
            Some(dv) => {
                if dv > max {
                    proof {
                        assert(digits_value(t, hex) >= dv) by (nonlinear_arith)
                            requires
                                digits_value(t, hex) == acc * base + dv,
                                base > 0,
                        ;
                        lemma_digits_value_prefix(d, hex, i - start + 1);
                    }
                    return None;
                }
                let lim = (max - dv) / base;
                if acc > lim {
                    proof {
                        assert(digits_value(t, hex) > max) by (nonlinear_arith)
                            requires
                                digits_value(t, hex) == acc * base + dv,
                                lim == (max - dv) as int / base as int,
                                acc > lim,
                                base > 0,
                                dv <= max,
                        ;
                        lemma_digits_value_prefix(d, hex, i - start + 1);
                    }
                    return None;
                }
                assert(acc * base + dv <= max) by (nonlinear_arith)
                    requires
                        lim == (max - dv) as int / base as int,
                        acc <= lim,
                        base > 0,
                        dv <= max,
                ;
                acc = acc * base + dv;
                i = i + 1;
                assert(all_digits(d.take(i - start), hex)) by {
                    assert forall|k: int| 0 <= k < i - start implies #[trigger] digit_value(
                        d.take(i - start)[k],
                        hex,
                    ) is Some by {
                        if k < i - start - 1 {
                            assert(d.take(i - start)[k] == d.take(i - start - 1)[k]);
                        }
                    }
                }
            },
        }
    }
    assert(d.take(i - start) =~= d);
    Some(acc)
}

// ---------------------------------------------------------------------------
// Strings: the standard-library calls that vstd leaves unspecified
// ---------------------------------------------------------------------------

/// `core::str::from_utf8`: succeeds exactly on valid UTF-8, and the string it
/// returns is made of the very bytes it was given.
#[verifier::external_body]
pub(crate) fn str_from_utf8(bytes: &[u8]) -> (r: Option<&str>)
    ensures
        r is Some <==> valid_utf8(bytes@),
        r matches Some(s) ==> encode_utf8(s@) == bytes@,
{
    core::str::from_utf8(bytes).ok()
}

/// `String::push`: appends one character.
#[verifier::external_body]
pub(crate) fn push_char(s: &mut String, c: char)
    ensures
        final(s)@ == old(s)@.push(c),
{
    s.push(c)
}

/// The characters of valid UTF-8 bytes.
pub proof fn lemma_decoded(s: &str, bytes: Seq<u8>)
    requires
        encode_utf8(s@) == bytes,
    ensures
        valid_utf8(bytes),
        s@ == decode_utf8(bytes),
{
    broadcast use encode_utf8_decode_utf8, encode_utf8_valid_utf8;
}

/// The characters of a string slice.
pub fn chars_of(s: &str) -> (v: Vec<char>)
    ensures
        v@ == s@,
{
    let mut v: Vec<char> = Vec::new();
    for c in it: s.chars()
        invariant
            v@ == it.seq().take(it.index() as int),
    {
        v.push(c);
    }
    v
}

/// The bounds `(a, b)` of `trim(s)` within `s`.
pub fn trim_bounds(s: &[char]) -> (r: (usize, usize))
    ensures
        r.0 <= r.1 <= s@.len(),
        s@.subrange(r.0 as int, r.1 as int) == trim(s@),
        r.0 == skip_ws_from(s@, 0),
{
    proof {
        lemma_skip_ws_from(s@, 0);
        lemma_skip_ws_back(s@, s@.len() as int);
    }
    let a = skip_whitespace(s, 0);
    let b = skip_whitespace_back(s, a, s.len());
    if b == a {
        assert(skip_ws_back(s@, s@.len() as int) <= a as int) by {
            let c = skip_ws_back(s@, s@.len() as int);
            if c > a {
                assert(!is_whitespace(s@[c - 1]));
            }
        }
        assert(s@.subrange(a as int, b as int) =~= trim(s@));
    }
    (a, b)
}

/// Append the characters `cs` to `s`.
pub fn append_chars(s: &mut String, cs: &[char])
    ensures
        final(s)@ == old(s)@ + cs@,
{
    let mut i: usize = 0;
    while i < cs.len()
        invariant
            i <= cs@.len(),
            s@ == old(s)@ + cs@.take(i as int),
        decreases cs@.len() - i,
    {
        push_char(s, cs[i]);
        i = i + 1;
        assert(s@ =~= old(s)@ + cs@.take(i as int));
    }
    assert(cs@.take(i as int) =~= cs@);
}

/// A string made of the characters of `a` followed by `b`.
pub fn concat_chars(a: &str, b: &[char]) -> (s: String)
    ensures
        s@ == a@ + b@,
{
    let prefix = chars_of(a);
    let mut s = string_from_chars(prefix.as_slice());
    append_chars(&mut s, b);
    s
}

/// A string made of the characters of `a` followed by those of `b`.
pub fn concat_str(a: &str, b: &str) -> (s: String)
    ensures
        s@ == a@ + b@,
{
    let tail = chars_of(b);
    concat_chars(a, tail.as_slice())
}

/// A string holding the characters `cs`.
pub fn string_from_chars(cs: &[char]) -> (s: String)
    ensures
        s@ == cs@,
{
    let mut s = String::new();
    let mut i: usize = 0;
    while i < cs.len()
        invariant
            i <= cs@.len(),
            s@ == cs@.take(i as int),
        decreases cs@.len() - i,
    {
        push_char(&mut s, cs[i]);
        i = i + 1;
        assert(s@ =~= cs@.take(i as int));
    }
    assert(cs@.take(i as int) =~= cs@);
    s
}

} // verus!
