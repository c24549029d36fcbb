//! Character-level helpers on strings: comparison, searching, trimming,
//! splitting and number parsing, each stated over the `Seq<char>` a string
//! stands for.

use vstd::prelude::*;
use vstd::string::*;
use vstd::utf8::*;

verus! {

/// `needle` occurs in `s` starting at position `i`.
pub open spec fn occurs_at(s: Seq<char>, needle: Seq<char>, i: int) -> bool {
    &&& 0 <= i
    &&& i + needle.len() <= s.len()
    &&& s.subrange(i, i + needle.len()) == needle
}

/// `needle` occurs somewhere in `s`.
pub open spec fn has_substring(s: Seq<char>, needle: Seq<char>) -> bool {
    exists|i: int| occurs_at(s, needle, i)
}

/// The code points with the Unicode `White_Space` property.
pub open spec fn is_white_space(c: char) -> bool {
    let n = c as u32;
    ||| 0x09 <= n <= 0x0d
    ||| n == 0x20
    ||| n == 0x85
    ||| n == 0xa0
    ||| n == 0x1680
    ||| 0x2000 <= n <= 0x200a
    ||| n == 0x2028
    ||| n == 0x2029
    ||| n == 0x202f
    ||| n == 0x205f
    ||| n == 0x3000
}

/// `s` without its leading white space.
pub open spec fn trimmed_start(s: Seq<char>) -> Seq<char>
    decreases s.len(),
{
    if s.len() > 0 && is_white_space(s[0]) {
        trimmed_start(s.skip(1))
    } else {
        s
    }
}

/// `s` without its trailing white space.
pub open spec fn trimmed_end(s: Seq<char>) -> Seq<char>
    decreases s.len(),
{
    if s.len() > 0 && is_white_space(s.last()) {
        trimmed_end(s.drop_last())
    } else {
        s
    }
}

/// `s` without leading and trailing white space.
pub open spec fn trimmed(s: Seq<char>) -> Seq<char> {
    trimmed_end(trimmed_start(s))
}

/// The pieces of `s` between occurrences of `sep`, in order; always at least
/// one piece.
pub open spec fn pieces(s: Seq<char>, sep: char) -> Seq<Seq<char>>
    decreases s.len(),
{
    if s.len() == 0 {
        seq![s]
    } else {
        let before = pieces(s.drop_last(), sep);
        if s.last() == sep {
            before.push(Seq::empty())
        } else {
            before.drop_last().push(before.last().push(s.last()))
        }
    }
}

/// All characters of `s` are ASCII digits.
pub open spec fn all_digits(s: Seq<char>) -> bool {
    forall|i: int| 0 <= i < s.len() ==> '0' <= #[trigger] s[i] <= '9'
}

/// The number that a string of ASCII digits denotes.
pub open spec fn digits_value(s: Seq<char>) -> int
    decreases s.len(),
{
    if s.len() == 0 {
        0
    } else {
        digits_value(s.drop_last()) * 10 + (s.last() as int - '0' as int)
    }
}

/// What `s` denotes as an unsigned number that fits `usize`: digits, after at
/// most one leading `+`.
pub open spec fn unsigned_value(s: Seq<char>) -> Option<usize> {
    let digits = if s.len() > 0 && s[0] == '+' { s.skip(1) } else { s };
    if digits.len() > 0 && all_digits(digits) && digits_value(digits) <= usize::MAX {
        Some(digits_value(digits) as usize)
    } else {
        None
    }
}

/// One decimal digit.
pub open spec fn digit_char(d: nat) -> char {
    ('0' as int + d) as char
}

/// The decimal digits of `n`, without leading zeros.
pub open spec fn decimal_digits(n: nat) -> Seq<char>
    decreases n,
{
    if n < 10 {
        seq![digit_char(n)]
    } else {
        decimal_digits(n / 10).push(digit_char(n % 10))
    }
}

/// The position of the last `c` in `s`; `-1` where there is none.
pub open spec fn last_position(s: Seq<char>, c: char) -> int
    decreases s.len(),
{
    if s.len() == 0 {
        -1
    } else if s.last() == c {
        s.len() - 1
    } else {
        last_position(s.drop_last(), c)
    }
}

/// What stands before the last `c` in `s`; all of `s` where there is none.
pub open spec fn up_to_last(s: Seq<char>, c: char) -> Seq<char> {
    if last_position(s, c) < 0 {
        s
    } else {
        s.take(last_position(s, c))
    }
}

/// The characters of a string.
pub fn chars_of(s: &str) -> (v: Vec<char>)
    ensures
        v@ == s@,
{
    let mut v: Vec<char> = Vec::new();
    for c in it: s.chars()
        invariant
            it.seq() == s@,
            v@ == s@.take(it.index() as int),
    {
        assert(s@.take(it.index() as int).push(c) =~= s@.take(it.index() + 1));
        v.push(c);
    }
    assert(s@.take(s@.len() as int) =~= s@);
    v
}

/// Equal text has equal UTF-8 bytes, and the other way round.
pub proof fn lemma_utf8_injective(a: Seq<char>, b: Seq<char>)
    ensures
        (encode_utf8(a) == encode_utf8(b)) == (a == b),
{
    encode_utf8_decode_utf8(a);
    encode_utf8_decode_utf8(b);
}

/// Whether two strings hold the same text.
pub fn str_eq(a: &str, b: &str) -> (r: bool)
    ensures
        r == (a@ == b@),
{
    let x = a.as_bytes();
    let y = b.as_bytes();
    proof {
        lemma_utf8_injective(a@, b@);
    }
    if x.len() != y.len() {
        return false;
    }
    let mut i: usize = 0;
    while i < x.len()
        invariant
            i <= x.len(),
            x.len() == y.len(),
            x@.take(i as int) == y@.take(i as int),
            x@ == encode_utf8(a@),
            y@ == encode_utf8(b@),
            (encode_utf8(a@) == encode_utf8(b@)) == (a@ == b@),
        decreases x.len() - i,
    {
        if x[i] != y[i] {
            return false;
        }
        assert(x@.take(i + 1) =~= x@.take(i as int).push(x@[i as int]));
        assert(y@.take(i + 1) =~= y@.take(i as int).push(y@[i as int]));
        i += 1;
    }
    assert(x@.take(i as int) =~= x@);
    assert(y@.take(i as int) =~= y@);
    true
}

/// Whether `needle` occurs in `s` at position `at`.
fn matches_at(s: &Vec<char>, needle: &Vec<char>, at: usize) -> (r: bool)
    ensures
        r == occurs_at(s@, needle@, at as int),
{
    if needle.len() > s.len() || at > s.len() - needle.len() {
        return false;
    }
    let mut k: usize = 0;
    while k < needle.len()
        invariant
            k <= needle.len(),
            at + needle.len() <= s.len(),
            forall|j: int| 0 <= j < k ==> s@[at + j] == needle@[j],
        decreases needle.len() - k,
    {
        if s[at + k] != needle[k] {
            assert(s@.subrange(at as int, at + needle@.len())[k as int] != needle@[k as int]);
            return false;
        }
        k += 1;
    }
    assert(s@.subrange(at as int, at + needle@.len()) =~= needle@);
    true
}

/// Whether `s` begins with `prefix`.
pub fn starts_with(s: &str, prefix: &str) -> (r: bool)
    ensures
        r == prefix@.is_prefix_of(s@),
{
    let x = chars_of(s);
    let p = chars_of(prefix);
    matches_at(&x, &p, 0)
}

/// What follows `prefix` in `s`, where `s` begins with it.
pub fn strip_prefix<'a>(s: &'a str, prefix: &str) -> (r: Option<&'a str>)
    ensures
        r is Some == prefix@.is_prefix_of(s@),
        r matches Some(rest) ==> rest@ == s@.skip(prefix@.len() as int),
{
    if starts_with(s, prefix) {
        let n = prefix.unicode_len();
        let m = s.unicode_len();
        Some(s.substring_char(n, m))
    } else {
        None
    }
}

/// Whether the character `c` occurs in `s`.
pub fn contains_char(s: &str, c: char) -> (r: bool)
    ensures
        r == s@.contains(c),
{
    let x = chars_of(s);
    let mut i: usize = 0;
    while i < x.len()
        invariant
            i <= x.len(),
            x@ == s@,
            forall|j: int| 0 <= j < i ==> x@[j] != c,
        decreases x.len() - i,
    {
        if x[i] == c {
            return true;
        }
        i += 1;
    }
    false
}

/// Whether `needle` occurs in `s`.
pub fn contains_str(s: &str, needle: &str) -> (r: bool)
    ensures
        r == has_substring(s@, needle@),
{
    let x = chars_of(s);
    let n = chars_of(needle);
    let mut i: usize = 0;
    while i < x.len()
        invariant
            i <= x.len(),
            x@ == s@,
            n@ == needle@,
            forall|j: int| 0 <= j < i ==> !occurs_at(s@, needle@, j),
        decreases x.len() - i,
    {
        if matches_at(&x, &n, i) {
            return true;
        }
        i += 1;
    }
    matches_at(&x, &n, i)
}

fn is_white(c: char) -> (r: bool)
    ensures
        r == is_white_space(c),
{
    let n = c as u32;
    (0x09 <= n && n <= 0x0d) || n == 0x20 || n == 0x85 || n == 0xa0 || n == 0x1680 || (0x2000 <= n
        && n <= 0x200a) || n == 0x2028 || n == 0x2029 || n == 0x202f || n == 0x205f || n == 0x3000
}

/// `s` without its leading white space.
pub fn trim_start(s: &str) -> (r: &str)
    ensures
        r@ == trimmed_start(s@),
{
    let x = chars_of(s);
    let mut i: usize = 0;
    assert(s@.skip(0) =~= s@);
    while i < x.len() && is_white(x[i])
        invariant
            i <= x.len(),
            x@ == s@,
            trimmed_start(s@) == trimmed_start(s@.skip(i as int)),
        decreases x.len() - i,
    {
        assert(s@.skip(i as int)[0] == s@[i as int]);
        assert(s@.skip(i as int).skip(1) =~= s@.skip(i + 1));
        i += 1;
    }
    assert(i < x.len() ==> s@.skip(i as int)[0] == s@[i as int]);
    s.substring_char(i, x.len())
}

/// `s` without leading and trailing white space.
pub fn trim(s: &str) -> (r: &str)
    ensures
        r@ == trimmed(s@),
{
    let t = trim_start(s);
    let x = chars_of(t);
    let mut n: usize = x.len();
    assert(t@.take(n as int) =~= t@);
    while n > 0 && is_white(x[n - 1])
        invariant
            n <= x.len(),
            x@ == t@,
            trimmed_end(t@) == trimmed_end(t@.take(n as int)),
        decreases n,
    {
        assert(t@.take(n as int).last() == t@[n - 1]);
        assert(t@.take(n as int).drop_last() =~= t@.take(n - 1));
        n -= 1;
    }
    assert(n > 0 ==> t@.take(n as int).last() == t@[n - 1]);
    t.substring_char(0, n)
}

/// The pieces of `s` between occurrences of `sep`.
pub fn split<'a>(s: &'a str, sep: char) -> (r: Vec<&'a str>)
    ensures
        r@.map_values(|p: &str| p@) == pieces(s@, sep),
{
    let x = chars_of(s);
    let mut out: Vec<&'a str> = Vec::new();
    let mut start: usize = 0;
    let mut i: usize = 0;
    let ghost view = |p: &str| p@;
    assert(s@.take(0) =~= Seq::<char>::empty());
    assert(out@.map_values(view).push(s@.subrange(0, 0)) =~= pieces(s@.take(0), sep));
    while i < x.len()
        invariant
            start <= i <= x.len(),
            x@ == s@,
            view == (|p: &str| p@),
            out@.map_values(view).push(s@.subrange(start as int, i as int)) == pieces(
                s@.take(i as int),
                sep,
            ),
        decreases x.len() - i,
    {
        let ghost done = out@.map_values(view);
        assert(s@.take(i + 1).drop_last() =~= s@.take(i as int));
        assert(s@.take(i + 1).last() == s@[i as int]);
        let ghost before = pieces(s@.take(i as int), sep);
        if x[i] == sep {
            let piece = s.substring_char(start, i);
            out.push(piece);
            assert(out@.map_values(view) =~= done.push(piece@));
            start = i + 1;
            assert(s@.subrange(start as int, i + 1) =~= Seq::<char>::empty());
        } else {
            assert(before.last() == s@.subrange(start as int, i as int));
            assert(before.drop_last() =~= done);
            assert(s@.subrange(start as int, i + 1) =~= s@.subrange(start as int, i as int).push(
                s@[i as int],
            ));
        }
        i += 1;
    }
    let ghost done = out@.map_values(view);
    let piece = s.substring_char(start, x.len());
    out.push(piece);
    assert(out@.map_values(view) =~= done.push(piece@));
    assert(s@.take(i as int) =~= s@);
    out
}

/// Digits only add to the value they follow.
proof fn lemma_digits_grow(s: Seq<char>, k: int)
    requires
        0 <= k <= s.len(),
        all_digits(s),
    ensures
        0 <= digits_value(s.take(k)) <= digits_value(s),
    decreases s.len(),
{
    if s.len() == 0 {
        assert(s.take(k) =~= s);
    } else if k == s.len() {
        assert(s.take(k) =~= s);
        lemma_digits_grow(s.drop_last(), s.len() - 1);
        assert(s.drop_last().take(s.len() - 1) =~= s.drop_last());
    } else {
        lemma_digits_grow(s.drop_last(), k);
        assert(s.drop_last().take(k) =~= s.take(k));
    }
}

/// Parse an unsigned decimal number, as `str::parse::<usize>` reads one.
pub fn parse_usize(s: &str) -> (r: Option<usize>)
    ensures
        r == unsigned_value(s@),
{
    let x = chars_of(s);
    let start: usize = if x.len() > 0 && x[0] == '+' { 1 } else { 0 };
    let ghost digits = s@.skip(start as int);
    assert(s@.skip(0) =~= s@);
    if start == x.len() {
        return None;
    }
    let mut v: usize = 0;
    let mut i: usize = start;
    assert(digits.take(0) =~= Seq::<char>::empty());
    while i < x.len()
        invariant
            start <= i <= x.len(),
            start < x.len(),
            x@ == s@,
            digits == s@.skip(start as int),
            s@.len() > 0 && s@[0] == '+' ==> start == 1,
            !(s@.len() > 0 && s@[0] == '+') ==> start == 0 && digits == s@,
            forall|j: int| 0 <= j < i - start ==> '0' <= #[trigger] digits[j] <= '9',
            v == digits_value(digits.take(i - start)),
        decreases x.len() - i,
    {
        let c = x[i];
        assert(digits[i - start] == c);
        if c < '0' || c > '9' {
            return None;
        }
        let d: usize = c as usize - '0' as usize;
        assert(digits.take(i + 1 - start).drop_last() =~= digits.take(i - start));
        proof {
            if all_digits(digits) {
                lemma_digits_grow(digits, i + 1 - start);
            }
        }
        if v > usize::MAX / 10 || v * 10 > usize::MAX - d {
            return None;
        }
        v = v * 10 + d;
        i += 1;
    }
    assert(digits.take(i - start) =~= digits);
    Some(v)
}

/// One decimal digit as a text.
fn digit_text(d: u64) -> (r: &'static str)
    requires
        d < 10,
    ensures
        r@ == seq![digit_char(d as nat)],
{
    proof {
        reveal_strlit("0");
        reveal_strlit("1");
        reveal_strlit("2");
        reveal_strlit("3");
        reveal_strlit("4");
        reveal_strlit("5");
        reveal_strlit("6");
        reveal_strlit("7");
        reveal_strlit("8");
        reveal_strlit("9");
    }
    match d {
        0 => "0",
        1 => "1",
        2 => "2",
        3 => "3",
        4 => "4",
        5 => "5",
        6 => "6",
        7 => "7",
        8 => "8",
        _ => "9",
    }
}

/// The decimal digits of a number.
pub fn decimal(n: u64) -> (r: String)
    ensures
        r@ == decimal_digits(n as nat),
    decreases n,
{
    if n < 10 {
        digit_text(n).to_string()
    } else {
        let mut s = decimal(n / 10);
        s.append(digit_text(n % 10));
        assert(s@ =~= decimal_digits((n / 10) as nat).push(digit_char((n % 10) as nat)));
        s
    }
}

/// Two texts, one after the other.
pub fn concat2(a: &str, b: &str) -> (r: String)
    ensures
        r@ == a@ + b@,
{
    let mut s = a.to_string();
    s.append(b);
    s
}

/// Three texts, one after the other.
pub fn concat3(a: &str, b: &str, c: &str) -> (r: String)
    ensures
        r@ == a@ + b@ + c@,
{
    let mut s = a.to_string();
    s.append(b);
    s.append(c);
    s
}

/// What stands before the last `c` in `s`; all of `s` where there is none.
pub fn before_last(s: &str, c: char) -> (r: &str)
    ensures
        r@ == up_to_last(s@, c),
{
    let x = chars_of(s);
    let n = x.len();
    let mut i: usize = n;
    assert(s@.take(n as int) =~= s@);
    while i > 0
        invariant
            i <= n,
            n == x@.len(),
            x@ == s@,
            last_position(s@, c) == last_position(s@.take(i as int), c),
        decreases i,
    {
        assert(s@.take(i as int).drop_last() =~= s@.take(i - 1));
        if x[i - 1] == c {
            let r = s.substring_char(0, i - 1);
            assert(r@ =~= s@.take(i - 1));
            return r;
        }
        i -= 1;
    }
    s
}

/// A text in quotes, its special characters escaped, as the `Debug` of `str`
/// writes it.
pub uninterp spec fn debug_quoted(s: Seq<char>) -> Seq<char>;

/// `Debug` of `str`: what is written is determined by the text.
#[verifier::external_body]
pub(crate) fn quoted(s: &str) -> (r: String)
    ensures
        r@ == debug_quoted(s@),
{
    format!("{s:?}")
}

/// Trimming takes off white space and nothing else, and all of it: what is left
/// stands in the text with only white space before and behind it, and neither
/// begins nor ends with any.
pub proof fn law_trimming_takes_off_white_space_only(s: Seq<char>)
    ensures
        ({
            let t = trimmed(s);
            let i = s.len() - trimmed_start(s).len();
            &&& 0 <= i && i + t.len() <= s.len()
            &&& s.subrange(i, i + t.len()) == t
            &&& forall|k: int| 0 <= k < i ==> is_white_space(#[trigger] s[k])
            &&& forall|k: int| i + t.len() <= k < s.len() ==> is_white_space(#[trigger] s[k])
            &&& t.len() > 0 ==> !is_white_space(t[0]) && !is_white_space(t.last())
        }),
{
    lemma_trimmed_start(s);
    let u = trimmed_start(s);
    lemma_trimmed_end(u);
    let t = trimmed(s);
    let i = s.len() - u.len();
    assert(s.subrange(i, i + t.len()) =~= t) by {
        assert(forall|k: int| 0 <= k < u.len() ==> u[k] == s[i + k]);
    }
    assert forall|k: int| i + t.len() <= k < s.len() implies is_white_space(#[trigger] s[k]) by {
        assert(u[k - i] == s[k]);
    }
}

/// What trimming leaves of the front begins behind the white space.
pub proof fn lemma_trimmed_start(s: Seq<char>)
    ensures
        trimmed_start(s).len() <= s.len(),
        trimmed_start(s) == s.skip(s.len() - trimmed_start(s).len()),
        forall|k: int|
            0 <= k < s.len() - trimmed_start(s).len() ==> is_white_space(#[trigger] s[k]),
        trimmed_start(s).len() > 0 ==> !is_white_space(trimmed_start(s)[0]),
    decreases s.len(),
{
    if s.len() > 0 && is_white_space(s[0]) {
        let rest = s.skip(1);
        lemma_trimmed_start(rest);
        assert forall|k: int| 0 <= k < s.len() - trimmed_start(s).len() implies is_white_space(
            #[trigger] s[k],
        ) by {
            if k > 0 {
                assert(rest[k - 1] == s[k]);
            }
        }
        assert(s.skip(s.len() - trimmed_start(s).len()) =~= rest.skip(
            rest.len() - trimmed_start(s).len(),
        ));
    } else {
        assert(s.skip(0) =~= s);
    }
}

proof fn lemma_trimmed_end(s: Seq<char>)
    ensures
        trimmed_end(s).len() <= s.len(),
        trimmed_end(s) == s.take(trimmed_end(s).len() as int),
        forall|k: int| trimmed_end(s).len() <= k < s.len() ==> is_white_space(#[trigger] s[k]),
        trimmed_end(s).len() > 0 ==> !is_white_space(trimmed_end(s).last()),
        s.len() > 0 && !is_white_space(s[0]) ==> trimmed_end(s).len() > 0,
    decreases s.len(),
{
    if s.len() > 0 && is_white_space(s.last()) {
        let rest = s.drop_last();
        lemma_trimmed_end(rest);
        assert forall|k: int| trimmed_end(s).len() <= k < s.len() implies is_white_space(
            #[trigger] s[k],
        ) by {
            if k < rest.len() {
                assert(rest[k] == s[k]);
            }
        }
        assert(s.take(trimmed_end(s).len() as int) =~= rest.take(trimmed_end(s).len() as int));
    } else {
        assert(s.take(s.len() as int) =~= s);
    }
}

/// These are white space, and no other character is: the space and the controls that
/// move on, the spaces of other widths, and the separators of lines and paragraphs.
pub proof fn law_these_are_white_space(c: char)
    ensures
        is_white_space(c) <==> c == ' ' || '\t' <= c <= '\r' || c == '\u{85}' || c == '\u{a0}' || c
            == '\u{1680}' || '\u{2000}' <= c <= '\u{200a}' || c == '\u{2028}' || c == '\u{2029}' || c
            == '\u{202f}' || c == '\u{205f}' || c == '\u{3000}',
{
}

/// A text is in whatever holds it, wherever it stands, and in nothing else.
pub proof fn law_a_text_is_in_what_holds_it(
    front: Seq<char>,
    needle: Seq<char>,
    back: Seq<char>,
    s: Seq<char>,
)
    ensures
        has_substring(front + needle + back, needle),
        has_substring(s, needle) ==> exists|i: int|
            0 <= i && i + needle.len() <= s.len() && #[trigger] s.subrange(i, i + needle.len())
                == needle,
{
    let all = front + needle + back;
    let k = front.len() as int;
    assert(all.subrange(k, k + needle.len()) =~= needle);
    assert(occurs_at(all, needle, k));
    if has_substring(s, needle) {
        let i = choose|i: int| occurs_at(s, needle, i);
        assert(s.subrange(i, i + needle.len()) == needle);
    }
}

/// Pieces with a separator between each two.
pub open spec fn joined(parts: Seq<Seq<char>>, sep: char) -> Seq<char>
    decreases parts.len(),
{
    if parts.len() == 0 {
        Seq::empty()
    } else if parts.len() == 1 {
        parts[0]
    } else {
        joined(parts.drop_last(), sep).push(sep) + parts.last()
    }
}

/// Splitting loses nothing: the pieces with the separator between them are the text
/// again, and no piece holds a separator.
pub proof fn law_pieces_join_up_again(s: Seq<char>, sep: char)
    ensures
        pieces(s, sep).len() > 0,
        joined(pieces(s, sep), sep) == s,
        forall|i: int| 0 <= i < pieces(s, sep).len() ==> !(#[trigger] pieces(s, sep)[i]).contains(sep),
    decreases s.len(),
{
    let ps = pieces(s, sep);
    if s.len() == 0 {
        assert(ps.len() == 1);
        assert(ps[0] =~= s);
    } else {
        let before = pieces(s.drop_last(), sep);
        law_pieces_join_up_again(s.drop_last(), sep);
        assert(s =~= s.drop_last().push(s.last()));
        if s.last() == sep {
            assert(ps.drop_last() =~= before);
            assert(joined(ps, sep) =~= joined(before, sep).push(sep));
            assert forall|i: int| 0 <= i < ps.len() implies !(#[trigger] ps[i]).contains(sep) by {
                if i < before.len() {
                    assert(ps[i] == before[i]);
                }
            }
        } else {
            let grown = before.last().push(s.last());
            assert(ps.drop_last() =~= before.drop_last());
            assert(ps.last() == grown);
            assert(joined(ps, sep) =~= joined(before, sep).push(s.last()));
            assert forall|i: int| 0 <= i < ps.len() implies !(#[trigger] ps[i]).contains(sep) by {
                if i < before.len() - 1 {
                    assert(ps[i] == before[i]);
                } else {
                    assert(ps[i] == grown);
                    assert(!before[before.len() - 1].contains(sep));
                    if grown.contains(sep) {
                        let k = grown.index_of(sep);
                        assert(grown[k] == sep);
                        if k < before.last().len() {
                            assert(before.last()[k] == sep);
                        }
                    }
                }
            }
        }
    }
}

/// A number that is written reads back, with a plus sign before it too, and is
/// written without leading zeros.
pub proof fn law_numbers_read_back(n: nat)
    requires
        n <= usize::MAX,
    ensures
        unsigned_value(decimal_digits(n)) == Some(n as usize),
        unsigned_value(seq!['+'] + decimal_digits(n)) == Some(n as usize),
        decimal_digits(n)[0] == '0' ==> n == 0,
        n == 0 ==> decimal_digits(n).len() == 1,
{
    lemma_decimal_digits(n);
    let d = decimal_digits(n);
    let p = seq!['+'] + d;
    assert(p.skip(1) =~= d);
    assert('0' <= d[0] <= '9');
}

/// The digits of a number denote it.
pub proof fn lemma_decimal_digits(n: nat)
    ensures
        decimal_digits(n).len() > 0,
        all_digits(decimal_digits(n)),
        digits_value(decimal_digits(n)) == n,
        decimal_digits(n)[0] == '0' ==> n == 0,
    decreases n,
{
    let d = decimal_digits(n);
    if n < 10 {
        assert(d.drop_last() =~= Seq::<char>::empty());
        assert(digits_value(d.drop_last()) == 0);
        assert(d.last() as int == '0' as int + n);
    } else {
        lemma_decimal_digits(n / 10);
        assert(d.drop_last() =~= decimal_digits(n / 10));
        assert(d.last() as int == '0' as int + n % 10);
        assert(d[0] == decimal_digits(n / 10)[0]);
    }
}

/// Only digits make a number, at least one of them, after at most one plus sign;
/// and each digit counts ten times what the next one does.
pub proof fn law_only_digits_make_a_number(s: Seq<char>, d: char)
    ensures
        unsigned_value(s) is Some ==> {
            &&& s.len() > 0
            &&& s[0] == '+' || '0' <= s[0] <= '9'
            &&& s[0] == '+' ==> s.len() > 1
            &&& forall|i: int| 0 < i < s.len() ==> '0' <= #[trigger] s[i] <= '9'
        },
        unsigned_value(s.push(d)) is Some && unsigned_value(s) is Some ==> unsigned_value(
            s.push(d),
        )->0 == unsigned_value(s)->0 * 10 + (d as int - '0' as int),
{
    let digits = if s.len() > 0 && s[0] == '+' {
        s.skip(1)
    } else {
        s
    };
    if unsigned_value(s) is Some {
        assert forall|i: int| 0 < i < s.len() implies '0' <= #[trigger] s[i] <= '9' by {
            if s[0] == '+' {
                assert(digits[i - 1] == s[i]);
            }
        }
        assert(s[0] != '+' ==> '0' <= digits[0] <= '9');
        if unsigned_value(s.push(d)) is Some {
            let more = if s[0] == '+' {
                s.push(d).skip(1)
            } else {
                s.push(d)
            };
            assert(more =~= digits.push(d));
            assert(more.drop_last() =~= digits);
            assert(s.push(d)[0] == s[0]);
            lemma_digits_grow(digits, digits.len() as int);
            lemma_digits_grow(more, more.len() as int);
            assert(digits.take(digits.len() as int) =~= digits);
            assert(more.take(more.len() as int) =~= more);
        }
    }
}

/// What stands before the last separator goes up to it: behind it there is none.
/// Without any, it is the whole text.
pub proof fn law_the_last_separator_splits(host: Seq<char>, sep: char, rest: Seq<char>)
    requires
        !rest.contains(sep),
    ensures
        up_to_last(host.push(sep) + rest, sep) == host,
        up_to_last(rest, sep) == rest,
    decreases rest.len(),
{
    let s = host.push(sep) + rest;
    if rest.len() == 0 {
        assert(s =~= host.push(sep));
        assert(s.take(host.len() as int) =~= host);
    } else {
        let less = rest.drop_last();
        assert(rest[rest.len() - 1] == rest.last());
        assert(!less.contains(sep)) by {
            if less.contains(sep) {
                let i = less.index_of(sep);
                assert(rest[i] == sep);
            }
        }
        law_the_last_separator_splits(host, sep, less);
        assert(s.drop_last() =~= host.push(sep) + less);
        assert(last_position(s, sep) == last_position(s.drop_last(), sep));
        assert(last_position(rest, sep) == last_position(less, sep));
        lemma_last_position(s.drop_last(), sep);
        lemma_last_position(less, sep);
        if last_position(s.drop_last(), sep) < 0 {
            assert(s.drop_last()[host.len() as int] == sep);
        } else {
            assert(s.take(last_position(s, sep)) =~= s.drop_last().take(last_position(s, sep)));
        }
        if last_position(less, sep) >= 0 {
            assert(less[last_position(less, sep)] == sep);
        }
    }
}

proof fn lemma_last_position(s: Seq<char>, c: char)
    ensures
        -1 <= last_position(s, c) < s.len(),
        last_position(s, c) >= 0 ==> s[last_position(s, c)] == c,
        forall|i: int| last_position(s, c) < i < s.len() ==> #[trigger] s[i] != c,
    decreases s.len(),
{
    if s.len() > 0 && s.last() != c {
        lemma_last_position(s.drop_last(), c);
        assert forall|i: int| last_position(s, c) < i < s.len() implies #[trigger] s[i] != c by {
            if i < s.len() - 1 {
                assert(s.drop_last()[i] == s[i]);
            }
        }
    }
}

}
