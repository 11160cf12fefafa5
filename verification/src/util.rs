//! Small helpers shared by the cache, the feed and the library: decimal
//! rendering of integers, lexicographic comparison of character sequences,
//! file-name extension parsing, and the path component of a web locator.
use vstd::prelude::*;

verus! {

// ---------------------------------------------------------------------------
// Decimal rendering
// ---------------------------------------------------------------------------

/// The character for one decimal digit.
pub open spec fn digit_char(d: nat) -> char
    recommends
        d < 10,
{
    ((d + 48) as u8) as char
}

/// The decimal digits of `n`, most significant first, no leading zeros
/// (a single `'0'` for zero).
pub open spec fn digits_of(n: nat) -> Seq<char>
    decreases n,
{
    if n < 10 {
        seq![digit_char(n)]
    } else {
        digits_of(n / 10).push(digit_char(n % 10))
    }
}

fn digit_str(d: u64) -> (r: &'static str)
    requires
        d < 10,
    ensures
        r@ == seq![digit_char(d as nat)],
{
    proof {
        reveal_strlit("0");
        reveal_strlit("1");
        reveal_strlit("2");
        reveal_strlit("3");
        reveal_strlit("4");
        reveal_strlit("5");
        reveal_strlit("6");
        reveal_strlit("7");
        reveal_strlit("8");
        reveal_strlit("9");
    }
    match d {
        0 => "0",
        1 => "1",
        2 => "2",
        3 => "3",
        4 => "4",
        5 => "5",
        6 => "6",
        7 => "7",
        8 => "8",
        _ => "9",
    }
}

/// Renders `n` in decimal.
pub fn u64_to_string(n: u64) -> (r: String)
    ensures
        r@ == digits_of(n as nat),
    decreases n,
{
    if n < 10 {
        let r = String::from_str(digit_str(n));
        r
    } else {
        let mut r = u64_to_string(n / 10);
        r.append(digit_str(n % 10));
        r
    }
}

// ---------------------------------------------------------------------------
// Character-sequence comparison and equality
// ---------------------------------------------------------------------------

/// Lexicographic order on character sequences by code point; a prefix comes
/// before every extension of it.
pub open spec fn lex_le(a: Seq<char>, b: Seq<char>) -> bool
    decreases a.len(),
{
    if a.len() == 0 {
        true
    } else if b.len() == 0 {
        false
    } else if a[0] == b[0] {
        lex_le(a.drop_first(), b.drop_first())
    } else {
        (a[0] as u32) < (b[0] as u32)
    }
}

pub proof fn lemma_lex_le_total(a: Seq<char>, b: Seq<char>)
    ensures
        lex_le(a, b) || lex_le(b, a),
    decreases a.len(),
{
    if a.len() != 0 && b.len() != 0 {
        if a[0] == b[0] {
            lemma_lex_le_total(a.drop_first(), b.drop_first());
        } else {
            let x = a[0];
            let y = b[0];
            assert(x as u32 != y as u32) by {
                if x as u32 == y as u32 {
                    vstd::utf8::char_u32_cast(x, x as u32);
                    vstd::utf8::char_u32_cast(y, y as u32);
                }
            }
        }
    }
}

pub proof fn lemma_lex_le_antisym(a: Seq<char>, b: Seq<char>)
    requires
        lex_le(a, b),
        lex_le(b, a),
    ensures
        a == b,
    decreases a.len(),
{
    if a.len() == 0 {
        assert(b.len() == 0);
        assert(a =~= b);
    } else {
        assert(b.len() != 0);
        if a[0] == b[0] {
            lemma_lex_le_antisym(a.drop_first(), b.drop_first());
            assert(a =~= b) by {
                assert(a.drop_first() == b.drop_first());
                assert(a.drop_first().len() == a.len() - 1);
                assert(b.drop_first().len() == b.len() - 1);
                assert(forall|i: int| 1 <= i < a.len() ==> a[i] == a.drop_first()[i - 1]);
                assert(forall|i: int| 1 <= i < b.len() ==> b[i] == b.drop_first()[i - 1]);
            }
        }
    }
}

pub proof fn lemma_lex_le_trans(a: Seq<char>, b: Seq<char>, c: Seq<char>)
    requires
        lex_le(a, b),
        lex_le(b, c),
    ensures
        lex_le(a, c),
    decreases a.len(),
{
    if a.len() != 0 && b.len() != 0 && c.len() != 0 {
        if a[0] == b[0] && b[0] == c[0] {
            lemma_lex_le_trans(a.drop_first(), b.drop_first(), c.drop_first());
        }
    }
}

/// Compares two strings character by character.
pub fn str_eq(a: &str, b: &str) -> (r: bool)
    ensures
        r == (a@ == b@),
{
    let a_len = a.unicode_len();
    let b_len = b.unicode_len();
    if a_len != b_len {
        return false;
    }
    let mut i: usize = 0;
    while i < a_len
        invariant
            0 <= i <= a_len,
            a_len == a@.len(),
            b_len == b@.len(),
            a_len == b_len,
            forall|j: int| 0 <= j < i ==> a@[j] == b@[j],
        decreases a_len - i,
    {
        if a.get_char(i) != b.get_char(i) {
            return false;
        }
        i = i + 1;
    }
    proof {
        assert(a@ =~= b@);
    }
    true
}

/// Decides `lex_le` on two strings.
pub fn str_le(a: &str, b: &str) -> (r: bool)
    ensures
        r == lex_le(a@, b@),
{
    let a_len = a.unicode_len();
    let b_len = b.unicode_len();
    let mut i: usize = 0;
    proof {
        assert(a@.skip(0) =~= a@);
        assert(b@.skip(0) =~= b@);
    }
    loop
        invariant
            0 <= i <= a_len,
            0 <= i <= b_len,
            a_len == a@.len(),
            b_len == b@.len(),
            lex_le(a@, b@) == lex_le(a@.skip(i as int), b@.skip(i as int)),
        decreases a_len - i,
    {
        if i == a_len {
            proof {
                assert(a@.skip(i as int).len() == 0);
            }
            return true;
        }
        if i == b_len {
            proof {
                assert(b@.skip(i as int).len() == 0);
                assert(a@.skip(i as int).len() != 0);
            }
            return false;
        }
        let ca = a.get_char(i);
        let cb = b.get_char(i);
        proof {
            assert(a@.skip(i as int)[0] == a@[i as int]);
            assert(b@.skip(i as int)[0] == b@[i as int]);
            assert(a@.skip(i as int).drop_first() =~= a@.skip(i + 1));
            assert(b@.skip(i as int).drop_first() =~= b@.skip(i + 1));
        }
        if ca != cb {
            return (ca as u32) < (cb as u32);
        }
        i = i + 1;
    }
}

// ---------------------------------------------------------------------------
// Extensions
// ---------------------------------------------------------------------------

/// Index of the last occurrence of `c` in `s`, or `-1`.
pub open spec fn find_last(s: Seq<char>, c: char) -> int
    decreases s.len(),
{
    if s.len() == 0 {
        -1
    } else if s.last() == c {
        s.len() - 1
    } else {
        find_last(s.drop_last(), c)
    }
}

/// Index of the first occurrence of `c` in `s`, or `-1`.
pub open spec fn find_first(s: Seq<char>, c: char) -> int
    decreases s.len(),
{
    if s.len() == 0 {
        -1
    } else if s[0] == c {
        0
    } else if find_first(s.drop_first(), c) == -1 {
        -1
    } else {
        find_first(s.drop_first(), c) + 1
    }
}

pub proof fn lemma_find_first_props(s: Seq<char>, c: char)
    ensures
        -1 <= find_first(s, c) < s.len(),
        find_first(s, c) >= 0 ==> s[find_first(s, c)] == c,
        forall|j: int| 0 <= j < s.len() && s[j] == c ==> find_first(s, c) >= 0,
        forall|j: int| 0 <= j < find_first(s, c) ==> s[j] != c,
        find_first(s, c) == -1 ==> forall|j: int| 0 <= j < s.len() ==> s[j] != c,
    decreases s.len(),
{
    if s.len() > 0 && s[0] != c {
        lemma_find_first_props(s.drop_first(), c);
        assert(forall|j: int| 1 <= j < s.len() ==> s[j] == s.drop_first()[j - 1]);
    }
}

pub proof fn lemma_find_last_props(s: Seq<char>, c: char)
    ensures
        -1 <= find_last(s, c) < s.len(),
        find_last(s, c) >= 0 ==> s[find_last(s, c)] == c,
        forall|j: int| find_last(s, c) < j < s.len() ==> s[j] != c,
    decreases s.len(),
{
    if s.len() > 0 && s.last() != c {
        lemma_find_last_props(s.drop_last(), c);
        assert(forall|j: int| 0 <= j < s.len() - 1 ==> s[j] == s.drop_last()[j]);
    }
}

/// What `extension` returns: the part after the last `'.'` (the whole name
/// when there is no dot), truncated at the first following `'?'`.
pub open spec fn ext_of(s: Seq<char>) -> Seq<char> {
    let tail = s.skip(find_last(s, '.') + 1);
    if find_first(tail, '?') >= 0 {
        tail.take(find_first(tail, '?'))
    } else {
        tail
    }
}

/// The file-name extension of `name`: the segment after the last dot, cut at
/// a query marker. A name without a dot yields the whole name, as splitting
/// from the right does.
pub fn extension(name: &str) -> (r: Option<String>)
    ensures
        r matches Some(e) && e@ == ext_of(name@),
{
    let len = name.unicode_len();
    proof {
        lemma_find_last_props(name@, '.');
    }
    // Find the character position just after the last '.'.
    let mut start: usize = len;
    loop
        invariant
            0 <= start <= len,
            len == name@.len(),
            find_last(name@, '.') < start,
            forall|j: int| start <= j < len ==> name@[j] != '.',
        ensures
            0 <= start <= len,
            find_last(name@, '.') == start - 1,
        decreases start,
    {
        proof {
            lemma_find_last_props(name@, '.');
        }
        if start == 0 {
            break;
        }
        let c = name.get_char(start - 1);
        if c == '.' {
            break;
        }
        start = start - 1;
    }
    // Find the first '?' at or after start.
    let mut end: usize = start;
    loop
        invariant
            start <= end <= len,
            len == name@.len(),
            forall|j: int| start <= j < end ==> name@[j] != '?',
        ensures
            start <= end <= len,
            forall|j: int| start <= j < end ==> name@[j] != '?',
            end < len ==> name@[end as int] == '?',
        decreases len - end,
    {
        if end == len {
            break;
        }
        if name.get_char(end) == '?' {
            break;
        }
        end = end + 1;
    }
    let sub = name.substring_char(start, end);
    let r = String::from_str(sub);
    proof {
        let tail = name@.skip(start as int);
        assert(forall|j: int| 0 <= j < tail.len() ==> tail[j] == name@[j + start]);
        lemma_find_first_props(tail, '?');
        if end < len {
            assert(tail[end - start] == '?');
            assert(find_first(tail, '?') == end - start) by {
                lemma_find_first_props(tail, '?');
            }
            assert(r@ =~= ext_of(name@));
        } else {
            assert(find_first(tail, '?') == -1) by {
                lemma_find_first_props(tail, '?');
            }
            assert(r@ =~= ext_of(name@));
        }
    }
    Some(r)
}

// ---------------------------------------------------------------------------
// Locator paths
// ---------------------------------------------------------------------------

/// The path component that `url::Url::parse` gives a locator, or nothing when
/// the locator does not parse; it depends on the locator alone.
pub uninterp spec fn url_path_of(s: Seq<char>) -> Option<Seq<char>>;

/// Relies on url::Url::parse and url::Url::path: parsing is a pure function
/// of the locator text, and `path` returns the path component of the result.
#[verifier::external_body]
fn parse_url_path(url: &str) -> (r: Option<String>)
    ensures
        r matches Some(p) ==> url_path_of(url@) == Some(p@),
        r is None ==> url_path_of(url@) is None,
{
    match url::Url::parse(url) {
        Ok(u) => Some(u.path().to_string()),
        Err(_) => None,
    }
}

/// An error of this crate: the named locator could not be parsed.
#[derive(Debug)]
pub struct LocatorError {
    pub locator: String,
}

/// The path component of a locator.
pub fn url_path(url: &str) -> (r: Result<String, LocatorError>)
    ensures
        r matches Ok(p) ==> url_path_of(url@) == Some(p@),
        r matches Err(e) ==> url_path_of(url@) is None && e.locator@ == url@,
{
    match parse_url_path(url) {
        Some(p) => Ok(p),
        None => Err(LocatorError { locator: url.to_owned() }),
    }
}

/// The extension of the path component of a locator, or nothing when the
/// locator does not parse.
pub fn url_path_ext(url: String) -> (r: Option<String>)
    ensures
        url_path_of(url@) matches Some(p) ==> r matches Some(e) && e@ == ext_of(p),
        url_path_of(url@) is None ==> r is None,
{
    match url_path(url.as_str()) {
        Ok(path) => extension(path.as_str()),
        Err(_) => None,
    }
}


} // verus!
