//! String helpers for name resolution.
//!
//! Case conversion, regex capture and URL decomposition are done by
//! outside crates; their results are functions of their arguments alone
//! and are given names here.  Decimal rendering of version numbers and
//! the lexicographic order used to sort identifiers are verified in full.

use vstd::prelude::*;

verus! {

/// The pascal-cased form of a string.
pub uninterp spec fn pascal_of(s: Seq<char>) -> Seq<char>;

/// The snake-cased form of a string.
pub uninterp spec fn snek_of(s: Seq<char>) -> Seq<char>;

/// What the named capture group of a regex pattern matches in a text:
/// `None` when the pattern is invalid, does not match, or has no such
/// group; the captured text otherwise.
pub uninterp spec fn re_capture(pattern: Seq<char>, text: Seq<char>, group: Seq<char>) -> Option<
    Seq<char>,
>;

/// The named capture groups of a regex pattern, in order; `None` when the
/// pattern does not compile.
pub uninterp spec fn groups_of(pattern: Seq<char>) -> Option<Seq<Seq<char>>>;

/// The path component of a URL, or `None` when the string is not a URL.
pub uninterp spec fn path_of(url: Seq<char>) -> Option<Seq<char>>;

/// The ASCII serialization of a URL's origin, or `None` when the string
/// is not a URL.
pub uninterp spec fn origin_of(url: Seq<char>) -> Option<Seq<char>>;

pub open spec fn view_opt(o: Option<String>) -> Option<Seq<char>> {
    match o {
        Some(s) => Some(s@),
        None => None,
    }
}

/// Relies on heck's `ToPascalCase::to_pascal_case`: the result depends on
/// the characters of the input alone.
#[verifier::external_body]
pub(crate) fn to_pascal(s: &str) -> (r: String)
    ensures
        r@ == pascal_of(s@),
{
    heck::ToPascalCase::to_pascal_case(s)
}

/// Relies on heck's `ToSnekCase::to_snek_case`: the result depends on the
/// characters of the input alone.
#[verifier::external_body]
pub(crate) fn to_snek(s: &str) -> (r: String)
    ensures
        r@ == snek_of(s@),
{
    heck::ToSnekCase::to_snek_case(s)
}

/// Relies on regex's `Regex::new`, `Regex::captures` and `Captures::name`:
/// what a named group of a fixed pattern captures in a text depends on
/// pattern, text and group name alone.  An invalid pattern is reported as
/// no match rather than an error.
#[verifier::external_body]
pub(crate) fn capture_group(pattern: &str, text: &str, group: &str) -> (r: Option<String>)
    ensures
        view_opt(r) == re_capture(pattern@, text@, group@),
{
    regex::Regex::new(pattern)
        .ok()
        .and_then(|re| re.captures(text).and_then(|c| c.name(group).map(|m| m.as_str().to_owned())))
}

/// Relies on regex's `Regex::new` and `Regex::capture_names`: the named
/// groups of a pattern depend on the pattern alone.  Unnamed groups are
/// skipped; a pattern that does not compile yields `None`.
#[verifier::external_body]
pub(crate) fn capture_names(pattern: &str) -> (r: Option<Vec<String>>)
    ensures
        match r {
            Some(v) => groups_of(pattern@) == Some(v@.map_values(|s: String| s@)),
            None => groups_of(pattern@) is None,
        },
{
    regex::Regex::new(pattern)
        .ok()
        .map(|re| re.capture_names().flatten().map(|n| n.to_owned()).collect())
}

/// Relies on url's `Url::parse` and `Url::path`: the path component of a
/// parsed URL depends on the URL string alone.
#[verifier::external_body]
pub(crate) fn url_path(url: &str) -> (r: Option<String>)
    ensures
        view_opt(r) == path_of(url@),
{
    url::Url::parse(url).ok().map(|u| u.path().to_owned())
}

/// Relies on url's `Url::parse`, `Url::origin` and
/// `Origin::ascii_serialization`: the serialized origin of a parsed URL
/// depends on the URL string alone.
#[verifier::external_body]
pub(crate) fn url_origin(url: &str) -> (r: Option<String>)
    ensures
        view_opt(r) == origin_of(url@),
{
    url::Url::parse(url).ok().map(|u| u.origin().ascii_serialization())
}

/// The character for one decimal digit.
pub open spec fn dec_digit(d: int) -> char {
    if d == 0 {
        '0'
    } else if d == 1 {
        '1'
    } else if d == 2 {
        '2'
    } else if d == 3 {
        '3'
    } else if d == 4 {
        '4'
    } else if d == 5 {
        '5'
    } else if d == 6 {
        '6'
    } else if d == 7 {
        '7'
    } else if d == 8 {
        '8'
    } else {
        '9'
    }
}

/// The numeric value of one decimal digit character, `-1` for any other
/// character.
pub open spec fn digit_val(c: char) -> int {
    if c == '0' {
        0
    } else if c == '1' {
        1
    } else if c == '2' {
        2
    } else if c == '3' {
        3
    } else if c == '4' {
        4
    } else if c == '5' {
        5
    } else if c == '6' {
        6
    } else if c == '7' {
        7
    } else if c == '8' {
        8
    } else if c == '9' {
        9
    } else {
        -1
    }
}

/// The usual decimal rendering of a non-negative integer.
pub open spec fn spec_dec(n: int) -> Seq<char>
    decreases n,
{
    if n < 10 {
        seq![dec_digit(n)]
    } else {
        spec_dec(n / 10).push(dec_digit(n % 10))
    }
}

/// The number a digit string stands for.
pub open spec fn spec_undec(s: Seq<char>) -> int
    decreases s.len(),
{
    if s.len() == 0 {
        0
    } else {
        spec_undec(s.drop_last()) * 10 + digit_val(s.last())
    }
}

/// Reading a decimal rendering back yields the number: rendering is
/// injective.
pub proof fn lemma_dec_parses_back(n: int)
    requires
        0 <= n,
    ensures
        spec_undec(spec_dec(n)) == n,
    decreases n,
{
    if n < 10 {
        let s = spec_dec(n);
        assert(s.drop_last() =~= Seq::<char>::empty());
        assert(s.last() == dec_digit(n));
        assert(spec_undec(s) == spec_undec(s.drop_last()) * 10 + digit_val(s.last()));
        assert(spec_undec(s.drop_last()) == 0);
        assert(digit_val(dec_digit(n)) == n);
    } else {
        vstd::arithmetic::div_mod::lemma_fundamental_div_mod(n, 10);
        vstd::arithmetic::div_mod::lemma_div_pos_is_pos(n, 10);
        vstd::arithmetic::div_mod::lemma_mod_division_less_than_divisor(n, 10);
        lemma_dec_parses_back(n / 10);
        let s = spec_dec(n);
        assert(s.drop_last() =~= spec_dec(n / 10));
        assert(s.last() == dec_digit(n % 10));
        assert(0 <= n % 10 < 10);
        assert(digit_val(dec_digit(n % 10)) == n % 10);
        assert(spec_undec(s) == spec_undec(spec_dec(n / 10)) * 10 + n % 10);
        assert(spec_undec(s) == (n / 10) * 10 + n % 10);
    }
}

pub proof fn lemma_dec_injective(a: int, b: int)
    requires
        0 <= a,
        0 <= b,
        a != b,
    ensures
        spec_dec(a) != spec_dec(b),
{
    lemma_dec_parses_back(a);
    lemma_dec_parses_back(b);
}

fn digit_str(d: u32) -> (r: &'static str)
    requires
        d < 10,
    ensures
        r@ =~= seq![dec_digit(d as int)],
{
    let r: &'static str = if d == 0 {
        "0"
    } else if d == 1 {
        "1"
    } else if d == 2 {
        "2"
    } else if d == 3 {
        "3"
    } else if d == 4 {
        "4"
    } else if d == 5 {
        "5"
    } else if d == 6 {
        "6"
    } else if d == 7 {
        "7"
    } else if d == 8 {
        "8"
    } else {
        "9"
    };
    proof {
        reveal_strlit("0");
        reveal_strlit("1");
        reveal_strlit("2");
        reveal_strlit("3");
        reveal_strlit("4");
        reveal_strlit("5");
        reveal_strlit("6");
        reveal_strlit("7");
        reveal_strlit("8");
        reveal_strlit("9");
    }
    r
}

/// Decimal rendering of a version number.
pub fn u32_to_dec(n: u32) -> (r: String)
    ensures
        r@ == spec_dec(n as int),
    decreases n,
{
    if n < 10 {
        let r = digit_str(n).to_owned();
        assert(r@ =~= spec_dec(n as int));
        r
    } else {
        let mut s = u32_to_dec(n / 10);
        let d = digit_str(n % 10);
        s.append(d);
        assert(s@ =~= spec_dec(n as int));
        s
    }
}

/// Decimal rendering of a position within a batch.
pub fn usize_to_dec(n: usize) -> (r: String)
    ensures
        r@ == spec_dec(n as int),
    decreases n,
{
    if n < 10 {
        let d: u32 = (n % 10) as u32;
        let r = digit_str(d).to_owned();
        assert(r@ =~= spec_dec(n as int));
        r
    } else {
        let mut s = usize_to_dec(n / 10);
        let d: u32 = (n % 10) as u32;
        let ds = digit_str(d);
        s.append(ds);
        assert(s@ =~= spec_dec(n as int));
        s
    }
}

/// Lexicographic order over character sequences.
pub open spec fn lex_leq(a: Seq<char>, b: Seq<char>) -> bool
    decreases a.len(),
{
    if a.len() == 0 {
        true
    } else if b.len() == 0 {
        false
    } else if a[0] != b[0] {
        (a[0] as u32) < (b[0] as u32)
    } else {
        lex_leq(a.drop_first(), b.drop_first())
    }
}

/// Casting a character to its scalar value is injective.
proof fn lemma_char_cast_inj(a: char, b: char)
    requires
        a as u32 == b as u32,
    ensures
        a == b,
{
    vstd::utf8::char_u32_cast(a, a as u32);
    vstd::utf8::char_u32_cast(b, b as u32);
}

pub proof fn lemma_lex_refl(a: Seq<char>)
    ensures
        lex_leq(a, a),
    decreases a.len(),
{
    if a.len() > 0 {
        lemma_lex_refl(a.drop_first());
    }
}

pub proof fn lemma_lex_total(a: Seq<char>, b: Seq<char>)
    ensures
        lex_leq(a, b) || lex_leq(b, a),
    decreases a.len(),
{
    if a.len() > 0 && b.len() > 0 {
        if a[0] == b[0] {
            lemma_lex_total(a.drop_first(), b.drop_first());
        } else {
            if a[0] as u32 == b[0] as u32 {
                lemma_char_cast_inj(a[0], b[0]);
            }
        }
    }
}

pub proof fn lemma_lex_antisym(a: Seq<char>, b: Seq<char>)
    requires
        lex_leq(a, b),
        lex_leq(b, a),
    ensures
        a == b,
    decreases a.len(),
{
    if a.len() == 0 {
        assert(b.len() == 0);
        assert(a =~= b);
    } else {
        assert(a[0] == b[0]);
        lemma_lex_antisym(a.drop_first(), b.drop_first());
        assert(a.drop_first().len() == b.drop_first().len());
        assert(a.len() == b.len());
        assert(a =~= b) by {
            assert forall|i: int| 0 <= i < a.len() implies a[i] == b[i] by {
                if i > 0 {
                    assert(a[i] == a.drop_first()[i - 1]);
                    assert(b[i] == b.drop_first()[i - 1]);
                }
            }
        }
    }
}

pub proof fn lemma_lex_trans(a: Seq<char>, b: Seq<char>, c: Seq<char>)
    requires
        lex_leq(a, b),
        lex_leq(b, c),
    ensures
        lex_leq(a, c),
    decreases a.len(),
{
    if a.len() > 0 && b.len() > 0 && c.len() > 0 && a[0] == b[0] && b[0] == c[0] {
        lemma_lex_trans(a.drop_first(), b.drop_first(), c.drop_first());
    }
}

/// Comparing the remainders after a common prefix decides the order.
pub proof fn lemma_lex_skip(a: Seq<char>, b: Seq<char>, i: int)
    requires
        0 <= i <= a.len(),
        i <= b.len(),
        forall|k: int| 0 <= k < i ==> a[k] == b[k],
    ensures
        lex_leq(a, b) == lex_leq(a.skip(i), b.skip(i)),
    decreases i,
{
    if i > 0 {
        assert(a.len() > 0 && b.len() > 0 && a[0] == b[0]);
        lemma_lex_skip(a.drop_first(), b.drop_first(), i - 1);
        assert(a.drop_first().skip(i - 1) =~= a.skip(i));
        assert(b.drop_first().skip(i - 1) =~= b.skip(i));
    } else {
        assert(a.skip(0) =~= a);
        assert(b.skip(0) =~= b);
    }
}

/// Lexicographic comparison of two strings, by characters.
pub fn str_lex_leq(a: &str, b: &str) -> (r: bool)
    ensures
        r == lex_leq(a@, b@),
{
    let la = a.unicode_len();
    let lb = b.unicode_len();
    let mut i: usize = 0;
    loop
        invariant
            0 <= i <= la,
            i <= lb,
            la == a@.len(),
            lb == b@.len(),
            forall|k: int| 0 <= k < i ==> a@[k] == b@[k],
        decreases la - i,
    {
        if i == la || i == lb {
            proof {
                lemma_lex_skip(a@, b@, i as int);
            }
            return i == la;
        }
        let ca = a.get_char(i);
        let cb = b.get_char(i);
        if ca != cb {
            proof {
                lemma_lex_skip(a@, b@, i as int);
            }
            return (ca as u32) < (cb as u32);
        }
        i = i + 1;
    }
}

} // verus!
