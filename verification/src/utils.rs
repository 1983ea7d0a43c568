//! Small helpers: decimal formatting and parsing, substring search, and the
//! random token generator.

use rand::Rng;
use vstd::prelude::*;
use vstd::string::StrSliceExecFns;
use vstd::string::StringExecFns;

verus! {

/// The digit character of a value below ten.
pub open spec fn spec_digit(d: int) -> char {
    if d == 0 {
        '0'
    } else if d == 1 {
        '1'
    } else if d == 2 {
        '2'
    } else if d == 3 {
        '3'
    } else if d == 4 {
        '4'
    } else if d == 5 {
        '5'
    } else if d == 6 {
        '6'
    } else if d == 7 {
        '7'
    } else if d == 8 {
        '8'
    } else {
        '9'
    }
}

/// The decimal form of a number, most significant digit first.
pub open spec fn spec_decimal(n: int) -> Seq<char>
    decreases n,
{
    if n < 10 {
        seq![spec_digit(n)]
    } else {
        spec_decimal(n / 10).push(spec_digit(n % 10))
    }
}

/// The one-character text of a digit.
fn digit_str(d: u64) -> (r: &'static str)
    requires
        d < 10,
    ensures
        r@ =~= seq![spec_digit(d as int)],
{
    let r = if d == 0 {
        "0"
    } else if d == 1 {
        "1"
    } else if d == 2 {
        "2"
    } else if d == 3 {
        "3"
    } else if d == 4 {
        "4"
    } else if d == 5 {
        "5"
    } else if d == 6 {
        "6"
    } else if d == 7 {
        "7"
    } else if d == 8 {
        "8"
    } else {
        "9"
    };
    proof {
        reveal_strlit("0");
        reveal_strlit("1");
        reveal_strlit("2");
        reveal_strlit("3");
        reveal_strlit("4");
        reveal_strlit("5");
        reveal_strlit("6");
        reveal_strlit("7");
        reveal_strlit("8");
        reveal_strlit("9");
    }
    r
}

/// Writes a number in decimal.
pub fn u64_to_decimal(n: u64) -> (r: String)
    ensures
        r@ == spec_decimal(n as int),
        r@.len() >= 1,
    decreases n,
{
    if n < 10 {
        let s = digit_str(n).to_owned();
        proof {
            assert(s@ =~= spec_decimal(n as int));
        }
        s
    } else {
        proof {
            vstd::arithmetic::div_mod::lemma_fundamental_div_mod(n as int, 10);
        }
        let mut s = u64_to_decimal(n / 10);
        s.append(digit_str(n % 10));
        proof {
            assert(s@ =~= spec_decimal(n as int));
        }
        s
    }
}

/// The decimal form of a number is all digits and reads back as the number.
pub proof fn lemma_decimal_props(n: int)
    requires
        n >= 0,
    ensures
        spec_decimal(n).len() >= 1,
        spec_all_digits(spec_decimal(n)),
        spec_decimal_val(spec_decimal(n)) == n,
    decreases n,
{
    if n < 10 {
        assert(spec_decimal(n) =~= seq![spec_digit(n)]);
        assert(spec_is_digit(spec_digit(n)));
        assert(spec_decimal(n).drop_last() =~= Seq::<char>::empty());
        assert(spec_decimal_val(Seq::<char>::empty()) == 0);
        assert(spec_decimal(n).last() == spec_digit(n));
        assert(spec_digit_val(spec_digit(n)) == n);
    } else {
        vstd::arithmetic::div_mod::lemma_fundamental_div_mod(n, 10);
        lemma_decimal_props(n / 10);
        let d = spec_decimal(n / 10);
        assert(spec_decimal(n) == d.push(spec_digit(n % 10)));
        assert(spec_decimal(n).drop_last() =~= d);
        assert(spec_decimal(n).last() == spec_digit(n % 10));
        assert(spec_is_digit(spec_digit(n % 10)));
        assert(spec_digit_val(spec_digit(n % 10)) == n % 10);
        assert forall|i: int| 0 <= i < spec_decimal(n).len() implies spec_is_digit(
            #[trigger] spec_decimal(n)[i],
        ) by {
            if i < d.len() {
                assert(spec_decimal(n)[i] == d[i]);
            }
        }
    }
}

/// Whether a character is a decimal digit.
pub open spec fn spec_is_digit(c: char) -> bool {
    48 <= c as int <= 57
}

/// The value of a digit character.
pub open spec fn spec_digit_val(c: char) -> int {
    c as int - 48
}

/// Whether a text is one or more decimal digits.
pub open spec fn spec_all_digits(s: Seq<char>) -> bool {
    forall|i: int| 0 <= i < s.len() ==> spec_is_digit(#[trigger] s[i])
}

/// The value of a digit text, most significant digit first.
pub open spec fn spec_decimal_val(s: Seq<char>) -> int
    decreases s.len(),
{
    if s.len() == 0 {
        0
    } else {
        spec_decimal_val(s.drop_last()) * 10 + spec_digit_val(s.last())
    }
}

/// A digit prefix never exceeds the value of the whole digit text.
pub proof fn lemma_decimal_val_monotonic(s: Seq<char>, i: int)
    requires
        spec_all_digits(s),
        0 <= i <= s.len(),
    ensures
        spec_decimal_val(s.take(i)) <= spec_decimal_val(s),
        spec_decimal_val(s) >= 0,
    decreases s.len() - i,
{
    if i == s.len() {
        assert(s.take(i) =~= s);
        lemma_decimal_val_nonneg(s);
    } else {
        lemma_decimal_val_monotonic(s, i + 1);
        lemma_decimal_val_nonneg(s.take(i));
        assert(s.take(i + 1).drop_last() =~= s.take(i));
        assert(s.take(i + 1).last() == s[i]);
        assert(spec_decimal_val(s.take(i + 1)) == spec_decimal_val(s.take(i)) * 10
            + spec_digit_val(s[i]));
        assert(spec_decimal_val(s.take(i)) * 10 >= spec_decimal_val(s.take(i)))
            by (nonlinear_arith)
            requires
                spec_decimal_val(s.take(i)) >= 0,
        ;
    }
}

/// Digit texts have non-negative values.
pub proof fn lemma_decimal_val_nonneg(s: Seq<char>)
    requires
        spec_all_digits(s),
    ensures
        spec_decimal_val(s) >= 0,
    decreases s.len(),
{
    if s.len() > 0 {
        assert(spec_all_digits(s.drop_last()));
        lemma_decimal_val_nonneg(s.drop_last());
        assert(spec_decimal_val(s.drop_last()) * 10 >= 0) by (nonlinear_arith)
            requires
                spec_decimal_val(s.drop_last()) >= 0,
        ;
    }
}

/// Parses a decimal number. Succeeds exactly on non-empty all-digit texts
/// whose value fits.
pub fn parse_u64(s: &str) -> (r: Option<u64>)
    ensures
        r matches Some(v) ==> s@.len() > 0 && spec_all_digits(s@) && v == spec_decimal_val(s@),
        r is None ==> s@.len() == 0 || !spec_all_digits(s@) || spec_decimal_val(s@)
            > u64::MAX as int,
{
    let n = s.unicode_len();
    if n == 0 {
        return None;
    }
    let mut acc: u64 = 0;
    let mut i: usize = 0;
    while i < n
        invariant
            n == s@.len(),
            i <= n,
            spec_all_digits(s@.take(i as int)),
            acc == spec_decimal_val(s@.take(i as int)),
        decreases n - i,
    {
        let c = s.get_char(i);
        let code = c as u32;
        if code < 48 || code > 57 {
            proof {
                assert(!spec_is_digit(s@[i as int]));
            }
            return None;
        }
        let d = (code - 48) as u64;
        if acc > (u64::MAX - d) / 10 {
            proof {
                assert(s@.take(i as int + 1).drop_last() =~= s@.take(i as int));
                assert(spec_decimal_val(s@.take(i as int + 1)) == acc * 10 + d);
                assert(acc * 10 + d > u64::MAX as int) by (nonlinear_arith)
                    requires
                        acc > (u64::MAX - d) / 10,
                        0 <= d <= 9,
                        u64::MAX == 0xFFFF_FFFF_FFFF_FFFFu64,
                ;
                if spec_all_digits(s@) {
                    lemma_decimal_val_monotonic(s@, i as int + 1);
                }
            }
            return None;
        }
        proof {
            assert(acc * 10 + d <= u64::MAX as int) by (nonlinear_arith)
                requires
                    acc <= (u64::MAX - d) / 10,
                    0 <= d <= 9,
                    u64::MAX == 0xFFFF_FFFF_FFFF_FFFFu64,
            ;
            assert(s@.take(i as int + 1).drop_last() =~= s@.take(i as int));
        }
        acc = acc * 10 + d;
        i += 1;
    }
    proof {
        assert(s@.take(n as int) =~= s@);
    }
    Some(acc)
}

/// Whether `needle` occurs in `hay` starting at `i`.
pub open spec fn spec_occurs_at(hay: Seq<char>, needle: Seq<char>, i: int) -> bool {
    0 <= i <= hay.len() - needle.len() && hay.subrange(i, i + needle.len()) == needle
}

/// Whether `needle` occurs anywhere in `hay`.
pub open spec fn spec_contains(hay: Seq<char>, needle: Seq<char>) -> bool {
    exists|i: int| spec_occurs_at(hay, needle, i)
}

/// Whether one text contains another. Both texts are walked by characters.
pub fn str_contains(hay: &str, needle: &str) -> (r: bool)
    ensures
        r == spec_contains(hay@, needle@),
{
    let hn = hay.unicode_len();
    let nn = needle.unicode_len();
    if nn > hn {
        proof {
            assert(forall|i: int| !spec_occurs_at(hay@, needle@, i));
        }
        return false;
    }
    if nn == 0 {
        proof {
            assert(hay@.subrange(0, 0) =~= needle@);
            assert(spec_occurs_at(hay@, needle@, 0));
        }
        return true;
    }
    let mut i: usize = 0;
    while i < hn - nn + 1
        invariant
            hn == hay@.len(),
            nn == needle@.len(),
            0 < nn <= hn,
            i <= hn - nn + 1,
            forall|k: int| 0 <= k < i ==> !spec_occurs_at(hay@, needle@, k),
        decreases hn - nn + 1 - i,
    {
        let mut j: usize = 0;
        let mut matched = true;
        while j < nn
            invariant
                hn == hay@.len(),
                nn == needle@.len(),
                i + nn <= hn,
                j <= nn,
                matched ==> forall|k: int| 0 <= k < j ==> hay@[i + k] == needle@[k],
                !matched ==> !spec_occurs_at(hay@, needle@, i as int),
            decreases nn - j,
        {
            if hay.get_char(i + j) != needle.get_char(j) {
                proof {
                    if spec_occurs_at(hay@, needle@, i as int) {
                        assert(hay@.subrange(i as int, i + needle@.len())[j as int]
                            == needle@[j as int]);
                    }
                }
                matched = false;
            }
            j += 1;
        }
        if matched {
            proof {
                assert(hay@.subrange(i as int, i + needle@.len()) =~= needle@);
                assert(spec_occurs_at(hay@, needle@, i as int));
            }
            return true;
        }
        i += 1;
    }
    proof {
        assert(forall|k: int| spec_occurs_at(hay@, needle@, k) ==> 0 <= k <= hn - nn);
    }
    false
}

/// The first position of a character, or -1.
pub open spec fn spec_index_of(s: Seq<char>, c: char) -> int
    decreases s.len(),
{
    if s.len() == 0 {
        -1
    } else if s[0] == c {
        0
    } else {
        let rest = spec_index_of(s.skip(1), c);
        if rest < 0 {
            -1
        } else {
            rest + 1
        }
    }
}

/// The first position of a character holds it, and nothing before does.
pub proof fn lemma_index_of(s: Seq<char>, c: char)
    ensures
        spec_index_of(s, c) >= 0 ==> spec_index_of(s, c) < s.len() && s[spec_index_of(s, c)] == c
            && (forall|k: int| 0 <= k < spec_index_of(s, c) ==> s[k] != c),
        spec_index_of(s, c) < 0 ==> (forall|k: int| 0 <= k < s.len() ==> s[k] != c),
    decreases s.len(),
{
    if s.len() > 0 && s[0] != c {
        lemma_index_of(s.skip(1), c);
        let r = spec_index_of(s.skip(1), c);
        if r >= 0 {
            assert(s[spec_index_of(s, c)] == s.skip(1)[r]);
            assert forall|k: int| 0 <= k < spec_index_of(s, c) implies s[k] != c by {
                if k > 0 {
                    assert(s.skip(1)[k - 1] != c);
                }
            }
        } else {
            assert forall|k: int| 0 <= k < s.len() implies s[k] != c by {
                if k > 0 {
                    assert(s.skip(1)[k - 1] != c);
                }
            }
        }
    }
}

/// A first occurrence at `i` pins `spec_index_of` to `i`.
proof fn lemma_index_of_at(s: Seq<char>, c: char, i: int)
    requires
        0 <= i < s.len(),
        s[i] == c,
        forall|k: int| 0 <= k < i ==> s[k] != c,
    ensures
        spec_index_of(s, c) == i,
    decreases i,
{
    if i > 0 {
        lemma_index_of_at(s.skip(1), c, i - 1);
    }
}

/// No occurrence anywhere pins `spec_index_of` below zero.
proof fn lemma_index_of_none(s: Seq<char>, c: char)
    requires
        forall|k: int| 0 <= k < s.len() ==> s[k] != c,
    ensures
        spec_index_of(s, c) < 0,
    decreases s.len(),
{
    if s.len() > 0 {
        lemma_index_of_none(s.skip(1), c);
    }
}

/// The first position of a character in a text.
pub fn find_char(s: &str, c: char) -> (r: Option<usize>)
    ensures
        r matches Some(i) ==> i < s@.len() && spec_index_of(s@, c) == i as int,
        r is None ==> spec_index_of(s@, c) < 0,
{
    let n = s.unicode_len();
    let mut i: usize = 0;
    while i < n
        invariant
            n == s@.len(),
            i <= n,
            forall|k: int| 0 <= k < i ==> s@[k] != c,
        decreases n - i,
    {
        if s.get_char(i) == c {
            proof {
                lemma_index_of_at(s@, c, i as int);
            }
            return Some(i);
        }
        i += 1;
    }
    proof {
        lemma_index_of_none(s@, c);
    }
    None
}

/// Whether a text starts with a prefix.
pub fn str_starts_with(s: &str, prefix: &str) -> (r: bool)
    ensures
        r == (s@.len() >= prefix@.len() && s@.take(prefix@.len() as int) == prefix@),
{
    let n = s.unicode_len();
    let pn = prefix.unicode_len();
    if pn > n {
        return false;
    }
    let mut j: usize = 0;
    while j < pn
        invariant
            n == s@.len(),
            pn == prefix@.len(),
            pn <= n,
            j <= pn,
            forall|k: int| 0 <= k < j ==> s@[k] == prefix@[k],
        decreases pn - j,
    {
        if s.get_char(j) != prefix.get_char(j) {
            proof {
                if s@.take(pn as int) == prefix@ {
                    assert(s@.take(pn as int)[j as int] == prefix@[j as int]);
                }
            }
            return false;
        }
        j += 1;
    }
    proof {
        assert(s@.take(pn as int) =~= prefix@);
    }
    true
}

/// What rand's `Alphanumeric` distribution samples: letters and digits.
pub open spec fn spec_is_alphanumeric(c: char) -> bool {
    (48 <= c as int <= 57) || (65 <= c as int <= 90) || (97 <= c as int <= 122)
}

/// A random token for synthetic identifiers. Relies on rand's thread-local
/// generator sampling the `Alphanumeric` distribution: every drawn character
/// is an ASCII letter or digit; nothing is assumed of which ones.
#[verifier::external_body]
pub fn random_string(size: usize) -> (r: String)
    ensures
        r@.len() == size,
        forall|i: int| 0 <= i < r@.len() ==> spec_is_alphanumeric(#[trigger] r@[i]),
{
    rand::thread_rng().sample_iter(&rand::distributions::Alphanumeric).take(size).map(
        char::from,
    ).collect()
}

} // verus!
