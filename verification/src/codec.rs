//! The textual form of the configuration: a length-prefixed document in
//! which every number ends in `:` and every text and list carries its length
//! up front. Writing and reading are exact inverses; derived keys are never
//! written.

use crate::apps::App;
use crate::configuration::Config;
use crate::davs::model::Dav;
use crate::users::User;
use crate::utils::spec_all_digits;
use crate::utils::spec_decimal;
use crate::utils::spec_decimal_val;
use crate::utils::spec_is_digit;
use vstd::prelude::*;
use vstd::string::StrSliceExecFns;
use vstd::string::StringExecFns;

verus! {

/// The serialized form of a number: its decimal digits and a terminator.
pub open spec fn spec_ser_num(v: int) -> Seq<char> {
    spec_decimal(v) + seq![':']
}

/// The serialized form of a text: its length, then its characters.
pub open spec fn spec_ser_str(s: Seq<char>) -> Seq<char> {
    spec_ser_num(s.len() as int) + s
}

/// The serialized form of a flag.
pub open spec fn spec_ser_bool(b: bool) -> Seq<char> {
    if b {
        seq!['1']
    } else {
        seq!['0']
    }
}

/// A text whose length the prefix can carry.
pub open spec fn fits_str(s: Seq<char>) -> bool {
    s.len() <= u64::MAX
}

/// The serialized role names, one after the other.
pub open spec fn spec_ser_role_list(roles: Seq<String>) -> Seq<char>
    decreases roles.len(),
{
    if roles.len() == 0 {
        Seq::<char>::empty()
    } else {
        spec_ser_str(roles[0]@) + spec_ser_role_list(roles.skip(1))
    }
}

/// The serialized form of a role list: its length, then the names.
pub open spec fn spec_ser_roles(roles: Seq<String>) -> Seq<char> {
    spec_ser_num(roles.len() as int) + spec_ser_role_list(roles)
}

/// A role list whose lengths the prefixes can carry.
pub open spec fn fits_roles(roles: Seq<String>) -> bool {
    &&& roles.len() <= u64::MAX
    &&& forall|i: int| 0 <= i < roles.len() ==> fits_str(#[trigger] roles[i]@)
}

/// Sameness of two role lists by contents.
pub open spec fn eq_roles_v(a: Seq<String>, b: Seq<String>) -> bool {
    &&& a.len() == b.len()
    &&& forall|i: int| 0 <= i < a.len() ==> #[trigger] a[i]@ == b[i]@
}

/// Whether a number is serialized at `pos` of `s`, followed by `rest`.
pub open spec fn num_at(s: Seq<char>, pos: int, v: u64, rest: Seq<char>) -> bool {
    &&& s.skip(pos) == spec_ser_num(v as int) + rest
    &&& 0 <= pos <= s.len()
}

/// Whether a text is serialized at `pos` of `s`, followed by `rest`.
pub open spec fn str_at(s: Seq<char>, pos: int, t: Seq<char>, rest: Seq<char>) -> bool {
    &&& s.skip(pos) == spec_ser_str(t) + rest
    &&& fits_str(t)
    &&& 0 <= pos <= s.len()
}

/// Whether a flag is serialized at `pos` of `s`, followed by `rest`.
pub open spec fn bool_at(s: Seq<char>, pos: int, b: bool, rest: Seq<char>) -> bool {
    &&& s.skip(pos) == spec_ser_bool(b) + rest
    &&& 0 <= pos <= s.len()
}

/// Whether a role list is serialized at `pos` of `s`, followed by `rest`.
pub open spec fn roles_at(s: Seq<char>, pos: int, roles: Seq<String>, rest: Seq<char>) -> bool {
    &&& s.skip(pos) == spec_ser_roles(roles) + rest
    &&& fits_roles(roles)
    &&& 0 <= pos <= s.len()
}

/// Appends a serialized number.
fn ser_num(out: &mut String, v: u64)
    ensures
        final(out)@ == old(out)@ + spec_ser_num(v as int),
{
    let digits = crate::utils::u64_to_decimal(v);
    out.append(digits.as_str());
    out.append(":");
    proof {
        reveal_strlit(":");
        assert(":"@ =~= seq![':']);
        assert(final(out)@ =~= old(out)@ + spec_ser_num(v as int));
    }
}

/// Appends a serialized text.
fn ser_str(out: &mut String, s: &str)
    ensures
        final(out)@ == old(out)@ + spec_ser_str(s@),
        fits_str(s@),
{
    let n = s.unicode_len();
    ser_num(out, n as u64);
    out.append(s);
    proof {
        assert(final(out)@ =~= old(out)@ + spec_ser_str(s@));
    }
}

/// Appends a serialized flag.
fn ser_bool(out: &mut String, b: bool)
    ensures
        final(out)@ == old(out)@ + spec_ser_bool(b),
{
    if b {
        out.append("1");
    } else {
        out.append("0");
    }
    proof {
        reveal_strlit("1");
        reveal_strlit("0");
        assert(final(out)@ =~= old(out)@ + spec_ser_bool(b));
    }
}

/// A role list prefix extended by one name.
proof fn lemma_ser_role_list_snoc(roles: Seq<String>, k: int)
    requires
        0 <= k < roles.len(),
    ensures
        spec_ser_role_list(roles.take(k + 1)) == spec_ser_role_list(roles.take(k)) + spec_ser_str(
            roles[k]@,
        ),
    decreases k,
{
    if k == 0 {
        assert(roles.take(1).skip(1) =~= Seq::<String>::empty());
        assert(roles.take(0) =~= Seq::<String>::empty());
        assert(spec_ser_role_list(Seq::<String>::empty()) == Seq::<char>::empty());
        assert(roles.take(1)[0] == roles[0]);
        assert(spec_ser_role_list(roles.take(1)) =~= spec_ser_str(roles[0]@));
        assert(spec_ser_role_list(roles.take(0)) + spec_ser_str(roles[0]@) =~= spec_ser_str(
            roles[0]@,
        ));
    } else {
        lemma_ser_role_list_snoc(roles.skip(1), k - 1);
        assert(roles.take(k + 1).skip(1) =~= roles.skip(1).take(k));
        assert(roles.take(k).skip(1) =~= roles.skip(1).take(k - 1));
        assert(roles.take(k + 1)[0] == roles[0]);
        assert(roles.take(k)[0] == roles[0]);
        assert(roles.skip(1)[k - 1] == roles[k]);
        assert(spec_ser_str(roles[0]@) + (spec_ser_role_list(roles.skip(1).take(k - 1))
            + spec_ser_str(roles[k]@)) =~= (spec_ser_str(roles[0]@) + spec_ser_role_list(
            roles.skip(1).take(k - 1),
        )) + spec_ser_str(roles[k]@));
    }
}

/// Appends a serialized role list.
fn ser_roles(out: &mut String, roles: &Vec<String>)
    ensures
        final(out)@ == old(out)@ + spec_ser_roles(roles@),
        fits_roles(roles@),
{
    ser_num(out, roles.len() as u64);
    let ghost base = out@;
    let mut k: usize = 0;
    proof {
        assert(roles@.take(0) =~= Seq::<String>::empty());
        assert(spec_ser_role_list(Seq::<String>::empty()) == Seq::<char>::empty());
        assert(base + spec_ser_role_list(roles@.take(0)) =~= base);
    }
    while k < roles.len()
        invariant
            k <= roles@.len(),
            out@ == base + spec_ser_role_list(roles@.take(k as int)),
            forall|i: int| 0 <= i < k ==> fits_str(#[trigger] roles@[i]@),
        decreases roles@.len() - k,
    {
        ser_str(out, roles[k].as_str());
        proof {
            lemma_ser_role_list_snoc(roles@, k as int);
            assert(base + spec_ser_role_list(roles@.take(k as int)) + spec_ser_str(
                roles@[k as int]@,
            ) =~= base + spec_ser_role_list(roles@.take(k as int + 1)));
        }
        k += 1;
    }
    proof {
        assert(roles@.take(roles@.len() as int) =~= roles@);
    }
}

/// The facts a serialized number at `pos` pins down: the digit characters,
/// the terminator, and the bounds.
pub open spec fn num_facts(s: Seq<char>, pos: int, v: u64, rest: Seq<char>) -> bool {
    let digits = spec_decimal(v as int);
    &&& spec_all_digits(digits)
    &&& spec_decimal_val(digits) == v as int
    &&& digits.len() >= 1
    &&& pos + digits.len() < s.len()
    &&& (forall|j: int| 0 <= j < digits.len() ==> s[pos + j] == #[trigger] digits[j])
    &&& s[pos + digits.len()] == ':'
    &&& s.len() - pos == digits.len() + 1 + rest.len()
}

/// A serialized number at `pos` pins its digits and terminator down.
proof fn lemma_num_facts(s: Seq<char>, pos: int, v: u64, rest: Seq<char>)
    requires
        num_at(s, pos, v, rest),
    ensures
        num_facts(s, pos, v, rest),
{
    crate::utils::lemma_decimal_props(v as int);
    let digits = spec_decimal(v as int);
    assert(s.skip(pos).len() == s.len() - pos);
    assert((spec_ser_num(v as int) + rest).len() == digits.len() + 1 + rest.len());
    assert forall|j: int| 0 <= j < digits.len() implies s[pos + j] == #[trigger] digits[j] by {
        assert(s.skip(pos)[j] == s[pos + j]);
        assert((spec_ser_num(v as int) + rest)[j] == (digits + seq![':'])[j]);
    }
    assert(s.skip(pos)[digits.len() as int] == s[pos + digits.len()]);
    assert((spec_ser_num(v as int) + rest)[digits.len() as int] == (digits + seq![':'])[
        digits.len() as int
    ]);
}

/// Parses a number. On any text that serializes a number at `pos`, it returns
/// that number and stops exactly past the terminator.
fn parse_num_at(s: &str, pos: usize, n: usize) -> (r: Option<(u64, usize)>)
    requires
        pos <= s@.len(),
        n == s@.len(),
    ensures
        r matches Some(q) ==> pos < q.1 <= s@.len(),
        forall|v: u64, rest: Seq<char>|
            #[trigger] num_at(s@, pos as int, v, rest) ==> (r matches Some(q) && q.0 == v && q.1
                as int == pos as int + spec_ser_num(v as int).len() && s@.skip(q.1 as int) == rest),
{
    let ghost sv = s@;
    proof {
        assert forall|v: u64, rest: Seq<char>| #[trigger] num_at(sv, pos as int, v, rest) implies
            num_facts(sv, pos as int, v, rest) by {
            lemma_num_facts(sv, pos as int, v, rest);
        }
    }
    let mut i: usize = pos;
    let mut acc: u64 = 0;
    loop
        invariant
            pos <= i <= n,
            n == sv.len(),
            sv == s@,
            spec_all_digits(sv.subrange(pos as int, i as int)),
            acc as int == spec_decimal_val(sv.subrange(pos as int, i as int)),
            forall|v: u64, rest: Seq<char>|
                #[trigger] num_at(sv, pos as int, v, rest) ==> num_facts(sv, pos as int, v, rest)
                    && i <= pos + spec_decimal(v as int).len(),
        decreases n - i,
    {
        if i >= n {
            proof {
                assert forall|v: u64, rest: Seq<char>| !num_at(sv, pos as int, v, rest) by {
                    if num_at(sv, pos as int, v, rest) {
                        assert(pos + spec_decimal(v as int).len() < sv.len());
                    }
                }
            }
            return None;
        }
        let c = s.get_char(i);
        let code = c as u32;
        if code == 58 {
            proof {
                assert forall|v: u64, rest: Seq<char>| #[trigger] num_at(sv, pos as int, v, rest)
                    implies (acc == v && i + 1 as int == pos as int + spec_ser_num(
                    v as int,
                ).len() && sv.skip(i + 1 as int) == rest) by {
                    let digits = spec_decimal(v as int);
                    if i < pos + digits.len() {
                        assert(sv[i as int] == digits[i - pos]);
                        assert(spec_is_digit(digits[i - pos]));
                        assert(!spec_is_digit(':'));
                    }
                    assert(i == pos + digits.len());
                    assert(sv.subrange(pos as int, i as int) =~= digits);
                    assert(spec_ser_num(v as int).len() == digits.len() + 1);
                    assert forall|m: int| 0 <= m < sv.len() - (i + 1) implies sv.skip(
                        i + 1 as int,
                    )[m] == rest[m] by {
                        assert(sv.skip(pos as int)[digits.len() + 1 + m] == sv[pos
                            + digits.len() + 1 + m]);
                        assert((spec_ser_num(v as int) + rest)[digits.len() + 1 + m] == rest[m]);
                    }
                    assert(sv.skip(i + 1 as int).len() == rest.len());
                    assert(sv.skip(i + 1 as int) =~= rest);
                }
            }
            if i == pos {
                proof {
                    assert forall|v: u64, rest: Seq<char>| !num_at(sv, pos as int, v, rest) by {
                        if num_at(sv, pos as int, v, rest) {
                            assert(sv[pos as int] == spec_decimal(v as int)[0]);
                            assert(spec_is_digit(spec_decimal(v as int)[0]));
                            assert(!spec_is_digit(':'));
                        }
                    }
                }
                return None;
            }
            return Some((acc, i + 1));
        }
        if code < 48 || code > 57 {
            proof {
                assert forall|v: u64, rest: Seq<char>| !num_at(sv, pos as int, v, rest) by {
                    if num_at(sv, pos as int, v, rest) {
                        let digits = spec_decimal(v as int);
                        if i < pos + digits.len() {
                            assert(sv[i as int] == digits[i - pos]);
                            assert(spec_is_digit(digits[i - pos]));
                        } else {
                            assert(sv[i as int] == ':');
                        }
                    }
                }
            }
            return None;
        }
        let d = (code - 48) as u64;
        proof {
            assert(sv.subrange(pos as int, i + 1 as int).drop_last() =~= sv.subrange(
                pos as int,
                i as int,
            ));
            assert(sv.subrange(pos as int, i + 1 as int).last() == sv[i as int]);
        }
        if acc > (u64::MAX - d) / 10 {
            proof {
                assert forall|v: u64, rest: Seq<char>| !num_at(sv, pos as int, v, rest) by {
                    if num_at(sv, pos as int, v, rest) {
                        let digits = spec_decimal(v as int);
                        if i >= pos + digits.len() {
                            assert(sv[i as int] == ':');
                            assert(!spec_is_digit(':'));
                        }
                        assert(i < pos + digits.len());
                        assert forall|j: int|
                            #![trigger digits.take(i + 1 - pos)[j]]
                            0 <= j < i + 1 - pos implies sv.subrange(pos as int, i + 1 as int)[j]
                            == digits.take(i + 1 - pos)[j] by {
                            assert(sv[pos + j] == digits[j]);
                        }
                        assert(sv.subrange(pos as int, i + 1 as int) =~= digits.take(
                            i + 1 - pos,
                        ));
                        crate::utils::lemma_decimal_val_monotonic(digits, i + 1 - pos);
                        assert(spec_decimal_val(digits.take(i + 1 - pos)) <= v as int);
                        assert(acc * 10 + d <= u64::MAX as int);
                        assert(acc <= (u64::MAX - d) / 10) by (nonlinear_arith)
                            requires
                                acc * 10 + d <= u64::MAX as int,
                                0 <= d <= 9,
                                u64::MAX == 0xFFFF_FFFF_FFFF_FFFFu64,
                        ;
                    }
                }
            }
            return None;
        }
        proof {
            assert(acc * 10 + d <= u64::MAX as int) by (nonlinear_arith)
                requires
                    acc <= (u64::MAX - d) / 10,
                    0 <= d <= 9,
                    u64::MAX == 0xFFFF_FFFF_FFFF_FFFFu64,
            ;
            assert forall|v: u64, rest: Seq<char>| #[trigger] num_at(sv, pos as int, v, rest)
                implies i + 1 <= pos + spec_decimal(v as int).len() by {
                let digits = spec_decimal(v as int);
                if i >= pos + digits.len() {
                    assert(sv[i as int] == ':');
                    assert(!spec_is_digit(':'));
                    assert(spec_is_digit(sv[i as int]));
                }
            }
        }
        acc = acc * 10 + d;
        i += 1;
    }
}

/// Parses a text. On any text that serializes one at `pos`, it returns that
/// text's characters and stops exactly past them.
fn parse_str_at(s: &str, pos: usize, n: usize) -> (r: Option<(String, usize)>)
    requires
        pos <= s@.len(),
        n == s@.len(),
    ensures
        r matches Some(q) ==> pos < q.1 <= s@.len(),
        forall|t: Seq<char>, rest: Seq<char>|
            #[trigger] str_at(s@, pos as int, t, rest) ==> (r matches Some(q) && q.0@ == t && q.1
                as int == pos as int + spec_ser_str(t).len() && s@.skip(q.1 as int) == rest),
{
    let ghost sv = s@;
    let r0 = parse_num_at(s, pos, n);
    proof {
        assert forall|t: Seq<char>, rest: Seq<char>| #[trigger] str_at(sv, pos as int, t, rest)
            implies (r0 matches Some(q) && q.0 as int == t.len() && q.1 as int == pos as int
            + spec_ser_num(t.len() as int).len() && sv.skip(q.1 as int) == t + rest) by {
            assert(sv.skip(pos as int) =~= spec_ser_num(t.len() as int) + (t + rest));
            assert(((t.len() as u64) as int) == t.len() as int);
            assert(num_at(sv, pos as int, t.len() as u64, t + rest));
        }
    }
    let (len, p1) = match r0 {
        Some(q) => q,
        None => {
            proof {
                assert forall|t: Seq<char>, rest: Seq<char>|
                    !str_at(sv, pos as int, t, rest) by {
                    if str_at(sv, pos as int, t, rest) {
                    }
                }
            }
            return None;
        },
    };
    if len > (n - p1) as u64 {
        proof {
            assert forall|t: Seq<char>, rest: Seq<char>| !str_at(sv, pos as int, t, rest) by {
                if str_at(sv, pos as int, t, rest) {
                    assert(sv.skip(p1 as int).len() == t.len() + rest.len());
                }
            }
        }
        return None;
    }
    let end = p1 + len as usize;
    let out = s.substring_char(p1, end).to_owned();
    proof {
        assert forall|t: Seq<char>, rest: Seq<char>| #[trigger] str_at(sv, pos as int, t, rest)
            implies (out@ == t && end as int == pos as int + spec_ser_str(t).len() && sv.skip(
            end as int,
        ) == rest) by {
            assert(sv.skip(p1 as int).len() == sv.len() - p1);
            assert forall|m: int| 0 <= m < t.len() implies sv.subrange(p1 as int, end as int)[m]
                == t[m] by {
                assert(sv.skip(p1 as int)[m] == sv[p1 + m]);
                assert((t + rest)[m] == t[m]);
            }
            assert(sv.subrange(p1 as int, end as int) =~= t);
            assert forall|m: int| 0 <= m < sv.len() - end implies sv.skip(end as int)[m]
                == rest[m] by {
                assert(sv.skip(p1 as int)[t.len() + m] == sv[p1 + t.len() + m]);
                assert((t + rest)[t.len() + m] == rest[m]);
            }
            assert(sv.skip(end as int) =~= rest);
        }
    }
    Some((out, end))
}

/// Parses a flag. On any text that serializes one at `pos`, it returns that
/// flag and stops past its one character.
fn parse_bool_at(s: &str, pos: usize, n: usize) -> (r: Option<(bool, usize)>)
    requires
        pos <= s@.len(),
        n == s@.len(),
    ensures
        r matches Some(q) ==> pos < q.1 <= s@.len(),
        forall|b: bool, rest: Seq<char>|
            #[trigger] bool_at(s@, pos as int, b, rest) ==> (r matches Some(q) && q.0 == b && q.1
                as int == pos as int + 1 && s@.skip(q.1 as int) == rest),
{
    let ghost sv = s@;
    proof {
        assert forall|b: bool, rest: Seq<char>| #[trigger] bool_at(sv, pos as int, b, rest)
            implies (pos < sv.len() && sv[pos as int] == (if b {
            '1'
        } else {
            '0'
        }) && sv.skip(pos + 1) == rest) by {
            assert(spec_ser_bool(b).len() == 1);
            assert(sv.skip(pos as int).len() == sv.len() - pos);
            assert(sv.skip(pos as int)[0] == sv[pos as int]);
            assert((spec_ser_bool(b) + rest)[0] == (if b {
                '1'
            } else {
                '0'
            }));
            assert forall|m: int| 0 <= m < sv.len() - (pos + 1) implies sv.skip(pos + 1)[m]
                == rest[m] by {
                assert(sv.skip(pos as int)[1 + m] == sv[pos + 1 + m]);
                assert((spec_ser_bool(b) + rest)[1 + m] == rest[m]);
            }
            assert(sv.skip(pos + 1) =~= rest);
        }
    }
    if pos >= n {
        return None;
    }
    let c = s.get_char(pos);
    if c == '1' {
        Some((true, pos + 1))
    } else if c == '0' {
        Some((false, pos + 1))
    } else {
        None
    }
}

/// Parses a role list. On any text that serializes one at `pos`, it returns
/// names with the same contents and stops exactly past them.
#[verifier::rlimit(100)]
fn parse_roles_at(s: &str, pos: usize, n: usize) -> (r: Option<(Vec<String>, usize)>)
    requires
        pos <= s@.len(),
        n == s@.len(),
    ensures
        r matches Some(q) ==> pos < q.1 <= s@.len(),
        forall|roles: Seq<String>, rest: Seq<char>|
            #[trigger] roles_at(s@, pos as int, roles, rest) ==> (r matches Some(q) && eq_roles_v(
                q.0@,
                roles,
            ) && q.1 as int == pos as int + spec_ser_roles(roles).len() && s@.skip(q.1 as int)
                == rest),
{
    let ghost sv = s@;
    let r0 = parse_num_at(s, pos, n);
    proof {
        assert forall|roles: Seq<String>, rest: Seq<char>|
            #[trigger] roles_at(sv, pos as int, roles, rest) implies (r0 matches Some(q) && q.0
            as int == roles.len() && q.1 as int == pos as int + spec_ser_num(
            roles.len() as int,
        ).len() && sv.skip(q.1 as int) == spec_ser_role_list(roles) + rest) by {
            assert(sv.skip(pos as int) =~= spec_ser_num(roles.len() as int)
                + (spec_ser_role_list(roles) + rest));
            assert(((roles.len() as u64) as int) == roles.len() as int);
            assert(num_at(sv, pos as int, roles.len() as u64, spec_ser_role_list(roles) + rest));
        }
    }
    let (count, p1) = match r0 {
        Some(q) => q,
        None => {
            proof {
                assert forall|roles: Seq<String>, rest: Seq<char>|
                    !roles_at(sv, pos as int, roles, rest) by {
                    if roles_at(sv, pos as int, roles, rest) {
                    }
                }
            }
            return None;
        },
    };
    let mut built: Vec<String> = Vec::new();
    let mut p = p1;
    let mut k: u64 = 0;
    proof {
        assert(built@ =~= Seq::<String>::empty());
        assert forall|roles: Seq<String>, rest: Seq<char>|
            #[trigger] roles_at(sv, pos as int, roles, rest) implies (eq_roles_v(
            built@,
            roles.take(0),
        ) && p as int == p1 + spec_ser_role_list(roles.take(0)).len() && sv.skip(p as int)
            == spec_ser_role_list(roles.skip(0)) + rest) by {
            assert(roles.take(0) =~= Seq::<String>::empty());
            assert(spec_ser_role_list(Seq::<String>::empty()) == Seq::<char>::empty());
            assert(roles.skip(0) =~= roles);
        }
    }
    while k < count
        invariant
            n == sv.len(),
            sv == s@,
            p <= n,
            p1 <= p,
            pos < p1,
            built@.len() == k,
            k <= count,
            forall|roles: Seq<String>, rest: Seq<char>|
                #[trigger] roles_at(sv, pos as int, roles, rest) ==> (count == roles.len() && k
                    <= roles.len() && eq_roles_v(built@, roles.take(k as int)) && p as int == p1
                    + spec_ser_role_list(roles.take(k as int)).len() && sv.skip(p as int)
                    == spec_ser_role_list(roles.skip(k as int)) + rest),
        decreases count - k,
    {
        let rk = parse_str_at(s, p, n);
        proof {
            assert forall|roles: Seq<String>, rest: Seq<char>|
                #[trigger] roles_at(sv, pos as int, roles, rest) implies (rk matches Some(q)
                && q.0@ == roles[k as int]@ && q.1 as int == p as int + spec_ser_str(
                roles[k as int]@,
            ).len() && sv.skip(q.1 as int) == spec_ser_role_list(roles.skip(k as int + 1))
                + rest) by {
                assert(k < roles.len());
                assert(roles.skip(k as int)[0] == roles[k as int]);
                assert(roles.skip(k as int).skip(1) =~= roles.skip(k as int + 1));
                assert(spec_ser_role_list(roles.skip(k as int)) == spec_ser_str(roles[k as int]@)
                    + spec_ser_role_list(roles.skip(k as int + 1)));
                assert(sv.skip(p as int) =~= spec_ser_str(roles[k as int]@) + (
                spec_ser_role_list(roles.skip(k as int + 1)) + rest));
                assert(str_at(sv, p as int, roles[k as int]@, spec_ser_role_list(
                    roles.skip(k as int + 1),
                ) + rest));
            }
        }
        let (item, p2) = match rk {
            Some(q) => q,
            None => {
                proof {
                    assert forall|roles: Seq<String>, rest: Seq<char>|
                        !roles_at(sv, pos as int, roles, rest) by {
                        if roles_at(sv, pos as int, roles, rest) {
                        }
                    }
                }
                return None;
            },
        };
        let ghost built_prev = built@;
        built.push(item);
        proof {
            assert forall|roles: Seq<String>, rest: Seq<char>|
                #[trigger] roles_at(sv, pos as int, roles, rest) implies (eq_roles_v(
                built@,
                roles.take(k as int + 1),
            ) && p2 as int == p1 + spec_ser_role_list(roles.take(k as int + 1)).len()) by {
                lemma_ser_role_list_snoc(roles, k as int);
                assert forall|i: int| 0 <= i < built@.len() implies #[trigger] built@[i]@
                    == roles.take(k as int + 1)[i]@ by {
                    if i < k as int {
                        assert(built@[i] == built_prev[i]);
                    }
                }
            }
        }
        p = p2;
        k = k + 1;
    }
    proof {
        assert forall|roles: Seq<String>, rest: Seq<char>|
            #[trigger] roles_at(sv, pos as int, roles, rest) implies (eq_roles_v(built@, roles)
            && p as int == pos as int + spec_ser_roles(roles).len() && sv.skip(p as int)
            == rest) by {
            assert(roles.take(roles.len() as int) =~= roles);
            assert(roles.skip(roles.len() as int) =~= Seq::<String>::empty());
            assert(spec_ser_role_list(Seq::<String>::empty()) == Seq::<char>::empty());
            assert(sv.skip(p as int) =~= rest);
        }
    }
    Some((built, p))
}

/// Appends a field tag.
fn ser_tag(out: &mut String, tag: &str)
    ensures
        final(out)@ == old(out)@ + tag@,
{
    out.append(tag);
}

/// Whether a literal tag sits at `pos` of `s`, followed by `rest`.
pub open spec fn tag_at(s: Seq<char>, pos: int, tag: Seq<char>, rest: Seq<char>) -> bool {
    &&& s.skip(pos) == tag + rest
    &&& 0 <= pos <= s.len()
}

/// Parses a field tag. On any text carrying the tag at `pos`, it stops
/// exactly past it.
fn parse_tag_at(s: &str, pos: usize, n: usize, tag: &str) -> (r: Option<usize>)
    requires
        pos <= s@.len(),
        n == s@.len(),
    ensures
        r matches Some(p2) ==> pos <= p2 <= s@.len(),
        forall|rest: Seq<char>|
            #[trigger] tag_at(s@, pos as int, tag@, rest) ==> (r matches Some(p2) && p2 as int
                == pos as int + tag@.len() && s@.skip(p2 as int) == rest),
{
    let ghost sv = s@;
    let tn = tag.unicode_len();
    if tn > n - pos {
        proof {
            assert forall|rest: Seq<char>| !tag_at(sv, pos as int, tag@, rest) by {
                if tag_at(sv, pos as int, tag@, rest) {
                    assert(sv.skip(pos as int).len() == tag@.len() + rest.len());
                }
            }
        }
        return None;
    }
    let got = s.substring_char(pos, pos + tn);
    let tag_found = got.to_owned().eq(&tag.to_owned());
    proof {
        assert forall|rest: Seq<char>| #[trigger] tag_at(sv, pos as int, tag@, rest) implies (
        tag_found && sv.skip(pos + tn as int) == rest) by {
            assert(sv.skip(pos as int).len() == sv.len() - pos);
            assert forall|m: int| 0 <= m < tn implies sv.subrange(pos as int, pos + tn as int)[m]
                == tag@[m] by {
                assert(sv.skip(pos as int)[m] == sv[pos + m]);
                assert((tag@ + rest)[m] == tag@[m]);
            }
            assert(got@ =~= tag@);
            assert forall|m: int| 0 <= m < sv.len() - (pos + tn) implies sv.skip(
                pos + tn as int,
            )[m] == rest[m] by {
                assert(sv.skip(pos as int)[tn + m] == sv[pos + tn + m]);
                assert((tag@ + rest)[tn + m] == rest[m]);
            }
            assert(sv.skip(pos + tn as int) =~= rest);
        }
    }
    if tag_found {
        Some(pos + tn)
    } else {
        None
    }
}


/// The serialized form of a user: each field named as in the
/// configuration model, then its value.
pub open spec fn spec_ser_user(u: User) -> Seq<char> {
    "login="@ + spec_ser_str(u.login@) + "password="@ + spec_ser_str(u.password@) + "roles="@ + spec_ser_roles(u.roles@)
}

/// Whether a user's texts fit the length prefixes.
pub open spec fn fits_user(u: User) -> bool {
    &&& fits_str(u.login@)
    &&& fits_str(u.password@)
    &&& fits_roles(u.roles@)
}

/// Sameness of two users by contents.
pub open spec fn eq_user_v(a: User, b: User) -> bool {
    &&& a.login@ == b.login@
    &&& a.password@ == b.password@
    &&& eq_roles_v(a.roles@, b.roles@)
}

/// Appends the serialized form of a user.
#[verifier::rlimit(100)]
#[verifier::spinoff_prover]
fn ser_user(out: &mut String, u: &User)
    ensures
        final(out)@ == old(out)@ + spec_ser_user(*u),
        fits_user(*u),
{
    ser_tag(out, "login=");
    ser_str(out, u.login.as_str());
    proof {
        assert(out@ =~= old(out)@ + ("login="@ + spec_ser_str(u.login@)));
    }
    ser_tag(out, "password=");
    ser_str(out, u.password.as_str());
    proof {
        assert(out@ =~= old(out)@ + ("login="@ + spec_ser_str(u.login@) + "password="@ + spec_ser_str(u.password@)));
    }
    ser_tag(out, "roles=");
    ser_roles(out, &u.roles);
    proof {
        assert(out@ =~= old(out)@ + ("login="@ + spec_ser_str(u.login@) + "password="@ + spec_ser_str(u.password@) + "roles="@ + spec_ser_roles(u.roles@)));
    }
}

/// Whether this run of user fields is serialized at `pos` of `s`.
pub open spec fn user_part0_at(s: Seq<char>, pos: int, u: User, rest: Seq<char>) -> bool {
    &&& s.skip(pos) == "login="@ + spec_ser_str(u.login@) + "password="@ + spec_ser_str(u.password@) + "roles="@ + spec_ser_roles(u.roles@) + rest
    &&& fits_user(u)
    &&& 0 <= pos <= s.len()
}

/// Parses this run of user fields.
#[verifier::rlimit(100)]
#[verifier::spinoff_prover]
fn parse_user_part0_at(s: &str, pos: usize, n: usize) -> (r: Option<((String, String, Vec<String>), usize)>)
    requires
        pos <= s@.len(),
        n == s@.len(),
    ensures
        r matches Some(q) ==> pos <= q.1 <= s@.len(),
        forall|u: User, rest: Seq<char>|
            #[trigger] user_part0_at(s@, pos as int, u, rest) ==> (r matches Some(q)
                && q.0.0@ == u.login@ && q.0.1@ == u.password@ && eq_roles_v(q.0.2@, u.roles@)
                && q.1 as int == pos as int + ("login="@ + spec_ser_str(u.login@) + "password="@ + spec_ser_str(u.password@) + "roles="@ + spec_ser_roles(u.roles@)).len()
                && s@.skip(q.1 as int) == rest),
{
    let ghost sv = s@;
    let ghost pos0 = pos as int;
    let r0 = parse_tag_at(s, pos, n, "login=");
    proof {
        assert forall|u: User, rest: Seq<char>|
            #[trigger] user_part0_at(sv, pos0, u, rest) implies (r0 matches Some(p2)
                && p2 as int == pos as int + ("login="@).len()
                && sv.skip(p2 as int) == spec_ser_str(u.login@) + "password="@ + spec_ser_str(u.password@) + "roles="@ + spec_ser_roles(u.roles@) + rest) by {
            assert(sv.skip(pos as int) =~= "login="@ + (spec_ser_str(u.login@) + "password="@ + spec_ser_str(u.password@) + "roles="@ + spec_ser_roles(u.roles@) + rest));
            assert(tag_at(sv, pos as int, "login="@, spec_ser_str(u.login@) + "password="@ + spec_ser_str(u.password@) + "roles="@ + spec_ser_roles(u.roles@) + rest));
        }
    }
    let p0 = match r0 {
        Some(p2) => p2,
        None => {
            proof {
                assert forall|u: User, rest: Seq<char>|
                    !user_part0_at(sv, pos0, u, rest) by {
                    if user_part0_at(sv, pos0, u, rest) {
                    }
                }
            }
            return None;
        },
    };
    let r1 = parse_str_at(s, p0, n);
    proof {
        assert forall|u: User, rest: Seq<char>|
            #[trigger] user_part0_at(sv, pos0, u, rest) implies (r1 matches Some(q)
                && q.0@ == u.login@
                && q.1 as int == p0 as int + (spec_ser_str(u.login@)).len()
                && sv.skip(q.1 as int) == "password="@ + spec_ser_str(u.password@) + "roles="@ + spec_ser_roles(u.roles@) + rest) by {
            assert(sv.skip(p0 as int) =~= spec_ser_str(u.login@) + ("password="@ + spec_ser_str(u.password@) + "roles="@ + spec_ser_roles(u.roles@) + rest));
            assert(str_at(sv, p0 as int, u.login@, "password="@ + spec_ser_str(u.password@) + "roles="@ + spec_ser_roles(u.roles@) + rest));
        }
    }
    let (v0, p1) = match r1 {
        Some(q) => q,
        None => {
            proof {
                assert forall|u: User, rest: Seq<char>|
                    !user_part0_at(sv, pos0, u, rest) by {
                    if user_part0_at(sv, pos0, u, rest) {
                    }
                }
            }
            return None;
        },
    };
    let r2 = parse_tag_at(s, p1, n, "password=");
    proof {
        assert forall|u: User, rest: Seq<char>|
            #[trigger] user_part0_at(sv, pos0, u, rest) implies (r2 matches Some(p2)
                && p2 as int == p1 as int + ("password="@).len()
                && sv.skip(p2 as int) == spec_ser_str(u.password@) + "roles="@ + spec_ser_roles(u.roles@) + rest) by {
            assert(sv.skip(p1 as int) =~= "password="@ + (spec_ser_str(u.password@) + "roles="@ + spec_ser_roles(u.roles@) + rest));
            assert(tag_at(sv, p1 as int, "password="@, spec_ser_str(u.password@) + "roles="@ + spec_ser_roles(u.roles@) + rest));
        }
    }
    let p2 = match r2 {
        Some(p2) => p2,
        None => {
            proof {
                assert forall|u: User, rest: Seq<char>|
                    !user_part0_at(sv, pos0, u, rest) by {
                    if user_part0_at(sv, pos0, u, rest) {
                    }
                }
            }
            return None;
        },
    };
    let r3 = parse_str_at(s, p2, n);
    proof {
        assert forall|u: User, rest: Seq<char>|
            #[trigger] user_part0_at(sv, pos0, u, rest) implies (r3 matches Some(q)
                && q.0@ == u.password@
                && q.1 as int == p2 as int + (spec_ser_str(u.password@)).len()
                && sv.skip(q.1 as int) == "roles="@ + spec_ser_roles(u.roles@) + rest) by {
            assert(sv.skip(p2 as int) =~= spec_ser_str(u.password@) + ("roles="@ + spec_ser_roles(u.roles@) + rest));
            assert(str_at(sv, p2 as int, u.password@, "roles="@ + spec_ser_roles(u.roles@) + rest));
        }
    }
    let (v1, p3) = match r3 {
        Some(q) => q,
        None => {
            proof {
                assert forall|u: User, rest: Seq<char>|
                    !user_part0_at(sv, pos0, u, rest) by {
                    if user_part0_at(sv, pos0, u, rest) {
                    }
                }
            }
            return None;
        },
    };
    let r4 = parse_tag_at(s, p3, n, "roles=");
    proof {
        assert forall|u: User, rest: Seq<char>|
            #[trigger] user_part0_at(sv, pos0, u, rest) implies (r4 matches Some(p2)
                && p2 as int == p3 as int + ("roles="@).len()
                && sv.skip(p2 as int) == spec_ser_roles(u.roles@) + rest) by {
            assert(sv.skip(p3 as int) =~= "roles="@ + (spec_ser_roles(u.roles@) + rest));
            assert(tag_at(sv, p3 as int, "roles="@, spec_ser_roles(u.roles@) + rest));
        }
    }
    let p4 = match r4 {
        Some(p2) => p2,
        None => {
            proof {
                assert forall|u: User, rest: Seq<char>|
                    !user_part0_at(sv, pos0, u, rest) by {
                    if user_part0_at(sv, pos0, u, rest) {
                    }
                }
            }
            return None;
        },
    };
    let r5 = parse_roles_at(s, p4, n);
    proof {
        assert forall|u: User, rest: Seq<char>|
            #[trigger] user_part0_at(sv, pos0, u, rest) implies (r5 matches Some(q)
                && eq_roles_v(q.0@, u.roles@)
                && q.1 as int == p4 as int + (spec_ser_roles(u.roles@)).len()
                && sv.skip(q.1 as int) == Seq::<char>::empty() + rest) by {
            assert(sv.skip(p4 as int) =~= spec_ser_roles(u.roles@) + (Seq::<char>::empty() + rest));
            assert(roles_at(sv, p4 as int, u.roles@, Seq::<char>::empty() + rest));
        }
    }
    let (v2, p5) = match r5 {
        Some(q) => q,
        None => {
            proof {
                assert forall|u: User, rest: Seq<char>|
                    !user_part0_at(sv, pos0, u, rest) by {
                    if user_part0_at(sv, pos0, u, rest) {
                    }
                }
            }
            return None;
        },
    };
    Some(((v0, v1, v2), p5))
}

/// Parses a user. On any text that serializes a user at `pos`, it returns a
/// user with the same contents and stops exactly past it.
#[verifier::rlimit(100)]
#[verifier::spinoff_prover]
fn parse_user_at(s: &str, pos: usize, n: usize) -> (r: Option<(User, usize)>)
    requires
        pos <= s@.len(),
        n == s@.len(),
    ensures
        r matches Some(q) ==> pos <= q.1 <= s@.len(),
        forall|u: User, rest: Seq<char>|
            #[trigger] user_at(s@, pos as int, u, rest) ==> (r matches Some(q)
                && eq_user_v(q.0, u) && q.1 as int == pos as int + spec_ser_user(u).len()
                && s@.skip(q.1 as int) == rest),
{
    let ghost sv = s@;
    let r0 = parse_user_part0_at(s, pos, n);
    proof {
        assert forall|u: User, rest: Seq<char>|
            #[trigger] user_at(sv, pos as int, u, rest) implies user_part0_at(
            sv,
            pos as int,
            u,
            rest,
        ) by {
            assert(sv.skip(pos as int) =~= ("login="@ + spec_ser_str(u.login@) + "password="@ + spec_ser_str(u.password@) + "roles="@ + spec_ser_roles(u.roles@)) + rest);
        }
    }
    let (t0, pm0) = match r0 {
        Some(q) => q,
        None => {
            proof {
                assert forall|u: User, rest: Seq<char>|
                    !user_at(sv, pos as int, u, rest) by {
                    if user_at(sv, pos as int, u, rest) {
                    }
                }
            }
            return None;
        },
    };
    let built = User { login: t0.0, password: t0.1, roles: t0.2 };
    proof {
        assert forall|u: User, rest: Seq<char>|
            #[trigger] user_at(sv, pos as int, u, rest) implies (eq_user_v(built, u)
                && pm0 as int == pos as int + spec_ser_user(u).len()) by {
            assert((spec_ser_user(u)).len() == ("login="@ + spec_ser_str(u.login@) + "password="@ + spec_ser_str(u.password@) + "roles="@ + spec_ser_roles(u.roles@)).len());
        }
    }
    Some((built, pm0))
}

/// Whether a user is serialized at `pos` of `s`, followed by `rest`.
pub open spec fn user_at(s: Seq<char>, pos: int, u: User, rest: Seq<char>) -> bool {
    &&& s.skip(pos) == spec_ser_user(u) + rest
    &&& fits_user(u)
    &&& 0 <= pos <= s.len()
}

/// The serialized user entries, one after the other.
pub open spec fn spec_ser_user_list(items: Seq<User>) -> Seq<char>
    decreases items.len(),
{
    if items.len() == 0 {
        Seq::<char>::empty()
    } else {
        spec_ser_user(items[0]) + spec_ser_user_list(items.skip(1))
    }
}

/// The serialized form of a user list: its length, then the entries.
pub open spec fn spec_ser_users(items: Seq<User>) -> Seq<char> {
    spec_ser_num(items.len() as int) + spec_ser_user_list(items)
}

/// Whether a user list's texts fit the length prefixes.
pub open spec fn fits_users(items: Seq<User>) -> bool {
    &&& items.len() <= u64::MAX
    &&& forall|i: int| 0 <= i < items.len() ==> fits_user(#[trigger] items[i])
}

/// Sameness of two user lists by contents.
pub open spec fn eq_users_v(a: Seq<User>, b: Seq<User>) -> bool {
    &&& a.len() == b.len()
    &&& forall|i: int| 0 <= i < a.len() ==> eq_user_v(#[trigger] a[i], b[i])
}

/// Whether a user list is serialized at `pos` of `s`, followed by `rest`.
pub open spec fn users_at(s: Seq<char>, pos: int, items: Seq<User>, rest: Seq<char>) -> bool {
    &&& s.skip(pos) == spec_ser_users(items) + rest
    &&& fits_users(items)
    &&& 0 <= pos <= s.len()
}

/// A user list prefix extended by one entry.
#[verifier::rlimit(100)]
#[verifier::spinoff_prover]
proof fn lemma_ser_user_list_snoc(items: Seq<User>, k: int)
    requires
        0 <= k < items.len(),
    ensures
        spec_ser_user_list(items.take(k + 1)) == spec_ser_user_list(items.take(k)) + spec_ser_user(
            items[k],
        ),
    decreases k,
{
    if k == 0 {
        assert(items.take(1).skip(1) =~= Seq::<User>::empty());
        assert(items.take(0) =~= Seq::<User>::empty());
        assert(spec_ser_user_list(Seq::<User>::empty()) == Seq::<char>::empty());
        assert(items.take(1)[0] == items[0]);
        assert(spec_ser_user_list(items.take(1)) =~= spec_ser_user(items[0]));
        assert(spec_ser_user_list(items.take(0)) + spec_ser_user(items[0]) =~= spec_ser_user(
            items[0],
        ));
    } else {
        lemma_ser_user_list_snoc(items.skip(1), k - 1);
        assert(items.take(k + 1).skip(1) =~= items.skip(1).take(k));
        assert(items.take(k).skip(1) =~= items.skip(1).take(k - 1));
        assert(items.take(k + 1)[0] == items[0]);
        assert(items.take(k)[0] == items[0]);
        assert(items.skip(1)[k - 1] == items[k]);
        assert(spec_ser_user(items[0]) + (spec_ser_user_list(items.skip(1).take(k - 1))
            + spec_ser_user(items[k])) =~= (spec_ser_user(items[0]) + spec_ser_user_list(
            items.skip(1).take(k - 1),
        )) + spec_ser_user(items[k]));
    }
}

/// Appends a serialized user list.
#[verifier::rlimit(100)]
#[verifier::spinoff_prover]
fn ser_users(out: &mut String, items: &Vec<User>)
    ensures
        final(out)@ == old(out)@ + spec_ser_users(items@),
        fits_users(items@),
{
    ser_num(out, items.len() as u64);
    let ghost base = out@;
    let mut k: usize = 0;
    proof {
        assert(items@.take(0) =~= Seq::<User>::empty());
        assert(spec_ser_user_list(Seq::<User>::empty()) == Seq::<char>::empty());
        assert(base + spec_ser_user_list(items@.take(0)) =~= base);
    }
    while k < items.len()
        invariant
            k <= items@.len(),
            out@ == base + spec_ser_user_list(items@.take(k as int)),
            forall|i: int| 0 <= i < k ==> fits_user(#[trigger] items@[i]),
        decreases items@.len() - k,
    {
        ser_user(out, &items[k]);
        proof {
            lemma_ser_user_list_snoc(items@, k as int);
            assert(base + spec_ser_user_list(items@.take(k as int)) + spec_ser_user(
                items@[k as int],
            ) =~= base + spec_ser_user_list(items@.take(k as int + 1)));
        }
        k += 1;
    }
    proof {
        assert(items@.take(items@.len() as int) =~= items@);
    }
}

/// Parses a user list. On any text that serializes one at `pos`, it returns
/// entries with the same contents and stops exactly past them.
#[verifier::rlimit(100)]
#[verifier::spinoff_prover]
fn parse_users_at(s: &str, pos: usize, n: usize) -> (r: Option<(Vec<User>, usize)>)
    requires
        pos <= s@.len(),
        n == s@.len(),
    ensures
        r matches Some(q) ==> pos < q.1 <= s@.len(),
        forall|items: Seq<User>, rest: Seq<char>|
            #[trigger] users_at(s@, pos as int, items, rest) ==> (r matches Some(q) && eq_users_v(
                q.0@,
                items,
            ) && q.1 as int == pos as int + spec_ser_users(items).len() && s@.skip(q.1 as int)
                == rest),
{
    let ghost sv = s@;
    let r0 = parse_num_at(s, pos, n);
    proof {
        assert forall|items: Seq<User>, rest: Seq<char>|
            #[trigger] users_at(sv, pos as int, items, rest) implies (r0 matches Some(q) && q.0
            as int == items.len() && q.1 as int == pos as int + spec_ser_num(
            items.len() as int,
        ).len() && sv.skip(q.1 as int) == spec_ser_user_list(items) + rest) by {
            assert(sv.skip(pos as int) =~= spec_ser_num(items.len() as int)
                + (spec_ser_user_list(items) + rest));
            assert(((items.len() as u64) as int) == items.len() as int);
            assert(num_at(sv, pos as int, items.len() as u64, spec_ser_user_list(items) + rest));
        }
    }
    let (count, p1) = match r0 {
        Some(q) => q,
        None => {
            proof {
                assert forall|items: Seq<User>, rest: Seq<char>|
                    !users_at(sv, pos as int, items, rest) by {
                    if users_at(sv, pos as int, items, rest) {
                    }
                }
            }
            return None;
        },
    };
    let mut built: Vec<User> = Vec::new();
    let mut p = p1;
    let mut k: u64 = 0;
    proof {
        assert(built@ =~= Seq::<User>::empty());
        assert forall|items: Seq<User>, rest: Seq<char>|
            #[trigger] users_at(sv, pos as int, items, rest) implies (eq_users_v(
            built@,
            items.take(0),
        ) && p as int == p1 + spec_ser_user_list(items.take(0)).len() && sv.skip(p as int)
            == spec_ser_user_list(items.skip(0)) + rest) by {
            assert(items.take(0) =~= Seq::<User>::empty());
            assert(spec_ser_user_list(Seq::<User>::empty()) == Seq::<char>::empty());
            assert(items.skip(0) =~= items);
        }
    }
    while k < count
        invariant
            n == sv.len(),
            sv == s@,
            p <= n,
            p1 <= p,
            pos < p1,
            built@.len() == k,
            k <= count,
            forall|items: Seq<User>, rest: Seq<char>|
                #[trigger] users_at(sv, pos as int, items, rest) ==> (count == items.len() && k
                    <= items.len() && eq_users_v(built@, items.take(k as int)) && p as int == p1
                    + spec_ser_user_list(items.take(k as int)).len() && sv.skip(p as int)
                    == spec_ser_user_list(items.skip(k as int)) + rest),
        decreases count - k,
    {
        let rk = parse_user_at(s, p, n);
        proof {
            assert forall|items: Seq<User>, rest: Seq<char>|
                #[trigger] users_at(sv, pos as int, items, rest) implies (rk matches Some(q)
                && eq_user_v(q.0, items[k as int]) && q.1 as int == p as int + spec_ser_user(
                items[k as int],
            ).len() && sv.skip(q.1 as int) == spec_ser_user_list(items.skip(k as int + 1))
                + rest) by {
                assert(k < items.len());
                assert(items.skip(k as int)[0] == items[k as int]);
                assert(items.skip(k as int).skip(1) =~= items.skip(k as int + 1));
                assert(spec_ser_user_list(items.skip(k as int)) == spec_ser_user(items[k as int])
                    + spec_ser_user_list(items.skip(k as int + 1)));
                assert(sv.skip(p as int) =~= spec_ser_user(items[k as int]) + (
                spec_ser_user_list(items.skip(k as int + 1)) + rest));
                assert(user_at(sv, p as int, items[k as int], spec_ser_user_list(
                    items.skip(k as int + 1),
                ) + rest));
            }
        }
        let (item, p2) = match rk {
            Some(q) => q,
            None => {
                proof {
                    assert forall|items: Seq<User>, rest: Seq<char>|
                        !users_at(sv, pos as int, items, rest) by {
                        if users_at(sv, pos as int, items, rest) {
                        }
                    }
                }
                return None;
            },
        };
        let ghost built_prev = built@;
        built.push(item);
        proof {
            assert forall|items: Seq<User>, rest: Seq<char>|
                #[trigger] users_at(sv, pos as int, items, rest) implies (eq_users_v(
                built@,
                items.take(k as int + 1),
            ) && p2 as int == p1 + spec_ser_user_list(items.take(k as int + 1)).len()) by {
                lemma_ser_user_list_snoc(items, k as int);
                assert forall|i: int| 0 <= i < built@.len() implies eq_user_v(
                    #[trigger] built@[i],
                    items.take(k as int + 1)[i],
                ) by {
                    if i < k as int {
                        assert(built@[i] == built_prev[i]);
                    }
                }
            }
        }
        p = p2;
        k = k + 1;
    }
    proof {
        assert forall|items: Seq<User>, rest: Seq<char>|
            #[trigger] users_at(sv, pos as int, items, rest) implies (eq_users_v(built@, items)
            && p as int == pos as int + spec_ser_users(items).len() && sv.skip(p as int)
            == rest) by {
            assert(items.take(items.len() as int) =~= items);
            assert(items.skip(items.len() as int) =~= Seq::<User>::empty());
            assert(spec_ser_user_list(Seq::<User>::empty()) == Seq::<char>::empty());
            assert(sv.skip(p as int) =~= rest);
        }
    }
    Some((built, p))
}

/// The serialized form of a app: each field named as in the
/// configuration model, then its value.
pub open spec fn spec_ser_app(a: App) -> Seq<char> {
    "id="@ + spec_ser_num(a.id as int) + "name="@ + spec_ser_str(a.name@) + "icon="@ + spec_ser_str(a.icon@) + "color="@ + spec_ser_str(a.color@) + "is_proxy="@ + spec_ser_bool(a.is_proxy) + "host="@ + spec_ser_str(a.host@) + "forward_to="@ + spec_ser_str(a.forward_to@) + "secured="@ + spec_ser_bool(a.secured) + "login="@ + spec_ser_str(a.login@) + "password="@ + spec_ser_str(a.password@) + "openpath="@ + spec_ser_str(a.openpath@) + "roles="@ + spec_ser_roles(a.roles@)
}

/// Whether a app's texts fit the length prefixes.
pub open spec fn fits_app(a: App) -> bool {
    &&& fits_str(a.name@)
    &&& fits_str(a.icon@)
    &&& fits_str(a.color@)
    &&& fits_str(a.host@)
    &&& fits_str(a.forward_to@)
    &&& fits_str(a.login@)
    &&& fits_str(a.password@)
    &&& fits_str(a.openpath@)
    &&& fits_roles(a.roles@)
}

/// Sameness of two apps by contents.
pub open spec fn eq_app_v(a: App, b: App) -> bool {
    &&& a.id == b.id
    &&& a.name@ == b.name@
    &&& a.icon@ == b.icon@
    &&& a.color@ == b.color@
    &&& a.is_proxy == b.is_proxy
    &&& a.host@ == b.host@
    &&& a.forward_to@ == b.forward_to@
    &&& a.secured == b.secured
    &&& a.login@ == b.login@
    &&& a.password@ == b.password@
    &&& a.openpath@ == b.openpath@
    &&& eq_roles_v(a.roles@, b.roles@)
}

/// Appends the serialized form of a app.
#[verifier::rlimit(100)]
#[verifier::spinoff_prover]
fn ser_app(out: &mut String, a: &App)
    ensures
        final(out)@ == old(out)@ + spec_ser_app(*a),
        fits_app(*a),
{
    ser_tag(out, "id=");
    ser_num(out, a.id as u64);
    proof {
        assert(out@ =~= old(out)@ + ("id="@ + spec_ser_num(a.id as int)));
    }
    ser_tag(out, "name=");
    ser_str(out, a.name.as_str());
    proof {
        assert(out@ =~= old(out)@ + ("id="@ + spec_ser_num(a.id as int) + "name="@ + spec_ser_str(a.name@)));
    }
    ser_tag(out, "icon=");
    ser_str(out, a.icon.as_str());
    proof {
        assert(out@ =~= old(out)@ + ("id="@ + spec_ser_num(a.id as int) + "name="@ + spec_ser_str(a.name@) + "icon="@ + spec_ser_str(a.icon@)));
    }
    ser_tag(out, "color=");
    ser_str(out, a.color.as_str());
    proof {
        assert(out@ =~= old(out)@ + ("id="@ + spec_ser_num(a.id as int) + "name="@ + spec_ser_str(a.name@) + "icon="@ + spec_ser_str(a.icon@) + "color="@ + spec_ser_str(a.color@)));
    }
    ser_tag(out, "is_proxy=");
    ser_bool(out, a.is_proxy);
    proof {
        assert(out@ =~= old(out)@ + ("id="@ + spec_ser_num(a.id as int) + "name="@ + spec_ser_str(a.name@) + "icon="@ + spec_ser_str(a.icon@) + "color="@ + spec_ser_str(a.color@) + "is_proxy="@ + spec_ser_bool(a.is_proxy)));
    }
    ser_tag(out, "host=");
    ser_str(out, a.host.as_str());
    proof {
        assert(out@ =~= old(out)@ + ("id="@ + spec_ser_num(a.id as int) + "name="@ + spec_ser_str(a.name@) + "icon="@ + spec_ser_str(a.icon@) + "color="@ + spec_ser_str(a.color@) + "is_proxy="@ + spec_ser_bool(a.is_proxy) + "host="@ + spec_ser_str(a.host@)));
    }
    ser_tag(out, "forward_to=");
    ser_str(out, a.forward_to.as_str());
    proof {
        assert(out@ =~= old(out)@ + ("id="@ + spec_ser_num(a.id as int) + "name="@ + spec_ser_str(a.name@) + "icon="@ + spec_ser_str(a.icon@) + "color="@ + spec_ser_str(a.color@) + "is_proxy="@ + spec_ser_bool(a.is_proxy) + "host="@ + spec_ser_str(a.host@) + "forward_to="@ + spec_ser_str(a.forward_to@)));
    }
    ser_tag(out, "secured=");
    ser_bool(out, a.secured);
    proof {
        assert(out@ =~= old(out)@ + ("id="@ + spec_ser_num(a.id as int) + "name="@ + spec_ser_str(a.name@) + "icon="@ + spec_ser_str(a.icon@) + "color="@ + spec_ser_str(a.color@) + "is_proxy="@ + spec_ser_bool(a.is_proxy) + "host="@ + spec_ser_str(a.host@) + "forward_to="@ + spec_ser_str(a.forward_to@) + "secured="@ + spec_ser_bool(a.secured)));
    }
    ser_tag(out, "login=");
    ser_str(out, a.login.as_str());
    proof {
        assert(out@ =~= old(out)@ + ("id="@ + spec_ser_num(a.id as int) + "name="@ + spec_ser_str(a.name@) + "icon="@ + spec_ser_str(a.icon@) + "color="@ + spec_ser_str(a.color@) + "is_proxy="@ + spec_ser_bool(a.is_proxy) + "host="@ + spec_ser_str(a.host@) + "forward_to="@ + spec_ser_str(a.forward_to@) + "secured="@ + spec_ser_bool(a.secured) + "login="@ + spec_ser_str(a.login@)));
    }
    ser_tag(out, "password=");
    ser_str(out, a.password.as_str());
    proof {
        assert(out@ =~= old(out)@ + ("id="@ + spec_ser_num(a.id as int) + "name="@ + spec_ser_str(a.name@) + "icon="@ + spec_ser_str(a.icon@) + "color="@ + spec_ser_str(a.color@) + "is_proxy="@ + spec_ser_bool(a.is_proxy) + "host="@ + spec_ser_str(a.host@) + "forward_to="@ + spec_ser_str(a.forward_to@) + "secured="@ + spec_ser_bool(a.secured) + "login="@ + spec_ser_str(a.login@) + "password="@ + spec_ser_str(a.password@)));
    }
    ser_tag(out, "openpath=");
    ser_str(out, a.openpath.as_str());
    proof {
        assert(out@ =~= old(out)@ + ("id="@ + spec_ser_num(a.id as int) + "name="@ + spec_ser_str(a.name@) + "icon="@ + spec_ser_str(a.icon@) + "color="@ + spec_ser_str(a.color@) + "is_proxy="@ + spec_ser_bool(a.is_proxy) + "host="@ + spec_ser_str(a.host@) + "forward_to="@ + spec_ser_str(a.forward_to@) + "secured="@ + spec_ser_bool(a.secured) + "login="@ + spec_ser_str(a.login@) + "password="@ + spec_ser_str(a.password@) + "openpath="@ + spec_ser_str(a.openpath@)));
    }
    ser_tag(out, "roles=");
    ser_roles(out, &a.roles);
    proof {
        assert(out@ =~= old(out)@ + ("id="@ + spec_ser_num(a.id as int) + "name="@ + spec_ser_str(a.name@) + "icon="@ + spec_ser_str(a.icon@) + "color="@ + spec_ser_str(a.color@) + "is_proxy="@ + spec_ser_bool(a.is_proxy) + "host="@ + spec_ser_str(a.host@) + "forward_to="@ + spec_ser_str(a.forward_to@) + "secured="@ + spec_ser_bool(a.secured) + "login="@ + spec_ser_str(a.login@) + "password="@ + spec_ser_str(a.password@) + "openpath="@ + spec_ser_str(a.openpath@) + "roles="@ + spec_ser_roles(a.roles@)));
    }
}

/// Whether this run of app fields is serialized at `pos` of `s`.
pub open spec fn app_part0_at(s: Seq<char>, pos: int, a: App, rest: Seq<char>) -> bool {
    &&& s.skip(pos) == "id="@ + spec_ser_num(a.id as int) + "name="@ + spec_ser_str(a.name@) + "icon="@ + spec_ser_str(a.icon@) + rest
    &&& fits_app(a)
    &&& 0 <= pos <= s.len()
}

/// Parses this run of app fields.
#[verifier::rlimit(100)]
#[verifier::spinoff_prover]
fn parse_app_part0_at(s: &str, pos: usize, n: usize) -> (r: Option<((u64, String, String), usize)>)
    requires
        pos <= s@.len(),
        n == s@.len(),
    ensures
        r matches Some(q) ==> pos <= q.1 <= s@.len(),
        forall|a: App, rest: Seq<char>|
            #[trigger] app_part0_at(s@, pos as int, a, rest) ==> (r matches Some(q)
                && q.0.0 == a.id as u64 && q.0.1@ == a.name@ && q.0.2@ == a.icon@
                && q.1 as int == pos as int + ("id="@ + spec_ser_num(a.id as int) + "name="@ + spec_ser_str(a.name@) + "icon="@ + spec_ser_str(a.icon@)).len()
                && s@.skip(q.1 as int) == rest),
{
    let ghost sv = s@;
    let ghost pos0 = pos as int;
    let r0 = parse_tag_at(s, pos, n, "id=");
    proof {
        assert forall|a: App, rest: Seq<char>|
            #[trigger] app_part0_at(sv, pos0, a, rest) implies (r0 matches Some(p2)
                && p2 as int == pos as int + ("id="@).len()
                && sv.skip(p2 as int) == spec_ser_num(a.id as int) + "name="@ + spec_ser_str(a.name@) + "icon="@ + spec_ser_str(a.icon@) + rest) by {
            assert(sv.skip(pos as int) =~= "id="@ + (spec_ser_num(a.id as int) + "name="@ + spec_ser_str(a.name@) + "icon="@ + spec_ser_str(a.icon@) + rest));
            assert(tag_at(sv, pos as int, "id="@, spec_ser_num(a.id as int) + "name="@ + spec_ser_str(a.name@) + "icon="@ + spec_ser_str(a.icon@) + rest));
        }
    }
    let p0 = match r0 {
        Some(p2) => p2,
        None => {
            proof {
                assert forall|a: App, rest: Seq<char>|
                    !app_part0_at(sv, pos0, a, rest) by {
                    if app_part0_at(sv, pos0, a, rest) {
                    }
                }
            }
            return None;
        },
    };
    let r1 = parse_num_at(s, p0, n);
    proof {
        assert forall|a: App, rest: Seq<char>|
            #[trigger] app_part0_at(sv, pos0, a, rest) implies (r1 matches Some(q)
                && q.0 == a.id as u64
                && q.1 as int == p0 as int + (spec_ser_num(a.id as int)).len()
                && sv.skip(q.1 as int) == "name="@ + spec_ser_str(a.name@) + "icon="@ + spec_ser_str(a.icon@) + rest) by {
            assert(sv.skip(p0 as int) =~= spec_ser_num(a.id as int) + ("name="@ + spec_ser_str(a.name@) + "icon="@ + spec_ser_str(a.icon@) + rest));
            assert((((a.id as u64)) as int) == a.id as int);
            assert(num_at(sv, p0 as int, (a.id as u64), "name="@ + spec_ser_str(a.name@) + "icon="@ + spec_ser_str(a.icon@) + rest));
        }
    }
    let (v0, p1) = match r1 {
        Some(q) => q,
        None => {
            proof {
                assert forall|a: App, rest: Seq<char>|
                    !app_part0_at(sv, pos0, a, rest) by {
                    if app_part0_at(sv, pos0, a, rest) {
                    }
                }
            }
            return None;
        },
    };
    let r2 = parse_tag_at(s, p1, n, "name=");
    proof {
        assert forall|a: App, rest: Seq<char>|
            #[trigger] app_part0_at(sv, pos0, a, rest) implies (r2 matches Some(p2)
                && p2 as int == p1 as int + ("name="@).len()
                && sv.skip(p2 as int) == spec_ser_str(a.name@) + "icon="@ + spec_ser_str(a.icon@) + rest) by {
            assert(sv.skip(p1 as int) =~= "name="@ + (spec_ser_str(a.name@) + "icon="@ + spec_ser_str(a.icon@) + rest));
            assert(tag_at(sv, p1 as int, "name="@, spec_ser_str(a.name@) + "icon="@ + spec_ser_str(a.icon@) + rest));
        }
    }
    let p2 = match r2 {
        Some(p2) => p2,
        None => {
            proof {
                assert forall|a: App, rest: Seq<char>|
                    !app_part0_at(sv, pos0, a, rest) by {
                    if app_part0_at(sv, pos0, a, rest) {
                    }
                }
            }
            return None;
        },
    };
    let r3 = parse_str_at(s, p2, n);
    proof {
        assert forall|a: App, rest: Seq<char>|
            #[trigger] app_part0_at(sv, pos0, a, rest) implies (r3 matches Some(q)
                && q.0@ == a.name@
                && q.1 as int == p2 as int + (spec_ser_str(a.name@)).len()
                && sv.skip(q.1 as int) == "icon="@ + spec_ser_str(a.icon@) + rest) by {
            assert(sv.skip(p2 as int) =~= spec_ser_str(a.name@) + ("icon="@ + spec_ser_str(a.icon@) + rest));
            assert(str_at(sv, p2 as int, a.name@, "icon="@ + spec_ser_str(a.icon@) + rest));
        }
    }
    let (v1, p3) = match r3 {
        Some(q) => q,
        None => {
            proof {
                assert forall|a: App, rest: Seq<char>|
                    !app_part0_at(sv, pos0, a, rest) by {
                    if app_part0_at(sv, pos0, a, rest) {
                    }
                }
            }
            return None;
        },
    };
    let r4 = parse_tag_at(s, p3, n, "icon=");
    proof {
        assert forall|a: App, rest: Seq<char>|
            #[trigger] app_part0_at(sv, pos0, a, rest) implies (r4 matches Some(p2)
                && p2 as int == p3 as int + ("icon="@).len()
                && sv.skip(p2 as int) == spec_ser_str(a.icon@) + rest) by {
            assert(sv.skip(p3 as int) =~= "icon="@ + (spec_ser_str(a.icon@) + rest));
            assert(tag_at(sv, p3 as int, "icon="@, spec_ser_str(a.icon@) + rest));
        }
    }
    let p4 = match r4 {
        Some(p2) => p2,
        None => {
            proof {
                assert forall|a: App, rest: Seq<char>|
                    !app_part0_at(sv, pos0, a, rest) by {
                    if app_part0_at(sv, pos0, a, rest) {
                    }
                }
            }
            return None;
        },
    };
    let r5 = parse_str_at(s, p4, n);
    proof {
        assert forall|a: App, rest: Seq<char>|
            #[trigger] app_part0_at(sv, pos0, a, rest) implies (r5 matches Some(q)
                && q.0@ == a.icon@
                && q.1 as int == p4 as int + (spec_ser_str(a.icon@)).len()
                && sv.skip(q.1 as int) == Seq::<char>::empty() + rest) by {
            assert(sv.skip(p4 as int) =~= spec_ser_str(a.icon@) + (Seq::<char>::empty() + rest));
            assert(str_at(sv, p4 as int, a.icon@, Seq::<char>::empty() + rest));
        }
    }
    let (v2, p5) = match r5 {
        Some(q) => q,
        None => {
            proof {
                assert forall|a: App, rest: Seq<char>|
                    !app_part0_at(sv, pos0, a, rest) by {
                    if app_part0_at(sv, pos0, a, rest) {
                    }
                }
            }
            return None;
        },
    };
    Some(((v0, v1, v2), p5))
}

/// Whether this run of app fields is serialized at `pos` of `s`.
pub open spec fn app_part1_at(s: Seq<char>, pos: int, a: App, rest: Seq<char>) -> bool {
    &&& s.skip(pos) == "color="@ + spec_ser_str(a.color@) + "is_proxy="@ + spec_ser_bool(a.is_proxy) + "host="@ + spec_ser_str(a.host@) + rest
    &&& fits_app(a)
    &&& 0 <= pos <= s.len()
}

/// Parses this run of app fields.
#[verifier::rlimit(100)]
#[verifier::spinoff_prover]
fn parse_app_part1_at(s: &str, pos: usize, n: usize) -> (r: Option<((String, bool, String), usize)>)
    requires
        pos <= s@.len(),
        n == s@.len(),
    ensures
        r matches Some(q) ==> pos <= q.1 <= s@.len(),
        forall|a: App, rest: Seq<char>|
            #[trigger] app_part1_at(s@, pos as int, a, rest) ==> (r matches Some(q)
                && q.0.0@ == a.color@ && q.0.1 == a.is_proxy && q.0.2@ == a.host@
                && q.1 as int == pos as int + ("color="@ + spec_ser_str(a.color@) + "is_proxy="@ + spec_ser_bool(a.is_proxy) + "host="@ + spec_ser_str(a.host@)).len()
                && s@.skip(q.1 as int) == rest),
{
    let ghost sv = s@;
    let ghost pos0 = pos as int;
    let r0 = parse_tag_at(s, pos, n, "color=");
    proof {
        assert forall|a: App, rest: Seq<char>|
            #[trigger] app_part1_at(sv, pos0, a, rest) implies (r0 matches Some(p2)
                && p2 as int == pos as int + ("color="@).len()
                && sv.skip(p2 as int) == spec_ser_str(a.color@) + "is_proxy="@ + spec_ser_bool(a.is_proxy) + "host="@ + spec_ser_str(a.host@) + rest) by {
            assert(sv.skip(pos as int) =~= "color="@ + (spec_ser_str(a.color@) + "is_proxy="@ + spec_ser_bool(a.is_proxy) + "host="@ + spec_ser_str(a.host@) + rest));
            assert(tag_at(sv, pos as int, "color="@, spec_ser_str(a.color@) + "is_proxy="@ + spec_ser_bool(a.is_proxy) + "host="@ + spec_ser_str(a.host@) + rest));
        }
    }
    let p0 = match r0 {
        Some(p2) => p2,
        None => {
            proof {
                assert forall|a: App, rest: Seq<char>|
                    !app_part1_at(sv, pos0, a, rest) by {
                    if app_part1_at(sv, pos0, a, rest) {
                    }
                }
            }
            return None;
        },
    };
    let r1 = parse_str_at(s, p0, n);
    proof {
        assert forall|a: App, rest: Seq<char>|
            #[trigger] app_part1_at(sv, pos0, a, rest) implies (r1 matches Some(q)
                && q.0@ == a.color@
                && q.1 as int == p0 as int + (spec_ser_str(a.color@)).len()
                && sv.skip(q.1 as int) == "is_proxy="@ + spec_ser_bool(a.is_proxy) + "host="@ + spec_ser_str(a.host@) + rest) by {
            assert(sv.skip(p0 as int) =~= spec_ser_str(a.color@) + ("is_proxy="@ + spec_ser_bool(a.is_proxy) + "host="@ + spec_ser_str(a.host@) + rest));
            assert(str_at(sv, p0 as int, a.color@, "is_proxy="@ + spec_ser_bool(a.is_proxy) + "host="@ + spec_ser_str(a.host@) + rest));
        }
    }
    let (v0, p1) = match r1 {
        Some(q) => q,
        None => {
            proof {
                assert forall|a: App, rest: Seq<char>|
                    !app_part1_at(sv, pos0, a, rest) by {
                    if app_part1_at(sv, pos0, a, rest) {
                    }
                }
            }
            return None;
        },
    };
    let r2 = parse_tag_at(s, p1, n, "is_proxy=");
    proof {
        assert forall|a: App, rest: Seq<char>|
            #[trigger] app_part1_at(sv, pos0, a, rest) implies (r2 matches Some(p2)
                && p2 as int == p1 as int + ("is_proxy="@).len()
                && sv.skip(p2 as int) == spec_ser_bool(a.is_proxy) + "host="@ + spec_ser_str(a.host@) + rest) by {
            assert(sv.skip(p1 as int) =~= "is_proxy="@ + (spec_ser_bool(a.is_proxy) + "host="@ + spec_ser_str(a.host@) + rest));
            assert(tag_at(sv, p1 as int, "is_proxy="@, spec_ser_bool(a.is_proxy) + "host="@ + spec_ser_str(a.host@) + rest));
        }
    }
    let p2 = match r2 {
        Some(p2) => p2,
        None => {
            proof {
                assert forall|a: App, rest: Seq<char>|
                    !app_part1_at(sv, pos0, a, rest) by {
                    if app_part1_at(sv, pos0, a, rest) {
                    }
                }
            }
            return None;
        },
    };
    let r3 = parse_bool_at(s, p2, n);
    proof {
        assert forall|a: App, rest: Seq<char>|
            #[trigger] app_part1_at(sv, pos0, a, rest) implies (r3 matches Some(q)
                && q.0 == a.is_proxy
                && q.1 as int == p2 as int + (spec_ser_bool(a.is_proxy)).len()
                && sv.skip(q.1 as int) == "host="@ + spec_ser_str(a.host@) + rest) by {
            assert(sv.skip(p2 as int) =~= spec_ser_bool(a.is_proxy) + ("host="@ + spec_ser_str(a.host@) + rest));
            assert(bool_at(sv, p2 as int, a.is_proxy, "host="@ + spec_ser_str(a.host@) + rest));
        }
    }
    let (v1, p3) = match r3 {
        Some(q) => q,
        None => {
            proof {
                assert forall|a: App, rest: Seq<char>|
                    !app_part1_at(sv, pos0, a, rest) by {
                    if app_part1_at(sv, pos0, a, rest) {
                    }
                }
            }
            return None;
        },
    };
    let r4 = parse_tag_at(s, p3, n, "host=");
    proof {
        assert forall|a: App, rest: Seq<char>|
            #[trigger] app_part1_at(sv, pos0, a, rest) implies (r4 matches Some(p2)
                && p2 as int == p3 as int + ("host="@).len()
                && sv.skip(p2 as int) == spec_ser_str(a.host@) + rest) by {
            assert(sv.skip(p3 as int) =~= "host="@ + (spec_ser_str(a.host@) + rest));
            assert(tag_at(sv, p3 as int, "host="@, spec_ser_str(a.host@) + rest));
        }
    }
    let p4 = match r4 {
        Some(p2) => p2,
        None => {
            proof {
                assert forall|a: App, rest: Seq<char>|
                    !app_part1_at(sv, pos0, a, rest) by {
                    if app_part1_at(sv, pos0, a, rest) {
                    }
                }
            }
            return None;
        },
    };
    let r5 = parse_str_at(s, p4, n);
    proof {
        assert forall|a: App, rest: Seq<char>|
            #[trigger] app_part1_at(sv, pos0, a, rest) implies (r5 matches Some(q)
                && q.0@ == a.host@
                && q.1 as int == p4 as int + (spec_ser_str(a.host@)).len()
                && sv.skip(q.1 as int) == Seq::<char>::empty() + rest) by {
            assert(sv.skip(p4 as int) =~= spec_ser_str(a.host@) + (Seq::<char>::empty() + rest));
            assert(str_at(sv, p4 as int, a.host@, Seq::<char>::empty() + rest));
        }
    }
    let (v2, p5) = match r5 {
        Some(q) => q,
        None => {
            proof {
                assert forall|a: App, rest: Seq<char>|
                    !app_part1_at(sv, pos0, a, rest) by {
                    if app_part1_at(sv, pos0, a, rest) {
                    }
                }
            }
            return None;
        },
    };
    Some(((v0, v1, v2), p5))
}

/// Whether this run of app fields is serialized at `pos` of `s`.
pub open spec fn app_part2_at(s: Seq<char>, pos: int, a: App, rest: Seq<char>) -> bool {
    &&& s.skip(pos) == "forward_to="@ + spec_ser_str(a.forward_to@) + "secured="@ + spec_ser_bool(a.secured) + "login="@ + spec_ser_str(a.login@) + rest
    &&& fits_app(a)
    &&& 0 <= pos <= s.len()
}

/// Parses this run of app fields.
#[verifier::rlimit(100)]
#[verifier::spinoff_prover]
fn parse_app_part2_at(s: &str, pos: usize, n: usize) -> (r: Option<((String, bool, String), usize)>)
    requires
        pos <= s@.len(),
        n == s@.len(),
    ensures
        r matches Some(q) ==> pos <= q.1 <= s@.len(),
        forall|a: App, rest: Seq<char>|
            #[trigger] app_part2_at(s@, pos as int, a, rest) ==> (r matches Some(q)
                && q.0.0@ == a.forward_to@ && q.0.1 == a.secured && q.0.2@ == a.login@
                && q.1 as int == pos as int + ("forward_to="@ + spec_ser_str(a.forward_to@) + "secured="@ + spec_ser_bool(a.secured) + "login="@ + spec_ser_str(a.login@)).len()
                && s@.skip(q.1 as int) == rest),
{
    let ghost sv = s@;
    let ghost pos0 = pos as int;
    let r0 = parse_tag_at(s, pos, n, "forward_to=");
    proof {
        assert forall|a: App, rest: Seq<char>|
            #[trigger] app_part2_at(sv, pos0, a, rest) implies (r0 matches Some(p2)
                && p2 as int == pos as int + ("forward_to="@).len()
                && sv.skip(p2 as int) == spec_ser_str(a.forward_to@) + "secured="@ + spec_ser_bool(a.secured) + "login="@ + spec_ser_str(a.login@) + rest) by {
            assert(sv.skip(pos as int) =~= "forward_to="@ + (spec_ser_str(a.forward_to@) + "secured="@ + spec_ser_bool(a.secured) + "login="@ + spec_ser_str(a.login@) + rest));
            assert(tag_at(sv, pos as int, "forward_to="@, spec_ser_str(a.forward_to@) + "secured="@ + spec_ser_bool(a.secured) + "login="@ + spec_ser_str(a.login@) + rest));
        }
    }
    let p0 = match r0 {
        Some(p2) => p2,
        None => {
            proof {
                assert forall|a: App, rest: Seq<char>|
                    !app_part2_at(sv, pos0, a, rest) by {
                    if app_part2_at(sv, pos0, a, rest) {
                    }
                }
            }
            return None;
        },
    };
    let r1 = parse_str_at(s, p0, n);
    proof {
        assert forall|a: App, rest: Seq<char>|
            #[trigger] app_part2_at(sv, pos0, a, rest) implies (r1 matches Some(q)
                && q.0@ == a.forward_to@
                && q.1 as int == p0 as int + (spec_ser_str(a.forward_to@)).len()
                && sv.skip(q.1 as int) == "secured="@ + spec_ser_bool(a.secured) + "login="@ + spec_ser_str(a.login@) + rest) by {
            assert(sv.skip(p0 as int) =~= spec_ser_str(a.forward_to@) + ("secured="@ + spec_ser_bool(a.secured) + "login="@ + spec_ser_str(a.login@) + rest));
            assert(str_at(sv, p0 as int, a.forward_to@, "secured="@ + spec_ser_bool(a.secured) + "login="@ + spec_ser_str(a.login@) + rest));
        }
    }
    let (v0, p1) = match r1 {
        Some(q) => q,
        None => {
            proof {
                assert forall|a: App, rest: Seq<char>|
                    !app_part2_at(sv, pos0, a, rest) by {
                    if app_part2_at(sv, pos0, a, rest) {
                    }
                }
            }
            return None;
        },
    };
    let r2 = parse_tag_at(s, p1, n, "secured=");
    proof {
        assert forall|a: App, rest: Seq<char>|
            #[trigger] app_part2_at(sv, pos0, a, rest) implies (r2 matches Some(p2)
                && p2 as int == p1 as int + ("secured="@).len()
                && sv.skip(p2 as int) == spec_ser_bool(a.secured) + "login="@ + spec_ser_str(a.login@) + rest) by {
            assert(sv.skip(p1 as int) =~= "secured="@ + (spec_ser_bool(a.secured) + "login="@ + spec_ser_str(a.login@) + rest));
            assert(tag_at(sv, p1 as int, "secured="@, spec_ser_bool(a.secured) + "login="@ + spec_ser_str(a.login@) + rest));
        }
    }
    let p2 = match r2 {
        Some(p2) => p2,
        None => {
            proof {
                assert forall|a: App, rest: Seq<char>|
                    !app_part2_at(sv, pos0, a, rest) by {
                    if app_part2_at(sv, pos0, a, rest) {
                    }
                }
            }
            return None;
        },
    };
    let r3 = parse_bool_at(s, p2, n);
    proof {
        assert forall|a: App, rest: Seq<char>|
            #[trigger] app_part2_at(sv, pos0, a, rest) implies (r3 matches Some(q)
                && q.0 == a.secured
                && q.1 as int == p2 as int + (spec_ser_bool(a.secured)).len()
                && sv.skip(q.1 as int) == "login="@ + spec_ser_str(a.login@) + rest) by {
            assert(sv.skip(p2 as int) =~= spec_ser_bool(a.secured) + ("login="@ + spec_ser_str(a.login@) + rest));
            assert(bool_at(sv, p2 as int, a.secured, "login="@ + spec_ser_str(a.login@) + rest));
        }
    }
    let (v1, p3) = match r3 {
        Some(q) => q,
        None => {
            proof {
                assert forall|a: App, rest: Seq<char>|
                    !app_part2_at(sv, pos0, a, rest) by {
                    if app_part2_at(sv, pos0, a, rest) {
                    }
                }
            }
            return None;
        },
    };
    let r4 = parse_tag_at(s, p3, n, "login=");
    proof {
        assert forall|a: App, rest: Seq<char>|
            #[trigger] app_part2_at(sv, pos0, a, rest) implies (r4 matches Some(p2)
                && p2 as int == p3 as int + ("login="@).len()
                && sv.skip(p2 as int) == spec_ser_str(a.login@) + rest) by {
            assert(sv.skip(p3 as int) =~= "login="@ + (spec_ser_str(a.login@) + rest));
            assert(tag_at(sv, p3 as int, "login="@, spec_ser_str(a.login@) + rest));
        }
    }
    let p4 = match r4 {
        Some(p2) => p2,
        None => {
            proof {
                assert forall|a: App, rest: Seq<char>|
                    !app_part2_at(sv, pos0, a, rest) by {
                    if app_part2_at(sv, pos0, a, rest) {
                    }
                }
            }
            return None;
        },
    };
    let r5 = parse_str_at(s, p4, n);
    proof {
        assert forall|a: App, rest: Seq<char>|
            #[trigger] app_part2_at(sv, pos0, a, rest) implies (r5 matches Some(q)
                && q.0@ == a.login@
                && q.1 as int == p4 as int + (spec_ser_str(a.login@)).len()
                && sv.skip(q.1 as int) == Seq::<char>::empty() + rest) by {
            assert(sv.skip(p4 as int) =~= spec_ser_str(a.login@) + (Seq::<char>::empty() + rest));
            assert(str_at(sv, p4 as int, a.login@, Seq::<char>::empty() + rest));
        }
    }
    let (v2, p5) = match r5 {
        Some(q) => q,
        None => {
            proof {
                assert forall|a: App, rest: Seq<char>|
                    !app_part2_at(sv, pos0, a, rest) by {
                    if app_part2_at(sv, pos0, a, rest) {
                    }
                }
            }
            return None;
        },
    };
    Some(((v0, v1, v2), p5))
}

/// Whether this run of app fields is serialized at `pos` of `s`.
pub open spec fn app_part3_at(s: Seq<char>, pos: int, a: App, rest: Seq<char>) -> bool {
    &&& s.skip(pos) == "password="@ + spec_ser_str(a.password@) + "openpath="@ + spec_ser_str(a.openpath@) + "roles="@ + spec_ser_roles(a.roles@) + rest
    &&& fits_app(a)
    &&& 0 <= pos <= s.len()
}

/// Parses this run of app fields.
#[verifier::rlimit(100)]
#[verifier::spinoff_prover]
fn parse_app_part3_at(s: &str, pos: usize, n: usize) -> (r: Option<((String, String, Vec<String>), usize)>)
    requires
        pos <= s@.len(),
        n == s@.len(),
    ensures
        r matches Some(q) ==> pos <= q.1 <= s@.len(),
        forall|a: App, rest: Seq<char>|
            #[trigger] app_part3_at(s@, pos as int, a, rest) ==> (r matches Some(q)
                && q.0.0@ == a.password@ && q.0.1@ == a.openpath@ && eq_roles_v(q.0.2@, a.roles@)
                && q.1 as int == pos as int + ("password="@ + spec_ser_str(a.password@) + "openpath="@ + spec_ser_str(a.openpath@) + "roles="@ + spec_ser_roles(a.roles@)).len()
                && s@.skip(q.1 as int) == rest),
{
    let ghost sv = s@;
    let ghost pos0 = pos as int;
    let r0 = parse_tag_at(s, pos, n, "password=");
    proof {
        assert forall|a: App, rest: Seq<char>|
            #[trigger] app_part3_at(sv, pos0, a, rest) implies (r0 matches Some(p2)
                && p2 as int == pos as int + ("password="@).len()
                && sv.skip(p2 as int) == spec_ser_str(a.password@) + "openpath="@ + spec_ser_str(a.openpath@) + "roles="@ + spec_ser_roles(a.roles@) + rest) by {
            assert(sv.skip(pos as int) =~= "password="@ + (spec_ser_str(a.password@) + "openpath="@ + spec_ser_str(a.openpath@) + "roles="@ + spec_ser_roles(a.roles@) + rest));
            assert(tag_at(sv, pos as int, "password="@, spec_ser_str(a.password@) + "openpath="@ + spec_ser_str(a.openpath@) + "roles="@ + spec_ser_roles(a.roles@) + rest));
        }
    }
    let p0 = match r0 {
        Some(p2) => p2,
        None => {
            proof {
                assert forall|a: App, rest: Seq<char>|
                    !app_part3_at(sv, pos0, a, rest) by {
                    if app_part3_at(sv, pos0, a, rest) {
                    }
                }
            }
            return None;
        },
    };
    let r1 = parse_str_at(s, p0, n);
    proof {
        assert forall|a: App, rest: Seq<char>|
            #[trigger] app_part3_at(sv, pos0, a, rest) implies (r1 matches Some(q)
                && q.0@ == a.password@
                && q.1 as int == p0 as int + (spec_ser_str(a.password@)).len()
                && sv.skip(q.1 as int) == "openpath="@ + spec_ser_str(a.openpath@) + "roles="@ + spec_ser_roles(a.roles@) + rest) by {
            assert(sv.skip(p0 as int) =~= spec_ser_str(a.password@) + ("openpath="@ + spec_ser_str(a.openpath@) + "roles="@ + spec_ser_roles(a.roles@) + rest));
            assert(str_at(sv, p0 as int, a.password@, "openpath="@ + spec_ser_str(a.openpath@) + "roles="@ + spec_ser_roles(a.roles@) + rest));
        }
    }
    let (v0, p1) = match r1 {
        Some(q) => q,
        None => {
            proof {
                assert forall|a: App, rest: Seq<char>|
                    !app_part3_at(sv, pos0, a, rest) by {
                    if app_part3_at(sv, pos0, a, rest) {
                    }
                }
            }
            return None;
        },
    };
    let r2 = parse_tag_at(s, p1, n, "openpath=");
    proof {
        assert forall|a: App, rest: Seq<char>|
            #[trigger] app_part3_at(sv, pos0, a, rest) implies (r2 matches Some(p2)
                && p2 as int == p1 as int + ("openpath="@).len()
                && sv.skip(p2 as int) == spec_ser_str(a.openpath@) + "roles="@ + spec_ser_roles(a.roles@) + rest) by {
            assert(sv.skip(p1 as int) =~= "openpath="@ + (spec_ser_str(a.openpath@) + "roles="@ + spec_ser_roles(a.roles@) + rest));
            assert(tag_at(sv, p1 as int, "openpath="@, spec_ser_str(a.openpath@) + "roles="@ + spec_ser_roles(a.roles@) + rest));
        }
    }
    let p2 = match r2 {
        Some(p2) => p2,
        None => {
            proof {
                assert forall|a: App, rest: Seq<char>|
                    !app_part3_at(sv, pos0, a, rest) by {
                    if app_part3_at(sv, pos0, a, rest) {
                    }
                }
            }
            return None;
        },
    };
    let r3 = parse_str_at(s, p2, n);
    proof {
        assert forall|a: App, rest: Seq<char>|
            #[trigger] app_part3_at(sv, pos0, a, rest) implies (r3 matches Some(q)
                && q.0@ == a.openpath@
                && q.1 as int == p2 as int + (spec_ser_str(a.openpath@)).len()
                && sv.skip(q.1 as int) == "roles="@ + spec_ser_roles(a.roles@) + rest) by {
            assert(sv.skip(p2 as int) =~= spec_ser_str(a.openpath@) + ("roles="@ + spec_ser_roles(a.roles@) + rest));
            assert(str_at(sv, p2 as int, a.openpath@, "roles="@ + spec_ser_roles(a.roles@) + rest));
        }
    }
    let (v1, p3) = match r3 {
        Some(q) => q,
        None => {
            proof {
                assert forall|a: App, rest: Seq<char>|
                    !app_part3_at(sv, pos0, a, rest) by {
                    if app_part3_at(sv, pos0, a, rest) {
                    }
                }
            }
            return None;
        },
    };
    let r4 = parse_tag_at(s, p3, n, "roles=");
    proof {
        assert forall|a: App, rest: Seq<char>|
            #[trigger] app_part3_at(sv, pos0, a, rest) implies (r4 matches Some(p2)
                && p2 as int == p3 as int + ("roles="@).len()
                && sv.skip(p2 as int) == spec_ser_roles(a.roles@) + rest) by {
            assert(sv.skip(p3 as int) =~= "roles="@ + (spec_ser_roles(a.roles@) + rest));
            assert(tag_at(sv, p3 as int, "roles="@, spec_ser_roles(a.roles@) + rest));
        }
    }
    let p4 = match r4 {
        Some(p2) => p2,
        None => {
            proof {
                assert forall|a: App, rest: Seq<char>|
                    !app_part3_at(sv, pos0, a, rest) by {
                    if app_part3_at(sv, pos0, a, rest) {
                    }
                }
            }
            return None;
        },
    };
    let r5 = parse_roles_at(s, p4, n);
    proof {
        assert forall|a: App, rest: Seq<char>|
            #[trigger] app_part3_at(sv, pos0, a, rest) implies (r5 matches Some(q)
                && eq_roles_v(q.0@, a.roles@)
                && q.1 as int == p4 as int + (spec_ser_roles(a.roles@)).len()
                && sv.skip(q.1 as int) == Seq::<char>::empty() + rest) by {
            assert(sv.skip(p4 as int) =~= spec_ser_roles(a.roles@) + (Seq::<char>::empty() + rest));
            assert(roles_at(sv, p4 as int, a.roles@, Seq::<char>::empty() + rest));
        }
    }
    let (v2, p5) = match r5 {
        Some(q) => q,
        None => {
            proof {
                assert forall|a: App, rest: Seq<char>|
                    !app_part3_at(sv, pos0, a, rest) by {
                    if app_part3_at(sv, pos0, a, rest) {
                    }
                }
            }
            return None;
        },
    };
    Some(((v0, v1, v2), p5))
}

/// Parses a app. On any text that serializes a app at `pos`, it returns a
/// app with the same contents and stops exactly past it.
#[verifier::rlimit(100)]
#[verifier::spinoff_prover]
fn parse_app_at(s: &str, pos: usize, n: usize) -> (r: Option<(App, usize)>)
    requires
        pos <= s@.len(),
        n == s@.len(),
    ensures
        r matches Some(q) ==> pos <= q.1 <= s@.len(),
        forall|a: App, rest: Seq<char>|
            #[trigger] app_at(s@, pos as int, a, rest) ==> (r matches Some(q)
                && eq_app_v(q.0, a) && q.1 as int == pos as int + spec_ser_app(a).len()
                && s@.skip(q.1 as int) == rest),
{
    let ghost sv = s@;
    let r0 = parse_app_part0_at(s, pos, n);
    proof {
        assert forall|a: App, rest: Seq<char>|
            #[trigger] app_at(sv, pos as int, a, rest) implies app_part0_at(
            sv,
            pos as int,
            a,
            (("color="@ + spec_ser_str(a.color@) + "is_proxy="@ + spec_ser_bool(a.is_proxy) + "host="@ + spec_ser_str(a.host@)) + ("forward_to="@ + spec_ser_str(a.forward_to@) + "secured="@ + spec_ser_bool(a.secured) + "login="@ + spec_ser_str(a.login@)) + ("password="@ + spec_ser_str(a.password@) + "openpath="@ + spec_ser_str(a.openpath@) + "roles="@ + spec_ser_roles(a.roles@))) + rest,
        ) by {
            assert(sv.skip(pos as int) =~= ("id="@ + spec_ser_num(a.id as int) + "name="@ + spec_ser_str(a.name@) + "icon="@ + spec_ser_str(a.icon@)) + ((("color="@ + spec_ser_str(a.color@) + "is_proxy="@ + spec_ser_bool(a.is_proxy) + "host="@ + spec_ser_str(a.host@)) + ("forward_to="@ + spec_ser_str(a.forward_to@) + "secured="@ + spec_ser_bool(a.secured) + "login="@ + spec_ser_str(a.login@)) + ("password="@ + spec_ser_str(a.password@) + "openpath="@ + spec_ser_str(a.openpath@) + "roles="@ + spec_ser_roles(a.roles@))) + rest));
        }
    }
    let (t0, pm0) = match r0 {
        Some(q) => q,
        None => {
            proof {
                assert forall|a: App, rest: Seq<char>|
                    !app_at(sv, pos as int, a, rest) by {
                    if app_at(sv, pos as int, a, rest) {
                    }
                }
            }
            return None;
        },
    };
    let r1 = parse_app_part1_at(s, pm0, n);
    proof {
        assert forall|a: App, rest: Seq<char>|
            #[trigger] app_at(sv, pos as int, a, rest) implies app_part1_at(
            sv,
            pm0 as int,
            a,
            (("forward_to="@ + spec_ser_str(a.forward_to@) + "secured="@ + spec_ser_bool(a.secured) + "login="@ + spec_ser_str(a.login@)) + ("password="@ + spec_ser_str(a.password@) + "openpath="@ + spec_ser_str(a.openpath@) + "roles="@ + spec_ser_roles(a.roles@))) + rest,
        ) by {
            assert(sv.skip(pm0 as int) =~= ("color="@ + spec_ser_str(a.color@) + "is_proxy="@ + spec_ser_bool(a.is_proxy) + "host="@ + spec_ser_str(a.host@)) + ((("forward_to="@ + spec_ser_str(a.forward_to@) + "secured="@ + spec_ser_bool(a.secured) + "login="@ + spec_ser_str(a.login@)) + ("password="@ + spec_ser_str(a.password@) + "openpath="@ + spec_ser_str(a.openpath@) + "roles="@ + spec_ser_roles(a.roles@))) + rest));
        }
    }
    let (t1, pm1) = match r1 {
        Some(q) => q,
        None => {
            proof {
                assert forall|a: App, rest: Seq<char>|
                    !app_at(sv, pos as int, a, rest) by {
                    if app_at(sv, pos as int, a, rest) {
                    }
                }
            }
            return None;
        },
    };
    let r2 = parse_app_part2_at(s, pm1, n);
    proof {
        assert forall|a: App, rest: Seq<char>|
            #[trigger] app_at(sv, pos as int, a, rest) implies app_part2_at(
            sv,
            pm1 as int,
            a,
            (("password="@ + spec_ser_str(a.password@) + "openpath="@ + spec_ser_str(a.openpath@) + "roles="@ + spec_ser_roles(a.roles@))) + rest,
        ) by {
            assert(sv.skip(pm1 as int) =~= ("forward_to="@ + spec_ser_str(a.forward_to@) + "secured="@ + spec_ser_bool(a.secured) + "login="@ + spec_ser_str(a.login@)) + ((("password="@ + spec_ser_str(a.password@) + "openpath="@ + spec_ser_str(a.openpath@) + "roles="@ + spec_ser_roles(a.roles@))) + rest));
        }
    }
    let (t2, pm2) = match r2 {
        Some(q) => q,
        None => {
            proof {
                assert forall|a: App, rest: Seq<char>|
                    !app_at(sv, pos as int, a, rest) by {
                    if app_at(sv, pos as int, a, rest) {
                    }
                }
            }
            return None;
        },
    };
    let r3 = parse_app_part3_at(s, pm2, n);
    proof {
        assert forall|a: App, rest: Seq<char>|
            #[trigger] app_at(sv, pos as int, a, rest) implies app_part3_at(
            sv,
            pm2 as int,
            a,
            rest,
        ) by {
            assert(sv.skip(pm2 as int) =~= ("password="@ + spec_ser_str(a.password@) + "openpath="@ + spec_ser_str(a.openpath@) + "roles="@ + spec_ser_roles(a.roles@)) + rest);
        }
    }
    let (t3, pm3) = match r3 {
        Some(q) => q,
        None => {
            proof {
                assert forall|a: App, rest: Seq<char>|
                    !app_at(sv, pos as int, a, rest) by {
                    if app_at(sv, pos as int, a, rest) {
                    }
                }
            }
            return None;
        },
    };
    if t0.0 > usize::MAX as u64 {
        proof {
            assert forall|a: App, rest: Seq<char>|
                !app_at(sv, pos as int, a, rest) by {
                if app_at(sv, pos as int, a, rest) {
                }
            }
        }
        return None;
    }
    let built = App { id: t0.0 as usize, name: t0.1, icon: t0.2, color: t1.0, is_proxy: t1.1, host: t1.2, forward_to: t2.0, secured: t2.1, login: t2.2, password: t3.0, openpath: t3.1, roles: t3.2 };
    proof {
        assert forall|a: App, rest: Seq<char>|
            #[trigger] app_at(sv, pos as int, a, rest) implies (eq_app_v(built, a)
                && pm3 as int == pos as int + spec_ser_app(a).len()) by {
            assert((spec_ser_app(a)).len() == ("id="@ + spec_ser_num(a.id as int) + "name="@ + spec_ser_str(a.name@) + "icon="@ + spec_ser_str(a.icon@) + "color="@ + spec_ser_str(a.color@) + "is_proxy="@ + spec_ser_bool(a.is_proxy) + "host="@ + spec_ser_str(a.host@) + "forward_to="@ + spec_ser_str(a.forward_to@) + "secured="@ + spec_ser_bool(a.secured) + "login="@ + spec_ser_str(a.login@) + "password="@ + spec_ser_str(a.password@) + "openpath="@ + spec_ser_str(a.openpath@) + "roles="@ + spec_ser_roles(a.roles@)).len());
        }
    }
    Some((built, pm3))
}

/// Whether a app is serialized at `pos` of `s`, followed by `rest`.
pub open spec fn app_at(s: Seq<char>, pos: int, a: App, rest: Seq<char>) -> bool {
    &&& s.skip(pos) == spec_ser_app(a) + rest
    &&& fits_app(a)
    &&& 0 <= pos <= s.len()
}

/// The serialized app entries, one after the other.
pub open spec fn spec_ser_app_list(items: Seq<App>) -> Seq<char>
    decreases items.len(),
{
    if items.len() == 0 {
        Seq::<char>::empty()
    } else {
        spec_ser_app(items[0]) + spec_ser_app_list(items.skip(1))
    }
}

/// The serialized form of a app list: its length, then the entries.
pub open spec fn spec_ser_apps(items: Seq<App>) -> Seq<char> {
    spec_ser_num(items.len() as int) + spec_ser_app_list(items)
}

/// Whether a app list's texts fit the length prefixes.
pub open spec fn fits_apps(items: Seq<App>) -> bool {
    &&& items.len() <= u64::MAX
    &&& forall|i: int| 0 <= i < items.len() ==> fits_app(#[trigger] items[i])
}

/// Sameness of two app lists by contents.
pub open spec fn eq_apps_v(a: Seq<App>, b: Seq<App>) -> bool {
    &&& a.len() == b.len()
    &&& forall|i: int| 0 <= i < a.len() ==> eq_app_v(#[trigger] a[i], b[i])
}

/// Whether a app list is serialized at `pos` of `s`, followed by `rest`.
pub open spec fn apps_at(s: Seq<char>, pos: int, items: Seq<App>, rest: Seq<char>) -> bool {
    &&& s.skip(pos) == spec_ser_apps(items) + rest
    &&& fits_apps(items)
    &&& 0 <= pos <= s.len()
}

/// A app list prefix extended by one entry.
#[verifier::rlimit(100)]
#[verifier::spinoff_prover]
proof fn lemma_ser_app_list_snoc(items: Seq<App>, k: int)
    requires
        0 <= k < items.len(),
    ensures
        spec_ser_app_list(items.take(k + 1)) == spec_ser_app_list(items.take(k)) + spec_ser_app(
            items[k],
        ),
    decreases k,
{
    if k == 0 {
        assert(items.take(1).skip(1) =~= Seq::<App>::empty());
        assert(items.take(0) =~= Seq::<App>::empty());
        assert(spec_ser_app_list(Seq::<App>::empty()) == Seq::<char>::empty());
        assert(items.take(1)[0] == items[0]);
        assert(spec_ser_app_list(items.take(1)) =~= spec_ser_app(items[0]));
        assert(spec_ser_app_list(items.take(0)) + spec_ser_app(items[0]) =~= spec_ser_app(
            items[0],
        ));
    } else {
        lemma_ser_app_list_snoc(items.skip(1), k - 1);
        assert(items.take(k + 1).skip(1) =~= items.skip(1).take(k));
        assert(items.take(k).skip(1) =~= items.skip(1).take(k - 1));
        assert(items.take(k + 1)[0] == items[0]);
        assert(items.take(k)[0] == items[0]);
        assert(items.skip(1)[k - 1] == items[k]);
        assert(spec_ser_app(items[0]) + (spec_ser_app_list(items.skip(1).take(k - 1))
            + spec_ser_app(items[k])) =~= (spec_ser_app(items[0]) + spec_ser_app_list(
            items.skip(1).take(k - 1),
        )) + spec_ser_app(items[k]));
    }
}

/// Appends a serialized app list.
#[verifier::rlimit(100)]
#[verifier::spinoff_prover]
fn ser_apps(out: &mut String, items: &Vec<App>)
    ensures
        final(out)@ == old(out)@ + spec_ser_apps(items@),
        fits_apps(items@),
{
    ser_num(out, items.len() as u64);
    let ghost base = out@;
    let mut k: usize = 0;
    proof {
        assert(items@.take(0) =~= Seq::<App>::empty());
        assert(spec_ser_app_list(Seq::<App>::empty()) == Seq::<char>::empty());
        assert(base + spec_ser_app_list(items@.take(0)) =~= base);
    }
    while k < items.len()
        invariant
            k <= items@.len(),
            out@ == base + spec_ser_app_list(items@.take(k as int)),
            forall|i: int| 0 <= i < k ==> fits_app(#[trigger] items@[i]),
        decreases items@.len() - k,
    {
        ser_app(out, &items[k]);
        proof {
            lemma_ser_app_list_snoc(items@, k as int);
            assert(base + spec_ser_app_list(items@.take(k as int)) + spec_ser_app(
                items@[k as int],
            ) =~= base + spec_ser_app_list(items@.take(k as int + 1)));
        }
        k += 1;
    }
    proof {
        assert(items@.take(items@.len() as int) =~= items@);
    }
}

/// Parses a app list. On any text that serializes one at `pos`, it returns
/// entries with the same contents and stops exactly past them.
#[verifier::rlimit(100)]
#[verifier::spinoff_prover]
fn parse_apps_at(s: &str, pos: usize, n: usize) -> (r: Option<(Vec<App>, usize)>)
    requires
        pos <= s@.len(),
        n == s@.len(),
    ensures
        r matches Some(q) ==> pos < q.1 <= s@.len(),
        forall|items: Seq<App>, rest: Seq<char>|
            #[trigger] apps_at(s@, pos as int, items, rest) ==> (r matches Some(q) && eq_apps_v(
                q.0@,
                items,
            ) && q.1 as int == pos as int + spec_ser_apps(items).len() && s@.skip(q.1 as int)
                == rest),
{
    let ghost sv = s@;
    let r0 = parse_num_at(s, pos, n);
    proof {
        assert forall|items: Seq<App>, rest: Seq<char>|
            #[trigger] apps_at(sv, pos as int, items, rest) implies (r0 matches Some(q) && q.0
            as int == items.len() && q.1 as int == pos as int + spec_ser_num(
            items.len() as int,
        ).len() && sv.skip(q.1 as int) == spec_ser_app_list(items) + rest) by {
            assert(sv.skip(pos as int) =~= spec_ser_num(items.len() as int)
                + (spec_ser_app_list(items) + rest));
            assert(((items.len() as u64) as int) == items.len() as int);
            assert(num_at(sv, pos as int, items.len() as u64, spec_ser_app_list(items) + rest));
        }
    }
    let (count, p1) = match r0 {
        Some(q) => q,
        None => {
            proof {
                assert forall|items: Seq<App>, rest: Seq<char>|
                    !apps_at(sv, pos as int, items, rest) by {
                    if apps_at(sv, pos as int, items, rest) {
                    }
                }
            }
            return None;
        },
    };
    let mut built: Vec<App> = Vec::new();
    let mut p = p1;
    let mut k: u64 = 0;
    proof {
        assert(built@ =~= Seq::<App>::empty());
        assert forall|items: Seq<App>, rest: Seq<char>|
            #[trigger] apps_at(sv, pos as int, items, rest) implies (eq_apps_v(
            built@,
            items.take(0),
        ) && p as int == p1 + spec_ser_app_list(items.take(0)).len() && sv.skip(p as int)
            == spec_ser_app_list(items.skip(0)) + rest) by {
            assert(items.take(0) =~= Seq::<App>::empty());
            assert(spec_ser_app_list(Seq::<App>::empty()) == Seq::<char>::empty());
            assert(items.skip(0) =~= items);
        }
    }
    while k < count
        invariant
            n == sv.len(),
            sv == s@,
            p <= n,
            p1 <= p,
            pos < p1,
            built@.len() == k,
            k <= count,
            forall|items: Seq<App>, rest: Seq<char>|
                #[trigger] apps_at(sv, pos as int, items, rest) ==> (count == items.len() && k
                    <= items.len() && eq_apps_v(built@, items.take(k as int)) && p as int == p1
                    + spec_ser_app_list(items.take(k as int)).len() && sv.skip(p as int)
                    == spec_ser_app_list(items.skip(k as int)) + rest),
        decreases count - k,
    {
        let rk = parse_app_at(s, p, n);
        proof {
            assert forall|items: Seq<App>, rest: Seq<char>|
                #[trigger] apps_at(sv, pos as int, items, rest) implies (rk matches Some(q)
                && eq_app_v(q.0, items[k as int]) && q.1 as int == p as int + spec_ser_app(
                items[k as int],
            ).len() && sv.skip(q.1 as int) == spec_ser_app_list(items.skip(k as int + 1))
                + rest) by {
                assert(k < items.len());
                assert(items.skip(k as int)[0] == items[k as int]);
                assert(items.skip(k as int).skip(1) =~= items.skip(k as int + 1));
                assert(spec_ser_app_list(items.skip(k as int)) == spec_ser_app(items[k as int])
                    + spec_ser_app_list(items.skip(k as int + 1)));
                assert(sv.skip(p as int) =~= spec_ser_app(items[k as int]) + (
                spec_ser_app_list(items.skip(k as int + 1)) + rest));
                assert(app_at(sv, p as int, items[k as int], spec_ser_app_list(
                    items.skip(k as int + 1),
                ) + rest));
            }
        }
        let (item, p2) = match rk {
            Some(q) => q,
            None => {
                proof {
                    assert forall|items: Seq<App>, rest: Seq<char>|
                        !apps_at(sv, pos as int, items, rest) by {
                        if apps_at(sv, pos as int, items, rest) {
                        }
                    }
                }
                return None;
            },
        };
        let ghost built_prev = built@;
        built.push(item);
        proof {
            assert forall|items: Seq<App>, rest: Seq<char>|
                #[trigger] apps_at(sv, pos as int, items, rest) implies (eq_apps_v(
                built@,
                items.take(k as int + 1),
            ) && p2 as int == p1 + spec_ser_app_list(items.take(k as int + 1)).len()) by {
                lemma_ser_app_list_snoc(items, k as int);
                assert forall|i: int| 0 <= i < built@.len() implies eq_app_v(
                    #[trigger] built@[i],
                    items.take(k as int + 1)[i],
                ) by {
                    if i < k as int {
                        assert(built@[i] == built_prev[i]);
                    }
                }
            }
        }
        p = p2;
        k = k + 1;
    }
    proof {
        assert forall|items: Seq<App>, rest: Seq<char>|
            #[trigger] apps_at(sv, pos as int, items, rest) implies (eq_apps_v(built@, items)
            && p as int == pos as int + spec_ser_apps(items).len() && sv.skip(p as int)
            == rest) by {
            assert(items.take(items.len() as int) =~= items);
            assert(items.skip(items.len() as int) =~= Seq::<App>::empty());
            assert(spec_ser_app_list(Seq::<App>::empty()) == Seq::<char>::empty());
            assert(sv.skip(p as int) =~= rest);
        }
    }
    Some((built, p))
}

/// The serialized form of a dav: each field named as in the
/// configuration model, then its value.
pub open spec fn spec_ser_dav(d: Dav) -> Seq<char> {
    "id="@ + spec_ser_num(d.id as int) + "host="@ + spec_ser_str(d.host@) + "directory="@ + spec_ser_str(d.directory@) + "writable="@ + spec_ser_bool(d.writable) + "name="@ + spec_ser_str(d.name@) + "icon="@ + spec_ser_str(d.icon@) + "color="@ + spec_ser_str(d.color@) + "secured="@ + spec_ser_bool(d.secured) + "allow_symlinks="@ + spec_ser_bool(d.allow_symlinks) + "roles="@ + spec_ser_roles(d.roles@) + "passphrase="@ + spec_ser_str(d.passphrase@)
}

/// Whether a dav's texts fit the length prefixes.
pub open spec fn fits_dav(d: Dav) -> bool {
    &&& fits_str(d.host@)
    &&& fits_str(d.directory@)
    &&& fits_str(d.name@)
    &&& fits_str(d.icon@)
    &&& fits_str(d.color@)
    &&& fits_roles(d.roles@)
    &&& fits_str(d.passphrase@)
}

/// Sameness of two davs: contents equal, the first side's derived key stripped.
pub open spec fn eq_dav_v(a: Dav, b: Dav) -> bool {
    &&& a.id == b.id
    &&& a.host@ == b.host@
    &&& a.directory@ == b.directory@
    &&& a.writable == b.writable
    &&& a.name@ == b.name@
    &&& a.icon@ == b.icon@
    &&& a.color@ == b.color@
    &&& a.secured == b.secured
    &&& a.allow_symlinks == b.allow_symlinks
    &&& eq_roles_v(a.roles@, b.roles@)
    &&& a.passphrase@ == b.passphrase@
    &&& a.key is None
}

/// Appends the serialized form of a dav.
#[verifier::rlimit(100)]
#[verifier::spinoff_prover]
fn ser_dav(out: &mut String, d: &Dav)
    ensures
        final(out)@ == old(out)@ + spec_ser_dav(*d),
        fits_dav(*d),
{
    ser_tag(out, "id=");
    ser_num(out, d.id as u64);
    proof {
        assert(out@ =~= old(out)@ + ("id="@ + spec_ser_num(d.id as int)));
    }
    ser_tag(out, "host=");
    ser_str(out, d.host.as_str());
    proof {
        assert(out@ =~= old(out)@ + ("id="@ + spec_ser_num(d.id as int) + "host="@ + spec_ser_str(d.host@)));
    }
    ser_tag(out, "directory=");
    ser_str(out, d.directory.as_str());
    proof {
        assert(out@ =~= old(out)@ + ("id="@ + spec_ser_num(d.id as int) + "host="@ + spec_ser_str(d.host@) + "directory="@ + spec_ser_str(d.directory@)));
    }
    ser_tag(out, "writable=");
    ser_bool(out, d.writable);
    proof {
        assert(out@ =~= old(out)@ + ("id="@ + spec_ser_num(d.id as int) + "host="@ + spec_ser_str(d.host@) + "directory="@ + spec_ser_str(d.directory@) + "writable="@ + spec_ser_bool(d.writable)));
    }
    ser_tag(out, "name=");
    ser_str(out, d.name.as_str());
    proof {
        assert(out@ =~= old(out)@ + ("id="@ + spec_ser_num(d.id as int) + "host="@ + spec_ser_str(d.host@) + "directory="@ + spec_ser_str(d.directory@) + "writable="@ + spec_ser_bool(d.writable) + "name="@ + spec_ser_str(d.name@)));
    }
    ser_tag(out, "icon=");
    ser_str(out, d.icon.as_str());
    proof {
        assert(out@ =~= old(out)@ + ("id="@ + spec_ser_num(d.id as int) + "host="@ + spec_ser_str(d.host@) + "directory="@ + spec_ser_str(d.directory@) + "writable="@ + spec_ser_bool(d.writable) + "name="@ + spec_ser_str(d.name@) + "icon="@ + spec_ser_str(d.icon@)));
    }
    ser_tag(out, "color=");
    ser_str(out, d.color.as_str());
    proof {
        assert(out@ =~= old(out)@ + ("id="@ + spec_ser_num(d.id as int) + "host="@ + spec_ser_str(d.host@) + "directory="@ + spec_ser_str(d.directory@) + "writable="@ + spec_ser_bool(d.writable) + "name="@ + spec_ser_str(d.name@) + "icon="@ + spec_ser_str(d.icon@) + "color="@ + spec_ser_str(d.color@)));
    }
    ser_tag(out, "secured=");
    ser_bool(out, d.secured);
    proof {
        assert(out@ =~= old(out)@ + ("id="@ + spec_ser_num(d.id as int) + "host="@ + spec_ser_str(d.host@) + "directory="@ + spec_ser_str(d.directory@) + "writable="@ + spec_ser_bool(d.writable) + "name="@ + spec_ser_str(d.name@) + "icon="@ + spec_ser_str(d.icon@) + "color="@ + spec_ser_str(d.color@) + "secured="@ + spec_ser_bool(d.secured)));
    }
    ser_tag(out, "allow_symlinks=");
    ser_bool(out, d.allow_symlinks);
    proof {
        assert(out@ =~= old(out)@ + ("id="@ + spec_ser_num(d.id as int) + "host="@ + spec_ser_str(d.host@) + "directory="@ + spec_ser_str(d.directory@) + "writable="@ + spec_ser_bool(d.writable) + "name="@ + spec_ser_str(d.name@) + "icon="@ + spec_ser_str(d.icon@) + "color="@ + spec_ser_str(d.color@) + "secured="@ + spec_ser_bool(d.secured) + "allow_symlinks="@ + spec_ser_bool(d.allow_symlinks)));
    }
    ser_tag(out, "roles=");
    ser_roles(out, &d.roles);
    proof {
        assert(out@ =~= old(out)@ + ("id="@ + spec_ser_num(d.id as int) + "host="@ + spec_ser_str(d.host@) + "directory="@ + spec_ser_str(d.directory@) + "writable="@ + spec_ser_bool(d.writable) + "name="@ + spec_ser_str(d.name@) + "icon="@ + spec_ser_str(d.icon@) + "color="@ + spec_ser_str(d.color@) + "secured="@ + spec_ser_bool(d.secured) + "allow_symlinks="@ + spec_ser_bool(d.allow_symlinks) + "roles="@ + spec_ser_roles(d.roles@)));
    }
    ser_tag(out, "passphrase=");
    ser_str(out, d.passphrase.as_str());
    proof {
        assert(out@ =~= old(out)@ + ("id="@ + spec_ser_num(d.id as int) + "host="@ + spec_ser_str(d.host@) + "directory="@ + spec_ser_str(d.directory@) + "writable="@ + spec_ser_bool(d.writable) + "name="@ + spec_ser_str(d.name@) + "icon="@ + spec_ser_str(d.icon@) + "color="@ + spec_ser_str(d.color@) + "secured="@ + spec_ser_bool(d.secured) + "allow_symlinks="@ + spec_ser_bool(d.allow_symlinks) + "roles="@ + spec_ser_roles(d.roles@) + "passphrase="@ + spec_ser_str(d.passphrase@)));
    }
}

/// Whether this run of dav fields is serialized at `pos` of `s`.
pub open spec fn dav_part0_at(s: Seq<char>, pos: int, d: Dav, rest: Seq<char>) -> bool {
    &&& s.skip(pos) == "id="@ + spec_ser_num(d.id as int) + "host="@ + spec_ser_str(d.host@) + "directory="@ + spec_ser_str(d.directory@) + rest
    &&& fits_dav(d)
    &&& 0 <= pos <= s.len()
}

/// Parses this run of dav fields.
#[verifier::rlimit(100)]
#[verifier::spinoff_prover]
fn parse_dav_part0_at(s: &str, pos: usize, n: usize) -> (r: Option<((u64, String, String), usize)>)
    requires
        pos <= s@.len(),
        n == s@.len(),
    ensures
        r matches Some(q) ==> pos <= q.1 <= s@.len(),
        forall|d: Dav, rest: Seq<char>|
            #[trigger] dav_part0_at(s@, pos as int, d, rest) ==> (r matches Some(q)
                && q.0.0 == d.id as u64 && q.0.1@ == d.host@ && q.0.2@ == d.directory@
                && q.1 as int == pos as int + ("id="@ + spec_ser_num(d.id as int) + "host="@ + spec_ser_str(d.host@) + "directory="@ + spec_ser_str(d.directory@)).len()
                && s@.skip(q.1 as int) == rest),
{
    let ghost sv = s@;
    let ghost pos0 = pos as int;
    let r0 = parse_tag_at(s, pos, n, "id=");
    proof {
        assert forall|d: Dav, rest: Seq<char>|
            #[trigger] dav_part0_at(sv, pos0, d, rest) implies (r0 matches Some(p2)
                && p2 as int == pos as int + ("id="@).len()
                && sv.skip(p2 as int) == spec_ser_num(d.id as int) + "host="@ + spec_ser_str(d.host@) + "directory="@ + spec_ser_str(d.directory@) + rest) by {
            assert(sv.skip(pos as int) =~= "id="@ + (spec_ser_num(d.id as int) + "host="@ + spec_ser_str(d.host@) + "directory="@ + spec_ser_str(d.directory@) + rest));
            assert(tag_at(sv, pos as int, "id="@, spec_ser_num(d.id as int) + "host="@ + spec_ser_str(d.host@) + "directory="@ + spec_ser_str(d.directory@) + rest));
        }
    }
    let p0 = match r0 {
        Some(p2) => p2,
        None => {
            proof {
                assert forall|d: Dav, rest: Seq<char>|
                    !dav_part0_at(sv, pos0, d, rest) by {
                    if dav_part0_at(sv, pos0, d, rest) {
                    }
                }
            }
            return None;
        },
    };
    let r1 = parse_num_at(s, p0, n);
    proof {
        assert forall|d: Dav, rest: Seq<char>|
            #[trigger] dav_part0_at(sv, pos0, d, rest) implies (r1 matches Some(q)
                && q.0 == d.id as u64
                && q.1 as int == p0 as int + (spec_ser_num(d.id as int)).len()
                && sv.skip(q.1 as int) == "host="@ + spec_ser_str(d.host@) + "directory="@ + spec_ser_str(d.directory@) + rest) by {
            assert(sv.skip(p0 as int) =~= spec_ser_num(d.id as int) + ("host="@ + spec_ser_str(d.host@) + "directory="@ + spec_ser_str(d.directory@) + rest));
            assert((((d.id as u64)) as int) == d.id as int);
            assert(num_at(sv, p0 as int, (d.id as u64), "host="@ + spec_ser_str(d.host@) + "directory="@ + spec_ser_str(d.directory@) + rest));
        }
    }
    let (v0, p1) = match r1 {
        Some(q) => q,
        None => {
            proof {
                assert forall|d: Dav, rest: Seq<char>|
                    !dav_part0_at(sv, pos0, d, rest) by {
                    if dav_part0_at(sv, pos0, d, rest) {
                    }
                }
            }
            return None;
        },
    };
    let r2 = parse_tag_at(s, p1, n, "host=");
    proof {
        assert forall|d: Dav, rest: Seq<char>|
            #[trigger] dav_part0_at(sv, pos0, d, rest) implies (r2 matches Some(p2)
                && p2 as int == p1 as int + ("host="@).len()
                && sv.skip(p2 as int) == spec_ser_str(d.host@) + "directory="@ + spec_ser_str(d.directory@) + rest) by {
            assert(sv.skip(p1 as int) =~= "host="@ + (spec_ser_str(d.host@) + "directory="@ + spec_ser_str(d.directory@) + rest));
            assert(tag_at(sv, p1 as int, "host="@, spec_ser_str(d.host@) + "directory="@ + spec_ser_str(d.directory@) + rest));
        }
    }
    let p2 = match r2 {
        Some(p2) => p2,
        None => {
            proof {
                assert forall|d: Dav, rest: Seq<char>|
                    !dav_part0_at(sv, pos0, d, rest) by {
                    if dav_part0_at(sv, pos0, d, rest) {
                    }
                }
            }
            return None;
        },
    };
    let r3 = parse_str_at(s, p2, n);
    proof {
        assert forall|d: Dav, rest: Seq<char>|
            #[trigger] dav_part0_at(sv, pos0, d, rest) implies (r3 matches Some(q)
                && q.0@ == d.host@
                && q.1 as int == p2 as int + (spec_ser_str(d.host@)).len()
                && sv.skip(q.1 as int) == "directory="@ + spec_ser_str(d.directory@) + rest) by {
            assert(sv.skip(p2 as int) =~= spec_ser_str(d.host@) + ("directory="@ + spec_ser_str(d.directory@) + rest));
            assert(str_at(sv, p2 as int, d.host@, "directory="@ + spec_ser_str(d.directory@) + rest));
        }
    }
    let (v1, p3) = match r3 {
        Some(q) => q,
        None => {
            proof {
                assert forall|d: Dav, rest: Seq<char>|
                    !dav_part0_at(sv, pos0, d, rest) by {
                    if dav_part0_at(sv, pos0, d, rest) {
                    }
                }
            }
            return None;
        },
    };
    let r4 = parse_tag_at(s, p3, n, "directory=");
    proof {
        assert forall|d: Dav, rest: Seq<char>|
            #[trigger] dav_part0_at(sv, pos0, d, rest) implies (r4 matches Some(p2)
                && p2 as int == p3 as int + ("directory="@).len()
                && sv.skip(p2 as int) == spec_ser_str(d.directory@) + rest) by {
            assert(sv.skip(p3 as int) =~= "directory="@ + (spec_ser_str(d.directory@) + rest));
            assert(tag_at(sv, p3 as int, "directory="@, spec_ser_str(d.directory@) + rest));
        }
    }
    let p4 = match r4 {
        Some(p2) => p2,
        None => {
            proof {
                assert forall|d: Dav, rest: Seq<char>|
                    !dav_part0_at(sv, pos0, d, rest) by {
                    if dav_part0_at(sv, pos0, d, rest) {
                    }
                }
            }
            return None;
        },
    };
    let r5 = parse_str_at(s, p4, n);
    proof {
        assert forall|d: Dav, rest: Seq<char>|
            #[trigger] dav_part0_at(sv, pos0, d, rest) implies (r5 matches Some(q)
                && q.0@ == d.directory@
                && q.1 as int == p4 as int + (spec_ser_str(d.directory@)).len()
                && sv.skip(q.1 as int) == Seq::<char>::empty() + rest) by {
            assert(sv.skip(p4 as int) =~= spec_ser_str(d.directory@) + (Seq::<char>::empty() + rest));
            assert(str_at(sv, p4 as int, d.directory@, Seq::<char>::empty() + rest));
        }
    }
    let (v2, p5) = match r5 {
        Some(q) => q,
        None => {
            proof {
                assert forall|d: Dav, rest: Seq<char>|
                    !dav_part0_at(sv, pos0, d, rest) by {
                    if dav_part0_at(sv, pos0, d, rest) {
                    }
                }
            }
            return None;
        },
    };
    Some(((v0, v1, v2), p5))
}

/// Whether this run of dav fields is serialized at `pos` of `s`.
pub open spec fn dav_part1_at(s: Seq<char>, pos: int, d: Dav, rest: Seq<char>) -> bool {
    &&& s.skip(pos) == "writable="@ + spec_ser_bool(d.writable) + "name="@ + spec_ser_str(d.name@) + "icon="@ + spec_ser_str(d.icon@) + rest
    &&& fits_dav(d)
    &&& 0 <= pos <= s.len()
}

/// Parses this run of dav fields.
#[verifier::rlimit(100)]
#[verifier::spinoff_prover]
fn parse_dav_part1_at(s: &str, pos: usize, n: usize) -> (r: Option<((bool, String, String), usize)>)
    requires
        pos <= s@.len(),
        n == s@.len(),
    ensures
        r matches Some(q) ==> pos <= q.1 <= s@.len(),
        forall|d: Dav, rest: Seq<char>|
            #[trigger] dav_part1_at(s@, pos as int, d, rest) ==> (r matches Some(q)
                && q.0.0 == d.writable && q.0.1@ == d.name@ && q.0.2@ == d.icon@
                && q.1 as int == pos as int + ("writable="@ + spec_ser_bool(d.writable) + "name="@ + spec_ser_str(d.name@) + "icon="@ + spec_ser_str(d.icon@)).len()
                && s@.skip(q.1 as int) == rest),
{
    let ghost sv = s@;
    let ghost pos0 = pos as int;
    let r0 = parse_tag_at(s, pos, n, "writable=");
    proof {
        assert forall|d: Dav, rest: Seq<char>|
            #[trigger] dav_part1_at(sv, pos0, d, rest) implies (r0 matches Some(p2)
                && p2 as int == pos as int + ("writable="@).len()
                && sv.skip(p2 as int) == spec_ser_bool(d.writable) + "name="@ + spec_ser_str(d.name@) + "icon="@ + spec_ser_str(d.icon@) + rest) by {
            assert(sv.skip(pos as int) =~= "writable="@ + (spec_ser_bool(d.writable) + "name="@ + spec_ser_str(d.name@) + "icon="@ + spec_ser_str(d.icon@) + rest));
            assert(tag_at(sv, pos as int, "writable="@, spec_ser_bool(d.writable) + "name="@ + spec_ser_str(d.name@) + "icon="@ + spec_ser_str(d.icon@) + rest));
        }
    }
    let p0 = match r0 {
        Some(p2) => p2,
        None => {
            proof {
                assert forall|d: Dav, rest: Seq<char>|
                    !dav_part1_at(sv, pos0, d, rest) by {
                    if dav_part1_at(sv, pos0, d, rest) {
                    }
                }
            }
            return None;
        },
    };
    let r1 = parse_bool_at(s, p0, n);
    proof {
        assert forall|d: Dav, rest: Seq<char>|
            #[trigger] dav_part1_at(sv, pos0, d, rest) implies (r1 matches Some(q)
                && q.0 == d.writable
                && q.1 as int == p0 as int + (spec_ser_bool(d.writable)).len()
                && sv.skip(q.1 as int) == "name="@ + spec_ser_str(d.name@) + "icon="@ + spec_ser_str(d.icon@) + rest) by {
            assert(sv.skip(p0 as int) =~= spec_ser_bool(d.writable) + ("name="@ + spec_ser_str(d.name@) + "icon="@ + spec_ser_str(d.icon@) + rest));
            assert(bool_at(sv, p0 as int, d.writable, "name="@ + spec_ser_str(d.name@) + "icon="@ + spec_ser_str(d.icon@) + rest));
        }
    }
    let (v0, p1) = match r1 {
        Some(q) => q,
        None => {
            proof {
                assert forall|d: Dav, rest: Seq<char>|
                    !dav_part1_at(sv, pos0, d, rest) by {
                    if dav_part1_at(sv, pos0, d, rest) {
                    }
                }
            }
            return None;
        },
    };
    let r2 = parse_tag_at(s, p1, n, "name=");
    proof {
        assert forall|d: Dav, rest: Seq<char>|
            #[trigger] dav_part1_at(sv, pos0, d, rest) implies (r2 matches Some(p2)
                && p2 as int == p1 as int + ("name="@).len()
                && sv.skip(p2 as int) == spec_ser_str(d.name@) + "icon="@ + spec_ser_str(d.icon@) + rest) by {
            assert(sv.skip(p1 as int) =~= "name="@ + (spec_ser_str(d.name@) + "icon="@ + spec_ser_str(d.icon@) + rest));
            assert(tag_at(sv, p1 as int, "name="@, spec_ser_str(d.name@) + "icon="@ + spec_ser_str(d.icon@) + rest));
        }
    }
    let p2 = match r2 {
        Some(p2) => p2,
        None => {
            proof {
                assert forall|d: Dav, rest: Seq<char>|
                    !dav_part1_at(sv, pos0, d, rest) by {
                    if dav_part1_at(sv, pos0, d, rest) {
                    }
                }
            }
            return None;
        },
    };
    let r3 = parse_str_at(s, p2, n);
    proof {
        assert forall|d: Dav, rest: Seq<char>|
            #[trigger] dav_part1_at(sv, pos0, d, rest) implies (r3 matches Some(q)
                && q.0@ == d.name@
                && q.1 as int == p2 as int + (spec_ser_str(d.name@)).len()
                && sv.skip(q.1 as int) == "icon="@ + spec_ser_str(d.icon@) + rest) by {
            assert(sv.skip(p2 as int) =~= spec_ser_str(d.name@) + ("icon="@ + spec_ser_str(d.icon@) + rest));
            assert(str_at(sv, p2 as int, d.name@, "icon="@ + spec_ser_str(d.icon@) + rest));
        }
    }
    let (v1, p3) = match r3 {
        Some(q) => q,
        None => {
            proof {
                assert forall|d: Dav, rest: Seq<char>|
                    !dav_part1_at(sv, pos0, d, rest) by {
                    if dav_part1_at(sv, pos0, d, rest) {
                    }
                }
            }
            return None;
        },
    };
    let r4 = parse_tag_at(s, p3, n, "icon=");
    proof {
        assert forall|d: Dav, rest: Seq<char>|
            #[trigger] dav_part1_at(sv, pos0, d, rest) implies (r4 matches Some(p2)
                && p2 as int == p3 as int + ("icon="@).len()
                && sv.skip(p2 as int) == spec_ser_str(d.icon@) + rest) by {
            assert(sv.skip(p3 as int) =~= "icon="@ + (spec_ser_str(d.icon@) + rest));
            assert(tag_at(sv, p3 as int, "icon="@, spec_ser_str(d.icon@) + rest));
        }
    }
    let p4 = match r4 {
        Some(p2) => p2,
        None => {
            proof {
                assert forall|d: Dav, rest: Seq<char>|
                    !dav_part1_at(sv, pos0, d, rest) by {
                    if dav_part1_at(sv, pos0, d, rest) {
                    }
                }
            }
            return None;
        },
    };
    let r5 = parse_str_at(s, p4, n);
    proof {
        assert forall|d: Dav, rest: Seq<char>|
            #[trigger] dav_part1_at(sv, pos0, d, rest) implies (r5 matches Some(q)
                && q.0@ == d.icon@
                && q.1 as int == p4 as int + (spec_ser_str(d.icon@)).len()
                && sv.skip(q.1 as int) == Seq::<char>::empty() + rest) by {
            assert(sv.skip(p4 as int) =~= spec_ser_str(d.icon@) + (Seq::<char>::empty() + rest));
            assert(str_at(sv, p4 as int, d.icon@, Seq::<char>::empty() + rest));
        }
    }
    let (v2, p5) = match r5 {
        Some(q) => q,
        None => {
            proof {
                assert forall|d: Dav, rest: Seq<char>|
                    !dav_part1_at(sv, pos0, d, rest) by {
                    if dav_part1_at(sv, pos0, d, rest) {
                    }
                }
            }
            return None;
        },
    };
    Some(((v0, v1, v2), p5))
}

/// Whether this run of dav fields is serialized at `pos` of `s`.
pub open spec fn dav_part2_at(s: Seq<char>, pos: int, d: Dav, rest: Seq<char>) -> bool {
    &&& s.skip(pos) == "color="@ + spec_ser_str(d.color@) + "secured="@ + spec_ser_bool(d.secured) + "allow_symlinks="@ + spec_ser_bool(d.allow_symlinks) + rest
    &&& fits_dav(d)
    &&& 0 <= pos <= s.len()
}

/// Parses this run of dav fields.
#[verifier::rlimit(100)]
#[verifier::spinoff_prover]
fn parse_dav_part2_at(s: &str, pos: usize, n: usize) -> (r: Option<((String, bool, bool), usize)>)
    requires
        pos <= s@.len(),
        n == s@.len(),
    ensures
        r matches Some(q) ==> pos <= q.1 <= s@.len(),
        forall|d: Dav, rest: Seq<char>|
            #[trigger] dav_part2_at(s@, pos as int, d, rest) ==> (r matches Some(q)
                && q.0.0@ == d.color@ && q.0.1 == d.secured && q.0.2 == d.allow_symlinks
                && q.1 as int == pos as int + ("color="@ + spec_ser_str(d.color@) + "secured="@ + spec_ser_bool(d.secured) + "allow_symlinks="@ + spec_ser_bool(d.allow_symlinks)).len()
                && s@.skip(q.1 as int) == rest),
{
    let ghost sv = s@;
    let ghost pos0 = pos as int;
    let r0 = parse_tag_at(s, pos, n, "color=");
    proof {
        assert forall|d: Dav, rest: Seq<char>|
            #[trigger] dav_part2_at(sv, pos0, d, rest) implies (r0 matches Some(p2)
                && p2 as int == pos as int + ("color="@).len()
                && sv.skip(p2 as int) == spec_ser_str(d.color@) + "secured="@ + spec_ser_bool(d.secured) + "allow_symlinks="@ + spec_ser_bool(d.allow_symlinks) + rest) by {
            assert(sv.skip(pos as int) =~= "color="@ + (spec_ser_str(d.color@) + "secured="@ + spec_ser_bool(d.secured) + "allow_symlinks="@ + spec_ser_bool(d.allow_symlinks) + rest));
            assert(tag_at(sv, pos as int, "color="@, spec_ser_str(d.color@) + "secured="@ + spec_ser_bool(d.secured) + "allow_symlinks="@ + spec_ser_bool(d.allow_symlinks) + rest));
        }
    }
    let p0 = match r0 {
        Some(p2) => p2,
        None => {
            proof {
                assert forall|d: Dav, rest: Seq<char>|
                    !dav_part2_at(sv, pos0, d, rest) by {
                    if dav_part2_at(sv, pos0, d, rest) {
                    }
                }
            }
            return None;
        },
    };
    let r1 = parse_str_at(s, p0, n);
    proof {
        assert forall|d: Dav, rest: Seq<char>|
            #[trigger] dav_part2_at(sv, pos0, d, rest) implies (r1 matches Some(q)
                && q.0@ == d.color@
                && q.1 as int == p0 as int + (spec_ser_str(d.color@)).len()
                && sv.skip(q.1 as int) == "secured="@ + spec_ser_bool(d.secured) + "allow_symlinks="@ + spec_ser_bool(d.allow_symlinks) + rest) by {
            assert(sv.skip(p0 as int) =~= spec_ser_str(d.color@) + ("secured="@ + spec_ser_bool(d.secured) + "allow_symlinks="@ + spec_ser_bool(d.allow_symlinks) + rest));
            assert(str_at(sv, p0 as int, d.color@, "secured="@ + spec_ser_bool(d.secured) + "allow_symlinks="@ + spec_ser_bool(d.allow_symlinks) + rest));
        }
    }
    let (v0, p1) = match r1 {
        Some(q) => q,
        None => {
            proof {
                assert forall|d: Dav, rest: Seq<char>|
                    !dav_part2_at(sv, pos0, d, rest) by {
                    if dav_part2_at(sv, pos0, d, rest) {
                    }
                }
            }
            return None;
        },
    };
    let r2 = parse_tag_at(s, p1, n, "secured=");
    proof {
        assert forall|d: Dav, rest: Seq<char>|
            #[trigger] dav_part2_at(sv, pos0, d, rest) implies (r2 matches Some(p2)
                && p2 as int == p1 as int + ("secured="@).len()
                && sv.skip(p2 as int) == spec_ser_bool(d.secured) + "allow_symlinks="@ + spec_ser_bool(d.allow_symlinks) + rest) by {
            assert(sv.skip(p1 as int) =~= "secured="@ + (spec_ser_bool(d.secured) + "allow_symlinks="@ + spec_ser_bool(d.allow_symlinks) + rest));
            assert(tag_at(sv, p1 as int, "secured="@, spec_ser_bool(d.secured) + "allow_symlinks="@ + spec_ser_bool(d.allow_symlinks) + rest));
        }
    }
    let p2 = match r2 {
        Some(p2) => p2,
        None => {
            proof {
                assert forall|d: Dav, rest: Seq<char>|
                    !dav_part2_at(sv, pos0, d, rest) by {
                    if dav_part2_at(sv, pos0, d, rest) {
                    }
                }
            }
            return None;
        },
    };
    let r3 = parse_bool_at(s, p2, n);
    proof {
        assert forall|d: Dav, rest: Seq<char>|
            #[trigger] dav_part2_at(sv, pos0, d, rest) implies (r3 matches Some(q)
                && q.0 == d.secured
                && q.1 as int == p2 as int + (spec_ser_bool(d.secured)).len()
                && sv.skip(q.1 as int) == "allow_symlinks="@ + spec_ser_bool(d.allow_symlinks) + rest) by {
            assert(sv.skip(p2 as int) =~= spec_ser_bool(d.secured) + ("allow_symlinks="@ + spec_ser_bool(d.allow_symlinks) + rest));
            assert(bool_at(sv, p2 as int, d.secured, "allow_symlinks="@ + spec_ser_bool(d.allow_symlinks) + rest));
        }
    }
    let (v1, p3) = match r3 {
        Some(q) => q,
        None => {
            proof {
                assert forall|d: Dav, rest: Seq<char>|
                    !dav_part2_at(sv, pos0, d, rest) by {
                    if dav_part2_at(sv, pos0, d, rest) {
                    }
                }
            }
            return None;
        },
    };
    let r4 = parse_tag_at(s, p3, n, "allow_symlinks=");
    proof {
        assert forall|d: Dav, rest: Seq<char>|
            #[trigger] dav_part2_at(sv, pos0, d, rest) implies (r4 matches Some(p2)
                && p2 as int == p3 as int + ("allow_symlinks="@).len()
                && sv.skip(p2 as int) == spec_ser_bool(d.allow_symlinks) + rest) by {
            assert(sv.skip(p3 as int) =~= "allow_symlinks="@ + (spec_ser_bool(d.allow_symlinks) + rest));
            assert(tag_at(sv, p3 as int, "allow_symlinks="@, spec_ser_bool(d.allow_symlinks) + rest));
        }
    }
    let p4 = match r4 {
        Some(p2) => p2,
        None => {
            proof {
                assert forall|d: Dav, rest: Seq<char>|
                    !dav_part2_at(sv, pos0, d, rest) by {
                    if dav_part2_at(sv, pos0, d, rest) {
                    }
                }
            }
            return None;
        },
    };
    let r5 = parse_bool_at(s, p4, n);
    proof {
        assert forall|d: Dav, rest: Seq<char>|
            #[trigger] dav_part2_at(sv, pos0, d, rest) implies (r5 matches Some(q)
                && q.0 == d.allow_symlinks
                && q.1 as int == p4 as int + (spec_ser_bool(d.allow_symlinks)).len()
                && sv.skip(q.1 as int) == Seq::<char>::empty() + rest) by {
            assert(sv.skip(p4 as int) =~= spec_ser_bool(d.allow_symlinks) + (Seq::<char>::empty() + rest));
            assert(bool_at(sv, p4 as int, d.allow_symlinks, Seq::<char>::empty() + rest));
        }
    }
    let (v2, p5) = match r5 {
        Some(q) => q,
        None => {
            proof {
                assert forall|d: Dav, rest: Seq<char>|
                    !dav_part2_at(sv, pos0, d, rest) by {
                    if dav_part2_at(sv, pos0, d, rest) {
                    }
                }
            }
            return None;
        },
    };
    Some(((v0, v1, v2), p5))
}

/// Whether this run of dav fields is serialized at `pos` of `s`.
pub open spec fn dav_part3_at(s: Seq<char>, pos: int, d: Dav, rest: Seq<char>) -> bool {
    &&& s.skip(pos) == "roles="@ + spec_ser_roles(d.roles@) + "passphrase="@ + spec_ser_str(d.passphrase@) + rest
    &&& fits_dav(d)
    &&& 0 <= pos <= s.len()
}

/// Parses this run of dav fields.
#[verifier::rlimit(100)]
#[verifier::spinoff_prover]
fn parse_dav_part3_at(s: &str, pos: usize, n: usize) -> (r: Option<((Vec<String>, String), usize)>)
    requires
        pos <= s@.len(),
        n == s@.len(),
    ensures
        r matches Some(q) ==> pos <= q.1 <= s@.len(),
        forall|d: Dav, rest: Seq<char>|
            #[trigger] dav_part3_at(s@, pos as int, d, rest) ==> (r matches Some(q)
                && eq_roles_v(q.0.0@, d.roles@) && q.0.1@ == d.passphrase@
                && q.1 as int == pos as int + ("roles="@ + spec_ser_roles(d.roles@) + "passphrase="@ + spec_ser_str(d.passphrase@)).len()
                && s@.skip(q.1 as int) == rest),
{
    let ghost sv = s@;
    let ghost pos0 = pos as int;
    let r0 = parse_tag_at(s, pos, n, "roles=");
    proof {
        assert forall|d: Dav, rest: Seq<char>|
            #[trigger] dav_part3_at(sv, pos0, d, rest) implies (r0 matches Some(p2)
                && p2 as int == pos as int + ("roles="@).len()
                && sv.skip(p2 as int) == spec_ser_roles(d.roles@) + "passphrase="@ + spec_ser_str(d.passphrase@) + rest) by {
            assert(sv.skip(pos as int) =~= "roles="@ + (spec_ser_roles(d.roles@) + "passphrase="@ + spec_ser_str(d.passphrase@) + rest));
            assert(tag_at(sv, pos as int, "roles="@, spec_ser_roles(d.roles@) + "passphrase="@ + spec_ser_str(d.passphrase@) + rest));
        }
    }
    let p0 = match r0 {
        Some(p2) => p2,
        None => {
            proof {
                assert forall|d: Dav, rest: Seq<char>|
                    !dav_part3_at(sv, pos0, d, rest) by {
                    if dav_part3_at(sv, pos0, d, rest) {
                    }
                }
            }
            return None;
        },
    };
    let r1 = parse_roles_at(s, p0, n);
    proof {
        assert forall|d: Dav, rest: Seq<char>|
            #[trigger] dav_part3_at(sv, pos0, d, rest) implies (r1 matches Some(q)
                && eq_roles_v(q.0@, d.roles@)
                && q.1 as int == p0 as int + (spec_ser_roles(d.roles@)).len()
                && sv.skip(q.1 as int) == "passphrase="@ + spec_ser_str(d.passphrase@) + rest) by {
            assert(sv.skip(p0 as int) =~= spec_ser_roles(d.roles@) + ("passphrase="@ + spec_ser_str(d.passphrase@) + rest));
            assert(roles_at(sv, p0 as int, d.roles@, "passphrase="@ + spec_ser_str(d.passphrase@) + rest));
        }
    }
    let (v0, p1) = match r1 {
        Some(q) => q,
        None => {
            proof {
                assert forall|d: Dav, rest: Seq<char>|
                    !dav_part3_at(sv, pos0, d, rest) by {
                    if dav_part3_at(sv, pos0, d, rest) {
                    }
                }
            }
            return None;
        },
    };
    let r2 = parse_tag_at(s, p1, n, "passphrase=");
    proof {
        assert forall|d: Dav, rest: Seq<char>|
            #[trigger] dav_part3_at(sv, pos0, d, rest) implies (r2 matches Some(p2)
                && p2 as int == p1 as int + ("passphrase="@).len()
                && sv.skip(p2 as int) == spec_ser_str(d.passphrase@) + rest) by {
            assert(sv.skip(p1 as int) =~= "passphrase="@ + (spec_ser_str(d.passphrase@) + rest));
            assert(tag_at(sv, p1 as int, "passphrase="@, spec_ser_str(d.passphrase@) + rest));
        }
    }
    let p2 = match r2 {
        Some(p2) => p2,
        None => {
            proof {
                assert forall|d: Dav, rest: Seq<char>|
                    !dav_part3_at(sv, pos0, d, rest) by {
                    if dav_part3_at(sv, pos0, d, rest) {
                    }
                }
            }
            return None;
        },
    };
    let r3 = parse_str_at(s, p2, n);
    proof {
        assert forall|d: Dav, rest: Seq<char>|
            #[trigger] dav_part3_at(sv, pos0, d, rest) implies (r3 matches Some(q)
                && q.0@ == d.passphrase@
                && q.1 as int == p2 as int + (spec_ser_str(d.passphrase@)).len()
                && sv.skip(q.1 as int) == Seq::<char>::empty() + rest) by {
            assert(sv.skip(p2 as int) =~= spec_ser_str(d.passphrase@) + (Seq::<char>::empty() + rest));
            assert(str_at(sv, p2 as int, d.passphrase@, Seq::<char>::empty() + rest));
        }
    }
    let (v1, p3) = match r3 {
        Some(q) => q,
        None => {
            proof {
                assert forall|d: Dav, rest: Seq<char>|
                    !dav_part3_at(sv, pos0, d, rest) by {
                    if dav_part3_at(sv, pos0, d, rest) {
                    }
                }
            }
            return None;
        },
    };
    Some(((v0, v1), p3))
}

/// Parses a dav. On any text that serializes a dav at `pos`, it returns a
/// dav with the same contents and stops exactly past it.
#[verifier::rlimit(100)]
#[verifier::spinoff_prover]
fn parse_dav_at(s: &str, pos: usize, n: usize) -> (r: Option<(Dav, usize)>)
    requires
        pos <= s@.len(),
        n == s@.len(),
    ensures
        r matches Some(q) ==> pos <= q.1 <= s@.len(),
        forall|d: Dav, rest: Seq<char>|
            #[trigger] dav_at(s@, pos as int, d, rest) ==> (r matches Some(q)
                && eq_dav_v(q.0, d) && q.1 as int == pos as int + spec_ser_dav(d).len()
                && s@.skip(q.1 as int) == rest),
{
    let ghost sv = s@;
    let r0 = parse_dav_part0_at(s, pos, n);
    proof {
        assert forall|d: Dav, rest: Seq<char>|
            #[trigger] dav_at(sv, pos as int, d, rest) implies dav_part0_at(
            sv,
            pos as int,
            d,
            (("writable="@ + spec_ser_bool(d.writable) + "name="@ + spec_ser_str(d.name@) + "icon="@ + spec_ser_str(d.icon@)) + ("color="@ + spec_ser_str(d.color@) + "secured="@ + spec_ser_bool(d.secured) + "allow_symlinks="@ + spec_ser_bool(d.allow_symlinks)) + ("roles="@ + spec_ser_roles(d.roles@) + "passphrase="@ + spec_ser_str(d.passphrase@))) + rest,
        ) by {
            assert(sv.skip(pos as int) =~= ("id="@ + spec_ser_num(d.id as int) + "host="@ + spec_ser_str(d.host@) + "directory="@ + spec_ser_str(d.directory@)) + ((("writable="@ + spec_ser_bool(d.writable) + "name="@ + spec_ser_str(d.name@) + "icon="@ + spec_ser_str(d.icon@)) + ("color="@ + spec_ser_str(d.color@) + "secured="@ + spec_ser_bool(d.secured) + "allow_symlinks="@ + spec_ser_bool(d.allow_symlinks)) + ("roles="@ + spec_ser_roles(d.roles@) + "passphrase="@ + spec_ser_str(d.passphrase@))) + rest));
        }
    }
    let (t0, pm0) = match r0 {
        Some(q) => q,
        None => {
            proof {
                assert forall|d: Dav, rest: Seq<char>|
                    !dav_at(sv, pos as int, d, rest) by {
                    if dav_at(sv, pos as int, d, rest) {
                    }
                }
            }
            return None;
        },
    };
    let r1 = parse_dav_part1_at(s, pm0, n);
    proof {
        assert forall|d: Dav, rest: Seq<char>|
            #[trigger] dav_at(sv, pos as int, d, rest) implies dav_part1_at(
            sv,
            pm0 as int,
            d,
            (("color="@ + spec_ser_str(d.color@) + "secured="@ + spec_ser_bool(d.secured) + "allow_symlinks="@ + spec_ser_bool(d.allow_symlinks)) + ("roles="@ + spec_ser_roles(d.roles@) + "passphrase="@ + spec_ser_str(d.passphrase@))) + rest,
        ) by {
            assert(sv.skip(pm0 as int) =~= ("writable="@ + spec_ser_bool(d.writable) + "name="@ + spec_ser_str(d.name@) + "icon="@ + spec_ser_str(d.icon@)) + ((("color="@ + spec_ser_str(d.color@) + "secured="@ + spec_ser_bool(d.secured) + "allow_symlinks="@ + spec_ser_bool(d.allow_symlinks)) + ("roles="@ + spec_ser_roles(d.roles@) + "passphrase="@ + spec_ser_str(d.passphrase@))) + rest));
        }
    }
    let (t1, pm1) = match r1 {
        Some(q) => q,
        None => {
            proof {
                assert forall|d: Dav, rest: Seq<char>|
                    !dav_at(sv, pos as int, d, rest) by {
                    if dav_at(sv, pos as int, d, rest) {
                    }
                }
            }
            return None;
        },
    };
    let r2 = parse_dav_part2_at(s, pm1, n);
    proof {
        assert forall|d: Dav, rest: Seq<char>|
            #[trigger] dav_at(sv, pos as int, d, rest) implies dav_part2_at(
            sv,
            pm1 as int,
            d,
            (("roles="@ + spec_ser_roles(d.roles@) + "passphrase="@ + spec_ser_str(d.passphrase@))) + rest,
        ) by {
            assert(sv.skip(pm1 as int) =~= ("color="@ + spec_ser_str(d.color@) + "secured="@ + spec_ser_bool(d.secured) + "allow_symlinks="@ + spec_ser_bool(d.allow_symlinks)) + ((("roles="@ + spec_ser_roles(d.roles@) + "passphrase="@ + spec_ser_str(d.passphrase@))) + rest));
        }
    }
    let (t2, pm2) = match r2 {
        Some(q) => q,
        None => {
            proof {
                assert forall|d: Dav, rest: Seq<char>|
                    !dav_at(sv, pos as int, d, rest) by {
                    if dav_at(sv, pos as int, d, rest) {
                    }
                }
            }
            return None;
        },
    };
    let r3 = parse_dav_part3_at(s, pm2, n);
    proof {
        assert forall|d: Dav, rest: Seq<char>|
            #[trigger] dav_at(sv, pos as int, d, rest) implies dav_part3_at(
            sv,
            pm2 as int,
            d,
            rest,
        ) by {
            assert(sv.skip(pm2 as int) =~= ("roles="@ + spec_ser_roles(d.roles@) + "passphrase="@ + spec_ser_str(d.passphrase@)) + rest);
        }
    }
    let (t3, pm3) = match r3 {
        Some(q) => q,
        None => {
            proof {
                assert forall|d: Dav, rest: Seq<char>|
                    !dav_at(sv, pos as int, d, rest) by {
                    if dav_at(sv, pos as int, d, rest) {
                    }
                }
            }
            return None;
        },
    };
    if t0.0 > usize::MAX as u64 {
        proof {
            assert forall|d: Dav, rest: Seq<char>|
                !dav_at(sv, pos as int, d, rest) by {
                if dav_at(sv, pos as int, d, rest) {
                }
            }
        }
        return None;
    }
    let built = Dav { id: t0.0 as usize, host: t0.1, directory: t0.2, writable: t1.0, name: t1.1, icon: t1.2, color: t2.0, secured: t2.1, allow_symlinks: t2.2, roles: t3.0, passphrase: t3.1, key: None };
    proof {
        assert forall|d: Dav, rest: Seq<char>|
            #[trigger] dav_at(sv, pos as int, d, rest) implies (eq_dav_v(built, d)
                && pm3 as int == pos as int + spec_ser_dav(d).len()) by {
            assert((spec_ser_dav(d)).len() == ("id="@ + spec_ser_num(d.id as int) + "host="@ + spec_ser_str(d.host@) + "directory="@ + spec_ser_str(d.directory@) + "writable="@ + spec_ser_bool(d.writable) + "name="@ + spec_ser_str(d.name@) + "icon="@ + spec_ser_str(d.icon@) + "color="@ + spec_ser_str(d.color@) + "secured="@ + spec_ser_bool(d.secured) + "allow_symlinks="@ + spec_ser_bool(d.allow_symlinks) + "roles="@ + spec_ser_roles(d.roles@) + "passphrase="@ + spec_ser_str(d.passphrase@)).len());
        }
    }
    Some((built, pm3))
}

/// Whether a dav is serialized at `pos` of `s`, followed by `rest`.
pub open spec fn dav_at(s: Seq<char>, pos: int, d: Dav, rest: Seq<char>) -> bool {
    &&& s.skip(pos) == spec_ser_dav(d) + rest
    &&& fits_dav(d)
    &&& 0 <= pos <= s.len()
}

/// The serialized dav entries, one after the other.
pub open spec fn spec_ser_dav_list(items: Seq<Dav>) -> Seq<char>
    decreases items.len(),
{
    if items.len() == 0 {
        Seq::<char>::empty()
    } else {
        spec_ser_dav(items[0]) + spec_ser_dav_list(items.skip(1))
    }
}

/// The serialized form of a dav list: its length, then the entries.
pub open spec fn spec_ser_davs(items: Seq<Dav>) -> Seq<char> {
    spec_ser_num(items.len() as int) + spec_ser_dav_list(items)
}

/// Whether a dav list's texts fit the length prefixes.
pub open spec fn fits_davs(items: Seq<Dav>) -> bool {
    &&& items.len() <= u64::MAX
    &&& forall|i: int| 0 <= i < items.len() ==> fits_dav(#[trigger] items[i])
}

/// Sameness of two dav lists by contents.
pub open spec fn eq_davs_v(a: Seq<Dav>, b: Seq<Dav>) -> bool {
    &&& a.len() == b.len()
    &&& forall|i: int| 0 <= i < a.len() ==> eq_dav_v(#[trigger] a[i], b[i])
}

/// Whether a dav list is serialized at `pos` of `s`, followed by `rest`.
pub open spec fn davs_at(s: Seq<char>, pos: int, items: Seq<Dav>, rest: Seq<char>) -> bool {
    &&& s.skip(pos) == spec_ser_davs(items) + rest
    &&& fits_davs(items)
    &&& 0 <= pos <= s.len()
}

/// A dav list prefix extended by one entry.
#[verifier::rlimit(100)]
#[verifier::spinoff_prover]
proof fn lemma_ser_dav_list_snoc(items: Seq<Dav>, k: int)
    requires
        0 <= k < items.len(),
    ensures
        spec_ser_dav_list(items.take(k + 1)) == spec_ser_dav_list(items.take(k)) + spec_ser_dav(
            items[k],
        ),
    decreases k,
{
    if k == 0 {
        assert(items.take(1).skip(1) =~= Seq::<Dav>::empty());
        assert(items.take(0) =~= Seq::<Dav>::empty());
        assert(spec_ser_dav_list(Seq::<Dav>::empty()) == Seq::<char>::empty());
        assert(items.take(1)[0] == items[0]);
        assert(spec_ser_dav_list(items.take(1)) =~= spec_ser_dav(items[0]));
        assert(spec_ser_dav_list(items.take(0)) + spec_ser_dav(items[0]) =~= spec_ser_dav(
            items[0],
        ));
    } else {
        lemma_ser_dav_list_snoc(items.skip(1), k - 1);
        assert(items.take(k + 1).skip(1) =~= items.skip(1).take(k));
        assert(items.take(k).skip(1) =~= items.skip(1).take(k - 1));
        assert(items.take(k + 1)[0] == items[0]);
        assert(items.take(k)[0] == items[0]);
        assert(items.skip(1)[k - 1] == items[k]);
        assert(spec_ser_dav(items[0]) + (spec_ser_dav_list(items.skip(1).take(k - 1))
            + spec_ser_dav(items[k])) =~= (spec_ser_dav(items[0]) + spec_ser_dav_list(
            items.skip(1).take(k - 1),
        )) + spec_ser_dav(items[k]));
    }
}

/// Appends a serialized dav list.
#[verifier::rlimit(100)]
#[verifier::spinoff_prover]
fn ser_davs(out: &mut String, items: &Vec<Dav>)
    ensures
        final(out)@ == old(out)@ + spec_ser_davs(items@),
        fits_davs(items@),
{
    ser_num(out, items.len() as u64);
    let ghost base = out@;
    let mut k: usize = 0;
    proof {
        assert(items@.take(0) =~= Seq::<Dav>::empty());
        assert(spec_ser_dav_list(Seq::<Dav>::empty()) == Seq::<char>::empty());
        assert(base + spec_ser_dav_list(items@.take(0)) =~= base);
    }
    while k < items.len()
        invariant
            k <= items@.len(),
            out@ == base + spec_ser_dav_list(items@.take(k as int)),
            forall|i: int| 0 <= i < k ==> fits_dav(#[trigger] items@[i]),
        decreases items@.len() - k,
    {
        ser_dav(out, &items[k]);
        proof {
            lemma_ser_dav_list_snoc(items@, k as int);
            assert(base + spec_ser_dav_list(items@.take(k as int)) + spec_ser_dav(
                items@[k as int],
            ) =~= base + spec_ser_dav_list(items@.take(k as int + 1)));
        }
        k += 1;
    }
    proof {
        assert(items@.take(items@.len() as int) =~= items@);
    }
}

/// Parses a dav list. On any text that serializes one at `pos`, it returns
/// entries with the same contents and stops exactly past them.
#[verifier::rlimit(100)]
#[verifier::spinoff_prover]
fn parse_davs_at(s: &str, pos: usize, n: usize) -> (r: Option<(Vec<Dav>, usize)>)
    requires
        pos <= s@.len(),
        n == s@.len(),
    ensures
        r matches Some(q) ==> pos < q.1 <= s@.len(),
        forall|items: Seq<Dav>, rest: Seq<char>|
            #[trigger] davs_at(s@, pos as int, items, rest) ==> (r matches Some(q) && eq_davs_v(
                q.0@,
                items,
            ) && q.1 as int == pos as int + spec_ser_davs(items).len() && s@.skip(q.1 as int)
                == rest),
{
    let ghost sv = s@;
    let r0 = parse_num_at(s, pos, n);
    proof {
        assert forall|items: Seq<Dav>, rest: Seq<char>|
            #[trigger] davs_at(sv, pos as int, items, rest) implies (r0 matches Some(q) && q.0
            as int == items.len() && q.1 as int == pos as int + spec_ser_num(
            items.len() as int,
        ).len() && sv.skip(q.1 as int) == spec_ser_dav_list(items) + rest) by {
            assert(sv.skip(pos as int) =~= spec_ser_num(items.len() as int)
                + (spec_ser_dav_list(items) + rest));
            assert(((items.len() as u64) as int) == items.len() as int);
            assert(num_at(sv, pos as int, items.len() as u64, spec_ser_dav_list(items) + rest));
        }
    }
    let (count, p1) = match r0 {
        Some(q) => q,
        None => {
            proof {
                assert forall|items: Seq<Dav>, rest: Seq<char>|
                    !davs_at(sv, pos as int, items, rest) by {
                    if davs_at(sv, pos as int, items, rest) {
                    }
                }
            }
            return None;
        },
    };
    let mut built: Vec<Dav> = Vec::new();
    let mut p = p1;
    let mut k: u64 = 0;
    proof {
        assert(built@ =~= Seq::<Dav>::empty());
        assert forall|items: Seq<Dav>, rest: Seq<char>|
            #[trigger] davs_at(sv, pos as int, items, rest) implies (eq_davs_v(
            built@,
            items.take(0),
        ) && p as int == p1 + spec_ser_dav_list(items.take(0)).len() && sv.skip(p as int)
            == spec_ser_dav_list(items.skip(0)) + rest) by {
            assert(items.take(0) =~= Seq::<Dav>::empty());
            assert(spec_ser_dav_list(Seq::<Dav>::empty()) == Seq::<char>::empty());
            assert(items.skip(0) =~= items);
        }
    }
    while k < count
        invariant
            n == sv.len(),
            sv == s@,
            p <= n,
            p1 <= p,
            pos < p1,
            built@.len() == k,
            k <= count,
            forall|items: Seq<Dav>, rest: Seq<char>|
                #[trigger] davs_at(sv, pos as int, items, rest) ==> (count == items.len() && k
                    <= items.len() && eq_davs_v(built@, items.take(k as int)) && p as int == p1
                    + spec_ser_dav_list(items.take(k as int)).len() && sv.skip(p as int)
                    == spec_ser_dav_list(items.skip(k as int)) + rest),
        decreases count - k,
    {
        let rk = parse_dav_at(s, p, n);
        proof {
            assert forall|items: Seq<Dav>, rest: Seq<char>|
                #[trigger] davs_at(sv, pos as int, items, rest) implies (rk matches Some(q)
                && eq_dav_v(q.0, items[k as int]) && q.1 as int == p as int + spec_ser_dav(
                items[k as int],
            ).len() && sv.skip(q.1 as int) == spec_ser_dav_list(items.skip(k as int + 1))
                + rest) by {
                assert(k < items.len());
                assert(items.skip(k as int)[0] == items[k as int]);
                assert(items.skip(k as int).skip(1) =~= items.skip(k as int + 1));
                assert(spec_ser_dav_list(items.skip(k as int)) == spec_ser_dav(items[k as int])
                    + spec_ser_dav_list(items.skip(k as int + 1)));
                assert(sv.skip(p as int) =~= spec_ser_dav(items[k as int]) + (
                spec_ser_dav_list(items.skip(k as int + 1)) + rest));
                assert(dav_at(sv, p as int, items[k as int], spec_ser_dav_list(
                    items.skip(k as int + 1),
                ) + rest));
            }
        }
        let (item, p2) = match rk {
            Some(q) => q,
            None => {
                proof {
                    assert forall|items: Seq<Dav>, rest: Seq<char>|
                        !davs_at(sv, pos as int, items, rest) by {
                        if davs_at(sv, pos as int, items, rest) {
                        }
                    }
                }
                return None;
            },
        };
        let ghost built_prev = built@;
        built.push(item);
        proof {
            assert forall|items: Seq<Dav>, rest: Seq<char>|
                #[trigger] davs_at(sv, pos as int, items, rest) implies (eq_davs_v(
                built@,
                items.take(k as int + 1),
            ) && p2 as int == p1 + spec_ser_dav_list(items.take(k as int + 1)).len()) by {
                lemma_ser_dav_list_snoc(items, k as int);
                assert forall|i: int| 0 <= i < built@.len() implies eq_dav_v(
                    #[trigger] built@[i],
                    items.take(k as int + 1)[i],
                ) by {
                    if i < k as int {
                        assert(built@[i] == built_prev[i]);
                    }
                }
            }
        }
        p = p2;
        k = k + 1;
    }
    proof {
        assert forall|items: Seq<Dav>, rest: Seq<char>|
            #[trigger] davs_at(sv, pos as int, items, rest) implies (eq_davs_v(built@, items)
            && p as int == pos as int + spec_ser_davs(items).len() && sv.skip(p as int)
            == rest) by {
            assert(items.take(items.len() as int) =~= items);
            assert(items.skip(items.len() as int) =~= Seq::<Dav>::empty());
            assert(spec_ser_dav_list(Seq::<Dav>::empty()) == Seq::<char>::empty());
            assert(sv.skip(p as int) =~= rest);
        }
    }
    Some((built, p))
}

/// The serialized form of a config: each field named as in the
/// configuration model, then its value.
pub open spec fn spec_ser_config(c: Config) -> Seq<char> {
    "hostname="@ + spec_ser_str(c.hostname@) + "debug_mode="@ + spec_ser_bool(c.debug_mode) + "http_port="@ + spec_ser_num(c.http_port as int) + "auto_tls="@ + spec_ser_bool(c.auto_tls) + "letsencrypt_email="@ + spec_ser_str(c.letsencrypt_email@) + "apps="@ + spec_ser_apps(c.apps@) + "davs="@ + spec_ser_davs(c.davs@) + "users="@ + spec_ser_users(c.users@)
}

/// Whether a config's texts fit the length prefixes.
pub open spec fn fits_config(c: Config) -> bool {
    &&& fits_str(c.hostname@)
    &&& fits_str(c.letsencrypt_email@)
    &&& fits_apps(c.apps@)
    &&& fits_davs(c.davs@)
    &&& fits_users(c.users@)
}

/// Sameness of two configs by contents.
pub open spec fn eq_config_v(a: Config, b: Config) -> bool {
    &&& a.hostname@ == b.hostname@
    &&& a.debug_mode == b.debug_mode
    &&& a.http_port == b.http_port
    &&& a.auto_tls == b.auto_tls
    &&& a.letsencrypt_email@ == b.letsencrypt_email@
    &&& eq_apps_v(a.apps@, b.apps@)
    &&& eq_davs_v(a.davs@, b.davs@)
    &&& eq_users_v(a.users@, b.users@)
}

/// Appends the serialized form of a config.
#[verifier::rlimit(100)]
#[verifier::spinoff_prover]
fn ser_config(out: &mut String, c: &Config)
    ensures
        final(out)@ == old(out)@ + spec_ser_config(*c),
        fits_config(*c),
{
    ser_tag(out, "hostname=");
    ser_str(out, c.hostname.as_str());
    proof {
        assert(out@ =~= old(out)@ + ("hostname="@ + spec_ser_str(c.hostname@)));
    }
    ser_tag(out, "debug_mode=");
    ser_bool(out, c.debug_mode);
    proof {
        assert(out@ =~= old(out)@ + ("hostname="@ + spec_ser_str(c.hostname@) + "debug_mode="@ + spec_ser_bool(c.debug_mode)));
    }
    ser_tag(out, "http_port=");
    ser_num(out, c.http_port as u64);
    proof {
        assert(out@ =~= old(out)@ + ("hostname="@ + spec_ser_str(c.hostname@) + "debug_mode="@ + spec_ser_bool(c.debug_mode) + "http_port="@ + spec_ser_num(c.http_port as int)));
    }
    ser_tag(out, "auto_tls=");
    ser_bool(out, c.auto_tls);
    proof {
        assert(out@ =~= old(out)@ + ("hostname="@ + spec_ser_str(c.hostname@) + "debug_mode="@ + spec_ser_bool(c.debug_mode) + "http_port="@ + spec_ser_num(c.http_port as int) + "auto_tls="@ + spec_ser_bool(c.auto_tls)));
    }
    ser_tag(out, "letsencrypt_email=");
    ser_str(out, c.letsencrypt_email.as_str());
    proof {
        assert(out@ =~= old(out)@ + ("hostname="@ + spec_ser_str(c.hostname@) + "debug_mode="@ + spec_ser_bool(c.debug_mode) + "http_port="@ + spec_ser_num(c.http_port as int) + "auto_tls="@ + spec_ser_bool(c.auto_tls) + "letsencrypt_email="@ + spec_ser_str(c.letsencrypt_email@)));
    }
    ser_tag(out, "apps=");
    ser_apps(out, &c.apps);
    proof {
        assert(out@ =~= old(out)@ + ("hostname="@ + spec_ser_str(c.hostname@) + "debug_mode="@ + spec_ser_bool(c.debug_mode) + "http_port="@ + spec_ser_num(c.http_port as int) + "auto_tls="@ + spec_ser_bool(c.auto_tls) + "letsencrypt_email="@ + spec_ser_str(c.letsencrypt_email@) + "apps="@ + spec_ser_apps(c.apps@)));
    }
    ser_tag(out, "davs=");
    ser_davs(out, &c.davs);
    proof {
        assert(out@ =~= old(out)@ + ("hostname="@ + spec_ser_str(c.hostname@) + "debug_mode="@ + spec_ser_bool(c.debug_mode) + "http_port="@ + spec_ser_num(c.http_port as int) + "auto_tls="@ + spec_ser_bool(c.auto_tls) + "letsencrypt_email="@ + spec_ser_str(c.letsencrypt_email@) + "apps="@ + spec_ser_apps(c.apps@) + "davs="@ + spec_ser_davs(c.davs@)));
    }
    ser_tag(out, "users=");
    ser_users(out, &c.users);
    proof {
        assert(out@ =~= old(out)@ + ("hostname="@ + spec_ser_str(c.hostname@) + "debug_mode="@ + spec_ser_bool(c.debug_mode) + "http_port="@ + spec_ser_num(c.http_port as int) + "auto_tls="@ + spec_ser_bool(c.auto_tls) + "letsencrypt_email="@ + spec_ser_str(c.letsencrypt_email@) + "apps="@ + spec_ser_apps(c.apps@) + "davs="@ + spec_ser_davs(c.davs@) + "users="@ + spec_ser_users(c.users@)));
    }
}

/// Whether this run of config fields is serialized at `pos` of `s`.
pub open spec fn config_part0_at(s: Seq<char>, pos: int, c: Config, rest: Seq<char>) -> bool {
    &&& s.skip(pos) == "hostname="@ + spec_ser_str(c.hostname@) + "debug_mode="@ + spec_ser_bool(c.debug_mode) + rest
    &&& fits_config(c)
    &&& 0 <= pos <= s.len()
}

/// Parses this run of config fields.
#[verifier::rlimit(100)]
#[verifier::spinoff_prover]
fn parse_config_part0_at(s: &str, pos: usize, n: usize) -> (r: Option<((String, bool), usize)>)
    requires
        pos <= s@.len(),
        n == s@.len(),
    ensures
        r matches Some(q) ==> pos <= q.1 <= s@.len(),
        forall|c: Config, rest: Seq<char>|
            #[trigger] config_part0_at(s@, pos as int, c, rest) ==> (r matches Some(q)
                && q.0.0@ == c.hostname@ && q.0.1 == c.debug_mode
                && q.1 as int == pos as int + ("hostname="@ + spec_ser_str(c.hostname@) + "debug_mode="@ + spec_ser_bool(c.debug_mode)).len()
                && s@.skip(q.1 as int) == rest),
{
    let ghost sv = s@;
    let ghost pos0 = pos as int;
    let r0 = parse_tag_at(s, pos, n, "hostname=");
    proof {
        assert forall|c: Config, rest: Seq<char>|
            #[trigger] config_part0_at(sv, pos0, c, rest) implies (r0 matches Some(p2)
                && p2 as int == pos as int + ("hostname="@).len()
                && sv.skip(p2 as int) == spec_ser_str(c.hostname@) + "debug_mode="@ + spec_ser_bool(c.debug_mode) + rest) by {
            assert(sv.skip(pos as int) =~= "hostname="@ + (spec_ser_str(c.hostname@) + "debug_mode="@ + spec_ser_bool(c.debug_mode) + rest));
            assert(tag_at(sv, pos as int, "hostname="@, spec_ser_str(c.hostname@) + "debug_mode="@ + spec_ser_bool(c.debug_mode) + rest));
        }
    }
    let p0 = match r0 {
        Some(p2) => p2,
        None => {
            proof {
                assert forall|c: Config, rest: Seq<char>|
                    !config_part0_at(sv, pos0, c, rest) by {
                    if config_part0_at(sv, pos0, c, rest) {
                    }
                }
            }
            return None;
        },
    };
    let r1 = parse_str_at(s, p0, n);
    proof {
        assert forall|c: Config, rest: Seq<char>|
            #[trigger] config_part0_at(sv, pos0, c, rest) implies (r1 matches Some(q)
                && q.0@ == c.hostname@
                && q.1 as int == p0 as int + (spec_ser_str(c.hostname@)).len()
                && sv.skip(q.1 as int) == "debug_mode="@ + spec_ser_bool(c.debug_mode) + rest) by {
            assert(sv.skip(p0 as int) =~= spec_ser_str(c.hostname@) + ("debug_mode="@ + spec_ser_bool(c.debug_mode) + rest));
            assert(str_at(sv, p0 as int, c.hostname@, "debug_mode="@ + spec_ser_bool(c.debug_mode) + rest));
        }
    }
    let (v0, p1) = match r1 {
        Some(q) => q,
        None => {
            proof {
                assert forall|c: Config, rest: Seq<char>|
                    !config_part0_at(sv, pos0, c, rest) by {
                    if config_part0_at(sv, pos0, c, rest) {
                    }
                }
            }
            return None;
        },
    };
    let r2 = parse_tag_at(s, p1, n, "debug_mode=");
    proof {
        assert forall|c: Config, rest: Seq<char>|
            #[trigger] config_part0_at(sv, pos0, c, rest) implies (r2 matches Some(p2)
                && p2 as int == p1 as int + ("debug_mode="@).len()
                && sv.skip(p2 as int) == spec_ser_bool(c.debug_mode) + rest) by {
            assert(sv.skip(p1 as int) =~= "debug_mode="@ + (spec_ser_bool(c.debug_mode) + rest));
            assert(tag_at(sv, p1 as int, "debug_mode="@, spec_ser_bool(c.debug_mode) + rest));
        }
    }
    let p2 = match r2 {
        Some(p2) => p2,
        None => {
            proof {
                assert forall|c: Config, rest: Seq<char>|
                    !config_part0_at(sv, pos0, c, rest) by {
                    if config_part0_at(sv, pos0, c, rest) {
                    }
                }
            }
            return None;
        },
    };
    let r3 = parse_bool_at(s, p2, n);
    proof {
        assert forall|c: Config, rest: Seq<char>|
            #[trigger] config_part0_at(sv, pos0, c, rest) implies (r3 matches Some(q)
                && q.0 == c.debug_mode
                && q.1 as int == p2 as int + (spec_ser_bool(c.debug_mode)).len()
                && sv.skip(q.1 as int) == Seq::<char>::empty() + rest) by {
            assert(sv.skip(p2 as int) =~= spec_ser_bool(c.debug_mode) + (Seq::<char>::empty() + rest));
            assert(bool_at(sv, p2 as int, c.debug_mode, Seq::<char>::empty() + rest));
        }
    }
    let (v1, p3) = match r3 {
        Some(q) => q,
        None => {
            proof {
                assert forall|c: Config, rest: Seq<char>|
                    !config_part0_at(sv, pos0, c, rest) by {
                    if config_part0_at(sv, pos0, c, rest) {
                    }
                }
            }
            return None;
        },
    };
    Some(((v0, v1), p3))
}

/// Whether this run of config fields is serialized at `pos` of `s`.
pub open spec fn config_part1_at(s: Seq<char>, pos: int, c: Config, rest: Seq<char>) -> bool {
    &&& s.skip(pos) == "http_port="@ + spec_ser_num(c.http_port as int) + "auto_tls="@ + spec_ser_bool(c.auto_tls) + rest
    &&& fits_config(c)
    &&& 0 <= pos <= s.len()
}

/// Parses this run of config fields.
#[verifier::rlimit(100)]
#[verifier::spinoff_prover]
fn parse_config_part1_at(s: &str, pos: usize, n: usize) -> (r: Option<((u64, bool), usize)>)
    requires
        pos <= s@.len(),
        n == s@.len(),
    ensures
        r matches Some(q) ==> pos <= q.1 <= s@.len(),
        forall|c: Config, rest: Seq<char>|
            #[trigger] config_part1_at(s@, pos as int, c, rest) ==> (r matches Some(q)
                && q.0.0 == c.http_port as u64 && q.0.1 == c.auto_tls
                && q.1 as int == pos as int + ("http_port="@ + spec_ser_num(c.http_port as int) + "auto_tls="@ + spec_ser_bool(c.auto_tls)).len()
                && s@.skip(q.1 as int) == rest),
{
    let ghost sv = s@;
    let ghost pos0 = pos as int;
    let r0 = parse_tag_at(s, pos, n, "http_port=");
    proof {
        assert forall|c: Config, rest: Seq<char>|
            #[trigger] config_part1_at(sv, pos0, c, rest) implies (r0 matches Some(p2)
                && p2 as int == pos as int + ("http_port="@).len()
                && sv.skip(p2 as int) == spec_ser_num(c.http_port as int) + "auto_tls="@ + spec_ser_bool(c.auto_tls) + rest) by {
            assert(sv.skip(pos as int) =~= "http_port="@ + (spec_ser_num(c.http_port as int) + "auto_tls="@ + spec_ser_bool(c.auto_tls) + rest));
            assert(tag_at(sv, pos as int, "http_port="@, spec_ser_num(c.http_port as int) + "auto_tls="@ + spec_ser_bool(c.auto_tls) + rest));
        }
    }
    let p0 = match r0 {
        Some(p2) => p2,
        None => {
            proof {
                assert forall|c: Config, rest: Seq<char>|
                    !config_part1_at(sv, pos0, c, rest) by {
                    if config_part1_at(sv, pos0, c, rest) {
                    }
                }
            }
            return None;
        },
    };
    let r1 = parse_num_at(s, p0, n);
    proof {
        assert forall|c: Config, rest: Seq<char>|
            #[trigger] config_part1_at(sv, pos0, c, rest) implies (r1 matches Some(q)
                && q.0 == c.http_port as u64
                && q.1 as int == p0 as int + (spec_ser_num(c.http_port as int)).len()
                && sv.skip(q.1 as int) == "auto_tls="@ + spec_ser_bool(c.auto_tls) + rest) by {
            assert(sv.skip(p0 as int) =~= spec_ser_num(c.http_port as int) + ("auto_tls="@ + spec_ser_bool(c.auto_tls) + rest));
            assert((((c.http_port as u64)) as int) == c.http_port as int);
            assert(num_at(sv, p0 as int, (c.http_port as u64), "auto_tls="@ + spec_ser_bool(c.auto_tls) + rest));
        }
    }
    let (v0, p1) = match r1 {
        Some(q) => q,
        None => {
            proof {
                assert forall|c: Config, rest: Seq<char>|
                    !config_part1_at(sv, pos0, c, rest) by {
                    if config_part1_at(sv, pos0, c, rest) {
                    }
                }
            }
            return None;
        },
    };
    let r2 = parse_tag_at(s, p1, n, "auto_tls=");
    proof {
        assert forall|c: Config, rest: Seq<char>|
            #[trigger] config_part1_at(sv, pos0, c, rest) implies (r2 matches Some(p2)
                && p2 as int == p1 as int + ("auto_tls="@).len()
                && sv.skip(p2 as int) == spec_ser_bool(c.auto_tls) + rest) by {
            assert(sv.skip(p1 as int) =~= "auto_tls="@ + (spec_ser_bool(c.auto_tls) + rest));
            assert(tag_at(sv, p1 as int, "auto_tls="@, spec_ser_bool(c.auto_tls) + rest));
        }
    }
    let p2 = match r2 {
        Some(p2) => p2,
        None => {
            proof {
                assert forall|c: Config, rest: Seq<char>|
                    !config_part1_at(sv, pos0, c, rest) by {
                    if config_part1_at(sv, pos0, c, rest) {
                    }
                }
            }
            return None;
        },
    };
    let r3 = parse_bool_at(s, p2, n);
    proof {
        assert forall|c: Config, rest: Seq<char>|
            #[trigger] config_part1_at(sv, pos0, c, rest) implies (r3 matches Some(q)
                && q.0 == c.auto_tls
                && q.1 as int == p2 as int + (spec_ser_bool(c.auto_tls)).len()
                && sv.skip(q.1 as int) == Seq::<char>::empty() + rest) by {
            assert(sv.skip(p2 as int) =~= spec_ser_bool(c.auto_tls) + (Seq::<char>::empty() + rest));
            assert(bool_at(sv, p2 as int, c.auto_tls, Seq::<char>::empty() + rest));
        }
    }
    let (v1, p3) = match r3 {
        Some(q) => q,
        None => {
            proof {
                assert forall|c: Config, rest: Seq<char>|
                    !config_part1_at(sv, pos0, c, rest) by {
                    if config_part1_at(sv, pos0, c, rest) {
                    }
                }
            }
            return None;
        },
    };
    Some(((v0, v1), p3))
}

/// Whether this run of config fields is serialized at `pos` of `s`.
pub open spec fn config_part2_at(s: Seq<char>, pos: int, c: Config, rest: Seq<char>) -> bool {
    &&& s.skip(pos) == "letsencrypt_email="@ + spec_ser_str(c.letsencrypt_email@) + "apps="@ + spec_ser_apps(c.apps@) + rest
    &&& fits_config(c)
    &&& 0 <= pos <= s.len()
}

/// Parses this run of config fields.
#[verifier::rlimit(100)]
#[verifier::spinoff_prover]
fn parse_config_part2_at(s: &str, pos: usize, n: usize) -> (r: Option<((String, Vec<App>), usize)>)
    requires
        pos <= s@.len(),
        n == s@.len(),
    ensures
        r matches Some(q) ==> pos <= q.1 <= s@.len(),
        forall|c: Config, rest: Seq<char>|
            #[trigger] config_part2_at(s@, pos as int, c, rest) ==> (r matches Some(q)
                && q.0.0@ == c.letsencrypt_email@ && eq_apps_v(q.0.1@, c.apps@)
                && q.1 as int == pos as int + ("letsencrypt_email="@ + spec_ser_str(c.letsencrypt_email@) + "apps="@ + spec_ser_apps(c.apps@)).len()
                && s@.skip(q.1 as int) == rest),
{
    let ghost sv = s@;
    let ghost pos0 = pos as int;
    let r0 = parse_tag_at(s, pos, n, "letsencrypt_email=");
    proof {
        assert forall|c: Config, rest: Seq<char>|
            #[trigger] config_part2_at(sv, pos0, c, rest) implies (r0 matches Some(p2)
                && p2 as int == pos as int + ("letsencrypt_email="@).len()
                && sv.skip(p2 as int) == spec_ser_str(c.letsencrypt_email@) + "apps="@ + spec_ser_apps(c.apps@) + rest) by {
            assert(sv.skip(pos as int) =~= "letsencrypt_email="@ + (spec_ser_str(c.letsencrypt_email@) + "apps="@ + spec_ser_apps(c.apps@) + rest));
            assert(tag_at(sv, pos as int, "letsencrypt_email="@, spec_ser_str(c.letsencrypt_email@) + "apps="@ + spec_ser_apps(c.apps@) + rest));
        }
    }
    let p0 = match r0 {
        Some(p2) => p2,
        None => {
            proof {
                assert forall|c: Config, rest: Seq<char>|
                    !config_part2_at(sv, pos0, c, rest) by {
                    if config_part2_at(sv, pos0, c, rest) {
                    }
                }
            }
            return None;
        },
    };
    let r1 = parse_str_at(s, p0, n);
    proof {
        assert forall|c: Config, rest: Seq<char>|
            #[trigger] config_part2_at(sv, pos0, c, rest) implies (r1 matches Some(q)
                && q.0@ == c.letsencrypt_email@
                && q.1 as int == p0 as int + (spec_ser_str(c.letsencrypt_email@)).len()
                && sv.skip(q.1 as int) == "apps="@ + spec_ser_apps(c.apps@) + rest) by {
            assert(sv.skip(p0 as int) =~= spec_ser_str(c.letsencrypt_email@) + ("apps="@ + spec_ser_apps(c.apps@) + rest));
            assert(str_at(sv, p0 as int, c.letsencrypt_email@, "apps="@ + spec_ser_apps(c.apps@) + rest));
        }
    }
    let (v0, p1) = match r1 {
        Some(q) => q,
        None => {
            proof {
                assert forall|c: Config, rest: Seq<char>|
                    !config_part2_at(sv, pos0, c, rest) by {
                    if config_part2_at(sv, pos0, c, rest) {
                    }
                }
            }
            return None;
        },
    };
    let r2 = parse_tag_at(s, p1, n, "apps=");
    proof {
        assert forall|c: Config, rest: Seq<char>|
            #[trigger] config_part2_at(sv, pos0, c, rest) implies (r2 matches Some(p2)
                && p2 as int == p1 as int + ("apps="@).len()
                && sv.skip(p2 as int) == spec_ser_apps(c.apps@) + rest) by {
            assert(sv.skip(p1 as int) =~= "apps="@ + (spec_ser_apps(c.apps@) + rest));
            assert(tag_at(sv, p1 as int, "apps="@, spec_ser_apps(c.apps@) + rest));
        }
    }
    let p2 = match r2 {
        Some(p2) => p2,
        None => {
            proof {
                assert forall|c: Config, rest: Seq<char>|
                    !config_part2_at(sv, pos0, c, rest) by {
                    if config_part2_at(sv, pos0, c, rest) {
                    }
                }
            }
            return None;
        },
    };
    let r3 = parse_apps_at(s, p2, n);
    proof {
        assert forall|c: Config, rest: Seq<char>|
            #[trigger] config_part2_at(sv, pos0, c, rest) implies (r3 matches Some(q)
                && eq_apps_v(q.0@, c.apps@)
                && q.1 as int == p2 as int + (spec_ser_apps(c.apps@)).len()
                && sv.skip(q.1 as int) == Seq::<char>::empty() + rest) by {
            assert(sv.skip(p2 as int) =~= spec_ser_apps(c.apps@) + (Seq::<char>::empty() + rest));
            assert(apps_at(sv, p2 as int, c.apps@, Seq::<char>::empty() + rest));
        }
    }
    let (v1, p3) = match r3 {
        Some(q) => q,
        None => {
            proof {
                assert forall|c: Config, rest: Seq<char>|
                    !config_part2_at(sv, pos0, c, rest) by {
                    if config_part2_at(sv, pos0, c, rest) {
                    }
                }
            }
            return None;
        },
    };
    Some(((v0, v1), p3))
}

/// Whether this run of config fields is serialized at `pos` of `s`.
pub open spec fn config_part3_at(s: Seq<char>, pos: int, c: Config, rest: Seq<char>) -> bool {
    &&& s.skip(pos) == "davs="@ + spec_ser_davs(c.davs@) + "users="@ + spec_ser_users(c.users@) + rest
    &&& fits_config(c)
    &&& 0 <= pos <= s.len()
}

/// Parses this run of config fields.
#[verifier::rlimit(100)]
#[verifier::spinoff_prover]
fn parse_config_part3_at(s: &str, pos: usize, n: usize) -> (r: Option<((Vec<Dav>, Vec<User>), usize)>)
    requires
        pos <= s@.len(),
        n == s@.len(),
    ensures
        r matches Some(q) ==> pos <= q.1 <= s@.len(),
        forall|c: Config, rest: Seq<char>|
            #[trigger] config_part3_at(s@, pos as int, c, rest) ==> (r matches Some(q)
                && eq_davs_v(q.0.0@, c.davs@) && eq_users_v(q.0.1@, c.users@)
                && q.1 as int == pos as int + ("davs="@ + spec_ser_davs(c.davs@) + "users="@ + spec_ser_users(c.users@)).len()
                && s@.skip(q.1 as int) == rest),
{
    let ghost sv = s@;
    let ghost pos0 = pos as int;
    let r0 = parse_tag_at(s, pos, n, "davs=");
    proof {
        assert forall|c: Config, rest: Seq<char>|
            #[trigger] config_part3_at(sv, pos0, c, rest) implies (r0 matches Some(p2)
                && p2 as int == pos as int + ("davs="@).len()
                && sv.skip(p2 as int) == spec_ser_davs(c.davs@) + "users="@ + spec_ser_users(c.users@) + rest) by {
            assert(sv.skip(pos as int) =~= "davs="@ + (spec_ser_davs(c.davs@) + "users="@ + spec_ser_users(c.users@) + rest));
            assert(tag_at(sv, pos as int, "davs="@, spec_ser_davs(c.davs@) + "users="@ + spec_ser_users(c.users@) + rest));
        }
    }
    let p0 = match r0 {
        Some(p2) => p2,
        None => {
            proof {
                assert forall|c: Config, rest: Seq<char>|
                    !config_part3_at(sv, pos0, c, rest) by {
                    if config_part3_at(sv, pos0, c, rest) {
                    }
                }
            }
            return None;
        },
    };
    let r1 = parse_davs_at(s, p0, n);
    proof {
        assert forall|c: Config, rest: Seq<char>|
            #[trigger] config_part3_at(sv, pos0, c, rest) implies (r1 matches Some(q)
                && eq_davs_v(q.0@, c.davs@)
                && q.1 as int == p0 as int + (spec_ser_davs(c.davs@)).len()
                && sv.skip(q.1 as int) == "users="@ + spec_ser_users(c.users@) + rest) by {
            assert(sv.skip(p0 as int) =~= spec_ser_davs(c.davs@) + ("users="@ + spec_ser_users(c.users@) + rest));
            assert(davs_at(sv, p0 as int, c.davs@, "users="@ + spec_ser_users(c.users@) + rest));
        }
    }
    let (v0, p1) = match r1 {
        Some(q) => q,
        None => {
            proof {
                assert forall|c: Config, rest: Seq<char>|
                    !config_part3_at(sv, pos0, c, rest) by {
                    if config_part3_at(sv, pos0, c, rest) {
                    }
                }
            }
            return None;
        },
    };
    let r2 = parse_tag_at(s, p1, n, "users=");
    proof {
        assert forall|c: Config, rest: Seq<char>|
            #[trigger] config_part3_at(sv, pos0, c, rest) implies (r2 matches Some(p2)
                && p2 as int == p1 as int + ("users="@).len()
                && sv.skip(p2 as int) == spec_ser_users(c.users@) + rest) by {
            assert(sv.skip(p1 as int) =~= "users="@ + (spec_ser_users(c.users@) + rest));
            assert(tag_at(sv, p1 as int, "users="@, spec_ser_users(c.users@) + rest));
        }
    }
    let p2 = match r2 {
        Some(p2) => p2,
        None => {
            proof {
                assert forall|c: Config, rest: Seq<char>|
                    !config_part3_at(sv, pos0, c, rest) by {
                    if config_part3_at(sv, pos0, c, rest) {
                    }
                }
            }
            return None;
        },
    };
    let r3 = parse_users_at(s, p2, n);
    proof {
        assert forall|c: Config, rest: Seq<char>|
            #[trigger] config_part3_at(sv, pos0, c, rest) implies (r3 matches Some(q)
                && eq_users_v(q.0@, c.users@)
                && q.1 as int == p2 as int + (spec_ser_users(c.users@)).len()
                && sv.skip(q.1 as int) == Seq::<char>::empty() + rest) by {
            assert(sv.skip(p2 as int) =~= spec_ser_users(c.users@) + (Seq::<char>::empty() + rest));
            assert(users_at(sv, p2 as int, c.users@, Seq::<char>::empty() + rest));
        }
    }
    let (v1, p3) = match r3 {
        Some(q) => q,
        None => {
            proof {
                assert forall|c: Config, rest: Seq<char>|
                    !config_part3_at(sv, pos0, c, rest) by {
                    if config_part3_at(sv, pos0, c, rest) {
                    }
                }
            }
            return None;
        },
    };
    Some(((v0, v1), p3))
}

/// Parses a config. On any text that serializes a config at `pos`, it returns a
/// config with the same contents and stops exactly past it.
#[verifier::rlimit(100)]
#[verifier::spinoff_prover]
fn parse_config_at(s: &str, pos: usize, n: usize) -> (r: Option<(Config, usize)>)
    requires
        pos <= s@.len(),
        n == s@.len(),
    ensures
        r matches Some(q) ==> pos <= q.1 <= s@.len(),
        forall|c: Config, rest: Seq<char>|
            #[trigger] config_at(s@, pos as int, c, rest) ==> (r matches Some(q)
                && eq_config_v(q.0, c) && q.1 as int == pos as int + spec_ser_config(c).len()
                && s@.skip(q.1 as int) == rest),
{
    let ghost sv = s@;
    let r0 = parse_config_part0_at(s, pos, n);
    proof {
        assert forall|c: Config, rest: Seq<char>|
            #[trigger] config_at(sv, pos as int, c, rest) implies config_part0_at(
            sv,
            pos as int,
            c,
            (("http_port="@ + spec_ser_num(c.http_port as int) + "auto_tls="@ + spec_ser_bool(c.auto_tls)) + ("letsencrypt_email="@ + spec_ser_str(c.letsencrypt_email@) + "apps="@ + spec_ser_apps(c.apps@)) + ("davs="@ + spec_ser_davs(c.davs@) + "users="@ + spec_ser_users(c.users@))) + rest,
        ) by {
            assert(sv.skip(pos as int) =~= ("hostname="@ + spec_ser_str(c.hostname@) + "debug_mode="@ + spec_ser_bool(c.debug_mode)) + ((("http_port="@ + spec_ser_num(c.http_port as int) + "auto_tls="@ + spec_ser_bool(c.auto_tls)) + ("letsencrypt_email="@ + spec_ser_str(c.letsencrypt_email@) + "apps="@ + spec_ser_apps(c.apps@)) + ("davs="@ + spec_ser_davs(c.davs@) + "users="@ + spec_ser_users(c.users@))) + rest));
        }
    }
    let (t0, pm0) = match r0 {
        Some(q) => q,
        None => {
            proof {
                assert forall|c: Config, rest: Seq<char>|
                    !config_at(sv, pos as int, c, rest) by {
                    if config_at(sv, pos as int, c, rest) {
                    }
                }
            }
            return None;
        },
    };
    let r1 = parse_config_part1_at(s, pm0, n);
    proof {
        assert forall|c: Config, rest: Seq<char>|
            #[trigger] config_at(sv, pos as int, c, rest) implies config_part1_at(
            sv,
            pm0 as int,
            c,
            (("letsencrypt_email="@ + spec_ser_str(c.letsencrypt_email@) + "apps="@ + spec_ser_apps(c.apps@)) + ("davs="@ + spec_ser_davs(c.davs@) + "users="@ + spec_ser_users(c.users@))) + rest,
        ) by {
            assert(sv.skip(pm0 as int) =~= ("http_port="@ + spec_ser_num(c.http_port as int) + "auto_tls="@ + spec_ser_bool(c.auto_tls)) + ((("letsencrypt_email="@ + spec_ser_str(c.letsencrypt_email@) + "apps="@ + spec_ser_apps(c.apps@)) + ("davs="@ + spec_ser_davs(c.davs@) + "users="@ + spec_ser_users(c.users@))) + rest));
        }
    }
    let (t1, pm1) = match r1 {
        Some(q) => q,
        None => {
            proof {
                assert forall|c: Config, rest: Seq<char>|
                    !config_at(sv, pos as int, c, rest) by {
                    if config_at(sv, pos as int, c, rest) {
                    }
                }
            }
            return None;
        },
    };
    let r2 = parse_config_part2_at(s, pm1, n);
    proof {
        assert forall|c: Config, rest: Seq<char>|
            #[trigger] config_at(sv, pos as int, c, rest) implies config_part2_at(
            sv,
            pm1 as int,
            c,
            (("davs="@ + spec_ser_davs(c.davs@) + "users="@ + spec_ser_users(c.users@))) + rest,
        ) by {
            assert(sv.skip(pm1 as int) =~= ("letsencrypt_email="@ + spec_ser_str(c.letsencrypt_email@) + "apps="@ + spec_ser_apps(c.apps@)) + ((("davs="@ + spec_ser_davs(c.davs@) + "users="@ + spec_ser_users(c.users@))) + rest));
        }
    }
    let (t2, pm2) = match r2 {
        Some(q) => q,
        None => {
            proof {
                assert forall|c: Config, rest: Seq<char>|
                    !config_at(sv, pos as int, c, rest) by {
                    if config_at(sv, pos as int, c, rest) {
                    }
                }
            }
            return None;
        },
    };
    let r3 = parse_config_part3_at(s, pm2, n);
    proof {
        assert forall|c: Config, rest: Seq<char>|
            #[trigger] config_at(sv, pos as int, c, rest) implies config_part3_at(
            sv,
            pm2 as int,
            c,
            rest,
        ) by {
            assert(sv.skip(pm2 as int) =~= ("davs="@ + spec_ser_davs(c.davs@) + "users="@ + spec_ser_users(c.users@)) + rest);
        }
    }
    let (t3, pm3) = match r3 {
        Some(q) => q,
        None => {
            proof {
                assert forall|c: Config, rest: Seq<char>|
                    !config_at(sv, pos as int, c, rest) by {
                    if config_at(sv, pos as int, c, rest) {
                    }
                }
            }
            return None;
        },
    };
    if t1.0 > u16::MAX as u64 {
        proof {
            assert forall|c: Config, rest: Seq<char>|
                !config_at(sv, pos as int, c, rest) by {
                if config_at(sv, pos as int, c, rest) {
                }
            }
        }
        return None;
    }
    let built = Config { hostname: t0.0, debug_mode: t0.1, http_port: t1.0 as u16, auto_tls: t1.1, letsencrypt_email: t2.0, apps: t2.1, davs: t3.0, users: t3.1 };
    proof {
        assert forall|c: Config, rest: Seq<char>|
            #[trigger] config_at(sv, pos as int, c, rest) implies (eq_config_v(built, c)
                && pm3 as int == pos as int + spec_ser_config(c).len()) by {
            assert((spec_ser_config(c)).len() == ("hostname="@ + spec_ser_str(c.hostname@) + "debug_mode="@ + spec_ser_bool(c.debug_mode) + "http_port="@ + spec_ser_num(c.http_port as int) + "auto_tls="@ + spec_ser_bool(c.auto_tls) + "letsencrypt_email="@ + spec_ser_str(c.letsencrypt_email@) + "apps="@ + spec_ser_apps(c.apps@) + "davs="@ + spec_ser_davs(c.davs@) + "users="@ + spec_ser_users(c.users@)).len());
        }
    }
    Some((built, pm3))
}

/// Whether a config is serialized at `pos` of `s`, followed by `rest`.
pub open spec fn config_at(s: Seq<char>, pos: int, c: Config, rest: Seq<char>) -> bool {
    &&& s.skip(pos) == spec_ser_config(c) + rest
    &&& fits_config(c)
    &&& 0 <= pos <= s.len()
}

/// Writes a configuration as its textual form. Derived keys are not written.
pub fn serialize_config(config: &Config) -> (r: String)
    ensures
        r@ == spec_ser_config(*config),
        fits_config(*config),
{
    let mut out = String::new();
    ser_config(&mut out, config);
    proof {
        assert(Seq::<char>::empty() + spec_ser_config(*config) =~= spec_ser_config(*config));
    }
    out
}

/// Reads a configuration back from its textual form. On the exact output of
/// `serialize_config` for any configuration, it returns one with the same
/// contents, every dav's derived key stripped; trailing text is rejected.
pub fn parse_config(s: &str) -> (r: Option<Config>)
    ensures
        forall|c: Config|
            (fits_config(c) && s@ == #[trigger] spec_ser_config(c)) ==> (r matches Some(parsed)
                && eq_config_v(parsed, c)),
{
    let ghost sv = s@;
    let n = s.unicode_len();
    proof {
        assert forall|c: Config| (fits_config(c) && sv == #[trigger] spec_ser_config(c)) implies
            config_at(sv, 0, c, Seq::<char>::empty()) by {
            assert(sv.skip(0) =~= spec_ser_config(c) + Seq::<char>::empty());
        }
    }
    match parse_config_at(s, 0, n) {
        Some((parsed, p)) => {
            if p == n {
                Some(parsed)
            } else {
                proof {
                    assert forall|c: Config|
                        !(fits_config(c) && sv == spec_ser_config(c)) by {
                        if fits_config(c) && sv == spec_ser_config(c) {
                            assert(config_at(sv, 0, c, Seq::<char>::empty()));
                        }
                    }
                }
                None
            }
        },
        None => {
            proof {
                assert forall|c: Config| !(fits_config(c) && sv == spec_ser_config(c)) by {
                    if fits_config(c) && sv == spec_ser_config(c) {
                        assert(config_at(sv, 0, c, Seq::<char>::empty()));
                    }
                }
            }
            None
        },
    }
}

} // verus!
