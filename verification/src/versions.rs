//! A total order over version strings, used identically by manifest
//! resolution and running-instance lookup, so both agree on what "latest"
//! means.
//!
//! A version string is read as dot-separated components; each component
//! counts by its leading run of decimal digits, compared numerically (so
//! `1.10.0` is above `1.9.0`). A shorter version that is a prefix of a longer
//! one orders below it. Components that carry no digits compare as zero.

use vstd::prelude::*;
use crate::strutil::spec_split;
use crate::strutil::split_str;

verus! {

pub open spec fn is_digit(c: char) -> bool {
    '0' <= c && c <= '9'
}

/// Length of the leading run of decimal digits.
pub open spec fn digits_end(s: Seq<char>) -> int
    decreases s.len(),
{
    if s.len() == 0 || !is_digit(s[0]) {
        0
    } else {
        1 + digits_end(s.drop_first())
    }
}

/// Length of the leading run of zeros.
pub open spec fn zeros_end(s: Seq<char>) -> int
    decreases s.len(),
{
    if s.len() == 0 || s[0] != '0' {
        0
    } else {
        1 + zeros_end(s.drop_first())
    }
}

/// Canonical form of one version component: its leading digits, with leading
/// zeros removed. Two components with the same canonical form denote the same
/// number.
pub open spec fn comp_key(s: Seq<char>) -> Seq<char> {
    digits_prefix(s).skip(zeros_end(digits_prefix(s)))
}

pub open spec fn digits_prefix(s: Seq<char>) -> Seq<char> {
    s.take(digits_end(s))
}

/// Numeric strict order over canonical digit runs: a shorter run denotes a
/// smaller number; equal lengths compare digit by digit.
pub open spec fn num_lt(a: Seq<char>, b: Seq<char>) -> bool
    decreases a.len(),
{
    if a.len() < b.len() {
        true
    } else if a.len() > b.len() {
        false
    } else if a.len() == 0 {
        false
    } else if a[0] != b[0] {
        (a[0] as u32) < (b[0] as u32)
    } else {
        num_lt(a.drop_first(), b.drop_first())
    }
}

/// Componentwise order over component keys; a missing component orders below
/// any present one.
pub open spec fn key_lt(a: Seq<Seq<char>>, b: Seq<Seq<char>>) -> bool
    decreases a.len(),
{
    if b.len() == 0 {
        false
    } else if a.len() == 0 {
        true
    } else if num_lt(a[0], b[0]) {
        true
    } else if num_lt(b[0], a[0]) {
        false
    } else {
        key_lt(a.drop_first(), b.drop_first())
    }
}

/// The canonical component keys of a version string.
pub open spec fn version_key(s: Seq<char>) -> Seq<Seq<char>> {
    spec_split(s, '.').map_values(|c: Seq<char>| comp_key(c))
}

/// Strict version order: `a` denotes a lower version than `b`.
pub open spec fn spec_version_lt(a: Seq<char>, b: Seq<char>) -> bool {
    key_lt(version_key(a), version_key(b))
}

pub proof fn lemma_num_lt_trichotomy(a: Seq<char>, b: Seq<char>)
    ensures
        num_lt(a, b) || num_lt(b, a) || a == b,
    decreases a.len(),
{
    if a.len() == b.len() {
        if a.len() == 0 {
            assert(a =~= b);
        } else if a[0] == b[0] {
            lemma_num_lt_trichotomy(a.drop_first(), b.drop_first());
            if a.drop_first() == b.drop_first() {
                assert forall|i: int| 0 <= i < a.len() implies a[i] == b[i] by {
                    if i > 0 {
                        assert(a.drop_first()[i - 1] == b.drop_first()[i - 1]);
                        assert(a[i] == a.drop_first()[i - 1]);
                        assert(b[i] == b.drop_first()[i - 1]);
                    }
                }
                assert(a =~= b);
            }
        } else {
            vstd::utf8::char_u32_cast(a[0], a[0] as u32);
            vstd::utf8::char_u32_cast(b[0], b[0] as u32);
            assert(a[0] as u32 != b[0] as u32);
        }
    }
}

pub proof fn lemma_num_lt_asymm(a: Seq<char>, b: Seq<char>)
    requires
        num_lt(a, b),
    ensures
        !num_lt(b, a),
    decreases a.len(),
{
    if a.len() == b.len() && a.len() > 0 && a[0] == b[0] {
        lemma_num_lt_asymm(a.drop_first(), b.drop_first());
    }
}

pub proof fn lemma_num_lt_trans(a: Seq<char>, b: Seq<char>, c: Seq<char>)
    requires
        num_lt(a, b),
        num_lt(b, c),
    ensures
        num_lt(a, c),
    decreases a.len(),
{
    if a.len() == b.len() && b.len() == c.len() && a.len() > 0 {
        if a[0] == b[0] && b[0] == c[0] {
            lemma_num_lt_trans(a.drop_first(), b.drop_first(), c.drop_first());
        }
    }
}

pub proof fn lemma_key_lt_trichotomy(a: Seq<Seq<char>>, b: Seq<Seq<char>>)
    ensures
        key_lt(a, b) || key_lt(b, a) || a == b,
    decreases a.len(),
{
    if a.len() > 0 && b.len() > 0 {
        lemma_num_lt_trichotomy(a[0], b[0]);
        if !num_lt(a[0], b[0]) && !num_lt(b[0], a[0]) {
            lemma_key_lt_trichotomy(a.drop_first(), b.drop_first());
            if a.drop_first() == b.drop_first() {
                assert(a[0] == b[0]);
                assert(a.drop_first().len() == b.drop_first().len());
                assert forall|i: int| 0 <= i < a.len() implies a[i] == b[i] by {
                    if i > 0 {
                        assert(a.drop_first()[i - 1] == b.drop_first()[i - 1]);
                        assert(a[i] == a.drop_first()[i - 1]);
                        assert(b[i] == b.drop_first()[i - 1]);
                    }
                }
                assert(a =~= b);
            }
        }
    } else if a.len() == 0 && b.len() == 0 {
        assert(a =~= b);
    }
}

pub proof fn lemma_key_lt_asymm(a: Seq<Seq<char>>, b: Seq<Seq<char>>)
    requires
        key_lt(a, b),
    ensures
        !key_lt(b, a),
    decreases a.len(),
{
    if a.len() > 0 && b.len() > 0 {
        if !num_lt(a[0], b[0]) && !num_lt(b[0], a[0]) {
            lemma_key_lt_asymm(a.drop_first(), b.drop_first());
        } else {
            lemma_num_lt_asymm(a[0], b[0]);
        }
    }
}

pub proof fn lemma_key_lt_trans(a: Seq<Seq<char>>, b: Seq<Seq<char>>, c: Seq<Seq<char>>)
    requires
        key_lt(a, b),
        key_lt(b, c),
    ensures
        key_lt(a, c),
    decreases a.len(),
{
    if a.len() > 0 && b.len() > 0 && c.len() > 0 {
        lemma_num_lt_trichotomy(a[0], b[0]);
        lemma_num_lt_trichotomy(b[0], c[0]);
        if num_lt(a[0], b[0]) && num_lt(b[0], c[0]) {
            lemma_num_lt_trans(a[0], b[0], c[0]);
        } else if num_lt(a[0], b[0]) && b[0] == c[0] {
        } else if a[0] == b[0] && num_lt(b[0], c[0]) {
        } else {
            lemma_key_lt_trans(a.drop_first(), b.drop_first(), c.drop_first());
        }
    }
}

/// The version order is transitive.
pub proof fn lemma_version_lt_trans(a: Seq<char>, b: Seq<char>, c: Seq<char>)
    requires
        spec_version_lt(a, b),
        spec_version_lt(b, c),
    ensures
        spec_version_lt(a, c),
{
    lemma_key_lt_trans(version_key(a), version_key(b), version_key(c));
}

/// Two versions are strictly ordered one way or the other, or their component
/// keys coincide (they denote the same version number).
pub proof fn lemma_version_lt_connex(a: Seq<char>, b: Seq<char>)
    ensures
        spec_version_lt(a, b) || spec_version_lt(b, a) || version_key(a) == version_key(b),
{
    lemma_key_lt_trichotomy(version_key(a), version_key(b));
}

/// No version is below itself.
pub proof fn lemma_version_lt_irrefl(a: Seq<char>)
    ensures
        !spec_version_lt(a, a),
{
    if spec_version_lt(a, a) {
        lemma_key_lt_asymm(version_key(a), version_key(a));
    }
}

/// The order is strict: no version is below itself.
pub proof fn lemma_version_lt_asymm(a: Seq<char>, b: Seq<char>)
    requires
        spec_version_lt(a, b),
    ensures
        !spec_version_lt(b, a),
{
    lemma_key_lt_asymm(version_key(a), version_key(b));
}

fn is_digit_exec(c: char) -> (r: bool)
    ensures
        r == is_digit(c),
{
    '0' <= c && c <= '9'
}

proof fn lemma_digits_end(s: Seq<char>)
    ensures
        0 <= digits_end(s) <= s.len(),
        forall|j: int| 0 <= j < digits_end(s) ==> is_digit(s[j]),
        digits_end(s) < s.len() ==> !is_digit(s[digits_end(s)]),
    decreases s.len(),
{
    if s.len() > 0 && is_digit(s[0]) {
        lemma_digits_end(s.drop_first());
        assert forall|j: int| 0 <= j < digits_end(s) implies is_digit(s[j]) by {
            if j > 0 {
                assert(is_digit(s.drop_first()[j - 1]));
                assert(s.drop_first()[j - 1] == s[j]);
            }
        }
    }
}

proof fn lemma_zeros_end(s: Seq<char>)
    ensures
        0 <= zeros_end(s) <= s.len(),
        forall|j: int| 0 <= j < zeros_end(s) ==> s[j] == '0',
        zeros_end(s) < s.len() ==> s[zeros_end(s)] != '0',
    decreases s.len(),
{
    if s.len() > 0 && s[0] == '0' {
        lemma_zeros_end(s.drop_first());
        assert forall|j: int| 0 <= j < zeros_end(s) implies s[j] == '0' by {
            if j > 0 {
                assert(s.drop_first()[j - 1] == '0');
                assert(s.drop_first()[j - 1] == s[j]);
            }
        }
    }
}

/// Canonical key of one version component.
fn comp_key_str(s: &str) -> (r: String)
    ensures
        r@ == comp_key(s@),
{
    let len = s.unicode_len();
    let mut e: usize = 0;
    while e < len && is_digit_exec(s.get_char(e))
        invariant
            e <= len,
            len == s@.len(),
            forall|j: int| 0 <= j < e ==> is_digit(s@[j]),
        decreases len - e,
    {
        e = e + 1;
    }
    proof {
        lemma_digits_end(s@);
        assert(e == digits_end(s@));
    }
    let mut z: usize = 0;
    while z < e && s.get_char(z) == '0'
        invariant
            z <= e,
            e == digits_end(s@) <= s@.len(),
            len == s@.len(),
            forall|j: int| 0 <= j < z ==> s@[j] == '0',
        decreases e - z,
    {
        z = z + 1;
    }
    proof {
        let d = digits_prefix(s@);
        lemma_zeros_end(d);
        assert(forall|j: int| 0 <= j < d.len() ==> d[j] == s@[j]);
        assert(z == zeros_end(d)) by {
            if z < e {
                assert(s@[z as int] != '0');
                assert(d[z as int] != '0');
            }
        }
        assert(s@.subrange(z as int, e as int) =~= d.skip(zeros_end(d)));
    }
    let piece = s.substring_char(z, e);
    piece.to_owned()
}

proof fn lemma_num_lt_skip(a: Seq<char>, b: Seq<char>, i: int)
    requires
        a.len() == b.len(),
        0 <= i <= a.len(),
        forall|j: int| 0 <= j < i ==> a[j] == b[j],
    ensures
        num_lt(a, b) == num_lt(a.skip(i), b.skip(i)),
    decreases i,
{
    if i == 0 {
        assert(a.skip(0) =~= a);
        assert(b.skip(0) =~= b);
    } else {
        assert(a[0] == b[0]);
        assert(a.drop_first().len() == b.drop_first().len());
        lemma_num_lt_skip(a.drop_first(), b.drop_first(), i - 1);
        assert(a.drop_first().skip(i - 1) =~= a.skip(i));
        assert(b.drop_first().skip(i - 1) =~= b.skip(i));
    }
}

/// Numeric order of two canonical digit runs.
fn num_lt_str(a: &str, b: &str) -> (r: bool)
    ensures
        r == num_lt(a@, b@),
{
    let alen = a.unicode_len();
    let blen = b.unicode_len();
    if alen < blen {
        return true;
    }
    if alen > blen {
        return false;
    }
    let mut i: usize = 0;
    while i < alen
        invariant
            i <= alen,
            alen == a@.len(),
            alen == b@.len(),
            forall|j: int| 0 <= j < i ==> a@[j] == b@[j],
        decreases alen - i,
    {
        let ca = a.get_char(i);
        let cb = b.get_char(i);
        if ca != cb {
            proof {
                lemma_num_lt_skip(a@, b@, i as int);
            }
            return (ca as u32) < (cb as u32);
        }
        i = i + 1;
    }
    proof {
        assert(a@ =~= b@);
        if num_lt(a@, b@) {
            lemma_num_lt_asymm(a@, b@);
        }
    }
    false
}

proof fn lemma_key_lt_skip(a: Seq<Seq<char>>, b: Seq<Seq<char>>, i: int)
    requires
        0 <= i <= a.len(),
        i <= b.len(),
        forall|j: int| 0 <= j < i ==> a[j] == b[j],
    ensures
        key_lt(a, b) == key_lt(a.skip(i), b.skip(i)),
    decreases i,
{
    if i == 0 {
        assert(a.skip(0) =~= a);
        assert(b.skip(0) =~= b);
    } else {
        assert(a[0] == b[0]);
        assert(!num_lt(a[0], b[0])) by {
            if num_lt(a[0], b[0]) {
                lemma_num_lt_asymm(a[0], b[0]);
            }
        }
        lemma_key_lt_skip(a.drop_first(), b.drop_first(), i - 1);
        assert(a.drop_first().skip(i - 1) =~= a.skip(i));
        assert(b.drop_first().skip(i - 1) =~= b.skip(i));
    }
}

/// Strict version order, as `spec_version_lt` states it.
pub fn version_lt(a: &str, b: &str) -> (r: bool)
    ensures
        r == spec_version_lt(a@, b@),
{
    let av = split_str(a, '.');
    let bv = split_str(b, '.');
    let ghost ka = version_key(a@);
    let ghost kb = version_key(b@);
    proof {
        assert(ka.len() == av@.len());
        assert(kb.len() == bv@.len());
    }
    let mut i: usize = 0;
    loop
        invariant
            i <= av.len(),
            i <= bv.len(),
            ka == version_key(a@),
            kb == version_key(b@),
            ka.len() == av@.len(),
            kb.len() == bv@.len(),
            forall|j: int| 0 <= j < av@.len() ==> ka[j] == comp_key(av@[j]@),
            forall|j: int| 0 <= j < bv@.len() ==> kb[j] == comp_key(bv@[j]@),
            forall|j: int| 0 <= j < i ==> ka[j] == kb[j],
        decreases av.len() - i,
    {
        if i == av.len() || i == bv.len() {
            proof {
                lemma_key_lt_skip(ka, kb, i as int);
            }
            return i == av.len() && i < bv.len();
        }
        let ck_a = comp_key_str(av[i].as_str());
        let ck_b = comp_key_str(bv[i].as_str());
        if num_lt_str(ck_a.as_str(), ck_b.as_str()) {
            proof {
                lemma_key_lt_skip(ka, kb, i as int);
            }
            return true;
        }
        if num_lt_str(ck_b.as_str(), ck_a.as_str()) {
            proof {
                lemma_key_lt_skip(ka, kb, i as int);
                lemma_num_lt_asymm(kb[i as int], ka[i as int]);
            }
            return false;
        }
        proof {
            lemma_num_lt_trichotomy(ck_a@, ck_b@);
        }
        i = i + 1;
    }
}

} // verus!
