//! Semantic-version precedence: ordering on identifiers, pre-release
//! lists, and version keys, with its order laws and an executable
//! comparison.

use vstd::prelude::*;
use crate::version::{
    is_digit, digit_val, num_value, is_num_ident, is_pre_ident, VerKey, key_wf,
    SemVer, lemma_num_value_nonneg,
};

verus! {

/// A digit-only identifier (compared numerically by precedence).
pub open spec fn digits_only(s: Seq<char>) -> bool {
    forall|i: int| 0 <= i < s.len() ==> is_digit(#[trigger] s[i])
}

/// Lexicographic order on character sequences, by code point.
pub open spec fn lex_lt(a: Seq<char>, b: Seq<char>) -> bool
    decreases a.len(),
{
    if b.len() == 0 {
        false
    } else if a.len() == 0 {
        true
    } else if (a[0] as int) < (b[0] as int) {
        true
    } else if a[0] == b[0] {
        lex_lt(a.subrange(1, a.len() as int), b.subrange(1, b.len() as int))
    } else {
        false
    }
}

/// Precedence order on two pre-release identifiers: digit-only
/// identifiers compare numerically and rank below alphanumeric ones;
/// alphanumeric identifiers compare lexicographically.
pub open spec fn ident_lt(a: Seq<char>, b: Seq<char>) -> bool {
    if digits_only(a) && digits_only(b) {
        num_value(a) < num_value(b)
    } else if digits_only(a) {
        true
    } else if digits_only(b) {
        false
    } else {
        lex_lt(a, b)
    }
}

/// Precedence order on pre-release identifier lists: identifier by
/// identifier, a strict prefix ranking below its extensions.
pub open spec fn pre_lt(a: Seq<Seq<char>>, b: Seq<Seq<char>>) -> bool
    decreases a.len(),
{
    if a.len() == 0 {
        b.len() > 0
    } else if b.len() == 0 {
        false
    } else if ident_lt(a[0], b[0]) {
        true
    } else if a[0] == b[0] {
        pre_lt(a.subrange(1, a.len() as int), b.subrange(1, b.len() as int))
    } else {
        false
    }
}

/// Full semantic-version precedence on keys: the numeric components in
/// order, then the rule that any pre-release ranks below the release,
/// then the pre-release lists.
pub open spec fn key_lt(a: VerKey, b: VerKey) -> bool {
    if a.major != b.major {
        a.major < b.major
    } else if a.minor != b.minor {
        a.minor < b.minor
    } else if a.patch != b.patch {
        a.patch < b.patch
    } else if a.pre.len() > 0 && b.pre.len() == 0 {
        true
    } else if a.pre.len() == 0 {
        false
    } else {
        pre_lt(a.pre, b.pre)
    }
}

/// Precedence-equality on keys: equal numeric components and equal
/// pre-release lists (build metadata never counts).
pub open spec fn key_eq(a: VerKey, b: VerKey) -> bool {
    a.major == b.major && a.minor == b.minor && a.patch == b.patch && a.pre == b.pre
}

/// Lexicographic order is irreflexive.
pub proof fn lemma_lex_irrefl(a: Seq<char>)
    ensures
        !lex_lt(a, a),
    decreases a.len(),
{
    if a.len() > 0 {
        lemma_lex_irrefl(a.subrange(1, a.len() as int));
    }
}

/// Lexicographic order is asymmetric, and strict order excludes equality.
pub proof fn lemma_lex_asym(a: Seq<char>, b: Seq<char>)
    requires
        lex_lt(a, b),
    ensures
        !lex_lt(b, a),
        a != b,
    decreases a.len(),
{
    if a.len() != 0 && b.len() != 0 {
        if a[0] == b[0] {
            lemma_lex_asym(a.subrange(1, a.len() as int), b.subrange(1, b.len() as int));
            if a == b {
                assert(a.subrange(1, a.len() as int) =~= b.subrange(1, b.len() as int));
            }
        }
    }
}

/// Lexicographic order is total: of two sequences, one is smaller or
/// they are equal.
pub proof fn lemma_lex_tri(a: Seq<char>, b: Seq<char>)
    ensures
        lex_lt(a, b) || lex_lt(b, a) || a == b,
    decreases a.len(),
{
    if a.len() == 0 && b.len() == 0 {
        assert(a =~= b);
    } else if a.len() != 0 && b.len() != 0 {
        if a[0] as int == b[0] as int {
            assert(a[0] == b[0]);
            let a1 = a.subrange(1, a.len() as int);
            let b1 = b.subrange(1, b.len() as int);
            lemma_lex_tri(a1, b1);
            if a1 == b1 {
                assert(a.len() == b.len());
                assert forall|i: int| 0 <= i < a.len() implies a[i] == b[i] by {
                    if i > 0 {
                        assert(a[i] == a1[i - 1]);
                        assert(b[i] == b1[i - 1]);
                    }
                }
                assert(a =~= b);
            }
        }
    }
}

/// Lexicographic order is transitive.
pub proof fn lemma_lex_trans(a: Seq<char>, b: Seq<char>, c: Seq<char>)
    requires
        lex_lt(a, b),
        lex_lt(b, c),
    ensures
        lex_lt(a, c),
    decreases a.len(),
{
    if a.len() != 0 && b.len() != 0 && c.len() != 0 {
        if a[0] == b[0] && b[0] == c[0] {
            lemma_lex_trans(
                a.subrange(1, a.len() as int),
                b.subrange(1, b.len() as int),
                c.subrange(1, c.len() as int),
            );
        }
    }
}

/// Powers of ten.
pub open spec fn pow10(n: nat) -> int
    decreases n,
{
    if n == 0 {
        1
    } else {
        10 * pow10((n - 1) as nat)
    }
}

/// Powers of ten are positive.
pub proof fn lemma_pow10_pos(n: nat)
    ensures
        pow10(n) >= 1,
    decreases n,
{
    if n > 0 {
        lemma_pow10_pos((n - 1) as nat);
    }
}

/// Powers of ten grow with the exponent.
pub proof fn lemma_pow10_mono(m: nat, n: nat)
    requires
        m <= n,
    ensures
        pow10(m) <= pow10(n),
    decreases n,
{
    if m < n {
        lemma_pow10_mono(m, (n - 1) as nat);
        lemma_pow10_pos((n - 1) as nat);
    }
}

/// A digit string's value is below ten to its length.
pub proof fn lemma_num_upper(s: Seq<char>)
    requires
        digits_only(s),
    ensures
        num_value(s) < pow10(s.len()),
    decreases s.len(),
{
    if s.len() == 0 {
    } else {
        let t = s.drop_last();
        assert(digits_only(t));
        lemma_num_upper(t);
    }
}

/// A digit string with a non-zero leading digit reaches ten to one less
/// than its length.
pub proof fn lemma_num_lower(s: Seq<char>)
    requires
        digits_only(s),
        s.len() >= 1,
        s[0] != '0',
    ensures
        num_value(s) >= pow10((s.len() - 1) as nat),
    decreases s.len(),
{
    if s.len() == 1 {
        assert(s.drop_last() =~= Seq::<char>::empty());
        assert(num_value(Seq::<char>::empty()) == 0);
        assert(s.last() == s[0]);
        assert('0' as int == 48);
        assert(digit_val(s[0]) >= 1);
    } else {
        let t = s.drop_last();
        assert(digits_only(t));
        assert(t[0] == s[0]);
        lemma_num_lower(t);
        assert(digit_val(s.last()) >= 0);
    }
}

/// A shorter numeric identifier has the smaller value.
pub proof fn lemma_num_shorter(a: Seq<char>, b: Seq<char>)
    requires
        is_num_ident(a),
        is_num_ident(b),
        a.len() < b.len(),
    ensures
        num_value(a) < num_value(b),
{
    assert(digits_only(a));
    assert(digits_only(b));
    lemma_num_upper(a);
    lemma_num_lower(b);
    lemma_pow10_mono(a.len(), (b.len() - 1) as nat);
}

/// Splitting a digit string at its first character.
pub proof fn lemma_num_front(s: Seq<char>)
    requires
        digits_only(s),
        s.len() >= 1,
    ensures
        num_value(s) == digit_val(s[0]) * pow10((s.len() - 1) as nat) + num_value(
            s.subrange(1, s.len() as int),
        ),
    decreases s.len(),
{
    let s1 = s.subrange(1, s.len() as int);
    if s.len() == 1 {
        assert(s1 =~= Seq::<char>::empty());
        assert(s.drop_last() =~= Seq::<char>::empty());
        assert(num_value(Seq::<char>::empty()) == 0);
        assert(s.last() == s[0]);
        assert(num_value(s) == digit_val(s[0]));
        assert(pow10((s.len() - 1) as nat) == 1);
        assert(num_value(s1) == 0);
        assert(digit_val(s[0]) * 1 == digit_val(s[0])) by (nonlinear_arith);
    } else {
        let t = s.drop_last();
        let t1 = t.subrange(1, t.len() as int);
        assert(digits_only(t));
        lemma_num_front(t);
        assert(s1.drop_last() =~= t1);
        assert(s1.last() == s.last());
        assert(num_value(s1) == num_value(t1) * 10 + digit_val(s.last()));
        assert(num_value(s) == num_value(t) * 10 + digit_val(s.last()));
        let d0 = digit_val(s[0]);
        let p = pow10((s.len() - 2) as nat);
        assert(t[0] == s[0]);
        assert(num_value(t) == d0 * p + num_value(t1));
        assert((d0 * p + num_value(t1)) * 10 == d0 * p * 10 + num_value(t1) * 10);
        assert(d0 * p * 10 == d0 * (p * 10)) by (nonlinear_arith);
        assert(pow10((s.len() - 1) as nat) == 10 * p);
        assert(num_value(s) == d0 * (p * 10) + num_value(s1));
        assert(p * 10 == 10 * p);
        assert(d0 * (p * 10) == d0 * pow10((s.len() - 1) as nat));
    }
}

/// For digit strings of equal length, lexicographic order is numeric
/// order.
pub proof fn lemma_num_eqlen_lex(a: Seq<char>, b: Seq<char>)
    requires
        digits_only(a),
        digits_only(b),
        a.len() == b.len(),
        lex_lt(a, b),
    ensures
        num_value(a) < num_value(b),
    decreases a.len(),
{
    let a1 = a.subrange(1, a.len() as int);
    let b1 = b.subrange(1, b.len() as int);
    assert(digits_only(a1));
    assert(digits_only(b1));
    lemma_num_front(a);
    lemma_num_front(b);
    let p = pow10((a.len() - 1) as nat);
    lemma_pow10_pos((a.len() - 1) as nat);
    if (a[0] as int) < (b[0] as int) {
        lemma_num_upper(a1);
        lemma_num_value_nonneg(b1);
        let da = digit_val(a[0]);
        let db = digit_val(b[0]);
        assert(da + 1 <= db);
        assert(da * p + p <= db * p) by (nonlinear_arith)
            requires
                da + 1 <= db,
                p >= 1,
        ;
    } else {
        assert(a[0] == b[0]);
        lemma_num_eqlen_lex(a1, b1);
    }
}

/// Two numeric identifiers with the same value are the same string.
pub proof fn lemma_num_inj(a: Seq<char>, b: Seq<char>)
    requires
        is_num_ident(a),
        is_num_ident(b),
        num_value(a) == num_value(b),
    ensures
        a == b,
{
    if a.len() < b.len() {
        lemma_num_shorter(a, b);
    } else if b.len() < a.len() {
        lemma_num_shorter(b, a);
    } else {
        lemma_lex_tri(a, b);
        if lex_lt(a, b) {
            lemma_num_eqlen_lex(a, b);
        } else if lex_lt(b, a) {
            lemma_num_eqlen_lex(b, a);
        }
    }
}

/// Identifier order is irreflexive.
pub proof fn lemma_ident_irrefl(a: Seq<char>)
    ensures
        !ident_lt(a, a),
{
    lemma_lex_irrefl(a);
}

/// Identifier order is asymmetric, and strict order excludes equality.
pub proof fn lemma_ident_asym(a: Seq<char>, b: Seq<char>)
    requires
        ident_lt(a, b),
    ensures
        !ident_lt(b, a),
        a != b,
{
    if !digits_only(a) && !digits_only(b) {
        lemma_lex_asym(a, b);
    }
}

/// Identifier order is transitive.
pub proof fn lemma_ident_trans(a: Seq<char>, b: Seq<char>, c: Seq<char>)
    requires
        ident_lt(a, b),
        ident_lt(b, c),
    ensures
        ident_lt(a, c),
{
    if !digits_only(a) && !digits_only(b) && !digits_only(c) {
        lemma_lex_trans(a, b, c);
    }
}

/// Identifier order is total on valid pre-release identifiers.
pub proof fn lemma_ident_tri(a: Seq<char>, b: Seq<char>)
    requires
        is_pre_ident(a),
        is_pre_ident(b),
    ensures
        ident_lt(a, b) || ident_lt(b, a) || a == b,
{
    if digits_only(a) && digits_only(b) {
        if num_value(a) == num_value(b) {
            assert(is_num_ident(a));
            assert(is_num_ident(b));
            lemma_num_inj(a, b);
        }
    } else if !digits_only(a) && !digits_only(b) {
        lemma_lex_tri(a, b);
    }
}

/// Pre-release list order is irreflexive.
pub proof fn lemma_pre_irrefl(a: Seq<Seq<char>>)
    ensures
        !pre_lt(a, a),
    decreases a.len(),
{
    if a.len() > 0 {
        lemma_ident_irrefl(a[0]);
        lemma_pre_irrefl(a.subrange(1, a.len() as int));
    }
}

/// Pre-release list order is asymmetric, and strict order excludes
/// equality.
pub proof fn lemma_pre_asym(a: Seq<Seq<char>>, b: Seq<Seq<char>>)
    requires
        pre_lt(a, b),
    ensures
        !pre_lt(b, a),
        a != b,
    decreases a.len(),
{
    if a.len() != 0 && b.len() != 0 {
        if ident_lt(a[0], b[0]) {
            lemma_ident_asym(a[0], b[0]);
        } else if a[0] == b[0] {
            lemma_pre_asym(a.subrange(1, a.len() as int), b.subrange(1, b.len() as int));
            if a == b {
                assert(a.subrange(1, a.len() as int) =~= b.subrange(1, b.len() as int));
            }
        }
    }
}

/// Pre-release list order is total on lists of valid identifiers.
pub proof fn lemma_pre_tri(a: Seq<Seq<char>>, b: Seq<Seq<char>>)
    requires
        forall|i: int| 0 <= i < a.len() ==> is_pre_ident(#[trigger] a[i]),
        forall|i: int| 0 <= i < b.len() ==> is_pre_ident(#[trigger] b[i]),
    ensures
        pre_lt(a, b) || pre_lt(b, a) || a == b,
    decreases a.len(),
{
    if a.len() == 0 && b.len() == 0 {
        assert(a =~= b);
    } else if a.len() != 0 && b.len() != 0 {
        lemma_ident_tri(a[0], b[0]);
        if !ident_lt(a[0], b[0]) && !ident_lt(b[0], a[0]) {
            assert(a[0] == b[0]);
            let a1 = a.subrange(1, a.len() as int);
            let b1 = b.subrange(1, b.len() as int);
            assert(forall|i: int| 0 <= i < a1.len() ==> is_pre_ident(#[trigger] a1[i]));
            assert(forall|i: int| 0 <= i < b1.len() ==> is_pre_ident(#[trigger] b1[i]));
            lemma_pre_tri(a1, b1);
            if a1 == b1 {
                assert forall|i: int| 0 <= i < a.len() implies a[i] == b[i] by {
                    if i > 0 {
                        assert(a[i] == a1[i - 1]);
                        assert(b[i] == b1[i - 1]);
                    }
                }
                assert(a =~= b);
            }
        }
    }
}

/// Pre-release list order is transitive.
pub proof fn lemma_pre_trans(a: Seq<Seq<char>>, b: Seq<Seq<char>>, c: Seq<Seq<char>>)
    requires
        pre_lt(a, b),
        pre_lt(b, c),
    ensures
        pre_lt(a, c),
    decreases a.len(),
{
    if a.len() == 0 {
    } else {
        if ident_lt(a[0], b[0]) && ident_lt(b[0], c[0]) {
            lemma_ident_trans(a[0], b[0], c[0]);
        } else if ident_lt(a[0], b[0]) && b[0] == c[0] {
        } else if a[0] == b[0] && ident_lt(b[0], c[0]) {
        } else {
            assert(a[0] == b[0] && b[0] == c[0]);
            lemma_pre_trans(
                a.subrange(1, a.len() as int),
                b.subrange(1, b.len() as int),
                c.subrange(1, c.len() as int),
            );
        }
    }
}

/// Key order is irreflexive.
pub proof fn lemma_key_irrefl(a: VerKey)
    ensures
        !key_lt(a, a),
{
    lemma_pre_irrefl(a.pre);
}

/// Key order is asymmetric, and strict precedence excludes
/// precedence-equality.
pub proof fn lemma_key_asym(a: VerKey, b: VerKey)
    requires
        key_lt(a, b),
    ensures
        !key_lt(b, a),
        !key_eq(a, b),
{
    if a.major == b.major && a.minor == b.minor && a.patch == b.patch {
        if a.pre.len() > 0 && b.pre.len() > 0 {
            lemma_pre_asym(a.pre, b.pre);
        }
    }
}

/// Key order is total up to precedence-equality, for well-formed keys.
pub proof fn lemma_key_tri(a: VerKey, b: VerKey)
    requires
        key_wf(a),
        key_wf(b),
    ensures
        key_lt(a, b) || key_lt(b, a) || key_eq(a, b),
{
    if a.major == b.major && a.minor == b.minor && a.patch == b.patch {
        if a.pre.len() > 0 && b.pre.len() > 0 {
            lemma_pre_tri(a.pre, b.pre);
        } else if a.pre.len() == 0 && b.pre.len() == 0 {
            assert(a.pre =~= b.pre);
        }
    }
}

/// Key order is transitive.
pub proof fn lemma_key_trans(a: VerKey, b: VerKey, c: VerKey)
    requires
        key_lt(a, b),
        key_lt(b, c),
    ensures
        key_lt(a, c),
{
    if a.major == c.major && a.minor == c.minor && a.patch == c.patch {
        if a.pre.len() > 0 && b.pre.len() > 0 && c.pre.len() > 0 {
            lemma_pre_trans(a.pre, b.pre, c.pre);
        }
    }
}

/// Precedence-equal keys compare alike against any third key.
pub proof fn lemma_key_eq_same(a: VerKey, b: VerKey, c: VerKey)
    requires
        key_eq(a, b),
    ensures
        key_lt(a, c) == key_lt(b, c),
        key_lt(c, a) == key_lt(c, b),
{
    assert(a =~= b);
}

/// The outcome of a three-way comparison.
pub enum Rel {
    Lower,
    Same,
    Higher,
}

/// The character at `i`, carrying the character's range into proofs.
fn char_at(v: &Vec<char>, i: usize) -> (c: char)
    requires
        i < v@.len(),
    ensures
        c == v@[i as int],
{
    v[i]
}

/// Whether every character of `v` is a digit.
fn digits_only_vec(v: &Vec<char>) -> (r: bool)
    ensures
        r == digits_only(v@),
{
    let mut i: usize = 0;
    while i < v.len()
        invariant
            0 <= i <= v@.len(),
            forall|j: int| 0 <= j < i ==> is_digit(#[trigger] v@[j]),
        decreases v@.len() - i,
    {
        let c = char_at(v, i);
        let u = c as u32;
        if !(48 <= u && u <= 57) {
            proof {
                assert(!is_digit(v@[i as int]));
            }
            return false;
        }
        proof {
            assert(is_digit(v@[i as int]));
        }
        i += 1;
    }
    true
}

/// Three-way lexicographic comparison by code point.
fn lex_cmp(a: &Vec<char>, b: &Vec<char>) -> (r: Rel)
    ensures
        (r is Lower) == lex_lt(a@, b@),
        (r is Higher) == lex_lt(b@, a@),
        (r is Same) == (a@ == b@),
{
    let mut i: usize = 0;
    loop
        invariant
            0 <= i <= a@.len(),
            i <= b@.len(),
            forall|j: int| 0 <= j < i ==> a@[j] == b@[j],
        decreases a@.len() - i,
    {
        if i == a.len() && i == b.len() {
            proof {
                assert(a@ =~= b@);
                lemma_lex_irrefl(a@);
            }
            return Rel::Same;
        }
        if i == a.len() {
            proof {
                lemma_lex_prefix(a@, b@, i as int);
                lemma_lex_asym(a@, b@);
            }
            return Rel::Lower;
        }
        if i == b.len() {
            proof {
                lemma_lex_prefix(b@, a@, i as int);
                lemma_lex_asym(b@, a@);
            }
            return Rel::Higher;
        }
        let x = char_at(a, i);
        let y = char_at(b, i);
        let ca = x as u32;
        let cb = y as u32;
        if ca < cb {
            proof {
                lemma_lex_diff(a@, b@, i as int);
                lemma_lex_asym(a@, b@);
            }
            return Rel::Lower;
        }
        if cb < ca {
            proof {
                lemma_lex_diff(b@, a@, i as int);
                lemma_lex_asym(b@, a@);
            }
            return Rel::Higher;
        }
        proof {
            assert(a@[i as int] as int == b@[i as int] as int);
            assert(a@[i as int] == b@[i as int]);
        }
        i += 1;
    }
}

/// A proper prefix is lexicographically smaller.
proof fn lemma_lex_prefix(a: Seq<char>, b: Seq<char>, n: int)
    requires
        0 <= n == a.len() < b.len(),
        forall|j: int| 0 <= j < n ==> a[j] == b[j],
    ensures
        lex_lt(a, b),
    decreases n,
{
    if n > 0 {
        let a1 = a.subrange(1, a.len() as int);
        let b1 = b.subrange(1, b.len() as int);
        assert(forall|j: int| 0 <= j < n - 1 ==> a1[j] == b1[j]);
        lemma_lex_prefix(a1, b1, n - 1);
    }
}

/// A smaller character at the first difference decides the order.
proof fn lemma_lex_diff(a: Seq<char>, b: Seq<char>, n: int)
    requires
        0 <= n < a.len(),
        n < b.len(),
        forall|j: int| 0 <= j < n ==> a[j] == b[j],
        (a[n] as int) < (b[n] as int),
    ensures
        lex_lt(a, b),
    decreases n,
{
    if n > 0 {
        let a1 = a.subrange(1, a.len() as int);
        let b1 = b.subrange(1, b.len() as int);
        assert(forall|j: int| 0 <= j < n - 1 ==> a1[j] == b1[j]);
        assert(a1[n - 1] == a[n]);
        assert(b1[n - 1] == b[n]);
        lemma_lex_diff(a1, b1, n - 1);
    }
}

/// Three-way comparison of two valid pre-release identifiers under
/// precedence.
fn ident_cmp(a: &Vec<char>, b: &Vec<char>) -> (r: Rel)
    requires
        is_pre_ident(a@),
        is_pre_ident(b@),
    ensures
        (r is Lower) == ident_lt(a@, b@),
        (r is Higher) == ident_lt(b@, a@),
        (r is Same) == (a@ == b@),
{
    let na = digits_only_vec(a);
    let nb = digits_only_vec(b);
    if na && nb {
        proof {
            assert(is_num_ident(a@));
            assert(is_num_ident(b@));
        }
        if a.len() < b.len() {
            proof {
                lemma_num_shorter(a@, b@);
            }
            Rel::Lower
        } else if b.len() < a.len() {
            proof {
                lemma_num_shorter(b@, a@);
            }
            Rel::Higher
        } else {
            let r = lex_cmp(a, b);
            proof {
                if lex_lt(a@, b@) {
                    lemma_num_eqlen_lex(a@, b@);
                } else if lex_lt(b@, a@) {
                    lemma_num_eqlen_lex(b@, a@);
                }
            }
            r
        }
    } else if na {
        Rel::Lower
    } else if nb {
        Rel::Higher
    } else {
        lex_cmp(a, b)
    }
}

/// Whether version `a` precedes version `b` under full
/// semantic-version precedence.
pub fn version_lt(a: &SemVer, b: &SemVer) -> (r: bool)
    requires
        a.wf(),
        b.wf(),
    ensures
        r == key_lt(a@, b@),
{
    if a.major != b.major {
        return a.major < b.major;
    }
    if a.minor != b.minor {
        return a.minor < b.minor;
    }
    if a.patch != b.patch {
        return a.patch < b.patch;
    }
    proof {
        assert(a@.pre.len() == a.pre@.len());
        assert(b@.pre.len() == b.pre@.len());
    }
    if a.pre.len() > 0 && b.pre.len() == 0 {
        return true;
    }
    if a.pre.len() == 0 {
        return false;
    }
    let mut i: usize = 0;
    proof {
        assert(a@.pre.subrange(0, a@.pre.len() as int) =~= a@.pre);
        assert(b@.pre.subrange(0, b@.pre.len() as int) =~= b@.pre);
    }
    loop
        invariant
            0 <= i <= a.pre@.len(),
            i <= b.pre@.len(),
            a.wf(),
            b.wf(),
            a@.pre.len() == a.pre@.len(),
            b@.pre.len() == b.pre@.len(),
            key_lt(a@, b@) == pre_lt(
                a@.pre.subrange(i as int, a@.pre.len() as int),
                b@.pre.subrange(i as int, b@.pre.len() as int),
            ),
        decreases a.pre@.len() - i,
    {
        let ghost x = a@.pre.subrange(i as int, a@.pre.len() as int);
        let ghost y = b@.pre.subrange(i as int, b@.pre.len() as int);
        if i == a.pre.len() {
            return b.pre.len() > i;
        }
        if i == b.pre.len() {
            return false;
        }
        proof {
            assert(x[0] == a@.pre[i as int]);
            assert(y[0] == b@.pre[i as int]);
            assert(a@.pre[i as int] =~= a.pre@[i as int]@);
            assert(b@.pre[i as int] =~= b.pre@[i as int]@);
        }
        match ident_cmp(&a.pre[i], &b.pre[i]) {
            Rel::Lower => {
                return true;
            },
            Rel::Higher => {
                proof {
                    lemma_ident_asym(y[0], x[0]);
                }
                return false;
            },
            Rel::Same => {
                proof {
                    assert(x.subrange(1, x.len() as int) =~= a@.pre.subrange(
                        i + 1,
                        a@.pre.len() as int,
                    ));
                    assert(y.subrange(1, y.len() as int) =~= b@.pre.subrange(
                        i + 1,
                        b@.pre.len() as int,
                    ));
                    lemma_ident_irrefl(x[0]);
                }
                i += 1;
            },
        }
    }
}

} // verus!
