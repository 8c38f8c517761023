//! The semantic-version grammar: character classes, identifiers, the
//! `major.minor.patch[-pre][+build]` shape, and a parser proved against it.

use vstd::prelude::*;

verus! {

/// A decimal digit (code points 48 through 57, `'0'` through `'9'`).
pub open spec fn is_digit(c: char) -> bool {
    48 <= c as int && c as int <= 57
}

/// The numeric value of a digit character.
pub open spec fn digit_val(c: char) -> int {
    c as int - 48
}

/// A character allowed in pre-release and build identifiers:
/// an ASCII digit, letter, or hyphen.
pub open spec fn is_ident_char(c: char) -> bool {
    is_digit(c)
    || (97 <= c as int && c as int <= 122)
    || (65 <= c as int && c as int <= 90)
    || c == '-'
}

/// A numeric identifier: one or more digits, with no leading zero
/// unless the identifier is exactly "0".
pub open spec fn is_num_ident(s: Seq<char>) -> bool {
    s.len() > 0
    && (forall|i: int| 0 <= i < s.len() ==> is_digit(#[trigger] s[i]))
    && (s.len() > 1 ==> s[0] != '0')
}

/// An alphanumeric identifier: identifier characters with at least one
/// non-digit among them.
pub open spec fn is_alnum_ident(s: Seq<char>) -> bool {
    s.len() > 0
    && (forall|i: int| 0 <= i < s.len() ==> is_ident_char(#[trigger] s[i]))
    && (exists|i: int| 0 <= i < s.len() && !is_digit(#[trigger] s[i]))
}

/// A pre-release identifier is either numeric or alphanumeric.
pub open spec fn is_pre_ident(s: Seq<char>) -> bool {
    is_num_ident(s) || is_alnum_ident(s)
}

/// A build identifier: one or more identifier characters
/// (leading zeros are permitted here).
pub open spec fn is_build_ident(s: Seq<char>) -> bool {
    s.len() > 0 && (forall|i: int| 0 <= i < s.len() ==> is_ident_char(#[trigger] s[i]))
}

/// The numeric value of a digit string, most significant digit first.
pub open spec fn num_value(s: Seq<char>) -> int
    decreases s.len(),
{
    if s.len() == 0 {
        0
    } else {
        num_value(s.drop_last()) * 10 + digit_val(s.last())
    }
}

/// The index of the first occurrence of `c` in `s`, or `s.len()` if `c`
/// does not occur.
pub open spec fn first_pos(s: Seq<char>, c: char) -> int
    decreases s.len(),
{
    if s.len() == 0 {
        0
    } else if s[0] == c {
        0
    } else {
        1 + first_pos(s.subrange(1, s.len() as int), c)
    }
}

/// `first_pos` stays within the bounds of the sequence.
pub broadcast proof fn lemma_first_pos_bounds(s: Seq<char>, c: char)
    ensures
        0 <= #[trigger] first_pos(s, c) <= s.len(),
    decreases s.len(),
{
    if s.len() != 0 && s[0] != c {
        lemma_first_pos_bounds(s.subrange(1, s.len() as int), c);
    }
}

/// `first_pos` points at the first occurrence: `c` is there (when in
/// bounds) and nowhere earlier.
pub proof fn lemma_first_pos_char(s: Seq<char>, c: char)
    ensures
        first_pos(s, c) < s.len() ==> s[first_pos(s, c)] == c,
        forall|j: int| 0 <= j < first_pos(s, c) ==> s[j] != c,
    decreases s.len(),
{
    if s.len() != 0 && s[0] != c {
        let t = s.subrange(1, s.len() as int);
        lemma_first_pos_bounds(t, c);
        lemma_first_pos_char(t, c);
        assert forall|j: int| 0 <= j < first_pos(s, c) implies s[j] != c by {
            if j > 0 {
                assert(t[j - 1] == s[j]);
            }
        }
    }
}

/// A digit string's value is non-negative.
pub proof fn lemma_num_value_nonneg(s: Seq<char>)
    requires
        forall|i: int| 0 <= i < s.len() ==> is_digit(#[trigger] s[i]),
    ensures
        num_value(s) >= 0,
    decreases s.len(),
{
    if s.len() != 0 {
        lemma_num_value_nonneg(s.drop_last());
    }
}

/// Extending a digit string on the right can only increase its value.
pub proof fn lemma_num_value_prefix(s: Seq<char>, k: int)
    requires
        forall|i: int| 0 <= i < s.len() ==> is_digit(#[trigger] s[i]),
        0 <= k <= s.len(),
    ensures
        num_value(s.subrange(0, k)) <= num_value(s),
    decreases s.len(),
{
    if k == s.len() {
        assert(s.subrange(0, k) =~= s);
    } else {
        let t = s.drop_last();
        assert(t.subrange(0, k) =~= s.subrange(0, k));
        lemma_num_value_prefix(t, k);
        lemma_num_value_nonneg(t);
    }
}

/// A valid dot-separated pre-release section: one or more pre-release
/// identifiers separated by `'.'`.
pub open spec fn valid_pre(s: Seq<char>) -> bool
    decreases s.len(),
{
    let d = first_pos(s, '.');
    if 0 <= d < s.len() {
        is_pre_ident(s.subrange(0, d)) && valid_pre(s.subrange(d + 1, s.len() as int))
    } else {
        is_pre_ident(s)
    }
}

/// The identifiers of a dot-separated section, in order.
pub open spec fn split_pre(s: Seq<char>) -> Seq<Seq<char>>
    decreases s.len(),
{
    let d = first_pos(s, '.');
    if 0 <= d < s.len() {
        seq![s.subrange(0, d)] + split_pre(s.subrange(d + 1, s.len() as int))
    } else {
        seq![s]
    }
}

/// A valid dot-separated build-metadata section.
pub open spec fn valid_build(s: Seq<char>) -> bool
    decreases s.len(),
{
    let d = first_pos(s, '.');
    if 0 <= d < s.len() {
        is_build_ident(s.subrange(0, d)) && valid_build(s.subrange(d + 1, s.len() as int))
    } else {
        is_build_ident(s)
    }
}

/// Every identifier of a valid pre-release section is a valid
/// pre-release identifier.
pub proof fn lemma_split_pre_valid(s: Seq<char>)
    requires
        valid_pre(s),
    ensures
        forall|i: int| 0 <= i < split_pre(s).len() ==> is_pre_ident(#[trigger] split_pre(s)[i]),
    decreases s.len(),
{
    let d = first_pos(s, '.');
    lemma_first_pos_bounds(s, '.');
    if 0 <= d < s.len() {
        let t = s.subrange(d + 1, s.len() as int);
        lemma_split_pre_valid(t);
        assert forall|i: int| 0 <= i < split_pre(s).len() implies is_pre_ident(
            #[trigger] split_pre(s)[i],
        ) by {
            if i > 0 {
                assert(split_pre(s)[i] == split_pre(t)[i - 1]);
            }
        }
    }
}

/// Where the build metadata starts: the index of the first `'+'`,
/// or the length of the string if there is none.
pub open spec fn plus_pos(s: Seq<char>) -> int {
    first_pos(s, '+')
}

/// Where the version core ends: the index of the first `'-'` before the
/// build metadata, or the start of the build metadata if there is none.
pub open spec fn core_end(s: Seq<char>) -> int {
    first_pos(s.subrange(0, plus_pos(s)), '-')
}

/// The `major.minor.patch` core of the string.
pub open spec fn spec_core(s: Seq<char>) -> Seq<char> {
    s.subrange(0, core_end(s))
}

/// Whether the string carries a pre-release section.
pub open spec fn has_pre(s: Seq<char>) -> bool {
    core_end(s) < plus_pos(s)
}

/// The pre-release section: between the first `'-'` and the build metadata.
pub open spec fn spec_pre(s: Seq<char>) -> Seq<char> {
    s.subrange(core_end(s) + 1, plus_pos(s))
}

/// Whether the string carries build metadata.
pub open spec fn has_build(s: Seq<char>) -> bool {
    plus_pos(s) < s.len()
}

/// The build metadata: everything after the first `'+'`.
pub open spec fn spec_build(s: Seq<char>) -> Seq<char> {
    s.subrange(plus_pos(s) + 1, s.len() as int)
}

/// A valid version core: exactly three numeric identifiers separated
/// by dots.
pub open spec fn valid_core(s: Seq<char>) -> bool {
    let d1 = first_pos(s, '.');
    if 0 <= d1 < s.len() {
        let rest = s.subrange(d1 + 1, s.len() as int);
        let d2 = first_pos(rest, '.');
        if 0 <= d2 < rest.len() {
            is_num_ident(s.subrange(0, d1)) && is_num_ident(rest.subrange(0, d2))
                && is_num_ident(rest.subrange(d2 + 1, rest.len() as int))
        } else {
            false
        }
    } else {
        false
    }
}

/// A string of the semantic-version grammar:
/// `major.minor.patch`, an optional `-` pre-release section, and
/// optional `+` build metadata.
pub open spec fn valid_semver(s: Seq<char>) -> bool {
    valid_core(spec_core(s)) && (has_pre(s) ==> valid_pre(spec_pre(s))) && (has_build(s)
        ==> valid_build(spec_build(s)))
}

/// The mathematical content of a version, as precedence sees it:
/// the three numeric components and the pre-release identifiers.
/// Build metadata does not take part in precedence and is left out.
#[verifier::ext_equal]
pub ghost struct VerKey {
    pub major: int,
    pub minor: int,
    pub patch: int,
    pub pre: Seq<Seq<char>>,
}

/// The key of a grammatically valid version string.
pub open spec fn key_of(s: Seq<char>) -> VerKey {
    let core = spec_core(s);
    let d1 = first_pos(core, '.');
    let rest = core.subrange(d1 + 1, core.len() as int);
    let d2 = first_pos(rest, '.');
    VerKey {
        major: num_value(core.subrange(0, d1)),
        minor: num_value(rest.subrange(0, d2)),
        patch: num_value(rest.subrange(d2 + 1, rest.len() as int)),
        pre: if has_pre(s) {
            split_pre(spec_pre(s))
        } else {
            Seq::empty()
        },
    }
}

/// Whether the three numeric components fit the machine representation.
pub open spec fn fits_u64(s: Seq<char>) -> bool {
    key_of(s).major <= u64::MAX && key_of(s).minor <= u64::MAX && key_of(s).patch <= u64::MAX
}

/// All identifiers of a key's pre-release list are valid.
pub open spec fn key_wf(k: VerKey) -> bool {
    forall|i: int| 0 <= i < k.pre.len() ==> is_pre_ident(#[trigger] k.pre[i])
}

/// A parsed semantic version. The pre-release identifiers keep their
/// characters; the build metadata is kept verbatim (it never takes part
/// in precedence).
pub struct SemVer {
    pub major: u64,
    pub minor: u64,
    pub patch: u64,
    pub pre: Vec<Vec<char>>,
    pub build: Vec<char>,
}

impl SemVer {
    /// The invariant that parsing establishes: every pre-release
    /// identifier and the build metadata are grammatically valid.
    pub open spec fn wf(self) -> bool {
        (forall|i: int| 0 <= i < self.pre@.len() ==> is_pre_ident(#[trigger] self.pre@[i]@)) && (
        self.build@.len() == 0 || valid_build(self.build@))
    }
}

impl View for SemVer {
    type V = VerKey;

    open spec fn view(&self) -> VerKey {
        VerKey {
            major: self.major as int,
            minor: self.minor as int,
            patch: self.patch as int,
            pre: self.pre.deep_view(),
        }
    }
}

/// First index of `c` in `s[start..end)`, or `end` if `c` is absent there.
fn find_char_range(s: &str, start: usize, end: usize, c: char) -> (r: usize)
    requires
        start <= end <= s@.len(),
    ensures
        start <= r <= end,
        r - start == first_pos(s@.subrange(start as int, end as int), c),
{
    let ghost sub = s@.subrange(start as int, end as int);
    proof {
        lemma_first_pos_bounds(sub, c);
        lemma_first_pos_char(sub, c);
    }
    let mut i = start;
    while i < end
        invariant
            start <= i <= end <= s@.len(),
            forall|j: int| start <= j < i ==> s@[j] != c,
            sub == s@.subrange(start as int, end as int),
            0 <= first_pos(sub, c) <= sub.len(),
            first_pos(sub, c) < sub.len() ==> sub[first_pos(sub, c)] == c,
            forall|j: int| 0 <= j < first_pos(sub, c) ==> sub[j] != c,
        decreases end - i,
    {
        if s.get_char(i) == c {
            proof {
                let f = first_pos(sub, c);
                if f < i - start {
                    assert(s@[start + f] != c);
                    assert(sub[f] == s@[start + f]);
                    assert(false);
                }
                if f > i - start {
                    assert(sub[i - start] != c);
                    assert(sub[i - start] == s@[i as int]);
                    assert(false);
                }
            }
            return i;
        }
        i += 1;
    }
    proof {
        let f = first_pos(sub, c);
        if f < sub.len() {
            assert(sub[f] == s@[start + f]);
            assert(false);
        }
    }
    end
}

/// The characters of `s[start..end)`, as a vector.
fn collect_chars(s: &str, start: usize, end: usize) -> (v: Vec<char>)
    requires
        start <= end <= s@.len(),
    ensures
        v@ == s@.subrange(start as int, end as int),
{
    let mut v: Vec<char> = Vec::new();
    let mut i = start;
    while i < end
        invariant
            start <= i <= end <= s@.len(),
            v@ == s@.subrange(start as int, i as int),
        decreases end - i,
    {
        let c = s.get_char(i);
        v.push(c);
        proof {
            assert(v@ =~= s@.subrange(start as int, i + 1));
        }
        i += 1;
    }
    v
}

/// Parses `s[start..end)` as a numeric identifier with a value that fits
/// the machine word; rejects anything else, leading zeros and overflow
/// included.
fn parse_num_range(s: &str, start: usize, end: usize) -> (r: Option<u64>)
    requires
        start <= end <= s@.len(),
    ensures
        ({
            let sub = s@.subrange(start as int, end as int);
            &&& (r is Some <==> is_num_ident(sub) && num_value(sub) <= u64::MAX)
            &&& (r matches Some(v) ==> v as int == num_value(sub))
        }),
{
    let ghost sub = s@.subrange(start as int, end as int);
    if start == end {
        return None;
    }
    if end - start > 1 && s.get_char(start) == '0' {
        proof {
            assert(sub[0] == s@[start as int]);
        }
        return None;
    }
    let mut acc: u64 = 0;
    let mut i = start;
    while i < end
        invariant
            start <= i <= end <= s@.len(),
            start < end,
            sub == s@.subrange(start as int, end as int),
            forall|j: int| 0 <= j < i - start ==> is_digit(#[trigger] sub[j]),
            acc as int == num_value(sub.subrange(0, i - start)),
            end - start > 1 ==> s@[start as int] != '0',
        decreases end - i,
    {
        let c = s.get_char(i);
        let u = c as u32;
        if !(48 <= u && u <= 57) {
            proof {
                assert(sub[i - start] == s@[i as int]);
                assert(!is_digit(sub[i - start]));
            }
            return None;
        }
        let d = (u - 48) as u64;
        proof {
            assert(sub[i - start] == s@[i as int]);
            assert(is_digit(sub[i - start]));
            assert(d as int == digit_val(sub[i - start]));
        }
        let ghost k = i - start;
        let ghost pref = sub.subrange(0, k + 1);
        proof {
            assert(pref.drop_last() =~= sub.subrange(0, k));
            assert(pref.last() == sub[k]);
            assert(num_value(pref) == acc as int * 10 + d as int);
        }
        let step = match acc.checked_mul(10) {
            Some(a) => a.checked_add(d),
            None => None,
        };
        match step {
            Some(next) => {
                acc = next;
            },
            None => {
                proof {
                    if is_num_ident(sub) && num_value(sub) <= u64::MAX {
                        lemma_num_value_prefix(sub, k + 1);
                        assert(false);
                    }
                }
                return None;
            },
        }
        i += 1;
    }
    proof {
        assert(sub.subrange(0, end - start) =~= sub);
        if end - start > 1 {
            assert(sub[0] == s@[start as int]);
        }
        assert(is_num_ident(sub));
    }
    Some(acc)
}

/// Whether `c` may appear in a pre-release or build identifier.
fn ident_char(c: char) -> (r: bool)
    ensures
        r == is_ident_char(c),
{
    let u = c as u32;
    (48 <= u && u <= 57) || (97 <= u && u <= 122) || (65 <= u && u <= 90) || c == '-'
}

/// Whether `s[start..end)` is a valid pre-release identifier.
fn check_pre_ident(s: &str, start: usize, end: usize) -> (r: bool)
    requires
        start <= end <= s@.len(),
    ensures
        r == is_pre_ident(s@.subrange(start as int, end as int)),
{
    let ghost sub = s@.subrange(start as int, end as int);
    if start == end {
        return false;
    }
    let mut nondigit = false;
    let ghost mut w: int = 0;
    let mut i = start;
    while i < end
        invariant
            start <= i <= end <= s@.len(),
            start < end,
            sub == s@.subrange(start as int, end as int),
            forall|j: int| 0 <= j < i - start ==> is_ident_char(#[trigger] sub[j]),
            nondigit ==> 0 <= w < i - start && !is_digit(sub[w]),
            !nondigit ==> forall|j: int| 0 <= j < i - start ==> is_digit(#[trigger] sub[j]),
        decreases end - i,
    {
        let c = s.get_char(i);
        proof {
            assert(sub[i - start] == s@[i as int]);
        }
        if !ident_char(c) {
            proof {
                assert(!is_ident_char(sub[i - start]));
                assert(!is_num_ident(sub));
                assert(!is_alnum_ident(sub));
            }
            return false;
        }
        let u = c as u32;
        if !(48 <= u && u <= 57) && !nondigit {
            nondigit = true;
            proof {
                w = i - start;
            }
        }
        i += 1;
    }
    if nondigit {
        proof {
            assert(is_alnum_ident(sub));
        }
        true
    } else {
        // all digits: a numeric identifier, unless a zero leads
        if end - start > 1 && s.get_char(start) == '0' {
            proof {
                assert(sub[0] == s@[start as int]);
                assert(!is_num_ident(sub));
                assert(!is_alnum_ident(sub));
            }
            false
        } else {
            proof {
                assert(is_num_ident(sub));
            }
            true
        }
    }
}

/// Parses `s[start..end)` as a dot-separated pre-release section,
/// returning its identifiers in order.
fn parse_pre_section(s: &str, start: usize, end: usize) -> (r: Option<Vec<Vec<char>>>)
    requires
        start <= end <= s@.len(),
    ensures
        ({
            let sub = s@.subrange(start as int, end as int);
            &&& (r is Some <==> valid_pre(sub))
            &&& (r matches Some(v) ==> v.deep_view() == split_pre(sub) && (forall|i: int|
                0 <= i < v@.len() ==> is_pre_ident(#[trigger] v@[i]@)))
        }),
{
    let ghost sub = s@.subrange(start as int, end as int);
    let mut out: Vec<Vec<char>> = Vec::new();
    let mut pos = start;
    loop
        invariant
            start <= pos <= end <= s@.len(),
            sub == s@.subrange(start as int, end as int),
            valid_pre(sub) == valid_pre(s@.subrange(pos as int, end as int)),
            valid_pre(sub) ==> split_pre(sub) == out.deep_view() + split_pre(
                s@.subrange(pos as int, end as int),
            ),
            forall|i: int| 0 <= i < out@.len() ==> is_pre_ident(#[trigger] out@[i]@),
        decreases end - pos,
    {
        let ghost t = s@.subrange(pos as int, end as int);
        let d = find_char_range(s, pos, end, '.');
        proof {
            lemma_first_pos_bounds(t, '.');
            assert(t.subrange(0, d - pos) =~= s@.subrange(pos as int, d as int));
            if (d as int) < end {
                assert(t.subrange(d - pos + 1, t.len() as int) =~= s@.subrange(
                    d + 1,
                    end as int,
                ));
            } else {
                assert(t.subrange(0, d - pos) =~= t);
            }
        }
        if !check_pre_ident(s, pos, d) {
            proof {
                assert(!valid_pre(t));
            }
            return None;
        }
        let id = collect_chars(s, pos, d);
        proof {
            assert(id.deep_view() =~= id@);
        }
        let ghost old_dv = out.deep_view();
        out.push(id);
        proof {
            assert(out.deep_view() =~= old_dv + seq![s@.subrange(pos as int, d as int)]);
        }
        if d == end {
            proof {
                assert(valid_pre(t));
                assert(split_pre(t) == seq![t]);
                assert(t =~= s@.subrange(pos as int, d as int));
                assert(split_pre(sub) =~= out.deep_view());
            }
            return Some(out);
        }
        proof {
            let t2 = s@.subrange(d + 1, end as int);
            assert(valid_pre(t) == (is_pre_ident(t.subrange(0, d - pos)) && valid_pre(t2)));
            assert(valid_pre(sub) == valid_pre(t2));
            if valid_pre(sub) {
                assert(split_pre(t) == seq![t.subrange(0, d - pos)] + split_pre(t2));
                assert(t.subrange(0, d - pos) =~= s@.subrange(pos as int, d as int));
                assert(split_pre(sub) =~= out.deep_view() + split_pre(t2));
            }
        }
        pos = d + 1;
    }
}

/// Whether `s[start..end)` is a valid dot-separated build-metadata
/// section.
fn check_build_section(s: &str, start: usize, end: usize) -> (r: bool)
    requires
        start <= end <= s@.len(),
    ensures
        r == valid_build(s@.subrange(start as int, end as int)),
{
    let ghost sub = s@.subrange(start as int, end as int);
    let mut pos = start;
    loop
        invariant
            start <= pos <= end <= s@.len(),
            sub == s@.subrange(start as int, end as int),
            valid_build(sub) == valid_build(s@.subrange(pos as int, end as int)),
        decreases end - pos,
    {
        let ghost t = s@.subrange(pos as int, end as int);
        let d = find_char_range(s, pos, end, '.');
        proof {
            lemma_first_pos_bounds(t, '.');
            assert(t.subrange(0, d - pos) =~= s@.subrange(pos as int, d as int));
            if (d as int) < end {
                assert(t.subrange(d - pos + 1, t.len() as int) =~= s@.subrange(
                    d + 1,
                    end as int,
                ));
            } else {
                assert(t.subrange(0, d - pos) =~= t);
            }
        }
        // check that s[pos..d) is a build identifier
        if pos == d {
            proof {
                assert(!is_build_ident(t.subrange(0, d - pos)));
                assert(!valid_build(t));
            }
            return false;
        }
        let mut i = pos;
        while i < d
            invariant
                pos <= i <= d <= s@.len(),
                pos < d,
                start <= pos,
                t == s@.subrange(pos as int, end as int),
                sub == s@.subrange(start as int, end as int),
                valid_build(sub) == valid_build(t),
                pos <= d <= end <= s@.len(),
                d - pos == first_pos(t, '.'),
                forall|j: int|
                    pos <= j < i ==> is_ident_char(#[trigger] s@[j]),
            decreases d - i,
        {
            let c = s.get_char(i);
            if !ident_char(c) {
                proof {
                    assert(t.subrange(0, d - pos)[i - pos] == s@[i as int]);
                    assert(!is_build_ident(t.subrange(0, d - pos)));
                    assert(!valid_build(t));
                }
                return false;
            }
            i += 1;
        }
        proof {
            assert forall|j: int| 0 <= j < d - pos implies is_ident_char(
                #[trigger] t.subrange(0, d - pos)[j],
            ) by {
                assert(t.subrange(0, d - pos)[j] == s@[pos + j]);
            }
            assert(is_build_ident(t.subrange(0, d - pos)));
        }
        if d == end {
            proof {
                assert(valid_build(t));
            }
            return true;
        }
        proof {
            let t2 = s@.subrange(d + 1, end as int);
            assert(valid_build(t) == (is_build_ident(t.subrange(0, d - pos)) && valid_build(t2)));
        }
        pos = d + 1;
    }
}

/// Parses a whole string against the semantic-version grammar.
///
/// Returns the parsed version exactly when the string is grammatically
/// valid and its three numeric components fit the machine word; the
/// result's key is the key of the string, and the build metadata is kept
/// verbatim.
pub fn parse_semver(s: &str) -> (r: Option<SemVer>)
    ensures
        (r is Some) <==> (valid_semver(s@) && fits_u64(s@)),
        r matches Some(v) ==> v.wf() && v@ == key_of(s@) && v.build@ == (if has_build(s@) {
            spec_build(s@)
        } else {
            Seq::<char>::empty()
        }),
{
    let n = s.unicode_len();
    proof {
        assert(s@.subrange(0, n as int) =~= s@);
    }
    let p = find_char_range(s, 0, n, '+');
    proof {
        assert(plus_pos(s@) == p as int);
    }
    let h = find_char_range(s, 0, p, '-');
    let ghost core = s@.subrange(0, h as int);
    proof {
        assert(core_end(s@) == h as int);
        assert(spec_core(s@) == core);
    }
    let d1 = find_char_range(s, 0, h, '.');
    proof {
        assert(first_pos(core, '.') == d1 as int);
    }
    if d1 == h {
        proof {
            assert(!valid_core(core));
        }
        return None;
    }
    let d2 = find_char_range(s, d1 + 1, h, '.');
    let ghost rest = core.subrange(d1 + 1, core.len() as int);
    proof {
        assert(rest =~= s@.subrange(d1 + 1, h as int));
        assert(first_pos(rest, '.') == d2 - d1 - 1);
    }
    if d2 == h {
        proof {
            assert(!valid_core(core));
        }
        return None;
    }
    proof {
        assert(core.subrange(0, d1 as int) =~= s@.subrange(0, d1 as int));
        assert(rest.subrange(0, d2 - d1 - 1) =~= s@.subrange(d1 + 1, d2 as int));
        assert(rest.subrange(d2 - d1, rest.len() as int) =~= s@.subrange(d2 + 1, h as int));
    }
    let major = match parse_num_range(s, 0, d1) {
        Some(v) => v,
        None => {
            proof {
                if valid_semver(s@) && fits_u64(s@) {
                    assert(is_num_ident(s@.subrange(0, d1 as int)));
                    assert(key_of(s@).major == num_value(s@.subrange(0, d1 as int)));
                    assert(false);
                }
            }
            return None;
        },
    };
    let minor = match parse_num_range(s, d1 + 1, d2) {
        Some(v) => v,
        None => {
            proof {
                if valid_semver(s@) && fits_u64(s@) {
                    assert(is_num_ident(s@.subrange(d1 + 1, d2 as int)));
                    assert(key_of(s@).minor == num_value(s@.subrange(d1 + 1, d2 as int)));
                    assert(false);
                }
            }
            return None;
        },
    };
    let patch = match parse_num_range(s, d2 + 1, h) {
        Some(v) => v,
        None => {
            proof {
                if valid_semver(s@) && fits_u64(s@) {
                    assert(is_num_ident(s@.subrange(d2 + 1, h as int)));
                    assert(key_of(s@).patch == num_value(s@.subrange(d2 + 1, h as int)));
                    assert(false);
                }
            }
            return None;
        },
    };
    proof {
        assert(valid_core(core));
    }
    let pre: Vec<Vec<char>> = if h < p {
        match parse_pre_section(s, h + 1, p) {
            Some(v) => v,
            None => {
                proof {
                    assert(spec_pre(s@) == s@.subrange(h + 1, p as int));
                    assert(!valid_semver(s@));
                }
                return None;
            },
        }
    } else {
        Vec::new()
    };
    let build: Vec<char> = if p < n {
        if !check_build_section(s, p + 1, n) {
            proof {
                assert(spec_build(s@) == s@.subrange(p + 1, n as int));
                assert(!valid_semver(s@));
            }
            return None;
        }
        collect_chars(s, p + 1, n)
    } else {
        Vec::new()
    };
    let v = SemVer { major, minor, patch, pre, build };
    proof {
        assert(valid_semver(s@));
        assert(fits_u64(s@));
        if h < p {
            assert(spec_pre(s@) == s@.subrange(h + 1, p as int));
        } else {
            assert(v.pre.deep_view() =~= Seq::<Seq<char>>::empty());
        }
        assert(v@ =~= key_of(s@));
        if !(p < n) {
            assert(v.build@ =~= Seq::<char>::empty());
        }
    }
    Some(v)
}

} // verus!
