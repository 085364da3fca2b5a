//! Package versions and the constraints that dependencies put on them.
//!
//! A version is a sequence of unsigned 32-bit components written as decimal
//! numbers joined by dots. Two versions compare component by component over
//! their common prefix: when that prefix is equal they compare equal, so
//! `1.0` and `1.0.0` are the same version for ordering purposes.
use crate::text::{all_digits, decimal, digit_value, digits_value, is_digit, lemma_decimal, push_decimal, trim, trim_bounds, trim_end, trim_start};
use vstd::prelude::*;
use vstd::string::*;

verus! {

/// A package version.
#[derive(Clone, Debug, PartialEq, Eq, Hash)]
pub struct Version {
    /// The components, most significant first.
    pub components: Vec<u32>,
}

impl View for Version {
    type V = Seq<u32>;

    open spec fn view(&self) -> Seq<u32> {
        self.components@
    }
}

/// The error of a version or constraint that cannot be parsed.
#[derive(Clone, Copy, Debug, PartialEq, Eq)]
pub enum ParseError {
    /// A fragment of the version is empty, holds a character other than a
    /// decimal digit, or does not fit in 32 bits.
    InvalidVersion,
}

// ---------------------------------------------------------------------------
// Text form of versions

/// The fragments of `s` between dots.
pub open spec fn split_dots(s: Seq<char>) -> Seq<Seq<char>>
    decreases s.len(),
{
    if s.len() == 0 {
        seq![Seq::<char>::empty()]
    } else {
        let r = split_dots(s.drop_last());
        if s.last() == '.' {
            r.push(Seq::<char>::empty())
        } else {
            r.update(r.len() - 1, r.last().push(s.last()))
        }
    }
}

/// A fragment whose digits may be followed by more digits.
pub open spec fn fragment_ok(f: Seq<char>) -> bool {
    all_digits(f) && digits_value(f) <= u32::MAX
}

/// A complete fragment: a non-empty decimal number that fits in 32 bits.
pub open spec fn valid_fragment(f: Seq<char>) -> bool {
    f.len() > 0 && fragment_ok(f)
}

/// The components that the text `s` denotes, if it is a version.
///
/// Surrounding whitespace is ignored; every fragment between dots must be a
/// non-empty decimal number that fits in 32 bits.
pub open spec fn parse_version(s: Seq<char>) -> Option<Seq<u32>> {
    let fr = split_dots(trim(s));
    if forall|k: int| 0 <= k < fr.len() ==> valid_fragment(#[trigger] fr[k]) {
        Some(Seq::new(fr.len(), |k: int| digits_value(fr[k]) as u32))
    } else {
        None
    }
}

/// The text of a version: its components in decimal, joined by dots.
pub open spec fn format_version(v: Seq<u32>) -> Seq<char>
    decreases v.len(),
{
    if v.len() == 0 {
        Seq::<char>::empty()
    } else if v.len() == 1 {
        decimal(v[0] as nat)
    } else {
        format_version(v.drop_last()).push('.') + decimal(v.last() as nat)
    }
}

// ---------------------------------------------------------------------------
// Ordering

/// The comparison of `a` and `b` from index `i` on: -1, 0 or 1.
pub open spec fn cmp_from(a: Seq<u32>, b: Seq<u32>, i: int) -> int
    decreases a.len() - i,
{
    if i < 0 || i >= a.len() || i >= b.len() {
        0
    } else if a[i] < b[i] {
        -1
    } else if a[i] > b[i] {
        1
    } else {
        cmp_from(a, b, i + 1)
    }
}

/// The order of versions: -1 when `a` comes before `b`, 1 when after, 0
/// when the components they share are equal.
pub open spec fn cmp_versions(a: Seq<u32>, b: Seq<u32>) -> int {
    cmp_from(a, b, 0)
}

proof fn lemma_cmp_from_antisym(a: Seq<u32>, b: Seq<u32>, i: int)
    requires
        i >= 0,
    ensures
        cmp_from(a, b, i) == -cmp_from(b, a, i),
        -1 <= cmp_from(a, b, i) <= 1,
    decreases a.len() - i,
{
    if i < a.len() && i < b.len() && a[i] == b[i] {
        lemma_cmp_from_antisym(a, b, i + 1);
    }
}

proof fn lemma_cmp_from_refl(a: Seq<u32>, i: int)
    requires
        i >= 0,
    ensures
        cmp_from(a, a, i) == 0,
    decreases a.len() - i,
{
    if i < a.len() {
        lemma_cmp_from_refl(a, i + 1);
    }
}

/// Swapping the operands of a comparison negates its result.
pub proof fn lemma_cmp_antisymmetric(a: Seq<u32>, b: Seq<u32>)
    ensures
        cmp_versions(a, b) == -cmp_versions(b, a),
        -1 <= cmp_versions(a, b) <= 1,
{
    lemma_cmp_from_antisym(a, b, 0);
}

/// Every version compares equal to itself.
pub proof fn lemma_cmp_reflexive(a: Seq<u32>)
    ensures
        cmp_versions(a, a) == 0,
{
    lemma_cmp_from_refl(a, 0);
}

// ---------------------------------------------------------------------------
// Lemmas on the text form

proof fn lemma_split_len(s: Seq<char>)
    ensures
        split_dots(s).len() >= 1,
    decreases s.len(),
{
    if s.len() > 0 {
        lemma_split_len(s.drop_last());
    }
}

proof fn lemma_split_no_dot(d: Seq<char>)
    requires
        all_digits(d),
    ensures
        split_dots(d) == seq![d],
    decreases d.len(),
{
    if d.len() > 0 {
        let p = d.drop_last();
        assert(all_digits(p)) by {
            assert forall|i: int| 0 <= i < p.len() implies is_digit(#[trigger] p[i]) by {
                assert(p[i] == d[i]);
            }
        }
        lemma_split_no_dot(p);
        assert(is_digit(d[d.len() - 1]));
        assert(p.push(d.last()) =~= d);
        assert(seq![p].update(0, p.push(d.last())) =~= seq![d]);
    } else {
        assert(d =~= Seq::<char>::empty());
    }
}

proof fn lemma_split_after_dot(x: Seq<char>, y: Seq<char>)
    requires
        all_digits(y),
    ensures
        split_dots(x.push('.') + y) == split_dots(x).push(y),
    decreases y.len(),
{
    lemma_split_len(x);
    if y.len() == 0 {
        assert(x.push('.') + y =~= x.push('.'));
        assert(x.push('.').drop_last() =~= x);
        assert(y =~= Seq::<char>::empty());
    } else {
        let p = y.drop_last();
        assert(all_digits(p)) by {
            assert forall|i: int| 0 <= i < p.len() implies is_digit(#[trigger] p[i]) by {
                assert(p[i] == y[i]);
            }
        }
        lemma_split_after_dot(x, p);
        let s = x.push('.') + y;
        assert(s.drop_last() =~= x.push('.') + p);
        assert(s.last() == y.last());
        assert(is_digit(y[y.len() - 1]));
        let r = split_dots(x).push(p);
        assert(p.push(y.last()) =~= y);
        assert(r.last() == p);
        assert(r.update(r.len() - 1, r.last().push(y.last())) =~= split_dots(x).push(y));
    }
}

proof fn lemma_format_shape(v: Seq<u32>)
    requires
        v.len() > 0,
    ensures
        split_dots(format_version(v)) == Seq::new(v.len(), |k: int| decimal(v[k] as nat)),
        format_version(v).len() > 0,
        format_version(v)[0] == decimal(v[0] as nat)[0],
        format_version(v).last() == decimal(v.last() as nat).last(),
    decreases v.len(),
{
    lemma_decimal(v.last() as nat);
    if v.len() == 1 {
        lemma_split_no_dot(decimal(v[0] as nat));
        assert(seq![decimal(v[0] as nat)] =~= Seq::new(v.len(), |k: int| decimal(v[k] as nat)));
    } else {
        let p = v.drop_last();
        lemma_format_shape(p);
        lemma_split_after_dot(format_version(p), decimal(v.last() as nat));
        assert(Seq::new(p.len(), |k: int| decimal(p[k] as nat)).push(decimal(v.last() as nat))
            =~= Seq::new(v.len(), |k: int| decimal(v[k] as nat)));
        let f = format_version(p).push('.') + decimal(v.last() as nat);
        assert(f[0] == format_version(p)[0]);
    }
}

/// Formatting a non-empty version and parsing the text gives the version
/// back.
pub proof fn lemma_parse_format(v: Seq<u32>)
    requires
        v.len() > 0,
    ensures
        parse_version(format_version(v)) == Some(v),
{
    let f = format_version(v);
    lemma_format_shape(v);
    lemma_decimal(v[0] as nat);
    lemma_decimal(v.last() as nat);
    assert(trim_start(f) == f);
    assert(trim_end(f) == f);
    let fr = split_dots(trim(f));
    assert forall|k: int| 0 <= k < fr.len() implies valid_fragment(#[trigger] fr[k]) by {
        lemma_decimal(v[k] as nat);
    }
    assert forall|k: int| 0 <= k < fr.len() implies digits_value(#[trigger] fr[k]) as u32 == v[k] by {
        lemma_decimal(v[k] as nat);
    }
    assert(Seq::new(fr.len(), |k: int| digits_value(fr[k]) as u32) =~= v);
}

proof fn lemma_digits_push(f: Seq<char>, c: char)
    ensures
        f.push(c).drop_last() == f,
        digits_value(f.push(c)) == digits_value(f) * 10 + digit_value(c),
        all_digits(f.push(c)) == (all_digits(f) && is_digit(c)),
{
    assert(f.push(c).drop_last() =~= f);
    if all_digits(f.push(c)) {
        assert forall|i: int| 0 <= i < f.len() implies is_digit(#[trigger] f[i]) by {
            assert(f.push(c)[i] == f[i]);
        }
        assert(f.push(c)[f.len() as int] == c);
    }
    if all_digits(f) && is_digit(c) {
        assert forall|i: int| 0 <= i < f.push(c).len() implies is_digit(#[trigger] f.push(c)[i]) by {
            if i < f.len() {
                assert(f.push(c)[i] == f[i]);
            }
        }
    }
}

// ---------------------------------------------------------------------------
// Executable operations

impl Version {
    /// Parses a version from its text form.
    ///
    /// Whitespace around the text is ignored. Fails with `InvalidVersion` when
    /// a fragment between dots is empty, holds a non-digit character, or does
    /// not fit in 32 bits.
    pub fn parse(s: &str) -> (r: Result<Version, ParseError>)
        ensures
            match r {
                Ok(v) => parse_version(s@) == Some(v@),
                Err(e) => parse_version(s@) is None && e == ParseError::InvalidVersion,
            },
    {
        let (start, end) = trim_bounds(s);
        let ghost t = trim(s@);
        let mut comps: Vec<u32> = Vec::new();
        let mut cur: u64 = 0;
        let mut cur_len: usize = 0;
        let mut ok = true;
        let mut i: usize = start;
        proof {
            assert(t.subrange(0, 0) =~= Seq::<char>::empty());
        }
        while i < end
            invariant
                start <= i <= end,
                end <= s@.len(),
                cur_len <= i,
                t == s@.subrange(start as int, end as int),
                ok ==> {
                    let fr = split_dots(t.subrange(0, i - start));
                    &&& comps@.len() == fr.len() - 1
                    &&& forall|k: int|
                        0 <= k < comps@.len() ==> valid_fragment(#[trigger] fr[k]) && comps@[k]
                            == digits_value(fr[k])
                    &&& fragment_ok(fr.last())
                    &&& cur == digits_value(fr.last())
                    &&& cur_len == fr.last().len()
                },
                !ok ==> {
                    let fr = split_dots(t.subrange(0, i - start));
                    exists|k: int| 0 <= k < fr.len() && !fragment_ok(#[trigger] fr[k]) || (0 <= k
                        < fr.len() - 1 && !valid_fragment(fr[k]))
                },
            decreases end - i,
        {
            let c = s.get_char(i);
            let ghost pre = t.subrange(0, i - start);
            let ghost post = t.subrange(0, i + 1 - start);
            let ghost fr = split_dots(pre);
            proof {
                lemma_split_len(pre);
                assert(post.drop_last() =~= pre);
                assert(post.last() == c);
                assert(post.len() > 0);
            }
            if c == '.' {
                proof {
                    assert(split_dots(post) == fr.push(Seq::<char>::empty()));
                    if !ok {
                        let k = choose|k: int|
                            0 <= k < fr.len() && !fragment_ok(#[trigger] fr[k]) || (0 <= k < fr.len()
                                - 1 && !valid_fragment(fr[k]));
                        assert(split_dots(post)[k] == fr[k]);
                    }
                }
                if ok {
                    if cur_len == 0 {
                        ok = false;
                        proof {
                            assert(split_dots(post)[fr.len() - 1] == fr.last());
                            assert(!valid_fragment(split_dots(post)[fr.len() - 1]));
                        }
                    } else {
                        comps.push(cur as u32);
                        proof {
                            let np = split_dots(post);
                            assert forall|k: int| 0 <= k < comps@.len() implies valid_fragment(
                                #[trigger] np[k],
                            ) && comps@[k] == digits_value(np[k]) by {
                                assert(np[k] == fr[k]);
                            }
                            assert(np.last() =~= Seq::<char>::empty());
                            assert(all_digits(np.last()));
                        }
                        cur = 0;
                        cur_len = 0;
                    }
                }
            } else {
                let ghost last = fr.last();
                proof {
                    lemma_digits_push(last, c);
                    assert(split_dots(post) == fr.update(fr.len() - 1, last.push(c)));
                    let np = split_dots(post);
                    assert(np.last() == last.push(c));
                    if !ok {
                        let k = choose|k: int|
                            0 <= k < fr.len() && !fragment_ok(#[trigger] fr[k]) || (0 <= k < fr.len()
                                - 1 && !valid_fragment(fr[k]));
                        if k == fr.len() - 1 {
                            assert(!fragment_ok(np[k]));
                        } else {
                            assert(np[k] == fr[k]);
                        }
                    }
                }
                if ok {
                    if '0' <= c && c <= '9' {
                        let d = (c as u32 - '0' as u32) as u64;
                        cur = cur * 10 + d;
                        cur_len = cur_len + 1;
                        if cur > 0xffff_ffffu64 {
                            ok = false;
                            proof {
                                let np = split_dots(post);
                                assert(!fragment_ok(np[fr.len() - 1]));
                            }
                        } else {
                            proof {
                                let np = split_dots(post);
                                assert forall|k: int| 0 <= k < comps@.len() implies valid_fragment(
                                    #[trigger] np[k],
                                ) && comps@[k] == digits_value(np[k]) by {
                                    assert(np[k] == fr[k]);
                                }
                            }
                        }
                    } else {
                        ok = false;
                        proof {
                            let np = split_dots(post);
                            assert(!fragment_ok(np[fr.len() - 1]));
                        }
                    }
                }
            }
            i = i + 1;
        }
        proof {
            assert(t.subrange(0, end - start) =~= t);
        }
        let ghost fr = split_dots(t);
        proof {
            lemma_split_len(t);
        }
        if ok && cur_len > 0 {
            comps.push(cur as u32);
            let v = Version { components: comps };
            proof {
                assert forall|k: int| 0 <= k < fr.len() implies valid_fragment(#[trigger] fr[k]) by {
                    if k < fr.len() - 1 {
                        assert(valid_fragment(fr[k]));
                    }
                }
                assert(Seq::new(fr.len(), |k: int| digits_value(fr[k]) as u32) =~= v@);
            }
            Ok(v)
        } else {
            proof {
                if !ok {
                    let k = choose|k: int|
                        0 <= k < fr.len() && !fragment_ok(#[trigger] fr[k]) || (0 <= k < fr.len() - 1
                            && !valid_fragment(fr[k]));
                    assert(!valid_fragment(fr[k]));
                } else {
                    assert(!valid_fragment(fr[fr.len() - 1]));
                }
            }
            Err(ParseError::InvalidVersion)
        }
    }

    /// The text form of the version: its components in decimal, joined by
    /// dots.
    pub fn to_string(&self) -> (r: String)
        ensures
            r@ == format_version(self@),
    {
        let mut out = String::new();
        let n = self.components.len();
        let mut i: usize = 0;
        while i < n
            invariant
                n == self@.len(),
                i <= n,
                out@ == format_version(self@.subrange(0, i as int)),
            decreases n - i,
        {
            let ghost before = out@;
            if i > 0 {
                proof {
                    reveal_strlit(".");
                }
                out.append(".");
            }
            push_decimal(&mut out, self.components[i]);
            proof {
                let p = self@.subrange(0, i + 1);
                assert(p.drop_last() =~= self@.subrange(0, i as int));
                if i == 0 {
                    assert(before =~= Seq::<char>::empty());
                    assert(out@ =~= decimal(p[0] as nat));
                } else {
                    assert(out@ =~= format_version(p.drop_last()).push('.') + decimal(p.last() as nat));
                }
            }
            i = i + 1;
        }
        proof {
            assert(self@.subrange(0, n as int) =~= self@);
        }
        out
    }

    /// Compares two versions over the components that they share.
    pub fn cmp(&self, other: &Version) -> (r: core::cmp::Ordering)
        ensures
            (r == core::cmp::Ordering::Less) == (cmp_versions(self@, other@) == -1),
            (r == core::cmp::Ordering::Equal) == (cmp_versions(self@, other@) == 0),
            (r == core::cmp::Ordering::Greater) == (cmp_versions(self@, other@) == 1),
    {
        let n = self.components.len();
        let m = other.components.len();
        let mut i: usize = 0;
        while i < n && i < m
            invariant
                n == self@.len(),
                m == other@.len(),
                i <= n,
                cmp_versions(self@, other@) == cmp_from(self@, other@, i as int),
            decreases n - i,
        {
            let a = self.components[i];
            let b = other.components[i];
            if a < b {
                return core::cmp::Ordering::Less;
            }
            if a > b {
                return core::cmp::Ordering::Greater;
            }
            i = i + 1;
        }
        core::cmp::Ordering::Equal
    }
}


// ---------------------------------------------------------------------------
// Constraints

/// A constraint that a dependency puts on the version of a package.
#[derive(Clone, Debug, PartialEq, Eq, Hash)]
pub enum VersionConstraint {
    /// Any version matches.
    Any,
    /// The version must be equal to the given version.
    Equal(Version),
    /// The version must be less than or equal to the given version.
    LessOrEqual(Version),
    /// The version must be less than the given version.
    Less(Version),
    /// The version must be greater than or equal to the given version.
    GreaterOrEqual(Version),
    /// The version must be greater than the given version.
    Greater(Version),
}

/// The mathematical form of a [`VersionConstraint`].
pub enum ConstraintView {
    Any,
    Equal(Seq<u32>),
    LessOrEqual(Seq<u32>),
    Less(Seq<u32>),
    GreaterOrEqual(Seq<u32>),
    Greater(Seq<u32>),
}

impl View for VersionConstraint {
    type V = ConstraintView;

    open spec fn view(&self) -> ConstraintView {
        match self {
            VersionConstraint::Any => ConstraintView::Any,
            VersionConstraint::Equal(v) => ConstraintView::Equal(v@),
            VersionConstraint::LessOrEqual(v) => ConstraintView::LessOrEqual(v@),
            VersionConstraint::Less(v) => ConstraintView::Less(v@),
            VersionConstraint::GreaterOrEqual(v) => ConstraintView::GreaterOrEqual(v@),
            VersionConstraint::Greater(v) => ConstraintView::Greater(v@),
        }
    }
}

/// Whether version `v` satisfies constraint `c`.
pub open spec fn satisfies(c: ConstraintView, v: Seq<u32>) -> bool {
    match c {
        ConstraintView::Any => true,
        ConstraintView::Equal(w) => cmp_versions(v, w) == 0,
        ConstraintView::LessOrEqual(w) => cmp_versions(v, w) <= 0,
        ConstraintView::Less(w) => cmp_versions(v, w) == -1,
        ConstraintView::GreaterOrEqual(w) => cmp_versions(v, w) >= 0,
        ConstraintView::Greater(w) => cmp_versions(v, w) == 1,
    }
}

/// Wraps the result of parsing the operand of a constraint.
pub open spec fn with_operand(
    v: Option<Seq<u32>>,
    make: spec_fn(Seq<u32>) -> ConstraintView,
) -> Option<ConstraintView> {
    match v {
        Some(w) => Some(make(w)),
        None => None,
    }
}

/// The constraint that the text `s` denotes, if any.
///
/// After surrounding whitespace is removed, `*` is any version; a leading
/// `=`, `<=`, `<`, `>=` or `>` is followed by the version operand; any other
/// text is a version that must be matched exactly.
pub open spec fn parse_constraint(s: Seq<char>) -> Option<ConstraintView> {
    let t = trim(s);
    if t == seq!['*'] {
        Some(ConstraintView::Any)
    } else if t.len() >= 1 && t[0] == '=' {
        with_operand(parse_version(t.skip(1)), |w| ConstraintView::Equal(w))
    } else if t.len() >= 2 && t[0] == '<' && t[1] == '=' {
        with_operand(parse_version(t.skip(2)), |w| ConstraintView::LessOrEqual(w))
    } else if t.len() >= 1 && t[0] == '<' {
        with_operand(parse_version(t.skip(1)), |w| ConstraintView::Less(w))
    } else if t.len() >= 2 && t[0] == '>' && t[1] == '=' {
        with_operand(parse_version(t.skip(2)), |w| ConstraintView::GreaterOrEqual(w))
    } else if t.len() >= 1 && t[0] == '>' {
        with_operand(parse_version(t.skip(1)), |w| ConstraintView::Greater(w))
    } else {
        with_operand(parse_version(s), |w| ConstraintView::Equal(w))
    }
}

/// The text form of a constraint.
pub open spec fn format_constraint(c: ConstraintView) -> Seq<char> {
    match c {
        ConstraintView::Any => seq!['*'],
        ConstraintView::Equal(w) => seq!['='] + format_version(w),
        ConstraintView::LessOrEqual(w) => seq!['<', '='] + format_version(w),
        ConstraintView::Less(w) => seq!['<'] + format_version(w),
        ConstraintView::GreaterOrEqual(w) => seq!['>', '='] + format_version(w),
        ConstraintView::Greater(w) => seq!['>'] + format_version(w),
    }
}

/// A version always satisfies the constraint of being equal to itself.
pub proof fn lemma_equal_accepts_itself(v: Seq<u32>)
    ensures
        satisfies(ConstraintView::Equal(v), v),
{
    lemma_cmp_reflexive(v);
}

/// When `v1` comes no later than `v2`, `v2` is at least `v1` and `v1` is at
/// most `v2`.
pub proof fn lemma_bounds_accept_ordered(v1: Seq<u32>, v2: Seq<u32>)
    requires
        cmp_versions(v1, v2) <= 0,
    ensures
        satisfies(ConstraintView::GreaterOrEqual(v1), v2),
        satisfies(ConstraintView::LessOrEqual(v2), v1),
{
    lemma_cmp_antisymmetric(v1, v2);
}

proof fn lemma_trim_prefixed(op: Seq<char>, v: Seq<u32>)
    requires
        v.len() > 0,
        op.len() > 0,
        !crate::text::is_space(op[0]),
    ensures
        trim(op + format_version(v)) == op + format_version(v),
        (op + format_version(v)).skip(op.len() as int) == format_version(v),
        format_version(v)[0] != '=',
        format_version(v)[0] != '*',
{
    let f = format_version(v);
    lemma_format_shape(v);
    lemma_decimal(v[0] as nat);
    lemma_decimal(v.last() as nat);
    let t = op + f;
    assert(t[0] == op[0]);
    assert(trim_start(t) == t);
    assert(t.last() == f.last());
    assert(trim_end(t) == t);
    assert(t.skip(op.len() as int) =~= f);
    assert(is_digit(f[0]));
}

/// Formatting a constraint whose version is not empty and parsing the text
/// gives the constraint back.
pub proof fn lemma_parse_format_constraint(c: ConstraintView)
    requires
        match c {
            ConstraintView::Any => true,
            ConstraintView::Equal(w) => w.len() > 0,
            ConstraintView::LessOrEqual(w) => w.len() > 0,
            ConstraintView::Less(w) => w.len() > 0,
            ConstraintView::GreaterOrEqual(w) => w.len() > 0,
            ConstraintView::Greater(w) => w.len() > 0,
        },
    ensures
        parse_constraint(format_constraint(c)) == Some(c),
{
    match c {
        ConstraintView::Any => {
            let t = seq!['*'];
            assert(trim_start(t) == t);
            assert(trim_end(t) == t);
        },
        ConstraintView::Equal(w) => {
            lemma_trim_prefixed(seq!['='], w);
            lemma_parse_format(w);
            assert((seq!['='] + format_version(w))[0] == '=');
        },
        ConstraintView::LessOrEqual(w) => {
            lemma_trim_prefixed(seq!['<', '='], w);
            lemma_parse_format(w);
            let t = seq!['<', '='] + format_version(w);
            assert(t[0] == '<' && t[1] == '=');
        },
        ConstraintView::Less(w) => {
            lemma_trim_prefixed(seq!['<'], w);
            lemma_parse_format(w);
            let t = seq!['<'] + format_version(w);
            assert(t[0] == '<' && t[1] == format_version(w)[0]);
        },
        ConstraintView::GreaterOrEqual(w) => {
            lemma_trim_prefixed(seq!['>', '='], w);
            lemma_parse_format(w);
            let t = seq!['>', '='] + format_version(w);
            assert(t[0] == '>' && t[1] == '=');
        },
        ConstraintView::Greater(w) => {
            lemma_trim_prefixed(seq!['>'], w);
            lemma_parse_format(w);
            let t = seq!['>'] + format_version(w);
            assert(t[0] == '>' && t[1] == format_version(w)[0]);
        },
    }
}

impl VersionConstraint {
    /// Parses a constraint from its text form (`*`, `=X`, `<=X`, `<X`, `>=X`,
    /// `>X`, or a bare version `X` that must be matched exactly).
    pub fn parse(s: &str) -> (r: Result<VersionConstraint, ParseError>)
        ensures
            match r {
                Ok(c) => parse_constraint(s@) == Some(c@),
                Err(e) => parse_constraint(s@) is None && e == ParseError::InvalidVersion,
            },
    {
        let (start, end) = trim_bounds(s);
        let ghost t = trim(s@);
        let len = end - start;
        let c0 = if len >= 1 { s.get_char(start) } else { ' ' };
        let c1 = if len >= 2 { s.get_char(start + 1) } else { ' ' };
        proof {
            if len >= 1 {
                assert(t[0] == c0);
            }
            if len >= 2 {
                assert(t[1] == c1);
            }
        }
        if len == 1 && c0 == '*' {
            assert(t =~= seq!['*']);
            return Ok(VersionConstraint::Any);
        }
        proof {
            if t == seq!['*'] {
                assert(t[0] == '*');
            }
        }
        let skip: usize = if len >= 1 && c0 == '=' {
            1
        } else if len >= 2 && (c0 == '<' || c0 == '>') && c1 == '=' {
            2
        } else if len >= 1 && (c0 == '<' || c0 == '>') {
            1
        } else {
            0
        };
        let operand = if skip == 0 {
            s
        } else {
            s.substring_char(start + skip, end)
        };
        proof {
            if skip > 0 {
                assert(operand@ =~= t.skip(skip as int));
            }
        }
        let v = match Version::parse(operand) {
            Ok(v) => v,
            Err(e) => return Err(e),
        };
        if skip == 0 || c0 == '=' {
            Ok(VersionConstraint::Equal(v))
        } else if c0 == '<' && skip == 2 {
            Ok(VersionConstraint::LessOrEqual(v))
        } else if c0 == '<' {
            Ok(VersionConstraint::Less(v))
        } else if skip == 2 {
            Ok(VersionConstraint::GreaterOrEqual(v))
        } else {
            Ok(VersionConstraint::Greater(v))
        }
    }

    /// Tells whether the given version matches the constraint.
    pub fn is_valid(&self, version: &Version) -> (r: bool)
        ensures
            r == satisfies(self@, version@),
    {
        match self {
            VersionConstraint::Any => true,
            VersionConstraint::Equal(v) => {
                matches!(version.cmp(v), core::cmp::Ordering::Equal)
            },
            VersionConstraint::LessOrEqual(v) => {
                !matches!(version.cmp(v), core::cmp::Ordering::Greater)
            },
            VersionConstraint::Less(v) => matches!(version.cmp(v), core::cmp::Ordering::Less),
            VersionConstraint::GreaterOrEqual(v) => {
                !matches!(version.cmp(v), core::cmp::Ordering::Less)
            },
            VersionConstraint::Greater(v) => {
                matches!(version.cmp(v), core::cmp::Ordering::Greater)
            },
        }
    }

    /// The text form of the constraint.
    pub fn to_string(&self) -> (r: String)
        ensures
            r@ == format_constraint(self@),
    {
        let (op, v): (&str, Option<&Version>) = match self {
            VersionConstraint::Any => ("*", None),
            VersionConstraint::Equal(v) => ("=", Some(v)),
            VersionConstraint::LessOrEqual(v) => ("<=", Some(v)),
            VersionConstraint::Less(v) => ("<", Some(v)),
            VersionConstraint::GreaterOrEqual(v) => (">=", Some(v)),
            VersionConstraint::Greater(v) => (">", Some(v)),
        };
        proof {
            reveal_strlit("*");
            reveal_strlit("=");
            reveal_strlit("<=");
            reveal_strlit("<");
            reveal_strlit(">=");
            reveal_strlit(">");
        }
        let mut out = String::from_str(op);
        match v {
            Some(v) => {
                let text = v.to_string();
                out.append(text.as_str());
            },
            None => {},
        }
        proof {
            match self@ {
                ConstraintView::Any => assert(out@ =~= seq!['*']),
                ConstraintView::Equal(w) => assert(out@ =~= seq!['='] + format_version(w)),
                ConstraintView::LessOrEqual(w) => assert(out@ =~= seq!['<', '='] + format_version(w)),
                ConstraintView::Less(w) => assert(out@ =~= seq!['<'] + format_version(w)),
                ConstraintView::GreaterOrEqual(w) => assert(out@ =~= seq!['>', '='] + format_version(w)),
                ConstraintView::Greater(w) => assert(out@ =~= seq!['>'] + format_version(w)),
            }
        }
        out
    }
}

} // verus!
