//! Semantic versions and version requirements. Parsing, ordering and
//! requirement matching are done by the `semver` crate; a `Version` holds the
//! parsed parts as plain values.

use vstd::prelude::*;
use crate::text::{decimal, digit_char, append_decimal, push_char, three_way};
use crate::order::{is_digit, all_digits, first_segment, has_dot, after_dot, lemma_dot_pos,
    prerelease_order, build_order, lemma_prerelease_order, lemma_build_order};

verus! {

/// A character allowed in a pre-release or build identifier.
pub open spec fn ident_char(c: char) -> bool {
    ('A' <= c && c <= 'Z') || ('a' <= c && c <= 'z') || is_digit(c) || c == '-'
}

/// `s` is a non-empty list of non-empty dot-separated identifiers made of
/// `ident_char`s; when `pre` holds, no numeric identifier has a leading zero.
pub open spec fn valid_dotted(s: Seq<char>, pre: bool) -> bool
    decreases s.len(),
{
    let seg = first_segment(s);
    &&& seg.len() > 0
    &&& forall|i: int| 0 <= i < seg.len() ==> ident_char(seg[i])
    &&& (pre && all_digits(seg) && seg.len() > 1 ==> seg[0] != '0')
    &&& (has_dot(s) ==> {
        proof {
            lemma_dot_pos(s);
        }
        valid_dotted(after_dot(s), pre)
    })
}

/// What `semver::Prerelease::new` accepts.
pub open spec fn valid_prerelease(s: Seq<char>) -> bool {
    s.len() == 0 || valid_dotted(s, true)
}

/// What `semver::BuildMetadata::new` accepts.
pub open spec fn valid_build(s: Seq<char>) -> bool {
    s.len() == 0 || valid_dotted(s, false)
}

/// A semantic version `major.minor.patch[-pre][+build]`.
#[derive(Debug)]
pub struct Version {
    pub major: u64,
    pub minor: u64,
    pub patch: u64,
    /// Pre-release identifiers, without the leading '-'; empty for a release.
    pub pre: String,
    /// Build metadata, without the leading '+'; empty when there is none.
    pub build: String,
}

/// The text of version parts (major, minor, patch, pre-release and build
/// text), as `semver` displays them: `major.minor.patch[-pre][+build]`.
pub open spec fn parts_text(p: (u64, u64, u64, Seq<char>, Seq<char>)) -> Seq<char> {
    decimal(p.0 as nat) + seq!['.'] + decimal(p.1 as nat) + seq!['.'] + decimal(p.2 as nat)
        + suffix_text(p.3, p.4)
}

/// The pre-release and build part of a version's text: `-pre` where there is
/// a pre-release, then `+build` where there is build metadata.
pub open spec fn suffix_text(pre: Seq<char>, build: Seq<char>) -> Seq<char> {
    pre_part(pre) + build_part(build)
}

/// `-pre`, or nothing for a release.
pub open spec fn pre_part(pre: Seq<char>) -> Seq<char> {
    if pre.len() > 0 {
        seq!['-'] + pre
    } else {
        Seq::<char>::empty()
    }
}

/// `+build`, or nothing without build metadata.
pub open spec fn build_part(build: Seq<char>) -> Seq<char> {
    if build.len() > 0 {
        seq!['+'] + build
    } else {
        Seq::<char>::empty()
    }
}

/// Version parts whose pre-release and build text `semver` accepts.
pub open spec fn valid_parts(p: (u64, u64, u64, Seq<char>, Seq<char>)) -> bool {
    valid_prerelease(p.3) && valid_build(p.4)
}

/// The text of a version, as `semver` displays it.
pub open spec fn version_text(v: Version) -> Seq<char> {
    parts_text((v.major, v.minor, v.patch, v.pre@, v.build@))
}

/// Precedence of two versions (-1, 0 or 1), as `semver` orders them: by
/// major, minor and patch, then pre-release, then build metadata.
pub open spec fn version_order(a: Version, b: Version) -> int {
    if a.major != b.major {
        three_way(a.major as int, b.major as int)
    } else if a.minor != b.minor {
        three_way(a.minor as int, b.minor as int)
    } else if a.patch != b.patch {
        three_way(a.patch as int, b.patch as int)
    } else if prerelease_order(a.pre@, b.pre@) != 0 {
        prerelease_order(a.pre@, b.pre@)
    } else {
        build_order(a.build@, b.build@)
    }
}

/// `a` and `b` have the same parts.
pub open spec fn same_version(a: Version, b: Version) -> bool {
    &&& a.major == b.major
    &&& a.minor == b.minor
    &&& a.patch == b.patch
    &&& a.pre@ == b.pre@
    &&& a.build@ == b.build@
}

/// `version_order` is a total order whose ties are exactly equal versions.
pub proof fn lemma_version_order(a: Version, b: Version, c: Version)
    ensures
        version_order(a, b) == -version_order(b, a),
        -1 <= version_order(a, b) <= 1,
        version_order(a, b) == 0 <==> same_version(a, b),
        version_order(a, b) <= 0 && version_order(b, c) <= 0 ==> version_order(a, c) <= 0,
{
    lemma_prerelease_order(a.pre@, b.pre@, c.pre@);
    lemma_prerelease_order(b.pre@, a.pre@, c.pre@);
    lemma_prerelease_order(a.pre@, c.pre@, b.pre@);
    lemma_build_order(a.build@, b.build@, c.build@);
    lemma_build_order(b.build@, a.build@, c.build@);
    lemma_build_order(a.build@, c.build@, b.build@);
}

impl Version {
    /// The pre-release and build metadata are ones that `semver` accepts.
    pub open spec fn wf(&self) -> bool {
        valid_prerelease(self.pre@) && valid_build(self.build@)
    }

    /// The release `major.minor.patch`, without pre-release or build metadata.
    pub fn new(major: u64, minor: u64, patch: u64) -> (r: Version)
        ensures
            r.major == major,
            r.minor == minor,
            r.patch == patch,
            r.pre@.len() == 0,
            r.build@.len() == 0,
            r.wf(),
    {
        Version { major, minor, patch, pre: String::new(), build: String::new() }
    }

    /// The major version number.
    pub fn major(&self) -> (r: u64)
        ensures
            r == self.major,
    {
        self.major
    }

    /// The minor version number.
    pub fn minor(&self) -> (r: u64)
        ensures
            r == self.minor,
    {
        self.minor
    }

    /// The patch version number.
    pub fn patch(&self) -> (r: u64)
        ensures
            r == self.patch,
    {
        self.patch
    }

    /// Whether two versions have the same parts (`==` on `semver::Version`).
    pub fn equals(&self, other: &Version) -> (r: bool)
        ensures
            r == same_version(*self, *other),
    {
        self.major == other.major && self.minor == other.minor && self.patch == other.patch
            && self.pre == other.pre && self.build == other.build
    }

    /// The text of the version, such as `1.2.3-beta.1+build.5`.
    pub fn to_string(&self) -> (r: String)
        ensures
            r@ == version_text(*self),
    {
        let mut s = String::new();
        append_decimal(&mut s, self.major);
        push_char(&mut s, '.');
        append_decimal(&mut s, self.minor);
        push_char(&mut s, '.');
        append_decimal(&mut s, self.patch);
        if !self.pre.as_str().is_empty() {
            push_char(&mut s, '-');
            s.append(self.pre.as_str());
        }
        if !self.build.as_str().is_empty() {
            push_char(&mut s, '+');
            s.append(self.build.as_str());
        }
        proof {
            assert(s@ =~= version_text(*self));
        }
        s
    }
}

impl Clone for Version {
    fn clone(&self) -> (r: Self)
        ensures
            r == *self,
    {
        Version {
            major: self.major,
            minor: self.minor,
            patch: self.patch,
            pre: self.pre.clone(),
            build: self.build.clone(),
        }
    }
}

/// What `semver::Version::parse` gives for a text: the parts of the valid
/// version whose text it is (there is one at most, see
/// `lemma_parts_text_injective`), or `None` where the text is no such text.
pub open spec fn semver_parse(text: Seq<char>) -> Option<(u64, u64, u64, Seq<char>, Seq<char>)> {
    if exists|p: (u64, u64, u64, Seq<char>, Seq<char>)| valid_parts(p) && #[trigger] parts_text(p) == text {
        Some(choose|p: (u64, u64, u64, Seq<char>, Seq<char>)| valid_parts(p) && #[trigger] parts_text(p) == text)
    } else {
        None
    }
}

/// The decimal text of a number is made of digits, one at least, and two at
/// least from 10 on.
pub proof fn lemma_decimal_digits(n: nat)
    ensures
        decimal(n).len() >= 1,
        n >= 10 ==> decimal(n).len() >= 2,
        forall|i: int| 0 <= i < decimal(n).len() ==> is_digit(#[trigger] decimal(n)[i]),
    decreases n,
{
    if n >= 10 {
        lemma_decimal_digits(n / 10);
        let d = decimal(n / 10);
        assert forall|i: int| 0 <= i < decimal(n).len() implies is_digit(#[trigger] decimal(n)[i]) by {
            if i < d.len() {
                assert(decimal(n)[i] == d[i]);
            }
        }
    }
}

/// Different numbers have different decimal texts.
pub proof fn lemma_decimal_injective(a: nat, b: nat)
    requires
        decimal(a) == decimal(b),
    ensures
        a == b,
    decreases a,
{
    lemma_decimal_digits(a);
    lemma_decimal_digits(b);
    if a < 10 && b < 10 {
        let ca = digit_char(a as int);
        let cb = digit_char(b as int);
        assert(decimal(a) =~= seq![ca]);
        assert(decimal(b) =~= seq![cb]);
        assert(decimal(a)[0] == ca);
        assert(decimal(b)[0] == cb);
        assert(ca as int == 48 + a);
        assert(cb as int == 48 + b);
    } else if a >= 10 && b >= 10 {
        let ca = digit_char((a % 10) as int);
        let cb = digit_char((b % 10) as int);
        assert(decimal(a) == decimal(a / 10).push(ca));
        assert(decimal(b) == decimal(b / 10).push(cb));
        assert(decimal(a).drop_last() =~= decimal(a / 10));
        assert(decimal(b).drop_last() =~= decimal(b / 10));
        lemma_decimal_injective(a / 10, b / 10);
        assert(decimal(a).last() == ca);
        assert(decimal(b).last() == cb);
        assert(ca as int == 48 + a % 10);
        assert(cb as int == 48 + b % 10);
    }
}

/// Where `x1 + y1 == x2 + y2`, every character of `x1` and `x2` has property
/// `f`, and `y1` and `y2` are empty or start with a character without it,
/// the two splits are the same.
pub proof fn lemma_split_at_class(
    x1: Seq<char>,
    y1: Seq<char>,
    x2: Seq<char>,
    y2: Seq<char>,
    f: spec_fn(char) -> bool,
)
    requires
        x1 + y1 == x2 + y2,
        forall|i: int| 0 <= i < x1.len() ==> f(#[trigger] x1[i]),
        forall|i: int| 0 <= i < x2.len() ==> f(#[trigger] x2[i]),
        y1.len() > 0 ==> !f(y1[0]),
        y2.len() > 0 ==> !f(y2[0]),
    ensures
        x1 == x2,
        y1 == y2,
{
    let t = x1 + y1;
    if x1.len() < x2.len() {
        assert(t[x1.len() as int] == x2[x1.len() as int]);
        assert(false);
    } else if x2.len() < x1.len() {
        assert(t[x2.len() as int] == x1[x2.len() as int]);
        assert(false);
    }
    assert(x1 =~= t.take(x1.len() as int));
    assert(x2 =~= t.take(x2.len() as int));
    assert(y1 =~= t.skip(x1.len() as int));
    assert(y2 =~= t.skip(x2.len() as int));
}

/// A valid list of identifiers holds no '+'.
pub proof fn lemma_dotted_no_plus(s: Seq<char>, pre: bool)
    requires
        valid_dotted(s, pre),
    ensures
        forall|i: int| 0 <= i < s.len() ==> #[trigger] s[i] != '+',
    decreases s.len(),
{
    lemma_dot_pos(s);
    let seg = first_segment(s);
    if has_dot(s) {
        lemma_dotted_no_plus(after_dot(s), pre);
        let rest = after_dot(s);
        assert forall|i: int| 0 <= i < s.len() implies #[trigger] s[i] != '+' by {
            let whole = seg + seq!['.'] + rest;
            assert(s == whole);
            if i < seg.len() {
                assert(s[i] == seg[i]);
            } else if i > seg.len() {
                assert(s[i] == rest[i - seg.len() - 1]);
            }
        }
    } else {
        assert forall|i: int| 0 <= i < s.len() implies #[trigger] s[i] != '+' by {
            assert(s[i] == seg[i]);
        }
    }
}

/// A valid pre-release with its '-', where there is one, holds no '+'.
proof fn lemma_pre_part_no_plus(pre: Seq<char>)
    requires
        valid_prerelease(pre),
    ensures
        forall|i: int| 0 <= i < pre_part(pre).len() ==> #[trigger] pre_part(pre)[i] != '+',
{
    if pre.len() > 0 {
        lemma_dotted_no_plus(pre, true);
        let x = seq!['-'] + pre;
        assert forall|i: int| 0 <= i < x.len() implies #[trigger] x[i] != '+' by {
            if i > 0 {
                assert(x[i] == pre[i - 1]);
            }
        }
    }
}

/// Two valid pre-release and build pairs with the same suffix text are the same.
proof fn lemma_suffix_injective(p3: Seq<char>, p4: Seq<char>, q3: Seq<char>, q4: Seq<char>)
    requires
        valid_prerelease(p3),
        valid_prerelease(q3),
        suffix_text(p3, p4) == suffix_text(q3, q4),
    ensures
        p3 == q3,
        p4 == q4,
{
    let no_plus = |c: char| c != '+';
    let pre_p = pre_part(p3);
    let pre_q = pre_part(q3);
    let build_p = build_part(p4);
    let build_q = build_part(q4);
    lemma_pre_part_no_plus(p3);
    lemma_pre_part_no_plus(q3);
    assert forall|i: int| 0 <= i < pre_p.len() implies no_plus(#[trigger] pre_p[i]) by {}
    assert forall|i: int| 0 <= i < pre_q.len() implies no_plus(#[trigger] pre_q[i]) by {}
    lemma_split_at_class(pre_p, build_p, pre_q, build_q, no_plus);
    if p3.len() > 0 {
        assert(p3 =~= pre_p.drop_first());
        assert(q3 =~= pre_q.drop_first());
    } else {
        assert(p3 =~= q3);
    }
    if p4.len() > 0 {
        assert(p4 =~= build_p.drop_first());
        assert(q4 =~= build_q.drop_first());
    } else {
        assert(p4 =~= q4);
    }
}

/// Splits `decimal(n) + rest`, where `rest` is empty or starts with a non-digit.
proof fn lemma_split_number(a: nat, ra: Seq<char>, b: nat, rb: Seq<char>)
    requires
        decimal(a) + ra == decimal(b) + rb,
        ra.len() > 0 ==> !is_digit(ra[0]),
        rb.len() > 0 ==> !is_digit(rb[0]),
    ensures
        a == b,
        ra == rb,
{
    let digit = |c: char| is_digit(c);
    lemma_decimal_digits(a);
    lemma_decimal_digits(b);
    assert forall|i: int| 0 <= i < decimal(a).len() implies digit(#[trigger] decimal(a)[i]) by {}
    assert forall|i: int| 0 <= i < decimal(b).len() implies digit(#[trigger] decimal(b)[i]) by {}
    lemma_split_at_class(decimal(a), ra, decimal(b), rb, digit);
    lemma_decimal_injective(a, b);
}

/// Regrouping of a version text: `a.b.c` followed by `s`.
proof fn lemma_regroup(d0: Seq<char>, d1: Seq<char>, d2: Seq<char>, sfx: Seq<char>)
    ensures
        d0 + seq!['.'] + d1 + seq!['.'] + d2 + sfx == d0 + (seq!['.'] + (d1 + (seq!['.'] + (d2
            + sfx)))),
        (seq!['.'] + (d1 + (seq!['.'] + (d2 + sfx)))).drop_first() == d1 + (seq!['.'] + (d2
            + sfx)),
        (seq!['.'] + (d2 + sfx)).drop_first() == d2 + sfx,
        (seq!['.'] + (d1 + (seq!['.'] + (d2 + sfx))))[0] == '.',
        (seq!['.'] + (d2 + sfx))[0] == '.',
{
    assert(d0 + seq!['.'] + d1 + seq!['.'] + d2 + sfx =~= d0 + (seq!['.'] + (d1 + (seq!['.'] + (
    d2 + sfx)))));
    assert((seq!['.'] + (d1 + (seq!['.'] + (d2 + sfx)))).drop_first() =~= d1 + (seq!['.'] + (d2
        + sfx)));
    assert((seq!['.'] + (d2 + sfx)).drop_first() =~= d2 + sfx);
}

/// A suffix text is empty or starts with '-' or '+'.
proof fn lemma_suffix_start(pre: Seq<char>, build: Seq<char>)
    ensures
        suffix_text(pre, build).len() > 0 ==> !is_digit(suffix_text(pre, build)[0]),
{
    if pre.len() > 0 {
        assert(suffix_text(pre, build)[0] == pre_part(pre)[0]);
    } else if build.len() > 0 {
        assert(pre_part(pre) =~= Seq::<char>::empty());
        assert(suffix_text(pre, build) =~= build_part(build));
    } else {
        assert(suffix_text(pre, build) =~= Seq::<char>::empty());
    }
}

/// Two valid versions with the same text have the same parts.
pub proof fn lemma_parts_text_injective(
    p: (u64, u64, u64, Seq<char>, Seq<char>),
    q: (u64, u64, u64, Seq<char>, Seq<char>),
)
    requires
        valid_parts(p),
        valid_parts(q),
        parts_text(p) == parts_text(q),
    ensures
        p == q,
{
    let (d0p, d1p, d2p) = (decimal(p.0 as nat), decimal(p.1 as nat), decimal(p.2 as nat));
    let (d0q, d1q, d2q) = (decimal(q.0 as nat), decimal(q.1 as nat), decimal(q.2 as nat));
    let sp = suffix_text(p.3, p.4);
    let sq = suffix_text(q.3, q.4);
    lemma_suffix_start(p.3, p.4);
    lemma_suffix_start(q.3, q.4);
    lemma_regroup(d0p, d1p, d2p, sp);
    lemma_regroup(d0q, d1q, d2q, sq);
    let r2p = seq!['.'] + (d2p + sp);
    let r2q = seq!['.'] + (d2q + sq);
    let r1p = seq!['.'] + (d1p + r2p);
    let r1q = seq!['.'] + (d1q + r2q);
    lemma_split_number(p.0 as nat, r1p, q.0 as nat, r1q);
    lemma_split_number(p.1 as nat, r2p, q.1 as nat, r2q);
    lemma_split_number(p.2 as nat, sp, q.2 as nat, sq);
    lemma_suffix_injective(p.3, p.4, q.3, q.4);
}

/// Parsing the text of valid version parts gives those parts back.
pub proof fn lemma_parse_parts_text(p: (u64, u64, u64, Seq<char>, Seq<char>))
    requires
        valid_parts(p),
    ensures
        semver_parse(parts_text(p)) == Some(p),
{
    let t = parts_text(p);
    assert(valid_parts(p) && parts_text(p) == t);
    let c = choose|c: (u64, u64, u64, Seq<char>, Seq<char>)| valid_parts(c) && #[trigger] parts_text(c) == t;
    lemma_parts_text_injective(c, p);
}

/// Parsing the text of a valid version gives its parts back.
pub proof fn lemma_parse_version_text(v: Version)
    requires
        v.wf(),
    ensures
        semver_parse(version_text(v)) == Some((v.major, v.minor, v.patch, v.pre@, v.build@)),
{
    lemma_parse_parts_text((v.major, v.minor, v.patch, v.pre@, v.build@));
}

/// Calls `semver::Version::parse` and takes the parsed parts as plain values.
/// The contract states what its parser (`FromStr for Version` in `parse.rs`)
/// accepts: exactly the texts `major.minor.patch[-pre][+build]` of valid
/// parts (numbers without leading zeros, non-empty identifier lists), each
/// giving its parts (`semver_parse`). Where it fails, the error's message
/// (its `Display`) is taken; that message is named `semver_version_error` of
/// the text.
#[verifier::external_body]
pub(crate) fn parse_semver_version(text: &str) -> (r: Result<Version, String>)
    ensures
        match r {
            Ok(v) => semver_parse(text@) == Some((v.major, v.minor, v.patch, v.pre@, v.build@))
                && v.wf(),
            Err(m) => semver_parse(text@) is None && m@ == semver_version_error(text@),
        },
{
    match semver::Version::parse(text) {
        Ok(v) => Ok(Version {
            major: v.major,
            minor: v.minor,
            patch: v.patch,
            pre: v.pre.as_str().to_string(),
            build: v.build.as_str().to_string(),
        }),
        Err(e) => Err(e.to_string()),
    }
}

/// The message of the error that `semver::Version::parse` gives for a text
/// (meaningful where the text is not a version).
pub uninterp spec fn semver_version_error(text: Seq<char>) -> Seq<char>;

/// Calls `Ord::cmp` of `semver::Version` on the two versions rebuilt from their
/// parts, and gives -1, 0 or 1. The contract states the order that `semver`
/// implements (derived on the parts, with the `Ord` of `Prerelease` and
/// `BuildMetadata` in its `impls.rs`).
#[verifier::external_body]
pub(crate) fn semver_precedence(a: &Version, b: &Version) -> (r: i8)
    requires
        a.wf(),
        b.wf(),
    ensures
        r == version_order(*a, *b),
{
    let conv = |v: &Version|
        semver::Version {
            major: v.major,
            minor: v.minor,
            patch: v.patch,
            pre: semver::Prerelease::new(&v.pre).unwrap_or_default(),
            build: semver::BuildMetadata::new(&v.build).unwrap_or_default(),
        };
    match conv(a).cmp(&conv(b)) {
        core::cmp::Ordering::Less => -1,
        core::cmp::Ordering::Equal => 0,
        core::cmp::Ordering::Greater => 1,
    }
}

/// Calls `semver::Prerelease::new` and tells whether it accepts the text. The
/// contract states the rules of its parser (`identifier` in `parse.rs`).
#[verifier::external_body]
pub(crate) fn semver_accepts_prerelease(s: &str) -> (r: bool)
    ensures
        r == valid_prerelease(s@),
{
    semver::Prerelease::new(s).is_ok()
}

/// Calls `semver::BuildMetadata::new` and tells whether it accepts the text.
/// The contract states the rules of its parser (`identifier` in `parse.rs`).
#[verifier::external_body]
pub(crate) fn semver_accepts_build(s: &str) -> (r: bool)
    ensures
        r == valid_build(s@),
{
    semver::BuildMetadata::new(s).is_ok()
}

impl Version {
    /// Whether the pre-release and build metadata are ones `semver` accepts.
    pub fn is_valid(&self) -> (r: bool)
        ensures
            r == self.wf(),
    {
        semver_accepts_prerelease(self.pre.as_str()) && semver_accepts_build(self.build.as_str())
    }

    /// Parses a semantic version such as `1.2.3` or `1.0.0-beta.1+build.7`.
    /// Fails with `ParseError` carrying `semver`'s message where `semver`
    /// refuses the text.
    pub fn parse(text: &str) -> (r: Result<Version, crate::error::CatalogError>)
        ensures
            match r {
                Ok(v) => semver_parse(text@) == Some((v.major, v.minor, v.patch, v.pre@, v.build@))
                    && v.wf(),
                Err(e) => semver_parse(text@) is None && (e matches crate::error::CatalogError::ParseError(
                    m,
                ) && m@ == semver_version_error(text@)),
            },
    {
        match parse_semver_version(text) {
            Ok(v) => Ok(v),
            Err(m) => Err(crate::error::CatalogError::ParseError(m)),
        }
    }
}

#[verifier::external_type_specification]
#[verifier::external_body]
pub struct ExSemverVersionReq(semver::VersionReq);

/// A version requirement such as `>=1.2, <2` or `^1.0`: the text that
/// `semver::VersionReq::parse` accepted, with what it parsed.
#[derive(Debug)]
pub struct VersionRequirement {
    text: String,
    parsed: semver::VersionReq,
}

impl View for VersionRequirement {
    type V = Seq<char>;

    /// The requirement's text.
    closed spec fn view(&self) -> Seq<char> {
        self.text@
    }
}

/// What `semver::VersionReq::parse` gives for a text, as far as the library
/// uses it: `None` where it accepts the text, and otherwise the message of
/// its error.
pub uninterp spec fn semver_req_error(text: Seq<char>) -> Option<Seq<char>>;

/// Whether `semver::VersionReq::parse` accepts a text.
pub open spec fn semver_req_parses(text: Seq<char>) -> bool {
    semver_req_error(text) is None
}

/// What `semver::VersionReq::matches` gives for the requirement parsed from
/// `req` and the version with the given parts (meaningful where `req` parses).
pub uninterp spec fn semver_req_matches(
    req: Seq<char>,
    major: u64,
    minor: u64,
    patch: u64,
    pre: Seq<char>,
    build: Seq<char>,
) -> bool;

/// Calls `semver::VersionReq::parse`; on success keeps the text beside the
/// parsed requirement, and on failure takes the error's message (its
/// `Display`). Which of the two, and the message, are named
/// `semver_req_error` of the text.
#[verifier::external_body]
pub(crate) fn parse_semver_req(text: &str) -> (r: Result<VersionRequirement, String>)
    ensures
        match r {
            Ok(q) => semver_req_error(text@) is None && q@ == text@,
            Err(m) => semver_req_error(text@) == Some(m@),
        },
{
    match semver::VersionReq::parse(text) {
        Ok(parsed) => Ok(VersionRequirement { text: text.to_string(), parsed }),
        Err(e) => Err(e.to_string()),
    }
}

/// Calls `semver::VersionReq::matches` on the parsed requirement and the
/// version rebuilt from its parts. The result is named `semver_req_matches` of
/// the requirement's text and the parts.
#[verifier::external_body]
pub(crate) fn semver_req_match(req: &VersionRequirement, v: &Version) -> (r: bool)
    requires
        v.wf(),
    ensures
        r == semver_req_matches(req@, v.major, v.minor, v.patch, v.pre@, v.build@),
{
    let ver = semver::Version {
        major: v.major,
        minor: v.minor,
        patch: v.patch,
        pre: semver::Prerelease::new(&v.pre).unwrap_or_default(),
        build: semver::BuildMetadata::new(&v.build).unwrap_or_default(),
    };
    req.parsed.matches(&ver)
}

impl VersionRequirement {
    /// Parses a requirement; `None` where `semver` refuses the text.
    pub fn parse(text: &str) -> (r: Option<VersionRequirement>)
        ensures
            r is Some <==> semver_req_parses(text@),
            r matches Some(q) ==> q@ == text@,
    {
        match parse_semver_req(text) {
            Ok(q) => Some(q),
            Err(_) => None,
        }
    }

    /// Whether `v` satisfies the requirement.
    pub fn matches(&self, v: &Version) -> (r: bool)
        requires
            v.wf(),
        ensures
            r == semver_req_matches(self@, v.major, v.minor, v.patch, v.pre@, v.build@),
    {
        semver_req_match(self, v)
    }

    /// The requirement's text.
    pub fn as_str(&self) -> (r: &str)
        ensures
            r@ == self@,
    {
        self.text.as_str()
    }
}

} // verus!
