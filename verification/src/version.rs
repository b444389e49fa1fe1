//! The release-identifier model: archive formats, pre-release modifiers and
//! versions, their textual grammar, canonical rendering, and the numeric
//! ranking key that orders releases the way upstream PHP does.

use vstd::prelude::*;
use vstd::string::StrSliceExecFns;
use vstd::string::StringExecFns;
use crate::digits::{is_digit, is_digit_exec, all_digits, spec_parse_u8, spec_dec, str_to_chars, lemma_dec_well_formed};
use crate::Error;

verus! {

/// The compression format of a release archive.
#[derive(Debug, Clone, Copy, PartialEq, Eq)]
pub enum Extension {
    BZ,
    GZ,
    XZ,
}

/// A pre-release tag: alpha or beta, each with an optional number, or a
/// numbered release candidate.
#[derive(Debug, Clone, Copy, PartialEq, Eq)]
pub enum VersionModifier {
    Alpha(Option<u8>),
    Beta(Option<u8>),
    RC(u8),
}

/// A release identifier. A missing `patch` makes the value a line selector
/// ("any patch of this major.minor"), never a concrete artifact identifier.
#[derive(Debug, Clone, Copy, PartialEq, Eq)]
pub struct Version {
    pub major: u8,
    pub minor: u8,
    pub patch: Option<u8>,
    pub rc: Option<VersionModifier>,
}

// ---------------------------------------------------------------------------
// Case-insensitive character comparison (ASCII only; the keywords of the
// grammar are ASCII).
// ---------------------------------------------------------------------------

/// `c` equals the lower-case letter `l`, ignoring ASCII case.
pub open spec fn char_eq_ci(c: char, l: char) -> bool {
    c == l || (65 <= c as u32 && c as u32 <= 90 && c as u32 + 32 == l as u32)
}

/// `s` begins with `t`, ignoring ASCII case.
pub open spec fn starts_with_ci(s: Seq<char>, t: Seq<char>) -> bool {
    s.len() >= t.len() && (forall|i: int| 0 <= i < t.len() ==> char_eq_ci(s[i], #[trigger] t[i]))
}

/// `s` equals `t`, ignoring ASCII case.
pub open spec fn seq_eq_ci(s: Seq<char>, t: Seq<char>) -> bool {
    s.len() == t.len() && starts_with_ci(s, t)
}

pub fn char_eq_ci_exec(c: char, l: char) -> (r: bool)
    ensures
        r == char_eq_ci(c, l),
{
    let cu = c as u32;
    let lu = l as u32;
    c == l || (65 <= cu && cu <= 90 && cu + 32 == lu)
}

// ---------------------------------------------------------------------------
// The textual grammar.
// ---------------------------------------------------------------------------

/// The longest dot-free prefix of `s`.
pub open spec fn take_until_dot(s: Seq<char>) -> Seq<char>
    decreases s.len(),
{
    if s.len() == 0 {
        s
    } else if s[0] == '.' {
        Seq::empty()
    } else {
        seq![s[0]] + take_until_dot(s.drop_first())
    }
}

/// The longest digit prefix of `s`.
pub open spec fn take_digits(s: Seq<char>) -> Seq<char>
    decreases s.len(),
{
    if s.len() == 0 {
        s
    } else if !is_digit(s[0]) {
        Seq::empty()
    } else {
        seq![s[0]] + take_digits(s.drop_first())
    }
}

/// A pre-release modifier: one of the keywords `alpha`, `beta` or `rc`
/// (case-insensitive), `alpha` and `beta` optionally followed by their
/// number, `rc` followed by the candidate number.
pub open spec fn spec_parse_modifier(m: Seq<char>) -> Option<VersionModifier> {
    if starts_with_ci(m, "alpha"@) {
        let d = m.skip("alpha"@.len() as int);
        if d.len() == 0 {
            Some(VersionModifier::Alpha(None))
        } else {
            match spec_parse_u8(d) {
                Some(k) => Some(VersionModifier::Alpha(Some(k))),
                None => None,
            }
        }
    } else if starts_with_ci(m, "beta"@) {
        let d = m.skip("beta"@.len() as int);
        if d.len() == 0 {
            Some(VersionModifier::Beta(None))
        } else {
            match spec_parse_u8(d) {
                Some(k) => Some(VersionModifier::Beta(Some(k))),
                None => None,
            }
        }
    } else if starts_with_ci(m, "rc"@) {
        match spec_parse_u8(m.skip("rc"@.len() as int)) {
            Some(n) => Some(VersionModifier::RC(n)),
            None => None,
        }
    } else {
        None
    }
}

/// The third version component: a leading patch numeral, then an optional
/// modifier.
pub open spec fn spec_parse_patch(s: Seq<char>) -> Option<(u8, Option<VersionModifier>)> {
    let d = take_digits(s);
    let m = s.skip(d.len() as int);
    match spec_parse_u8(d) {
        None => None,
        Some(p) => if m.len() == 0 {
            Some((p, None))
        } else {
            match spec_parse_modifier(m) {
                Some(md) => Some((p, Some(md))),
                None => None,
            }
        },
    }
}

/// Version text: two or three dot-separated components. Two components make
/// a line selector; a third carries the patch and an optional modifier.
pub open spec fn spec_parse_version(s: Seq<char>) -> Option<Version> {
    let a = take_until_dot(s);
    if a.len() == s.len() {
        None
    } else {
        let s1 = s.skip(a.len() as int + 1);
        let b = take_until_dot(s1);
        if b.len() == s1.len() {
            match (spec_parse_u8(a), spec_parse_u8(b)) {
                (Some(major), Some(minor)) => Some(
                    Version { major, minor, patch: None, rc: None },
                ),
                _ => None,
            }
        } else {
            let c = s1.skip(b.len() as int + 1);
            if take_until_dot(c).len() != c.len() {
                None
            } else {
                match (spec_parse_u8(a), spec_parse_u8(b), spec_parse_patch(c)) {
                    (Some(major), Some(minor), Some(pm)) => Some(
                        Version { major, minor, patch: Some(pm.0), rc: pm.1 },
                    ),
                    _ => None,
                }
            }
        }
    }
}

/// Extension text: `bz2`/`bz`, `gz` or `xz`, case-insensitive.
pub open spec fn spec_parse_ext(s: Seq<char>) -> Option<Extension> {
    if seq_eq_ci(s, "bz2"@) || seq_eq_ci(s, "bz"@) {
        Some(Extension::BZ)
    } else if seq_eq_ci(s, "gz"@) {
        Some(Extension::GZ)
    } else if seq_eq_ci(s, "xz"@) {
        Some(Extension::XZ)
    } else {
        None
    }
}

// ---------------------------------------------------------------------------
// Canonical rendering.
// ---------------------------------------------------------------------------

/// The canonical text of a modifier, its number (when present) printed
/// back.
pub open spec fn spec_render_modifier(m: VersionModifier) -> Seq<char> {
    match m {
        VersionModifier::Alpha(None) => "alpha"@,
        VersionModifier::Alpha(Some(k)) => "alpha"@ + spec_dec(k as int),
        VersionModifier::Beta(None) => "beta"@,
        VersionModifier::Beta(Some(k)) => "beta"@ + spec_dec(k as int),
        VersionModifier::RC(n) => "RC"@ + spec_dec(n as int),
    }
}

/// The canonical text of a version: `MAJOR.MINOR[.PATCH][modifier]`, with a
/// modifier forcing the patch (0 when absent) to be printed.
pub open spec fn spec_render_version(v: Version) -> Seq<char> {
    let base = spec_dec(v.major as int) + "."@ + spec_dec(v.minor as int);
    match v.rc {
        Some(m) => base + "."@ + spec_dec(
            match v.patch {
                Some(p) => p as int,
                None => 0,
            },
        ) + spec_render_modifier(m),
        None => match v.patch {
            Some(p) => base + "."@ + spec_dec(p as int),
            None => base,
        },
    }
}

// ---------------------------------------------------------------------------
// The ranking key.
// ---------------------------------------------------------------------------

/// How far below the final release a pre-release tag ranks: pre-releases
/// order by kind and release-candidate number alone, and every candidate
/// numbered up to 9 stays strictly below the final release.
pub open spec fn modifier_offset(rc: Option<VersionModifier>) -> int {
    match rc {
        None => 0,
        Some(VersionModifier::Alpha(_)) => 11,
        Some(VersionModifier::Beta(_)) => 10,
        Some(VersionModifier::RC(n)) => 10 - n,
    }
}

/// The numeric ranking key: lexicographic on (major, minor, patch), with
/// pre-releases of a patch ranking just below its final release.
pub open spec fn spec_rank(v: Version) -> int {
    v.major as int * 1000000 + v.minor as int * 10000 + (match v.patch {
        Some(p) => p as int,
        None => 0,
    }) * 100 - modifier_offset(v.rc)
}

/// `a` ranks strictly below `b`.
pub open spec fn spec_lt(a: Version, b: Version) -> bool {
    spec_rank(a) < spec_rank(b)
}

/// `concrete` satisfies the possibly partial selector `other`: major and
/// minor agree, and the patches agree when both are present.
pub open spec fn spec_matches(a: Version, b: Version) -> bool {
    a.major == b.major && a.minor == b.minor && (match (a.patch, b.patch) {
        (Some(x), Some(y)) => x == y,
        _ => true,
    })
}

impl VersionModifier {
    /// The ranking offset of this tag, as an unsigned number.
    pub fn to_u32(&self) -> (r: u32)
        requires
            self matches VersionModifier::RC(n) ==> n <= 10,
        ensures
            r as int == modifier_offset(Some(*self)),
    {
        match self {
            VersionModifier::Alpha(_) => 11,
            VersionModifier::Beta(_) => 10,
            VersionModifier::RC(n) => 10 - *n as u32,
        }
    }
}

impl Extension {
    /// The canonical lower-case text of this format.
    pub open spec fn spec_str(self) -> Seq<char> {
        match self {
            Extension::BZ => "bz2"@,
            Extension::GZ => "gz"@,
            Extension::XZ => "xz"@,
        }
    }

    pub fn as_str(&self) -> (r: &'static str)
        ensures
            r@ == self.spec_str(),
    {
        match self {
            Extension::BZ => "bz2",
            Extension::GZ => "gz",
            Extension::XZ => "xz",
        }
    }

    /// All formats, in the order the cache listing tries them.
    pub fn variants() -> (r: Vec<Extension>)
        ensures
            r@ =~= seq![Extension::GZ, Extension::BZ, Extension::XZ],
    {
        let mut v: Vec<Extension> = Vec::new();
        v.push(Extension::GZ);
        v.push(Extension::BZ);
        v.push(Extension::XZ);
        v
    }

    /// Parses extension text, ignoring ASCII case.
    pub fn from_str(s: &str) -> (r: Result<Extension, Error>)
        ensures
            match spec_parse_ext(s@) {
                Some(e) => r == Ok::<Extension, Error>(e),
                None => r == Err::<Extension, Error>(Error::InvalidExtension),
            },
    {
        let cs = str_to_chars(s);
        Self::from_chars(&cs, 0, cs.len())
    }

    /// Parses `cs[from..to]` as extension text, ignoring ASCII case.
    pub fn from_chars(cs: &Vec<char>, from: usize, to: usize) -> (r: Result<Extension, Error>)
        requires
            from <= to <= cs@.len(),
        ensures
            match spec_parse_ext(cs@.subrange(from as int, to as int)) {
                Some(e) => r == Ok::<Extension, Error>(e),
                None => r == Err::<Extension, Error>(Error::InvalidExtension),
            },
    {
        let ghost t = cs@.subrange(from as int, to as int);
        proof {
            reveal_strlit("bz2");
            reveal_strlit("bz");
            reveal_strlit("gz");
            reveal_strlit("xz");
        }
        let n = to - from;
        if n == 2 {
            let c0 = cs[from];
            let c1 = cs[from + 1];
            proof {
                assert(t[0] == cs@[from as int]);
                assert(t[1] == cs@[from as int + 1]);
            }
            let b0 = char_eq_ci_exec(c0, 'b');
            let g0 = char_eq_ci_exec(c0, 'g');
            let x0 = char_eq_ci_exec(c0, 'x');
            let z1 = char_eq_ci_exec(c1, 'z');
            if b0 && z1 {
                return Ok(Extension::BZ);
            }
            if g0 && z1 {
                proof {
                    assert(!char_eq_ci(t[0], "bz"@[0]));
                }
                return Ok(Extension::GZ);
            }
            if x0 && z1 {
                proof {
                    assert(!char_eq_ci(t[0], "bz"@[0]));
                    assert(!char_eq_ci(t[0], "gz"@[0]));
                }
                return Ok(Extension::XZ);
            }
            proof {
                if char_eq_ci(t[1], 'z') {
                    assert(!char_eq_ci(t[0], "bz"@[0]));
                    assert(!char_eq_ci(t[0], "gz"@[0]));
                    assert(!char_eq_ci(t[0], "xz"@[0]));
                } else {
                    assert(!char_eq_ci(t[1], "bz"@[1]));
                    assert(!char_eq_ci(t[1], "gz"@[1]));
                    assert(!char_eq_ci(t[1], "xz"@[1]));
                }
            }
            return Err(Error::InvalidExtension);
        }
        if n == 3 {
            let c0 = cs[from];
            let c1 = cs[from + 1];
            let c2 = cs[from + 2];
            proof {
                assert(t[0] == cs@[from as int]);
                assert(t[1] == cs@[from as int + 1]);
                assert(t[2] == cs@[from as int + 2]);
            }
            let b0 = char_eq_ci_exec(c0, 'b');
            let z1 = char_eq_ci_exec(c1, 'z');
            if b0 && z1 && c2 == '2' {
                return Ok(Extension::BZ);
            }
            proof {
                if !char_eq_ci(t[0], 'b') {
                    assert(!char_eq_ci(t[0], "bz2"@[0]));
                } else if !char_eq_ci(t[1], 'z') {
                    assert(!char_eq_ci(t[1], "bz2"@[1]));
                } else {
                    assert(!char_eq_ci(t[2], "bz2"@[2]));
                }
            }
            return Err(Error::InvalidExtension);
        }
        Err(Error::InvalidExtension)
    }
}

impl Version {
    /// A line selector for a major.minor line.
    pub fn from_major_minor(major: u8, minor: u8) -> (r: Self)
        ensures
            r == (Version { major, minor, patch: None, rc: None }),
    {
        Self::new(major, minor, None, None)
    }

    /// A concrete release of a line.
    pub fn from_major_minor_patch(major: u8, minor: u8, patch: u8) -> (r: Self)
        ensures
            r == (Version { major, minor, patch: Some(patch), rc: None }),
    {
        Self::new(major, minor, Some(patch), None)
    }

    pub fn new(major: u8, minor: u8, patch: Option<u8>, rc: Option<VersionModifier>) -> (r: Self)
        ensures
            r == (Version { major, minor, patch, rc }),
    {
        Version { major, minor, patch, rc }
    }

    /// The ranking key, wide enough never to overflow.
    pub fn rank(&self) -> (r: i64)
        ensures
            r as int == spec_rank(*self),
    {
        let base: i64 = self.major as i64 * 1000000 + self.minor as i64 * 10000 + (match self.patch
        {
            Some(p) => p as i64,
            None => 0,
        }) * 100;
        let offset: i64 = match self.rc {
            None => 0,
            Some(VersionModifier::Alpha(_)) => 11,
            Some(VersionModifier::Beta(_)) => 10,
            Some(VersionModifier::RC(n)) => 10 - n as i64,
        };
        base - offset
    }

    /// This version ranks strictly below `other`.
    pub fn lt(&self, other: &Version) -> (r: bool)
        ensures
            r == spec_lt(*self, *other),
    {
        self.rank() < other.rank()
    }

    /// The ranking key as an unsigned number, defined where it cannot wrap.
    pub fn to_u32(&self) -> (r: u32)
        requires
            self.rc matches Some(m) ==> (m matches VersionModifier::RC(n) ==> n <= 10),
            spec_rank(*self) >= 0,
        ensures
            r as int == spec_rank(*self),
    {
        let base: u32 = self.major as u32 * 1000000 + self.minor as u32 * 10000 + (match self.patch
        {
            Some(p) => p as u32,
            None => 0,
        }) * 100;
        let offset: u32 = match self.rc {
            None => 0,
            Some(m) => m.to_u32(),
        };
        base - offset
    }

    /// Substitutes a discovered latest release for a line selector: a
    /// version that already carries its patch stands; a selector takes the
    /// discovered release, and fails when the line has none.
    pub fn resolve_latest(self, latest: Option<Version>) -> (r: Result<Version, Error>)
        ensures
            self.patch is Some ==> r == Ok::<Version, Error>(self),
            self.patch is None ==> (match latest {
                Some(l) => r == Ok::<Version, Error>(l),
                None => r == Err::<Version, Error>(Error::NotFound),
            }),
    {
        if self.patch.is_some() {
            return Ok(self);
        }
        match latest {
            Some(l) => Ok(l),
            None => Err(Error::NotFound),
        }
    }

    pub fn matches(self, other: Self) -> (r: bool)
        ensures
            r == spec_matches(self, other),
    {
        if self.major != other.major || self.minor != other.minor {
            return false;
        }
        match (self.patch, other.patch) {
            (Some(a), Some(b)) => a == b,
            _ => true,
        }
    }

    /// A missing selector matches everything.
    pub fn optional_matches(self, other: Option<Self>) -> (r: bool)
        ensures
            r == (match other {
                Some(o) => spec_matches(self, o),
                None => true,
            }),
    {
        match other {
            Some(o) => self.matches(o),
            None => true,
        }
    }
}

// ---------------------------------------------------------------------------
// Scanning lemmas: the recursive grammar functions agree with index scans.
// ---------------------------------------------------------------------------

/// If the first `n` characters of `s` are dot-free and position `n` (if any)
/// holds a dot, the dot-free prefix is exactly `s[..n]`.
pub proof fn lemma_take_until_dot_at(s: Seq<char>, n: int)
    requires
        0 <= n <= s.len(),
        forall|k: int| 0 <= k < n ==> s[k] != '.',
        n == s.len() || s[n] == '.',
    ensures
        take_until_dot(s) =~= s.subrange(0, n),
    decreases s.len(),
{
    if s.len() == 0 {
    } else if s[0] == '.' {
        assert(n == 0);
    } else {
        assert(n >= 1);
        lemma_take_until_dot_at(s.drop_first(), n - 1);
        assert(seq![s[0]] + s.drop_first().subrange(0, n - 1) =~= s.subrange(0, n));
    }
}

/// If the first `n` characters of `s` are digits and position `n` (if any)
/// is not, the digit prefix is exactly `s[..n]`.
pub proof fn lemma_take_digits_at(s: Seq<char>, n: int)
    requires
        0 <= n <= s.len(),
        forall|k: int| 0 <= k < n ==> is_digit(#[trigger] s[k]),
        n == s.len() || !is_digit(s[n]),
    ensures
        take_digits(s) =~= s.subrange(0, n),
    decreases s.len(),
{
    if s.len() == 0 {
    } else if !is_digit(s[0]) {
        assert(n == 0);
    } else {
        assert(n >= 1);
        lemma_take_digits_at(s.drop_first(), n - 1);
        assert(seq![s[0]] + s.drop_first().subrange(0, n - 1) =~= s.subrange(0, n));
    }
}

/// The index of the first dot in `cs[from..to]`, or `to` when there is none.
fn find_dot(cs: &Vec<char>, from: usize, to: usize) -> (r: usize)
    requires
        from <= to <= cs@.len(),
    ensures
        from <= r <= to,
        forall|k: int| from <= k < r ==> cs@[k] != '.',
        r < to ==> cs@[r as int] == '.',
{
    let mut i = from;
    while i < to
        invariant
            from <= i <= to <= cs@.len(),
            forall|k: int| from <= k < i ==> cs@[k] != '.',
        decreases to - i,
    {
        if cs[i] == '.' {
            return i;
        }
        i += 1;
    }
    i
}

/// The index of the first non-digit in `cs[from..to]`, or `to`.
fn find_nondigit(cs: &Vec<char>, from: usize, to: usize) -> (r: usize)
    requires
        from <= to <= cs@.len(),
    ensures
        from <= r <= to,
        forall|k: int| from <= k < r ==> is_digit(#[trigger] cs@[k]),
        r < to ==> !is_digit(cs@[r as int]),
{
    let mut i = from;
    while i < to
        invariant
            from <= i <= to <= cs@.len(),
            forall|k: int| from <= k < i ==> is_digit(#[trigger] cs@[k]),
        decreases to - i,
    {
        if !is_digit_exec(cs[i]) {
            return i;
        }
        i += 1;
    }
    i
}

impl VersionModifier {
    /// Parses `cs[from..to]` as a pre-release modifier.
    fn parse_range(cs: &Vec<char>, from: usize, to: usize) -> (r: Option<VersionModifier>)
        requires
            from < to <= cs@.len(),
        ensures
            r == spec_parse_modifier(cs@.subrange(from as int, to as int)),
    {
        let ghost m = cs@.subrange(from as int, to as int);
        proof {
            reveal_strlit("alpha");
            reveal_strlit("beta");
            reveal_strlit("rc");
        }
        let n = to - from;
        let c0 = cs[from];
        proof {
            assert(m[0] == cs@[from as int]);
        }
        if char_eq_ci_exec(c0, 'a') {
            proof {
                assert(!char_eq_ci(m[0], "beta"@[0]));
                assert(!char_eq_ci(m[0], "rc"@[0]));
            }
            if n < 5 {
                proof {
                    assert(!starts_with_ci(m, "alpha"@));
                }
                return None;
            }
            let c1 = cs[from + 1];
            let c2 = cs[from + 2];
            let c3 = cs[from + 3];
            let c4 = cs[from + 4];
            proof {
                assert(m[1] == cs@[from as int + 1]);
                assert(m[2] == cs@[from as int + 2]);
                assert(m[3] == cs@[from as int + 3]);
                assert(m[4] == cs@[from as int + 4]);
            }
            if char_eq_ci_exec(c1, 'l') && char_eq_ci_exec(c2, 'p') && char_eq_ci_exec(c3, 'h')
                && char_eq_ci_exec(c4, 'a') {
                proof {
                    assert(starts_with_ci(m, "alpha"@));
                    assert(m.skip(5) =~= cs@.subrange(from as int + 5, to as int));
                }
                if from + 5 == to {
                    return Some(VersionModifier::Alpha(None));
                }
                let num = crate::digits::parse_u8_digits(cs, from + 5, to);
                match num {
                    Some(k) => {
                        return Some(VersionModifier::Alpha(Some(k)));
                    },
                    None => {
                        return None;
                    },
                }
            } else {
                proof {
                    if !char_eq_ci(m[1], 'l') {
                        assert(!char_eq_ci(m[1], "alpha"@[1]));
                    } else if !char_eq_ci(m[2], 'p') {
                        assert(!char_eq_ci(m[2], "alpha"@[2]));
                    } else if !char_eq_ci(m[3], 'h') {
                        assert(!char_eq_ci(m[3], "alpha"@[3]));
                    } else {
                        assert(!char_eq_ci(m[4], "alpha"@[4]));
                    }
                }
                return None;
            }
        }
        if char_eq_ci_exec(c0, 'b') {
            proof {
                assert(!char_eq_ci(m[0], "alpha"@[0]));
                assert(!char_eq_ci(m[0], "rc"@[0]));
            }
            if n < 4 {
                proof {
                    assert(!starts_with_ci(m, "beta"@));
                }
                return None;
            }
            let c1 = cs[from + 1];
            let c2 = cs[from + 2];
            let c3 = cs[from + 3];
            proof {
                assert(m[1] == cs@[from as int + 1]);
                assert(m[2] == cs@[from as int + 2]);
                assert(m[3] == cs@[from as int + 3]);
            }
            if char_eq_ci_exec(c1, 'e') && char_eq_ci_exec(c2, 't') && char_eq_ci_exec(c3, 'a') {
                proof {
                    assert(starts_with_ci(m, "beta"@));
                    assert(m.skip(4) =~= cs@.subrange(from as int + 4, to as int));
                }
                if from + 4 == to {
                    return Some(VersionModifier::Beta(None));
                }
                let num = crate::digits::parse_u8_digits(cs, from + 4, to);
                match num {
                    Some(k) => {
                        return Some(VersionModifier::Beta(Some(k)));
                    },
                    None => {
                        return None;
                    },
                }
            } else {
                proof {
                    if !char_eq_ci(m[1], 'e') {
                        assert(!char_eq_ci(m[1], "beta"@[1]));
                    } else if !char_eq_ci(m[2], 't') {
                        assert(!char_eq_ci(m[2], "beta"@[2]));
                    } else {
                        assert(!char_eq_ci(m[3], "beta"@[3]));
                    }
                }
                return None;
            }
        }
        if char_eq_ci_exec(c0, 'r') {
            proof {
                assert(!char_eq_ci(m[0], "alpha"@[0]));
                assert(!char_eq_ci(m[0], "beta"@[0]));
            }
            if n < 2 {
                proof {
                    assert(!starts_with_ci(m, "rc"@));
                }
                return None;
            }
            let c1 = cs[from + 1];
            proof {
                assert(m[1] == cs@[from as int + 1]);
            }
            if char_eq_ci_exec(c1, 'c') {
                let num = crate::digits::parse_u8_digits(cs, from + 2, to);
                proof {
                    assert(starts_with_ci(m, "rc"@));
                    assert(m.skip(2) =~= cs@.subrange(from as int + 2, to as int));
                }
                match num {
                    Some(k) => {
                        return Some(VersionModifier::RC(k));
                    },
                    None => {
                        return None;
                    },
                }
            } else {
                proof {
                    assert(!char_eq_ci(m[1], "rc"@[1]));
                }
                return None;
            }
        }
        proof {
            assert(!char_eq_ci(m[0], "alpha"@[0]));
            assert(!char_eq_ci(m[0], "beta"@[0]));
            assert(!char_eq_ci(m[0], "rc"@[0]));
        }
        None
    }
}

impl Version {
    /// Parses `cs[from..to]` as version text.
    pub fn parse_range(cs: &Vec<char>, from: usize, to: usize) -> (r: Result<Version, Error>)
        requires
            from <= to <= cs@.len(),
        ensures
            match spec_parse_version(cs@.subrange(from as int, to as int)) {
                Some(v) => r == Ok::<Version, Error>(v),
                None => r == Err::<Version, Error>(Error::InvalidVersion),
            },
    {
        let ghost s = cs@.subrange(from as int, to as int);
        let d1 = find_dot(cs, from, to);
        proof {
            assert forall|k: int| 0 <= k < d1 - from implies s[k] != '.' by {
                assert(s[k] == cs@[from + k]);
            }
            if d1 < to {
                assert(s[d1 - from] == cs@[d1 as int]);
            }
            lemma_take_until_dot_at(s, d1 - from);
        }
        if d1 == to {
            return Err(Error::InvalidVersion);
        }
        let ghost a = take_until_dot(s);
        let ghost s1 = s.skip(a.len() as int + 1);
        proof {
            assert(s1 =~= cs@.subrange(d1 as int + 1, to as int));
        }
        let d2 = find_dot(cs, d1 + 1, to);
        proof {
            assert forall|k: int| 0 <= k < d2 - (d1 + 1) implies s1[k] != '.' by {
                assert(s1[k] == cs@[d1 + 1 + k]);
            }
            if d2 < to {
                assert(s1[d2 - (d1 + 1)] == cs@[d2 as int]);
            }
            lemma_take_until_dot_at(s1, d2 - (d1 + 1));
        }
        let ghost b = take_until_dot(s1);
        let major_opt = crate::digits::parse_u8_digits(cs, from, d1);
        proof {
            assert(a =~= cs@.subrange(from as int, d1 as int));
        }
        let minor_opt = crate::digits::parse_u8_digits(cs, d1 + 1, d2);
        proof {
            assert(b =~= cs@.subrange(d1 as int + 1, d2 as int));
        }
        let (major, minor) = match (major_opt, minor_opt) {
            (Some(x), Some(y)) => (x, y),
            _ => {
                return Err(Error::InvalidVersion);
            },
        };
        if d2 == to {
            return Ok(Version { major, minor, patch: None, rc: None });
        }
        let ghost c = s1.skip(b.len() as int + 1);
        proof {
            assert(c =~= cs@.subrange(d2 as int + 1, to as int));
        }
        let d3 = find_dot(cs, d2 + 1, to);
        proof {
            assert forall|k: int| 0 <= k < d3 - (d2 + 1) implies c[k] != '.' by {
                assert(c[k] == cs@[d2 + 1 + k]);
            }
            if d3 < to {
                assert(c[d3 - (d2 + 1)] == cs@[d3 as int]);
            }
            lemma_take_until_dot_at(c, d3 - (d2 + 1));
        }
        if d3 < to {
            assert(take_until_dot(c).len() < c.len());
            return Err(Error::InvalidVersion);
        }
        let e = find_nondigit(cs, d2 + 1, to);
        proof {
            assert forall|k: int| 0 <= k < e - (d2 + 1) implies is_digit(#[trigger] c[k]) by {
                assert(c[k] == cs@[d2 + 1 + k]);
            }
            if e < to {
                assert(c[e - (d2 + 1)] == cs@[e as int]);
            }
            lemma_take_digits_at(c, e - (d2 + 1));
        }
        let patch_opt = crate::digits::parse_u8_digits(cs, d2 + 1, e);
        proof {
            assert(take_digits(c) =~= cs@.subrange(d2 as int + 1, e as int));
        }
        let patch = match patch_opt {
            Some(p) => p,
            None => {
                return Err(Error::InvalidVersion);
            },
        };
        if e == to {
            proof {
                assert(c.skip(take_digits(c).len() as int).len() == 0);
            }
            return Ok(Version { major, minor, patch: Some(patch), rc: None });
        }
        let md = VersionModifier::parse_range(cs, e, to);
        proof {
            assert(c.skip(take_digits(c).len() as int) =~= cs@.subrange(e as int, to as int));
        }
        match md {
            Some(m) => Ok(Version { major, minor, patch: Some(patch), rc: Some(m) }),
            None => Err(Error::InvalidVersion),
        }
    }

    /// Parses version text.
    pub fn from_str(s: &str) -> (r: Result<Version, Error>)
        ensures
            match spec_parse_version(s@) {
                Some(v) => r == Ok::<Version, Error>(v),
                None => r == Err::<Version, Error>(Error::InvalidVersion),
            },
    {
        let cs = str_to_chars(s);
        let r = Self::parse_range(&cs, 0, cs.len());
        proof {
            assert(cs@.subrange(0, cs@.len() as int) =~= s@);
        }
        r
    }
}

// ---------------------------------------------------------------------------
// Rendering.
// ---------------------------------------------------------------------------

impl VersionModifier {
    /// The canonical text of this tag.
    pub fn to_string(&self) -> (r: String)
        ensures
            r@ == spec_render_modifier(*self),
    {
        match self {
            VersionModifier::Alpha(None) => String::from_str("alpha"),
            VersionModifier::Alpha(Some(k)) => {
                let mut out = String::from_str("alpha");
                crate::digits::push_dec(&mut out, *k as u128);
                out
            },
            VersionModifier::Beta(None) => String::from_str("beta"),
            VersionModifier::Beta(Some(k)) => {
                let mut out = String::from_str("beta");
                crate::digits::push_dec(&mut out, *k as u128);
                out
            },
            VersionModifier::RC(n) => {
                let mut out = String::from_str("RC");
                crate::digits::push_dec(&mut out, *n as u128);
                out
            },
        }
    }
}

impl Version {
    /// The canonical text of this version.
    pub fn to_string(&self) -> (r: String)
        ensures
            r@ == spec_render_version(*self),
    {
        let mut out = String::new();
        crate::digits::push_dec(&mut out, self.major as u128);
        out.append(".");
        crate::digits::push_dec(&mut out, self.minor as u128);
        match self.rc {
            Some(m) => {
                out.append(".");
                let p: u8 = match self.patch {
                    Some(p) => p,
                    None => 0,
                };
                crate::digits::push_dec(&mut out, p as u128);
                let ms = m.to_string();
                out.append(ms.as_str());
                proof {
                    assert(out@ =~= spec_render_version(*self));
                }
            },
            None => {
                match self.patch {
                    Some(p) => {
                        out.append(".");
                        crate::digits::push_dec(&mut out, p as u128);
                        proof {
                            assert(out@ =~= spec_render_version(*self));
                        }
                    },
                    None => {
                        proof {
                            assert(out@ =~= spec_render_version(*self));
                        }
                    },
                }
            },
        }
        out
    }

    /// The canonical archive file name of this version.
    pub fn get_file_name(self, extension: Extension) -> (r: String)
        ensures
            r@ == spec_file_name(self, extension),
    {
        let mut out = String::from_str("php-");
        let vs = self.to_string();
        out.append(vs.as_str());
        out.append(".tar.");
        out.append(extension.as_str());
        proof {
            assert(out@ =~= spec_file_name(self, extension));
        }
        out
    }

    /// The canonical download URL: the museum host for lines before 7.4,
    /// the current distribution host otherwise.
    pub fn get_url(self, extension: Extension) -> (r: String)
        ensures
            r@ == spec_url(self, extension),
    {
        if self.major <= 7 && self.minor < 4 {
            let mut out = String::from_str("https://museum.php.net/php");
            crate::digits::push_dec(&mut out, self.major as u128);
            out.append("/php-");
            let vs = self.to_string();
            out.append(vs.as_str());
            out.append(".tar.");
            out.append(extension.as_str());
            proof {
                assert(out@ =~= spec_url(self, extension));
            }
            out
        } else {
            let mut out = String::from_str("https://php.net/distributions/php-");
            let vs = self.to_string();
            out.append(vs.as_str());
            out.append(".tar.");
            out.append(extension.as_str());
            proof {
                assert(out@ =~= spec_url(self, extension));
            }
            out
        }
    }
}

/// The canonical archive file name `php-VERSION.tar.EXT`.
pub open spec fn spec_file_name(v: Version, e: Extension) -> Seq<char> {
    "php-"@ + spec_render_version(v) + ".tar."@ + e.spec_str()
}

/// The canonical download URL of a release.
pub open spec fn spec_url(v: Version, e: Extension) -> Seq<char> {
    if v.major <= 7 && v.minor < 4 {
        "https://museum.php.net/php"@ + spec_dec(v.major as int) + "/php-"@
            + spec_render_version(v) + ".tar."@ + e.spec_str()
    } else {
        "https://php.net/distributions/php-"@ + spec_render_version(v) + ".tar."@ + e.spec_str()
    }
}

// ---------------------------------------------------------------------------
// Laws of the grammar and of the order.
// ---------------------------------------------------------------------------

/// A run of characters without a dot is its own dot-free prefix.
proof fn lemma_tud_whole(s: Seq<char>)
    requires
        forall|k: int| 0 <= k < s.len() ==> s[k] != '.',
    ensures
        take_until_dot(s) =~= s,
{
    lemma_take_until_dot_at(s, s.len() as int);
    assert(s.subrange(0, s.len() as int) =~= s);
}

/// Splitting `NUMERAL . rest` at the first dot yields the numeral and the
/// rest.
proof fn lemma_split_first(dm: Seq<char>, rest: Seq<char>)
    requires
        all_digits(dm),
        dm.len() >= 1,
    ensures
        take_until_dot(dm + "."@ + rest) =~= dm,
        take_until_dot(dm + "."@ + rest).len() < (dm + "."@ + rest).len(),
        (dm + "."@ + rest).skip(dm.len() as int + 1) =~= rest,
{
    reveal_strlit(".");
    let s = dm + "."@ + rest;
    assert forall|k: int| 0 <= k < dm.len() implies s[k] != '.' by {
        assert(s[k] == dm[k]);
        assert(is_digit(dm[k]));
    }
    assert(s[dm.len() as int] == '.');
    lemma_take_until_dot_at(s, dm.len() as int);
    assert(s.subrange(0, dm.len() as int) =~= dm);
    assert(s.skip(dm.len() as int + 1) =~= rest);
}

/// The canonical text of a modifier holds no dot and starts with a letter.
proof fn lemma_render_modifier_chars(md: VersionModifier)
    ensures
        spec_render_modifier(md).len() >= 2,
        forall|k: int|
            0 <= k < spec_render_modifier(md).len() ==> #[trigger] spec_render_modifier(md)[k]
                != '.',
        !is_digit(spec_render_modifier(md)[0]),
{
    reveal_strlit("alpha");
    reveal_strlit("beta");
    reveal_strlit("RC");
    let rm = spec_render_modifier(md);
    assert forall|k: int| 0 <= k < rm.len() implies #[trigger] rm[k] != '.' by {
        match md {
            VersionModifier::Alpha(q) => {
                match q {
                    Some(kk) => {
                        lemma_dec_well_formed(kk as int);
                        if k >= 5 {
                            assert(rm[k] == spec_dec(kk as int)[k - 5]);
                            assert(is_digit(spec_dec(kk as int)[k - 5]));
                        }
                    },
                    None => {},
                }
            },
            VersionModifier::Beta(q) => {
                match q {
                    Some(kk) => {
                        lemma_dec_well_formed(kk as int);
                        if k >= 4 {
                            assert(rm[k] == spec_dec(kk as int)[k - 4]);
                            assert(is_digit(spec_dec(kk as int)[k - 4]));
                        }
                    },
                    None => {},
                }
            },
            VersionModifier::RC(n) => {
                lemma_dec_well_formed(n as int);
                if k >= 2 {
                    assert(rm[k] == spec_dec(n as int)[k - 2]);
                    assert(is_digit(spec_dec(n as int)[k - 2]));
                }
            },
        }
    }
    match md {
        VersionModifier::Alpha(q) => {
            match q {
                Some(kk) => {
                    lemma_dec_well_formed(kk as int);
                },
                None => {},
            }
        },
        VersionModifier::Beta(q) => {
            match q {
                Some(kk) => {
                    lemma_dec_well_formed(kk as int);
                },
                None => {},
            }
        },
        VersionModifier::RC(n) => {
            lemma_dec_well_formed(n as int);
        },
    }
}

/// Parsing inverts rendering for modifiers.
proof fn lemma_parse_render_modifier(md: VersionModifier)
    ensures
        spec_parse_modifier(spec_render_modifier(md)) == Some(md),
{
    reveal_strlit("alpha");
    reveal_strlit("beta");
    reveal_strlit("RC");
    reveal_strlit("rc");
    let rm = spec_render_modifier(md);
    match md {
        VersionModifier::Alpha(None) => {
            assert(starts_with_ci(rm, "alpha"@));
            assert(rm.skip(5).len() == 0);
        },
        VersionModifier::Alpha(Some(q)) => {
            lemma_dec_well_formed(q as int);
            assert forall|i: int| 0 <= i < 5 implies char_eq_ci(rm[i], #[trigger] "alpha"@[i]) by {
                assert(rm[i] == "alpha"@[i]);
            }
            assert(starts_with_ci(rm, "alpha"@));
            assert(rm.skip(5) =~= spec_dec(q as int));
            assert(rm.skip(5).len() > 0);
            assert(spec_parse_u8(rm.skip(5)) == Some(q));
        },
        VersionModifier::Beta(None) => {
            assert(!char_eq_ci(rm[0], "alpha"@[0]));
            assert(starts_with_ci(rm, "beta"@));
            assert(rm.skip(4).len() == 0);
        },
        VersionModifier::Beta(Some(q)) => {
            lemma_dec_well_formed(q as int);
            assert(!char_eq_ci(rm[0], "alpha"@[0]));
            assert forall|i: int| 0 <= i < 4 implies char_eq_ci(rm[i], #[trigger] "beta"@[i]) by {
                assert(rm[i] == "beta"@[i]);
            }
            assert(starts_with_ci(rm, "beta"@));
            assert(rm.skip(4) =~= spec_dec(q as int));
            assert(rm.skip(4).len() > 0);
            assert(spec_parse_u8(rm.skip(4)) == Some(q));
        },
        VersionModifier::RC(n) => {
            lemma_dec_well_formed(n as int);
            assert(rm[0] == 'R');
            assert(rm[1] == 'C');
            assert(!char_eq_ci(rm[0], "alpha"@[0]));
            assert(!char_eq_ci(rm[0], "beta"@[0]));
            assert(char_eq_ci(rm[0], "rc"@[0]));
            assert(char_eq_ci(rm[1], "rc"@[1]));
            assert(starts_with_ci(rm, "rc"@));
            assert(rm.skip(2) =~= spec_dec(n as int));
            assert(spec_parse_u8(rm.skip(2)) == Some(n));
        },
    }
}

/// Parsing inverts rendering for the third component.
proof fn lemma_parse_patch_roundtrip(p: u8, md: Option<VersionModifier>)
    ensures
        spec_parse_patch(
            spec_dec(p as int) + (match md {
                Some(m) => spec_render_modifier(m),
                None => Seq::<char>::empty(),
            }),
        ) == Some((p, md)),
{
    let dp = spec_dec(p as int);
    lemma_dec_well_formed(p as int);
    match md {
        None => {
            let c = dp + Seq::<char>::empty();
            assert(c =~= dp);
            lemma_take_digits_at(c, c.len() as int);
            assert(take_digits(c) =~= c);
            assert(c.skip(take_digits(c).len() as int).len() == 0);
        },
        Some(m) => {
            let rm = spec_render_modifier(m);
            lemma_render_modifier_chars(m);
            let c = dp + rm;
            assert forall|k: int| 0 <= k < dp.len() implies is_digit(#[trigger] c[k]) by {
                assert(c[k] == dp[k]);
            }
            assert(c[dp.len() as int] == rm[0]);
            lemma_take_digits_at(c, dp.len() as int);
            assert(take_digits(c) =~= dp);
            assert(spec_parse_u8(take_digits(c)) == Some(p));
            assert(c.skip(take_digits(c).len() as int) =~= rm);
            lemma_parse_render_modifier(m);
        },
    }
}

/// Parsing inverts rendering: the canonical text of a version parses back to
/// that version, whenever a tagged version carries its patch (rendering
/// prints patch 0 for a tagged version without one, so that value cannot
/// round-trip).
#[verifier::rlimit(100)]
#[verifier::spinoff_prover]
pub proof fn lemma_parse_render_roundtrip(v: Version)
    requires
        v.rc is Some ==> v.patch is Some,
    ensures
        spec_parse_version(spec_render_version(v)) == Some(v),
{
    let s = spec_render_version(v);
    let dm = spec_dec(v.major as int);
    let dn = spec_dec(v.minor as int);
    lemma_dec_well_formed(v.major as int);
    lemma_dec_well_formed(v.minor as int);
    match v.rc {
        None => {
            match v.patch {
                None => {
                    assert(s =~= dm + "."@ + dn);
                    lemma_split_first(dm, dn);
                    assert(take_until_dot(s) =~= dm);
                    assert(s.skip(dm.len() as int + 1) =~= dn);
                    assert forall|k: int| 0 <= k < dn.len() implies dn[k] != '.' by {
                        assert(is_digit(dn[k]));
                    }
                    lemma_tud_whole(dn);
                    assert(spec_parse_u8(dm) == Some(v.major));
                    assert(spec_parse_u8(dn) == Some(v.minor));
                },
                Some(p) => {
                    let dp = spec_dec(p as int);
                    lemma_dec_well_formed(p as int);
                    let tail = dn + "."@ + dp;
                    assert(s =~= dm + "."@ + tail);
                    lemma_split_first(dm, tail);
                    assert(take_until_dot(dm + "."@ + tail) =~= dm);
                    lemma_split_first(dn, dp);
                    assert forall|k: int| 0 <= k < dp.len() implies dp[k] != '.' by {
                        assert(is_digit(dp[k]));
                    }
                    lemma_tud_whole(dp);
                    lemma_parse_patch_roundtrip(p, None);
                    assert(dp + Seq::<char>::empty() =~= dp);
                    assert(spec_parse_u8(dm) == Some(v.major));
                    assert(spec_parse_u8(dn) == Some(v.minor));
                },
            }
        },
        Some(md) => {
            let p: u8 = v.patch->0;
            let dp = spec_dec(p as int);
            lemma_dec_well_formed(p as int);
            let rm = spec_render_modifier(md);
            lemma_render_modifier_chars(md);
            let c = dp + rm;
            let tail = dn + "."@ + c;
            assert(s =~= dm + "."@ + tail);
            lemma_split_first(dm, tail);
            lemma_split_first(dn, c);
            assert forall|k: int| 0 <= k < c.len() implies c[k] != '.' by {
                if k < dp.len() {
                    assert(c[k] == dp[k]);
                    assert(is_digit(dp[k]));
                } else {
                    assert(c[k] == rm[k - dp.len()]);
                }
            }
            lemma_tud_whole(c);
            lemma_parse_patch_roundtrip(p, Some(md));
            assert(spec_parse_u8(dm) == Some(v.major));
            assert(spec_parse_u8(dn) == Some(v.minor));
        },
    }
}

/// Ranking below is irreflexive and transitive: with trichotomy on faithful
/// versions it is a strict total order.
pub proof fn lemma_lt_strict(a: Version, b: Version, c: Version)
    ensures
        !spec_lt(a, a),
        spec_lt(a, b) && spec_lt(b, c) ==> spec_lt(a, c),
        spec_lt(a, b) ==> !spec_lt(b, a),
{
}

/// A version whose ranking key determines it uniquely: a concrete patch,
/// minor and patch below 100, a release-candidate number 1 to 9, and no
/// number on an alpha or beta tag (the key orders pre-releases by kind and
/// candidate number alone).
pub open spec fn spec_rank_faithful(v: Version) -> bool {
    &&& v.minor <= 99
    &&& match v.patch {
        Some(p) => p <= 99,
        None => false,
    }
    &&& match v.rc {
        Some(VersionModifier::RC(n)) => 1 <= n <= 9,
        Some(VersionModifier::Alpha(k)) => k is None,
        Some(VersionModifier::Beta(k)) => k is None,
        None => true,
    }
}

/// On faithful versions the ranking key is injective.
pub proof fn lemma_rank_injective(a: Version, b: Version)
    requires
        spec_rank_faithful(a),
        spec_rank_faithful(b),
        spec_rank(a) == spec_rank(b),
    ensures
        a == b,
{
    let offa = modifier_offset(a.rc);
    let offb = modifier_offset(b.rc);
    assert(0 <= offa <= 11);
    assert(0 <= offb <= 11);
    let pa = a.patch->0 as int;
    let pb = b.patch->0 as int;
    assert((a.major as int - b.major as int) * 1000000 + (a.minor as int - b.minor as int) * 10000
        + (pa - pb) * 100 == offa - offb) by (nonlinear_arith)
        requires
            spec_rank(a) == spec_rank(b),
            offa == modifier_offset(a.rc),
            offb == modifier_offset(b.rc),
            pa == a.patch->0 as int,
            pb == b.patch->0 as int,
            a.patch is Some,
            b.patch is Some,
    ;
    let dmaj = a.major as int - b.major as int;
    let dmin = a.minor as int - b.minor as int;
    let dp = pa - pb;
    assert(-11 <= offa - offb <= 11);
    assert(-99 <= dmin <= 99);
    assert(-99 <= dp <= 99);
    assert(dmaj == 0 && dmin == 0 && dp == 0 && offa == offb) by (nonlinear_arith)
        requires
            dmaj * 1000000 + dmin * 10000 + dp * 100 == offa - offb,
            -11 <= offa - offb <= 11,
            -99 <= dmin <= 99,
            -99 <= dp <= 99,
            -255 <= dmaj <= 255,
    ;
    assert(a.patch == b.patch);
    assert(a.rc == b.rc);
}

/// Trichotomy: two faithful versions are ordered or equal.
pub proof fn lemma_lt_trichotomy(a: Version, b: Version)
    requires
        spec_rank_faithful(a),
        spec_rank_faithful(b),
    ensures
        spec_lt(a, b) || spec_lt(b, a) || a == b,
{
    if !spec_lt(a, b) && !spec_lt(b, a) {
        lemma_rank_injective(a, b);
    }
}

// ---------------------------------------------------------------------------
// Sorting by rank.
// ---------------------------------------------------------------------------

/// The sequence is ordered by ascending rank.
pub open spec fn sorted_by_rank(s: Seq<Version>) -> bool {
    forall|i: int, j: int| 0 <= i < j < s.len() ==> spec_rank(s[i]) <= spec_rank(s[j])
}

/// Sorts versions by ascending rank, keeping exactly the same releases.
pub fn sort_versions(input: Vec<Version>) -> (r: Vec<Version>)
    ensures
        sorted_by_rank(r@),
        r@.to_multiset() == input@.to_multiset(),
{
    broadcast use vstd::seq_lib::group_to_multiset_ensures;

    let mut rest = input;
    let mut out: Vec<Version> = Vec::new();
    while rest.len() > 0
        invariant
            out@.to_multiset().add(rest@.to_multiset()) == input@.to_multiset(),
            sorted_by_rank(out@),
            forall|i: int, j: int|
                0 <= i < out@.len() && 0 <= j < rest@.len() ==> spec_rank(out@[i]) <= spec_rank(
                    rest@[j],
                ),
        decreases rest.len(),
    {
        let mut m: usize = 0;
        let mut k: usize = 1;
        while k < rest.len()
            invariant
                m < rest@.len(),
                k <= rest@.len(),
                forall|i: int| 0 <= i < k ==> spec_rank(rest@[m as int]) <= spec_rank(rest@[i]),
            decreases rest.len() - k,
        {
            if rest[k].rank() < rest[m].rank() {
                m = k;
            }
            k += 1;
        }
        let ghost old_rest = rest@;
        let ghost old_out = out@;
        let x = rest.remove(m);
        out.push(x);
        proof {
            assert(out@ == old_out.push(x));
            assert(rest@ == old_rest.remove(m as int));
            old_out.to_multiset_ensures();
            old_rest.to_multiset_ensures();
            assert(old_rest.contains(old_rest[m as int]));
            assert(old_rest.to_multiset().count(x) > 0);
            assert(old_out.push(x).to_multiset() =~= old_out.to_multiset().insert(x));
            assert(old_rest.remove(m as int).to_multiset() =~= old_rest.to_multiset().remove(x));
            assert(out@.to_multiset() =~= old_out.to_multiset().insert(x));
            assert(rest@.to_multiset() =~= old_rest.to_multiset().remove(x));
            assert(out@.to_multiset().add(rest@.to_multiset()) =~= old_out.to_multiset().add(
                old_rest.to_multiset(),
            ));
            assert forall|i: int, j: int|
                0 <= i < out@.len() && 0 <= j < rest@.len() implies spec_rank(out@[i])
                <= spec_rank(rest@[j]) by {
                if j < m {
                    assert(rest@[j] == old_rest[j]);
                } else {
                    assert(rest@[j] == old_rest[j + 1]);
                }
            }
        }
    }
    out
}

/// Sorting is deterministic: two rank-sorted sequences holding the same
/// faithful releases are the same sequence, so sorting any shuffle of a
/// sorted list of faithful releases returns that list.
pub proof fn lemma_sorted_unique(a: Seq<Version>, b: Seq<Version>)
    requires
        sorted_by_rank(a),
        sorted_by_rank(b),
        a.to_multiset() == b.to_multiset(),
        forall|i: int| 0 <= i < a.len() ==> spec_rank_faithful(#[trigger] a[i]),
    ensures
        a =~= b,
    decreases a.len(),
{
    broadcast use vstd::seq_lib::group_to_multiset_ensures;

    a.to_multiset_ensures();
    b.to_multiset_ensures();
    assert(a.len() == b.len());
    if a.len() > 0 {
        let x = a[0];
        let y = b[0];
        assert(a.contains(x));
        assert(b.to_multiset().count(x) > 0);
        assert(b.contains(x));
        let j = choose|j: int| 0 <= j < b.len() && b[j] == x;
        assert(spec_rank(y) <= spec_rank(b[j]));
        assert(a.to_multiset().count(y) > 0);
        assert(a.contains(y));
        let k = choose|k: int| 0 <= k < a.len() && a[k] == y;
        assert(spec_rank(x) <= spec_rank(a[k]));
        assert(spec_rank(x) == spec_rank(y));
        lemma_rank_injective(x, y);
        let at = a.drop_first();
        let bt = b.drop_first();
        assert(a.remove(0) =~= at);
        assert(b.remove(0) =~= bt);
        assert(at.to_multiset() =~= a.to_multiset().remove(x));
        assert(bt.to_multiset() =~= b.to_multiset().remove(x));
        assert forall|i: int| 0 <= i < at.len() implies spec_rank_faithful(#[trigger] at[i]) by {
            assert(at[i] == a[i + 1]);
        }
        assert(sorted_by_rank(at)) by {
            assert forall|i: int, jj: int|
                0 <= i < jj < at.len() implies spec_rank(at[i]) <= spec_rank(at[jj]) by {
                assert(at[i] == a[i + 1]);
                assert(at[jj] == a[jj + 1]);
            }
        }
        assert(sorted_by_rank(bt)) by {
            assert forall|i: int, jj: int|
                0 <= i < jj < bt.len() implies spec_rank(bt[i]) <= spec_rank(bt[jj]) by {
                assert(bt[i] == b[i + 1]);
                assert(bt[jj] == b[jj + 1]);
            }
        }
        lemma_sorted_unique(at, bt);
        assert forall|i: int| 0 <= i < a.len() implies a[i] == b[i] by {
            if i > 0 {
                assert(at[i - 1] == bt[i - 1]);
            }
        }
    }
}

} // verus!
