//! Build roots: on-disk PHP source trees. The directory-name grammar that
//! identifies a root, the manifest that records what an extraction shipped,
//! the detection and safe backup naming of user-added files, and the
//! decisions of the upgrade workflow.

use vstd::prelude::*;
use vstd::string::StrSliceExecFns;
use vstd::string::StringExecFns;
use crate::digits::{is_digit, is_digit_exec, spec_dec, str_to_chars, lemma_dec_well_formed};
use crate::downloads::{path_leaf, after_last, contains_char, rfind_in, lemma_path_leaf_at,
    lemma_path_leaf_whole, lemma_after_last_at};
use crate::version::{Version, spec_parse_version, spec_render_version, spec_rank};
use crate::hooks::views;
use crate::Error;

verus! {

/// A materialized PHP source tree: its path, the release parsed from the
/// directory name, and the free-form modifier suffix of that name.
#[derive(Debug, PartialEq, Eq)]
pub struct BuildRoot {
    pub src: String,
    pub version: Version,
    pub modifiers: String,
}

// ---------------------------------------------------------------------------
// The directory-name grammar: `php-VERSION[-modifier]`, found at the
// leftmost position where it matches.
// ---------------------------------------------------------------------------

/// An ASCII letter or digit.
pub open spec fn is_alnum(c: char) -> bool {
    is_digit(c) || (97 <= c as u32 && c as u32 <= 122) || (65 <= c as u32 && c as u32 <= 90)
}

/// `php-` followed by `D.D.` and an alphanumeric character stands at
/// position `i` of `s`.
pub open spec fn match_at(s: Seq<char>, i: int) -> bool {
    &&& 0 <= i
    &&& i + 9 <= s.len()
    &&& s[i] == 'p'
    &&& s[i + 1] == 'h'
    &&& s[i + 2] == 'p'
    &&& s[i + 3] == '-'
    &&& is_digit(s[i + 4])
    &&& s[i + 5] == '.'
    &&& is_digit(s[i + 6])
    &&& s[i + 7] == '.'
    &&& is_alnum(s[i + 8])
}

/// The leftmost position at or after `i` where the pattern matches.
pub open spec fn first_match_from(s: Seq<char>, i: int) -> Option<int>
    decreases s.len() - i,
{
    if i + 9 > s.len() {
        None
    } else if match_at(s, i) {
        Some(i)
    } else {
        first_match_from(s, i + 1)
    }
}

/// The longest alphanumeric prefix of `s`.
pub open spec fn take_alnum(s: Seq<char>) -> Seq<char>
    decreases s.len(),
{
    if s.len() == 0 {
        s
    } else if !is_alnum(s[0]) {
        Seq::empty()
    } else {
        seq![s[0]] + take_alnum(s.drop_first())
    }
}

/// The release and modifier suffix encoded in a directory name: at the
/// leftmost `php-` that starts version-shaped text, the version text is the
/// maximal alphanumeric run after `php-D.D.`, an optional dash is skipped,
/// and the rest is the modifier suffix.
pub open spec fn spec_parse_path_info(s: Seq<char>) -> Option<(Version, Seq<char>)> {
    match first_match_from(s, 0) {
        None => None,
        Some(i) => {
            let run = take_alnum(s.skip(i + 8));
            let j = i + 8 + run.len();
            let vt = s.subrange(i + 4, j as int);
            let mods = if j < s.len() && s[j as int] == '-' {
                s.skip(j as int + 1)
            } else {
                s.skip(j as int)
            };
            match spec_parse_version(vt) {
                Some(v) => Some((v, mods)),
                None => None,
            }
        },
    }
}

proof fn lemma_first_match(s: Seq<char>, t: int, i: int)
    requires
        0 <= t <= i,
        match_at(s, i),
        forall|k: int| t <= k < i ==> !match_at(s, k),
    ensures
        first_match_from(s, t) == Some(i),
    decreases i - t,
{
    if t < i {
        lemma_first_match(s, t + 1, i);
    }
}

proof fn lemma_first_match_none(s: Seq<char>, t: int)
    requires
        0 <= t,
        forall|k: int| t <= k ==> !match_at(s, k),
    ensures
        first_match_from(s, t) is None,
    decreases s.len() - t,
{
    if t + 9 <= s.len() {
        lemma_first_match_none(s, t + 1);
    }
}

proof fn lemma_take_alnum_at(s: Seq<char>, n: int)
    requires
        0 <= n <= s.len(),
        forall|k: int| 0 <= k < n ==> is_alnum(#[trigger] s[k]),
        n == s.len() || !is_alnum(s[n]),
    ensures
        take_alnum(s) =~= s.subrange(0, n),
    decreases s.len(),
{
    if s.len() == 0 {
    } else if !is_alnum(s[0]) {
        assert(n == 0);
    } else {
        assert(n >= 1);
        lemma_take_alnum_at(s.drop_first(), n - 1);
        assert(seq![s[0]] + s.drop_first().subrange(0, n - 1) =~= s.subrange(0, n));
    }
}

fn is_alnum_exec(c: char) -> (r: bool)
    ensures
        r == is_alnum(c),
{
    let u = c as u32;
    (48 <= u && u <= 57) || (97 <= u && u <= 122) || (65 <= u && u <= 90)
}

impl BuildRoot {
    pub fn new(path: &str, version: Version, modifiers: &str) -> (r: Self)
        ensures
            r.src@ == path@,
            r.version == version,
            r.modifiers@ == modifiers@,
    {
        BuildRoot {
            src: String::from_str(path),
            version,
            modifiers: String::from_str(modifiers),
        }
    }

    /// Reads a directory name as version and modifier suffix.
    #[verifier::rlimit(60)]
    pub fn parse_path_info(dir: &str) -> (r: Result<(Version, String), Error>)
        ensures
            match spec_parse_path_info(dir@) {
                Some(vm) => r matches Ok(t) && t.0 == vm.0 && t.1@ == vm.1,
                None => r == Err::<(Version, String), Error>(Error::InvalidName),
            },
    {
        let ghost p = dir@;
        let cs = str_to_chars(dir);
        let len = cs.len();
        let mut i: usize = 0;
        let mut found = false;
        while !found && i < len && len - i >= 9
            invariant
                i <= len,
                len == cs@.len(),
                p == cs@,
                dir@ == p,
                forall|k: int| 0 <= k < i ==> !match_at(p, k),
                found ==> i < len && len - i >= 9 && match_at(p, i as int),
            decreases len - i, (if found { 0int } else { 1int }),
        {
            let hit = cs[i] == 'p' && cs[i + 1] == 'h' && cs[i + 2] == 'p' && cs[i + 3] == '-'
                && is_digit_exec(cs[i + 4]) && cs[i + 5] == '.' && is_digit_exec(cs[i + 6])
                && cs[i + 7] == '.' && is_alnum_exec(cs[i + 8]);
            if hit {
                found = true;
            } else {
                proof {
                    assert(!match_at(p, i as int));
                }
                i += 1;
            }
        }
        if !found {
            proof {
                assert forall|k: int| 0 <= k implies !match_at(p, k) by {
                    if k >= i {
                        assert(k + 9 > p.len());
                    }
                }
                lemma_first_match_none(p, 0);
            }
            return Err(Error::InvalidName);
        }
        proof {
            lemma_first_match(p, 0, i as int);
        }
        // The version text: the maximal alphanumeric run after `php-D.D.`.
        let mut e = i + 8;
        while e < len && is_alnum_exec(cs[e])
            invariant
                i + 8 <= e <= len,
                len == cs@.len(),
                p == cs@,
                forall|k: int| i + 8 <= k < e ==> is_alnum(#[trigger] p[k]),
            decreases len - e,
        {
            e += 1;
        }
        proof {
            let tail = p.skip(i + 8);
            assert forall|k: int| 0 <= k < e - (i + 8) implies is_alnum(#[trigger] tail[k]) by {
                assert(tail[k] == p[i + 8 + k]);
            }
            if e < len {
                assert(tail[e - (i + 8)] == p[e as int]);
            }
            lemma_take_alnum_at(tail, e - (i + 8));
            assert(take_alnum(tail).len() == e - (i + 8));
        }
        let version = match Version::parse_range(&cs, i + 4, e) {
            Ok(v) => v,
            Err(_) => {
                proof {
                    assert(p.subrange(i + 4, e as int) =~= cs@.subrange(i + 4, e as int));
                }
                return Err(Error::InvalidName);
            },
        };
        proof {
            assert(p.subrange(i + 4, e as int) =~= cs@.subrange(i + 4, e as int));
        }
        let mstart = if e < len && cs[e] == '-' {
            e + 1
        } else {
            e
        };
        let mods = dir.substring_char(mstart, len);
        proof {
            assert(mods@ =~= p.skip(mstart as int));
        }
        Ok((version, String::from_str(mods)))
    }

    /// Reads a build root from its path: the final path component must
    /// follow the directory-name grammar.
    pub fn from_path(path: &str) -> (r: Result<Self, Error>)
        ensures
            match spec_parse_path_info(path_leaf(path@)) {
                Some(vm) => r matches Ok(b) && b.src@ == path@ && b.version == vm.0
                    && b.modifiers@ == vm.1,
                None => r == Err::<Self, Error>(Error::InvalidName),
            },
    {
        let cs = str_to_chars(path);
        let ghost p = cs@;
        let len = cs.len();
        let start = match rfind_in(&cs, 0, len, '/') {
            Some(i) => {
                proof {
                    lemma_path_leaf_at(p, i as int);
                }
                i + 1
            },
            None => {
                proof {
                    lemma_path_leaf_whole(p);
                    assert(p.subrange(0, p.len() as int) =~= p);
                }
                0
            },
        };
        let leaf = path.substring_char(start, len);
        proof {
            assert(leaf@ =~= path_leaf(path@));
        }
        match Self::parse_path_info(leaf) {
            Ok((version, modifiers)) => Ok(
                BuildRoot {
                    src: String::from_str(path),
                    version,
                    modifiers,
                },
            ),
            Err(_) => Err(Error::InvalidName),
        }
    }

    /// The directory that holds this root.
    pub fn parent(&self) -> (r: String)
        ensures
            r@ == spec_parent(self.src@),
    {
        let s = self.src.as_str();
        let cs = str_to_chars(s);
        let ghost p = cs@;
        let len = cs.len();
        match rfind_in(&cs, 0, len, '/') {
            Some(i) => {
                proof {
                    assert(contains_char(p, '/'));
                    lemma_after_last_at(p, '/', i as int);
                    assert(after_last(p, '/').len() == len - i - 1);
                }
                if i == 0 {
                    proof {
                        reveal_strlit("/");
                        assert("/"@ =~= seq!['/']);
                    }
                    String::from_str("/")
                } else {
                    let r = s.substring_char(0, i);
                    proof {
                        assert(r@ =~= p.subrange(0, i as int));
                    }
                    String::from_str(r)
                }
            },
            None => {
                proof {
                    assert(!contains_char(p, '/'));
                }
                String::new()
            },
        }
    }

    /// The directory-name a root of this root's family has at `version`:
    /// the modifier suffix is preserved verbatim.
    pub fn version_path_name(&self, version: Version) -> (r: String)
        ensures
            r@ == "php-"@ + spec_render_version(version) + (if self.modifiers@.len() == 0 {
                Seq::<char>::empty()
            } else {
                "-"@ + self.modifiers@
            }),
    {
        let mut out = String::from_str("php-");
        let vs = version.to_string();
        out.append(vs.as_str());
        if self.modifiers.as_str().unicode_len() != 0 {
            out.append("-");
            out.append(self.modifiers.as_str());
            proof {
                assert(out@ =~= "php-"@ + spec_render_version(version) + ("-"@ + self.modifiers@));
            }
        } else {
            proof {
                assert(out@ =~= "php-"@ + spec_render_version(version) + Seq::<char>::empty());
            }
        }
        out
    }
}

/// The path of the directory that holds the named entity: empty when the
/// path has no separator, the root when the separator leads the path.
pub open spec fn spec_parent(s: Seq<char>) -> Seq<char> {
    if !contains_char(s, '/') {
        Seq::empty()
    } else {
        let i = s.len() - after_last(s, '/').len() - 1;
        if i == 0 {
            seq!['/']
        } else {
            s.subrange(0, i as int)
        }
    }
}

// ---------------------------------------------------------------------------
// The manifest: the recorded list of files an extraction shipped.
// ---------------------------------------------------------------------------

/// The longest newline-free prefix of `s`.
pub open spec fn take_line(s: Seq<char>) -> Seq<char>
    decreases s.len(),
{
    if s.len() == 0 {
        s
    } else if s[0] == '\n' {
        Seq::empty()
    } else {
        seq![s[0]] + take_line(s.drop_first())
    }
}

/// The manifest file's text: each path on a line of its own, each line
/// ended by a newline.
pub open spec fn spec_manifest_text(parts: Seq<Seq<char>>) -> Seq<char>
    decreases parts.len(),
{
    if parts.len() == 0 {
        Seq::empty()
    } else {
        spec_manifest_text(parts.drop_last()) + parts.last() + "\n"@
    }
}

/// The lines of a text: newline-separated, with no final empty line for a
/// trailing newline.
pub open spec fn spec_lines(s: Seq<char>) -> Seq<Seq<char>>
    decreases s.len(),
{
    if s.len() == 0 {
        Seq::empty()
    } else {
        let l = take_line(s);
        if l.len() >= s.len() {
            seq![l]
        } else {
            seq![l] + spec_lines(s.skip(l.len() as int + 1))
        }
    }
}

proof fn lemma_take_line_at(s: Seq<char>, n: int)
    requires
        0 <= n <= s.len(),
        forall|k: int| 0 <= k < n ==> s[k] != '\n',
        n == s.len() || s[n] == '\n',
    ensures
        take_line(s) =~= s.subrange(0, n),
    decreases s.len(),
{
    if s.len() == 0 {
    } else if s[0] == '\n' {
        assert(n == 0);
    } else {
        assert(n >= 1);
        lemma_take_line_at(s.drop_first(), n - 1);
        assert(seq![s[0]] + s.drop_first().subrange(0, n - 1) =~= s.subrange(0, n));
    }
}

/// The index of the first newline in `cs[from..to]`, or `to`.
fn find_nl(cs: &Vec<char>, from: usize, to: usize) -> (r: usize)
    requires
        from <= to <= cs@.len(),
    ensures
        from <= r <= to,
        forall|k: int| from <= k < r ==> cs@[k] != '\n',
        r < to ==> cs@[r as int] == '\n',
{
    let mut i = from;
    while i < to
        invariant
            from <= i <= to <= cs@.len(),
            forall|k: int| from <= k < i ==> cs@[k] != '\n',
        decreases to - i,
    {
        if cs[i] == '\n' {
            return i;
        }
        i += 1;
    }
    i
}

/// The tree entries absent from the manifest, in order.
pub open spec fn spec_user_files(manifest: Seq<Seq<char>>, tree: Seq<Seq<char>>) -> Seq<Seq<char>>
    decreases tree.len(),
{
    if tree.len() == 0 {
        Seq::empty()
    } else {
        spec_user_files(manifest, tree.drop_last()) + (if manifest.contains(tree.last()) {
            Seq::<Seq<char>>::empty()
        } else {
            seq![tree.last()]
        })
    }
}

/// `v` holds a string whose text is that of `s`.
pub fn contains_string(v: &Vec<String>, s: &String) -> (r: bool)
    ensures
        r == views(v@).contains(s@),
{
    let mut i: usize = 0;
    while i < v.len()
        invariant
            i <= v@.len(),
            forall|k: int| 0 <= k < i ==> views(v@)[k] != s@,
        decreases v@.len() - i,
    {
        if v[i].eq(s) {
            proof {
                assert(views(v@)[i as int] == s@);
            }
            return true;
        }
        i += 1;
    }
    false
}

impl BuildRoot {
    /// The manifest text recording the given relative paths.
    pub fn manifest_text(files: &Vec<String>) -> (r: String)
        ensures
            r@ == spec_manifest_text(views(files@)),
    {
        let mut out = String::new();
        let mut i: usize = 0;
        while i < files.len()
            invariant
                i <= files@.len(),
                out@ == spec_manifest_text(views(files@).subrange(0, i as int)),
            decreases files@.len() - i,
    {
            let ghost pre = views(files@).subrange(0, i as int);
            out.append(files[i].as_str());
            out.append("\n");
            proof {
                let ext = views(files@).subrange(0, i + 1 as int);
                assert(ext.drop_last() =~= pre);
                assert(ext.last() == files@[i as int]@);
                assert(out@ =~= spec_manifest_text(ext));
            }
            i += 1;
        }
        proof {
            assert(views(files@).subrange(0, files@.len() as int) =~= views(files@));
        }
        out
    }

    /// The relative paths a manifest text records.
    pub fn manifest_lines(text: &str) -> (r: Vec<String>)
        ensures
            views(r@) == spec_lines(text@),
    {
        let cs = str_to_chars(text);
        let ghost p = cs@;
        let len = cs.len();
        let mut out: Vec<String> = Vec::new();
        let mut pos: usize = 0;
        proof {
            assert(p.skip(0) =~= p);
            assert(views(out@) + spec_lines(p) =~= spec_lines(p));
        }
        while pos < len
            invariant
                pos <= len,
                len == cs@.len(),
                p == cs@,
                text@ == p,
                spec_lines(p) =~= views(out@) + spec_lines(p.skip(pos as int)),
            decreases len - pos,
        {
            let ghost rest = p.skip(pos as int);
            let ghost vold = views(out@);
            let k = find_nl(&cs, pos, len);
            proof {
                assert forall|j: int| 0 <= j < k - pos implies rest[j] != '\n' by {
                    assert(rest[j] == p[pos + j]);
                }
                if k < len {
                    assert(rest[k - pos] == p[k as int]);
                }
                lemma_take_line_at(rest, k - pos);
                assert(take_line(rest) =~= p.subrange(pos as int, k as int));
            }
            let line = text.substring_char(pos, k);
            proof {
                assert(line@ =~= p.subrange(pos as int, k as int));
            }
            out.push(String::from_str(line));
            proof {
                assert(views(out@) =~= vold.push(take_line(rest)));
            }
            if k == len {
                pos = len;
                proof {
                    assert(take_line(rest).len() == rest.len());
                    assert(spec_lines(rest) =~= seq![take_line(rest)]);
                    assert(spec_lines(p) =~= views(out@) + spec_lines(p.skip(pos as int)));
                }
            } else {
                pos = k + 1;
                proof {
                    assert(take_line(rest).len() < rest.len());
                    assert(rest.skip(take_line(rest).len() as int + 1) =~= p.skip(pos as int));
                    assert(spec_lines(rest) =~= seq![take_line(rest)] + spec_lines(
                        p.skip(pos as int),
                    ));
                    assert(spec_lines(p) =~= views(out@) + spec_lines(p.skip(pos as int)));
                }
            }
        }
        proof {
            assert(spec_lines(p.skip(len as int)) =~= Seq::<Seq<char>>::empty());
            assert(views(out@) + Seq::<Seq<char>>::empty() =~= views(out@));
        }
        out
    }

    /// `candidate` was not shipped by the extraction this manifest records:
    /// it is user content.
    pub fn is_user_file(manifest: &Vec<String>, candidate: &String) -> (r: bool)
        ensures
            r == !views(manifest@).contains(candidate@),
    {
        !contains_string(manifest, candidate)
    }

    /// Exactly the tree entries absent from the manifest, in tree order:
    /// the files the user added.
    pub fn user_files(manifest: &Vec<String>, tree: &Vec<String>) -> (r: Vec<String>)
        ensures
            views(r@) == spec_user_files(views(manifest@), views(tree@)),
    {
        let mut out: Vec<String> = Vec::new();
        let mut i: usize = 0;
        while i < tree.len()
            invariant
                i <= tree@.len(),
                views(out@) == spec_user_files(views(manifest@), views(tree@).subrange(0, i as int)),
            decreases tree@.len() - i,
        {
            let ghost pre = views(tree@).subrange(0, i as int);
            let ghost vold = views(out@);
            if !contains_string(manifest, &tree[i]) {
                out.push(tree[i].clone());
                proof {
                    assert(views(out@) =~= vold.push(tree@[i as int]@));
                }
            }
            proof {
                let ext = views(tree@).subrange(0, i + 1 as int);
                assert(ext.drop_last() =~= pre);
                assert(ext.last() == tree@[i as int]@);
                assert(views(out@) =~= spec_user_files(views(manifest@), ext));
            }
            i += 1;
        }
        proof {
            assert(views(tree@).subrange(0, tree@.len() as int) =~= views(tree@));
        }
        out
    }
}

// ---------------------------------------------------------------------------
// Collision-free backup naming, and the upgrade decision.
// ---------------------------------------------------------------------------

/// The path with a counter inserted into its file name: before the
/// extension when the name has one, appended otherwise.
pub open spec fn spec_numbered(p: Seq<char>, c: int) -> Seq<char> {
    let leaf = path_leaf(p);
    if contains_char(leaf, '.') && leaf.len() - after_last(leaf, '.').len() - 1 >= 1 {
        let l = p.len() - after_last(leaf, '.').len() - 1;
        p.subrange(0, l as int) + "."@ + spec_dec(c) + "."@ + p.skip(l as int + 1)
    } else {
        p + "."@ + spec_dec(c)
    }
}

/// Distinct counters give distinct numbered names for one path.
proof fn lemma_numbered_injective(p: Seq<char>, c1: int, c2: int)
    requires
        0 <= c1,
        0 <= c2,
        spec_numbered(p, c1) == spec_numbered(p, c2),
    ensures
        c1 == c2,
{
    reveal_strlit(".");
    lemma_dec_well_formed(c1);
    lemma_dec_well_formed(c2);
    crate::downloads::lemma_path_leaf_len(p);
    crate::downloads::lemma_after_last_len(path_leaf(p), '.');
    let d1 = spec_dec(c1);
    let d2 = spec_dec(c2);
    let s1 = spec_numbered(p, c1);
    let s2 = spec_numbered(p, c2);
    let leaf = path_leaf(p);
    assert("."@.len() == 1);
    if contains_char(leaf, '.') && leaf.len() - after_last(leaf, '.').len() - 1 >= 1 {
        let l = p.len() - after_last(leaf, '.').len() - 1;
        let off = l + 1;
        assert(1 <= l < p.len());
        assert(p.subrange(0, l as int).len() == l);
        assert(p.skip(l as int + 1).len() == p.len() - l - 1);
        assert(s1 == p.subrange(0, l as int) + "."@ + d1 + "."@ + p.skip(l as int + 1));
        assert(s2 == p.subrange(0, l as int) + "."@ + d2 + "."@ + p.skip(l as int + 1));
        assert(s1.len() == l + 1 + d1.len() + 1 + (p.len() - l - 1));
        assert(s2.len() == l + 1 + d2.len() + 1 + (p.len() - l - 1));
        assert(d1.len() == d2.len());
        assert(d1 =~= s1.subrange(off as int, off + d1.len() as int));
        assert(d2 =~= s2.subrange(off as int, off + d2.len() as int));
    } else {
        let off = p.len() + 1;
        assert(s1 == p + "."@ + d1);
        assert(s2 == p + "."@ + d2);
        assert(s1.len() == p.len() + 1 + d1.len());
        assert(s2.len() == p.len() + 1 + d2.len());
        assert(d1.len() == d2.len());
        assert(d1 =~= s1.subrange(off as int, off + d1.len() as int));
        assert(d2 =~= s2.subrange(off as int, off + d2.len() as int));
    }
    crate::digits::lemma_dec_injective(c1, c2);
}

/// `dst` with `c` inserted into its file name.
#[verifier::rlimit(100)]
#[verifier::spinoff_prover]
fn numbered(dst: &str, c: u128) -> (r: String)
    ensures
        r@ == spec_numbered(dst@, c as int),
{
    let cs = str_to_chars(dst);
    let ghost p = cs@;
    let len = cs.len();
    let start = match rfind_in(&cs, 0, len, '/') {
        Some(i) => {
            proof {
                lemma_path_leaf_at(p, i as int);
            }
            i + 1
        },
        None => {
            proof {
                lemma_path_leaf_whole(p);
                assert(p.subrange(0, p.len() as int) =~= p);
            }
            0
        },
    };
    let ghost leaf = path_leaf(p);
    proof {
        assert(leaf =~= p.subrange(start as int, len as int));
    }
    let dot = rfind_in(&cs, start, len, '.');
    let with_ext = match dot {
        Some(l) => l > start,
        None => false,
    };
    proof {
        match dot {
            Some(l) => {
                assert(leaf[l - start] == p[l as int]);
                assert(contains_char(leaf, '.'));
                assert forall|k: int| l - start < k < leaf.len() implies leaf[k] != '.' by {
                    assert(leaf[k] == p[start + k]);
                }
                lemma_after_last_at(leaf, '.', l - start);
                assert(after_last(leaf, '.').len() == len - l - 1);
            },
            None => {
                assert forall|k: int| 0 <= k < leaf.len() implies leaf[k] != '.' by {
                    assert(leaf[k] == p[start + k]);
                }
                assert(!contains_char(leaf, '.'));
            },
        }
    }
    if with_ext {
        let l = match dot {
            Some(l) => l,
            None => 0,
        };
        let head = dst.substring_char(0, l);
        let tail = dst.substring_char(l + 1, len);
        let mut out = String::from_str(head);
        out.append(".");
        crate::digits::push_dec(&mut out, c);
        out.append(".");
        out.append(tail);
        proof {
            assert(head@ =~= p.subrange(0, l as int));
            assert(tail@ =~= p.skip(l as int + 1));
            assert(out@ =~= spec_numbered(dst@, c as int));
        }
        out
    } else {
        let mut out = String::from_str(dst);
        out.append(".");
        crate::digits::push_dec(&mut out, c);
        proof {
            assert(out@ =~= spec_numbered(dst@, c as int));
        }
        out
    }
}

impl BuildRoot {
    /// A path that collides with none of the taken ones: `dst` itself when it
    /// is free, else `dst` with the smallest free counter inserted into its
    /// file name (every smaller counter's name is taken). A prior backup is
    /// thus never overwritten.
    pub fn unique_path(dst: &String, taken: &Vec<String>) -> (r: String)
        ensures
            !views(taken@).contains(r@),
            !views(taken@).contains(dst@) ==> r@ == dst@,
            r@ == dst@ || (exists|c: int|
                1 <= c && r@ == #[trigger] spec_numbered(dst@, c) && (forall|k: int|
                    1 <= k < c ==> views(taken@).contains(#[trigger] spec_numbered(dst@, k)))),
    {
        if !contains_string(taken, dst) {
            let mut r = String::new();
            r.append(dst.as_str());
            return r;
        }
        let n = taken.len();
        let mut c: u128 = 1;
        let mut cand = numbered(dst.as_str(), c);
        while contains_string(taken, &cand)
            invariant
                1 <= c,
                n == taken@.len(),
                c <= n as int + 1,
                cand@ == spec_numbered(dst@, c as int),
                forall|k: int| 1 <= k <= c ==> (views(taken@).contains(spec_numbered(dst@, k))
                    || k == c),
                forall|k: int| 1 <= k < c ==> views(taken@).contains(#[trigger] spec_numbered(dst@, k)),
            decreases taken@.len() + 1 - c,
        {
            proof {
                broadcast use vstd::set::group_set_axioms;
                broadcast use vstd::seq_lib::seq_to_set_is_finite;

                let tv = views(taken@);
                let names = Seq::new(c as nat, |k: int| spec_numbered(dst@, k + 1));
                assert forall|x: int, y: int|
                    0 <= x < names.len() && 0 <= y < names.len() && x != y implies names[x]
                    != names[y] by {
                    if names[x] == names[y] {
                        lemma_numbered_injective(dst@, x + 1, y + 1);
                    }
                }
                assert(names.no_duplicates());
                names.unique_seq_to_set();
                assert forall|x: Seq<char>| names.to_set().contains(x) implies tv.to_set().contains(
                    x,
                ) by {
                    let k = choose|k: int| 0 <= k < names.len() && names[k] == x;
                    assert(names[k] == spec_numbered(dst@, k + 1));
                    assert(tv.contains(x));
                }
                assert(names.to_set().subset_of(tv.to_set()));
                tv.lemma_cardinality_of_set();
                vstd::set_lib::lemma_len_subset(names.to_set(), tv.to_set());
                assert(c <= taken@.len());
            }
            c = c + 1;
            cand = numbered(dst.as_str(), c);
        }
        cand
    }
}

/// The new leaf name and the backup directory of one root's upgrade.
pub struct UpgradePlan {
    pub dst_leaf: String,
    pub backup_dir: String,
}

impl BuildRoot {
    /// The decision at the head of one root's upgrade: skip when the latest
    /// discovered release does not rank above the root's own; otherwise
    /// proceed, extracting into the root's parent under a leaf name that
    /// carries the new version and the preserved modifier suffix, and
    /// backing user files up into a directory of that name beside the new
    /// tree.
    pub fn plan_upgrade(&self, latest: Version) -> (r: Option<UpgradePlan>)
        ensures
            r is Some <==> spec_rank(self.version) < spec_rank(latest),
            r matches Some(plan) ==> plan.dst_leaf@ == "php-"@ + spec_render_version(latest) + (
            if self.modifiers@.len() == 0 {
                Seq::<char>::empty()
            } else {
                "-"@ + self.modifiers@
            }),
            r matches Some(plan) ==> plan.backup_dir@ == spec_parent(self.src@) + "/"@
                + plan.dst_leaf@ + "-backup-scripts"@,
    {
        if !self.version.lt(&latest) {
            return None;
        }
        let dst_leaf = self.version_path_name(latest);
        let mut backup_dir = self.parent();
        backup_dir.append("/");
        backup_dir.append(dst_leaf.as_str());
        backup_dir.append("-backup-scripts");
        proof {
            assert(backup_dir@ =~= spec_parent(self.src@) + "/"@ + dst_leaf@
                + "-backup-scripts"@);
        }
        Some(UpgradePlan { dst_leaf, backup_dir })
    }
}

/// The manifest text, read from the front: the first path, its newline,
/// then the text of the remaining paths.
proof fn lemma_manifest_text_front(parts: Seq<Seq<char>>)
    requires
        parts.len() > 0,
    ensures
        spec_manifest_text(parts) =~= parts[0] + "\n"@ + spec_manifest_text(parts.drop_first()),
    decreases parts.len(),
{
    if parts.len() == 1 {
        assert(parts.drop_last() =~= Seq::<Seq<char>>::empty());
        assert(parts.drop_first() =~= Seq::<Seq<char>>::empty());
        assert(spec_manifest_text(Seq::<Seq<char>>::empty()) =~= Seq::<char>::empty());
        assert(parts.last() == parts[0]);
        assert(spec_manifest_text(parts) =~= parts[0] + "\n"@);
        assert(parts[0] + "\n"@ + spec_manifest_text(Seq::<Seq<char>>::empty()) =~= parts[0]
            + "\n"@);
    } else {
        let head = parts.drop_last();
        lemma_manifest_text_front(head);
        assert(head[0] == parts[0]);
        assert(head.drop_first() =~= parts.drop_first().drop_last());
        assert(parts.drop_first().last() == parts.last());
        assert(spec_manifest_text(parts.drop_first()) == spec_manifest_text(
            parts.drop_first().drop_last(),
        ) + parts.drop_first().last() + "\n"@);
        assert(spec_manifest_text(parts) =~= parts[0] + "\n"@ + spec_manifest_text(
            parts.drop_first(),
        ));
    }
}

/// Writing a manifest and reading it back yields the recorded paths, for
/// paths free of newlines (a path holding one could not survive the
/// line-oriented file format).
pub proof fn lemma_manifest_roundtrip(parts: Seq<Seq<char>>)
    requires
        forall|i: int, j: int|
            0 <= i < parts.len() && 0 <= j < parts[i].len() ==> #[trigger] parts[i][j] != '\n',
    ensures
        spec_lines(spec_manifest_text(parts)) =~= parts,
    decreases parts.len(),
{
    reveal_strlit("\n");
    let text = spec_manifest_text(parts);
    if parts.len() == 0 {
        assert(text =~= Seq::<char>::empty());
    } else {
        lemma_manifest_text_front(parts);
        let first = parts[0];
        let rest_text = spec_manifest_text(parts.drop_first());
        assert(text =~= first + "\n"@ + rest_text);
        assert forall|k: int| 0 <= k < first.len() implies text[k] != '\n' by {
            assert(text[k] == first[k]);
            assert(parts[0][k] != '\n');
        }
        assert(text[first.len() as int] == '\n');
        lemma_take_line_at(text, first.len() as int);
        assert(take_line(text) =~= first);
        assert(take_line(text).len() < text.len());
        assert(text.skip(first.len() as int + 1) =~= rest_text);
        assert forall|i: int, j: int|
            0 <= i < parts.drop_first().len() && 0 <= j < parts.drop_first()[i].len()
            implies #[trigger] parts.drop_first()[i][j] != '\n' by {
            assert(parts.drop_first()[i] == parts[i + 1]);
        }
        lemma_manifest_roundtrip(parts.drop_first());
        assert(spec_lines(text) =~= seq![first] + parts.drop_first());
        assert(seq![first] + parts.drop_first() =~= parts);
    }
}

} // verus!
