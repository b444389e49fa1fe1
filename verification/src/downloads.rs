//! Located release artifacts and the discovery of a line's releases: the
//! cache-filename grammar, the candidate versions a line is probed for, and
//! the assembly of probe results into a sorted inventory.

use vstd::prelude::*;
use vstd::string::StringExecFns;
use crate::digits::str_to_chars;
use crate::version::{
    Version,
    VersionModifier,
    Extension,
    spec_parse_version,
    spec_parse_ext,
    spec_rank,
    spec_url,
};
use crate::Error;

verus! {

/// A located, sized release unit: a URL or local path, the release it holds,
/// its size in bytes, an optional modification timestamp (seconds since the
/// Unix epoch), and its archive format.
#[derive(Debug)]
pub struct DownloadInfo {
    pub location: String,
    pub version: Version,
    pub size: u64,
    pub date: Option<i64>,
    pub extension: Extension,
}

/// The discovery index of one major.minor line in one archive format.
#[derive(Debug)]
pub struct DownloadList {
    pub major: u8,
    pub minor: u8,
    pub extension: Extension,
}

// ---------------------------------------------------------------------------
// The cache-filename grammar: `php-VERSION.tar.EXT`.
// ---------------------------------------------------------------------------

/// The part of a path after its last slash (the whole path without one).
pub open spec fn path_leaf(s: Seq<char>) -> Seq<char>
    decreases s.len(),
{
    if s.len() == 0 {
        s
    } else if s.last() == '/' {
        Seq::empty()
    } else {
        path_leaf(s.drop_last()).push(s.last())
    }
}

/// The part of `s` after the last occurrence of `c` (all of `s` without one).
pub open spec fn after_last(s: Seq<char>, c: char) -> Seq<char>
    decreases s.len(),
{
    if s.len() == 0 {
        s
    } else if s.last() == c {
        Seq::empty()
    } else {
        after_last(s.drop_last(), c).push(s.last())
    }
}

/// `s` holds the character `c`.
pub open spec fn contains_char(s: Seq<char>, c: char) -> bool {
    exists|i: int| 0 <= i < s.len() && s[i] == c
}

/// The version and format encoded in an artifact path, read back from its
/// file name `php-VERSION.tar.EXT`.
pub open spec fn spec_parse_artifact_path(p: Seq<char>) -> Option<(Version, Extension)> {
    let name = path_leaf(p);
    if !contains_char(name, '.') {
        None
    } else {
        let et = after_last(name, '.');
        let stem = name.subrange(0, name.len() - et.len() - 1);
        match spec_parse_ext(et) {
            None => None,
            Some(e) => if stem.len() >= 8 && stem.subrange(0, 4) == "php-"@ && stem.subrange(
                stem.len() - 4,
                stem.len() as int,
            ) == ".tar"@ {
                match spec_parse_version(stem.subrange(4, stem.len() - 4)) {
                    Some(v) => Some((v, e)),
                    None => None,
                }
            } else {
                None
            },
        }
    }
}

pub(crate) proof fn lemma_path_leaf_at(s: Seq<char>, i: int)
    requires
        0 <= i < s.len(),
        s[i] == '/',
        forall|k: int| i < k < s.len() ==> s[k] != '/',
    ensures
        path_leaf(s) =~= s.subrange(i + 1, s.len() as int),
    decreases s.len(),
{
    if i == s.len() - 1 {
    } else {
        lemma_path_leaf_at(s.drop_last(), i);
        assert(s.drop_last().subrange(i + 1, s.len() - 1).push(s.last()) =~= s.subrange(
            i + 1,
            s.len() as int,
        ));
    }
}

pub(crate) proof fn lemma_path_leaf_whole(s: Seq<char>)
    requires
        forall|k: int| 0 <= k < s.len() ==> s[k] != '/',
    ensures
        path_leaf(s) =~= s,
    decreases s.len(),
{
    if s.len() > 0 {
        lemma_path_leaf_whole(s.drop_last());
        assert(s.drop_last().push(s.last()) =~= s);
    }
}

pub(crate) proof fn lemma_after_last_at(s: Seq<char>, c: char, i: int)
    requires
        0 <= i < s.len(),
        s[i] == c,
        forall|k: int| i < k < s.len() ==> s[k] != c,
    ensures
        after_last(s, c) =~= s.subrange(i + 1, s.len() as int),
    decreases s.len(),
{
    if i == s.len() - 1 {
    } else {
        lemma_after_last_at(s.drop_last(), c, i);
        assert(s.drop_last().subrange(i + 1, s.len() - 1).push(s.last()) =~= s.subrange(
            i + 1,
            s.len() as int,
        ));
    }
}

/// A path's leaf is never longer than the path.
pub(crate) proof fn lemma_path_leaf_len(s: Seq<char>)
    ensures
        path_leaf(s).len() <= s.len(),
    decreases s.len(),
{
    if s.len() > 0 && s.last() != '/' {
        lemma_path_leaf_len(s.drop_last());
    }
}

/// The suffix after the last occurrence is never longer than the whole.
pub(crate) proof fn lemma_after_last_len(s: Seq<char>, c: char)
    ensures
        after_last(s, c).len() <= s.len(),
    decreases s.len(),
{
    if s.len() > 0 && s.last() != c {
        lemma_after_last_len(s.drop_last(), c);
    }
}

/// The index of the last occurrence of `c` in `cs[from..to]`.
pub(crate) fn rfind_in(cs: &Vec<char>, from: usize, to: usize, c: char) -> (r: Option<usize>)
    requires
        from <= to <= cs@.len(),
    ensures
        match r {
            Some(i) => from <= i < to && cs@[i as int] == c && (forall|k: int|
                i < k < to ==> cs@[k] != c),
            None => forall|k: int| from <= k < to ==> cs@[k] != c,
        },
{
    let mut i = to;
    while i > from
        invariant
            from <= i <= to <= cs@.len(),
            forall|k: int| i <= k < to ==> cs@[k] != c,
        decreases i,
    {
        i -= 1;
        if cs[i] == c {
            return Some(i);
        }
    }
    None
}

impl DownloadInfo {
    pub fn new(
        version: Version,
        location: &str,
        size: u64,
        date: Option<i64>,
        extension: Extension,
    ) -> (r: Self)
        ensures
            r.version == version,
            r.location@ == location@,
            r.size == size,
            r.date == date,
            r.extension == extension,
    {
        DownloadInfo { location: String::from_str(location), version, size, date, extension }
    }

    /// Reads a cached artifact's version and format back from its path, per
    /// the `php-VERSION.tar.EXT` file-name grammar; the caller supplies the
    /// file's size.
    #[verifier::rlimit(100)]
    #[verifier::spinoff_prover]
    pub fn from_file(path: &str, size: u64) -> (r: Result<Self, Error>)
        ensures
            match spec_parse_artifact_path(path@) {
                Some(ve) => r matches Ok(d) && d.version == ve.0 && d.extension == ve.1
                    && d.location@ == path@ && d.size == size && d.date is None,
                None => r == Err::<Self, Error>(Error::InvalidName),
            },
    {
        let cs = str_to_chars(path);
        let ghost p = cs@;
        let len = cs.len();
        let start = match rfind_in(&cs, 0, len, '/') {
            Some(i) => {
                proof {
                    lemma_path_leaf_at(p, i as int);
                }
                i + 1
            },
            None => {
                proof {
                    lemma_path_leaf_whole(p);
                    assert(p.subrange(0, p.len() as int) =~= p);
                }
                0
            },
        };
        let ghost name = path_leaf(p);
        proof {
            assert(name =~= p.subrange(start as int, len as int));
        }
        let dot = rfind_in(&cs, start, len, '.');
        let i = match dot {
            Some(i) => i,
            None => {
                proof {
                    assert forall|k: int| 0 <= k < name.len() implies name[k] != '.' by {
                        assert(name[k] == p[start + k]);
                    }
                }
                return Err(Error::InvalidName);
            },
        };
        proof {
            assert(name[i - start] == p[i as int]);
            assert(contains_char(name, '.'));
            assert forall|k: int| i - start < k < name.len() implies name[k] != '.' by {
                assert(name[k] == p[start + k]);
            }
            lemma_after_last_at(name, '.', i - start);
            assert(after_last(name, '.') =~= p.subrange(i as int + 1, len as int));
        }
        let ext = match Extension::from_chars(&cs, i + 1, len) {
            Ok(e) => e,
            Err(_) => {
                return Err(Error::InvalidName);
            },
        };
        let ghost stem = name.subrange(0, name.len() - after_last(name, '.').len() - 1);
        proof {
            assert(stem =~= p.subrange(start as int, i as int));
        }
        // The stem must read `php-VERSION.tar`.
        if i - start < 8 {
            return Err(Error::InvalidName);
        }
        proof {
            reveal_strlit("php-");
            reveal_strlit(".tar");
        }
        let ok_prefix = cs[start] == 'p' && cs[start + 1] == 'h' && cs[start + 2] == 'p'
            && cs[start + 3] == '-';
        if !ok_prefix {
            proof {
                assert(stem[0] == p[start as int]);
                assert(stem[1] == p[start as int + 1]);
                assert(stem[2] == p[start as int + 2]);
                assert(stem[3] == p[start as int + 3]);
                assert(stem.subrange(0, 4)[0] == stem[0]);
                assert(stem.subrange(0, 4)[1] == stem[1]);
                assert(stem.subrange(0, 4)[2] == stem[2]);
                assert(stem.subrange(0, 4)[3] == stem[3]);
                assert(stem.subrange(0, 4) != "php-"@);
            }
            return Err(Error::InvalidName);
        }
        let ok_suffix = cs[i - 4] == '.' && cs[i - 3] == 't' && cs[i - 2] == 'a' && cs[i - 1]
            == 'r';
        if !ok_suffix {
            proof {
                assert(stem[stem.len() - 4] == p[i as int - 4]);
                assert(stem[stem.len() - 3] == p[i as int - 3]);
                assert(stem[stem.len() - 2] == p[i as int - 2]);
                assert(stem[stem.len() - 1] == p[i as int - 1]);
                let tl = stem.subrange(stem.len() - 4, stem.len() as int);
                assert(tl[0] == stem[stem.len() - 4]);
                assert(tl[1] == stem[stem.len() - 3]);
                assert(tl[2] == stem[stem.len() - 2]);
                assert(tl[3] == stem[stem.len() - 1]);
                assert(tl != ".tar"@);
            }
            return Err(Error::InvalidName);
        }
        proof {
            assert(stem.subrange(0, 4) =~= "php-"@);
            assert(stem.subrange(stem.len() - 4, stem.len() as int) =~= ".tar"@);
            assert(stem.subrange(4, stem.len() - 4) =~= p.subrange(start as int + 4, i as int - 4));
        }
        let version = match Version::parse_range(&cs, start + 4, i - 4) {
            Ok(v) => v,
            Err(_) => {
                return Err(Error::InvalidName);
            },
        };
        Ok(DownloadInfo {
            location: String::from_str(path),
            version,
            size,
            date: None,
            extension: ext,
        })
    }
}

// ---------------------------------------------------------------------------
// Discovery: candidates, and the inventory assembled from probe results.
// ---------------------------------------------------------------------------

/// The artifacts of the successful probes, in probe order.
pub open spec fn flatten_probes(s: Seq<Option<DownloadInfo>>) -> Seq<DownloadInfo>
    decreases s.len(),
{
    if s.len() == 0 {
        Seq::empty()
    } else {
        flatten_probes(s.drop_last()) + (match s.last() {
            Some(d) => seq![d],
            None => Seq::empty(),
        })
    }
}

/// The inventory is ordered by descending release rank: the newest release
/// stands first.
pub open spec fn sorted_by_version(s: Seq<DownloadInfo>) -> bool {
    forall|i: int, j: int|
        0 <= i < j < s.len() ==> spec_rank(s[i].version) >= spec_rank(s[j].version)
}

/// How many patch numbers of a line are probed (patches 0 to 30).
pub open spec fn spec_probe_bound() -> int {
    31
}

impl DownloadList {
    pub fn new(major: u8, minor: u8, extension: Extension) -> (r: Self)
        ensures
            r == (DownloadList { major, minor, extension }),
    {
        DownloadList { major, minor, extension }
    }

    /// The candidate versions the line is probed for: every patch number up
    /// to the probe bound, a heuristic (not exhaustive) sweep.
    pub fn get_check_versions(&self) -> (r: Vec<Version>)
        ensures
            r@.len() == spec_probe_bound(),
            forall|i: int|
                0 <= i < r@.len() ==> r@[i] == (Version {
                    major: self.major,
                    minor: self.minor,
                    patch: Some(i as u8),
                    rc: None,
                }),
    {
        let mut v: Vec<Version> = Vec::new();
        let mut p: u8 = 0;
        while p < 31
            invariant
                p <= 31,
                v@.len() == p as int,
                forall|i: int|
                    0 <= i < v@.len() ==> v@[i] == (Version {
                        major: self.major,
                        minor: self.minor,
                        patch: Some(i as u8),
                        rc: None,
                    }),
            decreases 31 - p,
    {
            v.push(Version::from_major_minor_patch(self.major, self.minor, p));
            p += 1;
        }
        v
    }

    /// The candidate versions of a line still in pre-release: patch 0
    /// tagged alpha, beta, and the first seven release candidates.
    pub fn get_check_prerelease_versions(&self) -> (r: Vec<Version>)
        ensures
            r@.len() == 9,
            r@[0] == (Version {
                major: self.major,
                minor: self.minor,
                patch: Some(0),
                rc: Some(VersionModifier::Alpha(None)),
            }),
            r@[1] == (Version {
                major: self.major,
                minor: self.minor,
                patch: Some(0),
                rc: Some(VersionModifier::Beta(None)),
            }),
            forall|i: int|
                2 <= i < 9 ==> r@[i] == (Version {
                    major: self.major,
                    minor: self.minor,
                    patch: Some(0),
                    rc: Some(VersionModifier::RC((i - 1) as u8)),
                }),
    {
        let mut v: Vec<Version> = Vec::new();
        v.push(Version::new(self.major, self.minor, Some(0), Some(VersionModifier::Alpha(None))));
        v.push(Version::new(self.major, self.minor, Some(0), Some(VersionModifier::Beta(None))));
        let mut n: u8 = 1;
        while n <= 7
            invariant
                1 <= n <= 8,
                v@.len() == n + 1,
                v@[0] == (Version {
                    major: self.major,
                    minor: self.minor,
                    patch: Some(0),
                    rc: Some(VersionModifier::Alpha(None)),
                }),
                v@[1] == (Version {
                    major: self.major,
                    minor: self.minor,
                    patch: Some(0),
                    rc: Some(VersionModifier::Beta(None)),
                }),
                forall|i: int|
                    2 <= i < v@.len() ==> v@[i] == (Version {
                        major: self.major,
                        minor: self.minor,
                        patch: Some(0),
                        rc: Some(VersionModifier::RC((i - 1) as u8)),
                    }),
            decreases 8 - n,
        {
            v.push(Version::new(self.major, self.minor, Some(0), Some(VersionModifier::RC(n))));
            n += 1;
        }
        v
    }

    /// The artifact a successful probe of `version` found: the canonical URL
    /// with the reported size (0 when the header was missing or unreadable)
    /// and timestamp.
    pub fn artifact_from_probe(
        &self,
        version: Version,
        content_length: Option<u64>,
        last_modified: Option<i64>,
    ) -> (r: DownloadInfo)
        ensures
            r.version == version,
            r.location@ == spec_url(version, self.extension),
            r.size == (match content_length {
                Some(n) => n,
                None => 0,
            }),
            r.date == last_modified,
            r.extension == self.extension,
    {
        let url = version.get_url(self.extension);
        let size: u64 = match content_length {
            Some(n) => n,
            None => 0,
        };
        DownloadInfo {
            location: url,
            version,
            size,
            date: last_modified,
            extension: self.extension,
        }
    }

    /// Assembles probe results into the inventory: exactly the artifacts of
    /// the successful probes, sorted descending by release rank (the newest
    /// first).
    pub fn list_from_probes(&self, probes: Vec<Option<DownloadInfo>>) -> (r: Vec<DownloadInfo>)
        ensures
            r@.to_multiset() == flatten_probes(probes@).to_multiset(),
            sorted_by_version(r@),
    {
        let ghost orig = probes@;
        let mut rest = probes;
        let mut found: Vec<DownloadInfo> = Vec::new();
        while rest.len() > 0
            invariant
                rest@.len() <= orig.len(),
                rest@ == orig.subrange(orig.len() - rest@.len(), orig.len() as int),
                found@ == flatten_probes(orig.subrange(0, orig.len() - rest@.len())),
            decreases rest.len(),
        {
            let ghost done = orig.len() - rest@.len();
            let ghost pre = orig.subrange(0, done as int);
            proof {
                assert(rest@[0] == orig[done as int]);
            }
            let p = rest.remove(0);
            match p {
                Some(d) => {
                    found.push(d);
                },
                None => {},
            }
            proof {
                let ext = orig.subrange(0, done + 1 as int);
                assert(ext.drop_last() =~= pre);
                assert(ext.last() == orig[done as int]);
                assert(found@ =~= flatten_probes(ext));
                assert(rest@ =~= orig.subrange(done + 1, orig.len() as int));
            }
        }
        proof {
            assert(orig.subrange(0, orig.len() as int) =~= orig);
        }
        sort_infos(found)
    }

    /// The newest discovered artifact of the line, if the sweep found any.
    pub fn latest_from_probes(&self, probes: Vec<Option<DownloadInfo>>) -> (r: Option<
        DownloadInfo,
    >)
        ensures
            match r {
                None => flatten_probes(probes@).len() == 0,
                Some(x) => flatten_probes(probes@).to_multiset().contains(x) && (forall|
                    y: DownloadInfo,
                |
                    flatten_probes(probes@).to_multiset().contains(y) ==> spec_rank(y.version)
                        <= spec_rank(x.version)),
            },
    {
        broadcast use vstd::seq_lib::group_to_multiset_ensures;

        let mut list = self.list_from_probes(probes);
        let ghost flat = flatten_probes(probes@);
        let ghost before = list@;
        if list.len() == 0 {
            proof {
                before.to_multiset_ensures();
                flat.to_multiset_ensures();
                assert(before.len() == flat.to_multiset().len());
            }
            return None;
        }
        let x = list.remove(0);
        proof {
            let gx = x;
            before.to_multiset_ensures();
            flat.to_multiset_ensures();
            assert(gx == before[0]);
            assert(before.contains(gx));
            assert(flat.to_multiset().contains(gx));
            assert forall|y: DownloadInfo|
                flat.to_multiset().contains(y) implies spec_rank(y.version) <= spec_rank(
                gx.version,
            ) by {
                assert(before.contains(y));
                let j = choose|j: int| 0 <= j < before.len() && before[j] == y;
                assert(spec_rank(before[0].version) >= spec_rank(before[j].version));
            }
        }
        Some(x)
    }
}

/// Sorts artifacts descending by release rank (the newest first), keeping
/// exactly the same artifacts.
pub fn sort_infos(input: Vec<DownloadInfo>) -> (r: Vec<DownloadInfo>)
    ensures
        sorted_by_version(r@),
        r@.to_multiset() == input@.to_multiset(),
{
    broadcast use vstd::seq_lib::group_to_multiset_ensures;

    let mut rest = input;
    let mut out: Vec<DownloadInfo> = Vec::new();
    while rest.len() > 0
        invariant
            out@.to_multiset().add(rest@.to_multiset()) == input@.to_multiset(),
            sorted_by_version(out@),
            forall|i: int, j: int|
                0 <= i < out@.len() && 0 <= j < rest@.len() ==> spec_rank(out@[i].version)
                    >= spec_rank(rest@[j].version),
        decreases rest.len(),
    {
        let mut m: usize = 0;
        let mut k: usize = 1;
        while k < rest.len()
            invariant
                m < rest@.len(),
                k <= rest@.len(),
                forall|i: int|
                    0 <= i < k ==> spec_rank(rest@[m as int].version) >= spec_rank(
                        rest@[i].version,
                    ),
            decreases rest.len() - k,
        {
            if rest[k].version.rank() > rest[m].version.rank() {
                m = k;
            }
            k += 1;
        }
        let ghost old_rest = rest@;
        let ghost old_out = out@;
        let x = rest.remove(m);
        let ghost gx = x;
        out.push(x);
        proof {
            old_out.to_multiset_ensures();
            old_rest.to_multiset_ensures();
            assert(out@ == old_out.push(gx));
            assert(rest@ == old_rest.remove(m as int));
            assert(old_rest.contains(old_rest[m as int]));
            assert(old_rest.to_multiset().count(gx) > 0);
            assert(old_out.push(gx).to_multiset() =~= old_out.to_multiset().insert(gx));
            assert(old_rest.remove(m as int).to_multiset() =~= old_rest.to_multiset().remove(gx));
            assert(out@.to_multiset().add(rest@.to_multiset()) =~= old_out.to_multiset().add(
                old_rest.to_multiset(),
            ));
            assert forall|i: int, j: int|
                0 <= i < out@.len() && 0 <= j < rest@.len() implies spec_rank(out@[i].version)
                >= spec_rank(rest@[j].version) by {
                if j < m {
                    assert(rest@[j] == old_rest[j]);
                } else {
                    assert(rest@[j] == old_rest[j + 1]);
                }
            }
        }
    }
    out
}

} // verus!
