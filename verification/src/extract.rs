//! Cached tarballs and the compute side of extraction: locating an archive
//! in the cache, the destination-path rules of an extraction, and the
//! format-dispatched decompression of the archive bytes. Reading and writing
//! the filesystem is the caller's task; to keep the final move a
//! same-filesystem rename, the caller must stage the unpacked tree inside
//! the destination root itself before renaming it to the destination path
//! computed here.

use vstd::prelude::*;
use vstd::string::StrSliceExecFns;
use vstd::string::StringExecFns;
use crate::config::{Config, spec_app_path};
use crate::digits::str_to_chars;
use crate::downloads::path_leaf;
use crate::version::{Version, Extension, spec_file_name};
use crate::Error;

verus! {

/// A release archive present in the local cache.
#[derive(Debug)]
pub struct Tarball {
    pub src: String,
    pub ext: Extension,
}

// ---------------------------------------------------------------------------
// Trusted boundary: the filesystem probe and the decompressors.
// ---------------------------------------------------------------------------

/// Relies on std::path::Path::exists: whether `p` currently names an
/// existing filesystem entity. The answer depends on the state of the disk,
/// so nothing is promised of it.
#[verifier::external_body]
fn path_exists(p: &str) -> bool {
    std::path::Path::new(p).exists()
}

/// What flate2's gzip decoder yields for a byte stream, when it succeeds:
/// a function of the bytes alone.
pub uninterp spec fn gunzip_of(data: Seq<u8>) -> Option<Seq<u8>>;

/// What bzip2's decoder yields for a byte stream, when it succeeds: a
/// function of the bytes alone.
pub uninterp spec fn bunzip_of(data: Seq<u8>) -> Option<Seq<u8>>;

/// What the xz crate's decoder yields for a byte stream, when it succeeds:
/// a function of the bytes alone.
pub uninterp spec fn unxz_of(data: Seq<u8>) -> Option<Seq<u8>>;

/// Relies on flate2::read::GzDecoder: decompresses an in-memory gzip
/// stream, failing exactly on streams the decoder rejects.
#[verifier::external_body]
fn gunzip(data: &Vec<u8>) -> (r: Option<Vec<u8>>)
    ensures
        r is Some <==> gunzip_of(data@) is Some,
        r matches Some(v) ==> gunzip_of(data@) == Some(v@),
{
    let mut out = std::vec::Vec::new();
    let mut dec = flate2::read::GzDecoder::new(&data[..]);
    match std::io::Read::read_to_end(&mut dec, &mut out) {
        Ok(_) => Some(out),
        Err(_) => None,
    }
}

/// Relies on bzip2::read::BzDecoder: decompresses an in-memory bzip2
/// stream, failing exactly on streams the decoder rejects.
#[verifier::external_body]
fn bunzip(data: &Vec<u8>) -> (r: Option<Vec<u8>>)
    ensures
        r is Some <==> bunzip_of(data@) is Some,
        r matches Some(v) ==> bunzip_of(data@) == Some(v@),
{
    let mut out = std::vec::Vec::new();
    let mut dec = bzip2::read::BzDecoder::new(&data[..]);
    match std::io::Read::read_to_end(&mut dec, &mut out) {
        Ok(_) => Some(out),
        Err(_) => None,
    }
}

/// Relies on xz::read::XzDecoder: decompresses an in-memory xz stream,
/// failing exactly on streams the decoder rejects.
#[verifier::external_body]
fn unxz(data: &Vec<u8>) -> (r: Option<Vec<u8>>)
    ensures
        r is Some <==> unxz_of(data@) is Some,
        r matches Some(v) ==> unxz_of(data@) == Some(v@),
{
    let mut out = std::vec::Vec::new();
    let mut dec = xz::read::XzDecoder::new(&data[..]);
    match std::io::Read::read_to_end(&mut dec, &mut out) {
        Ok(_) => Some(out),
        Err(_) => None,
    }
}

/// The decompressed tar stream of archive bytes in a given format, when the
/// stream is valid.
pub open spec fn spec_decompressed(ext: Extension, data: Seq<u8>) -> Option<Seq<u8>> {
    match ext {
        Extension::GZ => gunzip_of(data),
        Extension::BZ => bunzip_of(data),
        Extension::XZ => unxz_of(data),
    }
}

// ---------------------------------------------------------------------------
// The stem of an archive file name.
// ---------------------------------------------------------------------------

/// `.tar` stands at position `j` of `s`.
pub open spec fn tar_at(s: Seq<char>, j: int) -> bool {
    j + 4 <= s.len() && s[j] == '.' && s[j + 1] == 't' && s[j + 2] == 'a' && s[j + 3] == 'r'
}

/// The part of `s` before its first `.tar`, when there is one.
pub open spec fn spec_stem_before_tar(s: Seq<char>) -> Option<Seq<char>>
    decreases s.len(),
{
    if s.len() < 4 {
        None
    } else if tar_at(s, 0) {
        Some(Seq::empty())
    } else {
        match spec_stem_before_tar(s.drop_first()) {
            Some(t) => Some(seq![s[0]] + t),
            None => None,
        }
    }
}

proof fn lemma_stem_at(s: Seq<char>, k: int)
    requires
        0 <= k,
        tar_at(s, k),
        forall|j: int| 0 <= j < k ==> !tar_at(s, j),
    ensures
        spec_stem_before_tar(s) matches Some(t) && t =~= s.subrange(0, k),
    decreases s.len(),
{
    if k == 0 {
        assert(spec_stem_before_tar(s) matches Some(t) && t =~= s.subrange(0, 0));
    } else {
        assert forall|j: int| 0 <= j < k - 1 implies !tar_at(s.drop_first(), j) by {
            assert(!tar_at(s, j + 1));
        }
        assert(tar_at(s.drop_first(), k - 1));
        lemma_stem_at(s.drop_first(), k - 1);
        let t = spec_stem_before_tar(s.drop_first())->0;
        assert(seq![s[0]] + t =~= s.subrange(0, k));
    }
}

proof fn lemma_stem_none(s: Seq<char>)
    requires
        forall|j: int| 0 <= j ==> !tar_at(s, j),
    ensures
        spec_stem_before_tar(s) is None,
    decreases s.len(),
{
    if s.len() >= 4 {
        assert forall|j: int| 0 <= j implies !tar_at(s.drop_first(), j) by {
            assert(!tar_at(s, j + 1));
        }
        lemma_stem_none(s.drop_first());
    }
}

impl Tarball {
    /// Locates a cached archive for a resolved version: the canonical cache
    /// path under the registry directory. `NotFound` reports an absent file;
    /// presence depends on the disk, so which outcome occurs is not pinned.
    pub fn new(config: &Config, version: Version, extension: Extension) -> (r: Result<
        Tarball,
        Error,
    >)
        ensures
            r matches Ok(t) ==> t.src@ == spec_app_path(config.base@) + "/tarballs"@ + "/"@
                + spec_file_name(version, extension) && t.ext == extension,
            r is Err ==> r == Err::<Tarball, Error>(Error::NotFound),
    {
        let mut src = config.registry_path();
        src.append("/");
        let name = version.get_file_name(extension);
        src.append(name.as_str());
        if path_exists(src.as_str()) {
            Ok(Tarball { src, ext: extension })
        } else {
            Err(Error::NotFound)
        }
    }

    /// A destination path: the leaf placed directly under the root.
    pub fn full_path(root: &str, leaf: &str) -> (r: String)
        ensures
            r@ == root@ + "/"@ + leaf@,
    {
        let mut out = String::from_str(root);
        out.append("/");
        out.append(leaf);
        out
    }

    /// The archive's own stem: its file name up to the first `.tar`.
    pub fn clean_file_name(&self) -> (r: Result<String, Error>)
        ensures
            match spec_stem_before_tar(path_leaf(self.src@)) {
                Some(st) => r matches Ok(s) && s@ == st,
                None => r == Err::<String, Error>(Error::InvalidName),
            },
    {
        let s = self.src.as_str();
        let cs = str_to_chars(s);
        let ghost p = cs@;
        let len = cs.len();
        let start = match crate::downloads::rfind_in(&cs, 0, len, '/') {
            Some(i) => {
                proof {
                    crate::downloads::lemma_path_leaf_at(p, i as int);
                }
                i + 1
            },
            None => {
                proof {
                    crate::downloads::lemma_path_leaf_whole(p);
                    assert(p.subrange(0, p.len() as int) =~= p);
                }
                0
            },
        };
        let ghost name = path_leaf(p);
        proof {
            assert(name =~= p.subrange(start as int, len as int));
        }
        let mut j = start;
        while j < len && len - j >= 4
            invariant
                start <= j,
                j <= len == cs@.len(),
                s@ == p,
                p == cs@,
                self.src@ == p,
                name == path_leaf(self.src@),
                name =~= p.subrange(start as int, len as int),
                forall|k: int| 0 <= k < j - start ==> !tar_at(name, k),
            decreases len - j,
        {
            if cs[j] == '.' && cs[j + 1] == 't' && cs[j + 2] == 'a' && cs[j + 3] == 'r' {
                proof {
                    assert(name[j - start] == p[j as int]);
                    assert(name[j - start + 1] == p[j as int + 1]);
                    assert(name[j - start + 2] == p[j as int + 2]);
                    assert(name[j - start + 3] == p[j as int + 3]);
                    assert(tar_at(name, j - start));
                    lemma_stem_at(name, j - start);
                }
                let stem = s.substring_char(start, j);
                proof {
                    assert(stem@ =~= name.subrange(0, j - start));
                }
                return Ok(String::from_str(stem));
            }
            proof {
                assert(name[j - start] == p[j as int]);
                assert(name[j - start + 1] == p[j as int + 1]);
                assert(name[j - start + 2] == p[j as int + 2]);
                assert(name[j - start + 3] == p[j as int + 3]);
                assert(!tar_at(name, j - start));
            }
            j += 1;
        }
        proof {
            assert forall|k: int| 0 <= k implies !tar_at(name, k) by {
                if k < j - start {
                } else {
                    assert(k + 4 > name.len());
                }
            }
            lemma_stem_none(name);
        }
        Err(Error::InvalidName)
    }

    /// The destination path of an extraction: a caller-supplied leaf name,
    /// or the archive's own stem, under the destination root.
    pub fn build_dst_path(&self, dst_root: &str, dst_leaf: Option<&str>) -> (r: Result<
        String,
        Error,
    >)
        ensures
            match spec_stem_before_tar(path_leaf(self.src@)) {
                Some(st) => r matches Ok(s) && s@ == dst_root@ + "/"@ + (match dst_leaf {
                    Some(l) => l@,
                    None => st,
                }),
                None => r == Err::<String, Error>(Error::InvalidName),
            },
    {
        let default = match self.clean_file_name() {
            Ok(d) => d,
            Err(e) => {
                return Err(e);
            },
        };
        match dst_leaf {
            Some(l) => Ok(Self::full_path(dst_root, l)),
            None => Ok(Self::full_path(dst_root, default.as_str())),
        }
    }

    /// Reports an extraction destination that is already occupied: `Some`
    /// carries the computed destination path when the disk holds an entry
    /// there, `None` clears the way. Which of the two occurs depends on the
    /// disk.
    pub fn check_dst_path(&self, dst_root: &str, dst_leaf: Option<&str>) -> (r: Result<
        Option<String>,
        Error,
    >)
        ensures
            match spec_stem_before_tar(path_leaf(self.src@)) {
                Some(st) => r matches Ok(o) && (o matches Some(pp) ==> pp@ == dst_root@ + "/"@
                    + (match dst_leaf {
                    Some(l) => l@,
                    None => st,
                })),
                None => r == Err::<Option<String>, Error>(Error::InvalidName),
            },
    {
        let path = match self.build_dst_path(dst_root, dst_leaf) {
            Ok(p) => p,
            Err(e) => {
                return Err(e);
            },
        };
        if path_exists(path.as_str()) {
            Ok(Some(path))
        } else {
            Ok(None)
        }
    }

    /// Decompresses the archive bytes, selecting the decoder purely from the
    /// recorded format — the stream is never sniffed. Fails exactly on
    /// streams the format's decoder rejects.
    pub fn decompress(&self, data: &Vec<u8>) -> (r: Result<Vec<u8>, Error>)
        ensures
            r matches Ok(v) ==> spec_decompressed(self.ext, data@) == Some(v@),
            r is Err <==> spec_decompressed(self.ext, data@) is None,
            r is Err ==> r == Err::<Vec<u8>, Error>(Error::Archive),
    {
        let out = match self.ext {
            Extension::GZ => gunzip(data),
            Extension::BZ => bunzip(data),
            Extension::XZ => unxz(data),
        };
        match out {
            Some(v) => Ok(v),
            None => Err(Error::Archive),
        }
    }
}

} // verus!
