//! The MRT files to read, and what they hold once they are unpacked.
use std::io::Read;

use bzip2::bufread::BzDecoder;
use flate2::read::GzDecoder;
use vstd::prelude::*;

use crate::ingress::viewed;
use crate::mrt_file::fails;
use crate::mrt_format::MrtError;
use crate::mrt_import::MrtImportState;
use crate::mrt_preflight::preflighted;
use crate::text::{hex, hex_text, opt_str, str_equal};

verus! {

/// Which MRT files to read.
#[derive(Clone, Debug)]
pub struct MrtFileIn {
    pub filename: OneOrManyPaths,
    pub update_path: Option<String>,
}

/// The path of one file, or those of some.
#[derive(Clone, Debug)]
pub enum OneOrManyPaths {
    One(String),
    Many(Vec<String>),
}

/// Paths that have not been handed out yet.
#[derive(Debug)]
pub enum PathsIterator<'a> {
    One(Option<String>),
    Many(&'a [String]),
}

/// Some texts.
pub open spec fn texts(v: Seq<String>) -> Seq<Seq<char>> {
    Seq::new(v.len(), |i: int| v[i]@)
}

impl OneOrManyPaths {
    /// The paths.
    pub open spec fn paths(self) -> Seq<Seq<char>> {
        match self {
            OneOrManyPaths::One(p) => seq![p@],
            OneOrManyPaths::Many(ps) => texts(ps@),
        }
    }

    /// Hands out the paths, one by one.
    pub fn iter(&self) -> (r: PathsIterator<'_>)
        ensures
            r.left() == self.paths(),
    {
        match self {
            OneOrManyPaths::One(p) => PathsIterator::One(Some(p.clone())),
            OneOrManyPaths::Many(ps) => PathsIterator::Many(ps.as_slice()),
        }
    }
}

impl<'a> PathsIterator<'a> {
    /// The paths that have not been handed out yet.
    pub open spec fn left(self) -> Seq<Seq<char>> {
        match self {
            PathsIterator::One(Some(p)) => seq![p@],
            PathsIterator::One(None) => Seq::empty(),
            PathsIterator::Many(ps) => texts(ps@),
        }
    }

    /// The next path, if there is one left.
    pub fn next(&mut self) -> (r: Option<String>)
        ensures
            match r {
                Some(p) => old(self).left().len() > 0 && p@ == old(self).left()[0] && final(self).left() == old(
                    self,
                ).left().skip(1),
                None => old(self).left().len() == 0 && final(self).left().len() == 0,
            },
    {
        match self {
            PathsIterator::One(p) => {
                let r = p.take();
                assert(r matches Some(t) ==> seq![t@].skip(1) =~= Seq::<Seq<char>>::empty());
                r
            },
            PathsIterator::Many(ps) => {
                let all: &'a [String] = *ps;
                let n: usize = all.len();
                if n == 0 {
                    None
                } else {
                    let first = all[0].clone();
                    let rest: &'a [String] = &all[1..n];
                    *ps = rest;
                    assert(texts(rest@) =~= texts(all@).skip(1));
                    Some(first)
                }
            },
        }
    }
}

/// What gzip data holds, if it is sound.
pub uninterp spec fn gunzipped(data: Seq<u8>) -> Option<Seq<u8>>;

/// What bzip2 data holds, if it is sound.
pub uninterp spec fn bunzipped(data: Seq<u8>) -> Option<Seq<u8>>;

/// Unpacks gzip data, by reading a `flate2::read::GzDecoder` to its end. What
/// comes out depends on the data alone; how it is packed is left unsaid.
#[verifier::external_body]
fn gunzip(data: &[u8]) -> (r: Option<Vec<u8>>)
    ensures
        viewed(r) == gunzipped(data@),
{
    let mut out: Vec<u8> = Vec::new();
    GzDecoder::new(data).read_to_end(&mut out).ok()?;
    Some(out)
}

/// Unpacks bzip2 data, by reading a `bzip2::bufread::BzDecoder` to its end.
/// What comes out depends on the data alone; how it is packed is left unsaid.
#[verifier::external_body]
fn bunzip(data: &[u8]) -> (r: Option<Vec<u8>>)
    ensures
        viewed(r) == bunzipped(data@),
{
    let mut out: Vec<u8> = Vec::new();
    BzDecoder::new(data).read_to_end(&mut out).ok()?;
    Some(out)
}

/// What a file holds, by the extension of its name; none if it is packed and
/// cannot be unpacked.
pub open spec fn unpacked(data: Seq<u8>, extension: Option<Seq<char>>) -> Option<Seq<u8>> {
    if extension == Some("gz"@) {
        gunzipped(data)
    } else if extension == Some("bz2"@) {
        bunzipped(data)
    } else {
        Some(data)
    }
}

/// What is told where a file cannot be unpacked.
pub open spec fn unpack_error(extension: Option<Seq<char>>) -> Seq<char> {
    if extension == Some("gz"@) {
        "gz decoding failed"@
    } else {
        "bz2 decoding failed"@
    }
}

/// Unpacks a file, if it is packed.
pub fn unpack(data: Vec<u8>, extension: Option<&str>) -> (r: Result<Vec<u8>, MrtError>)
    ensures
        match r {
            Ok(v) => unpacked(data@, opt_str(extension)) == Some(v@),
            Err(e) => {
                &&& unpacked(data@, opt_str(extension)) is None
                &&& e matches MrtError::Other(t)
                &&& t@ == unpack_error(opt_str(extension))
            },
        },
{
    let (gz, bz2) = match extension {
        Some(e) => (str_equal(e, "gz"), str_equal(e, "bz2")),
        None => (false, false),
    };
    if gz {
        match gunzip(&data) {
            Some(v) => Ok(v),
            None => Err(MrtError::other("gz decoding failed")),
        }
    } else if bz2 {
        match bunzip(&data) {
            Some(v) => Ok(v),
            None => Err(MrtError::other("bz2 decoding failed")),
        }
    } else {
        Ok(data)
    }
}

/// The SHA-256 digest of octets, as `sha2` computes it.
pub uninterp spec fn sha256_of(data: Seq<u8>) -> Seq<u8>;

/// Computes a digest, by `Sha256::digest` of `sha2`: 32 octets that depend on
/// the given ones alone.
#[verifier::external_body]
fn sha256(data: &[u8]) -> (r: Vec<u8>)
    ensures
        r@ == sha256_of(data@),
        r@.len() == 32,
{
    <sha2::Sha256 as sha2::Digest>::digest(data).to_vec()
}

/// The SHA-256 digest of a file, in lower-case hexadecimal digits.
pub fn digest_text(data: &[u8]) -> (r: String)
    ensures
        r@ == hex_text(sha256_of(data@)),
{
    hex(&sha256(data))
}

impl MrtImportState {
    /// Unpacks a file, and looks through it.
    pub fn preflight_file(&mut self, data: Vec<u8>, extension: Option<&str>) -> (r: Result<(), MrtError>)
        requires
            old(self).wf(),
        ensures
            final(self).wf(),
            final(self).path_children == old(self).path_children,
            match unpacked(data@, opt_str(extension)) {
                Some(bytes) => {
                    let o = preflighted(old(self).noted_families(), bytes);
                    final(self).noted_families() == o.0 && fails(r, o.1)
                },
                None => {
                    &&& final(self).noted_families() == old(self).noted_families()
                    &&& r matches Err(MrtError::Other(t))
                    &&& t@ == unpack_error(opt_str(extension))
                },
            },
    {
        match unpack(data, extension) {
            Ok(bytes) => self.preflight_bytes(&bytes),
            Err(e) => Err(e),
        }
    }
}

} // verus!
