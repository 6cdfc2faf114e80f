//! Compression algorithm tags: their archive extensions and their names.
use vstd::prelude::*;
use crate::text::{lower_of, lowercase, str_eq};

verus! {

#[derive(Clone, Copy, Debug, PartialEq, Eq, Structural)]
pub enum CompressionLevel {
    Fast,
    Best,
    Level(u8),
}

#[derive(Clone, Copy, Debug, PartialEq, Eq, Structural)]
pub enum CompressionAlgorithm {
    Bzip2(CompressionLevel),
    Gzip(CompressionLevel),
    Zip,
}

/// The archive suffix of an algorithm.
pub open spec fn extension_of(a: CompressionAlgorithm) -> Seq<char> {
    match a {
        CompressionAlgorithm::Bzip2(_) => ".tar.bz2"@,
        CompressionAlgorithm::Gzip(_) => ".tar.gz"@,
        CompressionAlgorithm::Zip => ".zip"@,
    }
}

/// The archive suffix of an algorithm, as bytes.
pub open spec fn extension_bytes(a: CompressionAlgorithm) -> Seq<u8> {
    match a {
        CompressionAlgorithm::Bzip2(_) => seq![0x2eu8, 0x74u8, 0x61u8, 0x72u8, 0x2eu8, 0x62u8, 0x7au8, 0x32u8],
        CompressionAlgorithm::Gzip(_) => seq![0x2eu8, 0x74u8, 0x61u8, 0x72u8, 0x2eu8, 0x67u8, 0x7au8],
        CompressionAlgorithm::Zip => seq![0x2eu8, 0x7au8, 0x69u8, 0x70u8],
    }
}

pub open spec fn ends_with(s: Seq<u8>, suffix: Seq<u8>) -> bool {
    s.len() >= suffix.len() && s.subrange(s.len() - suffix.len(), s.len() as int) == suffix
}

/// The algorithm that an archive file name's suffix names, at the fast level.
pub open spec fn algorithm_of_name(name: Seq<u8>) -> Option<CompressionAlgorithm> {
    if ends_with(name, extension_bytes(CompressionAlgorithm::Bzip2(CompressionLevel::Fast))) {
        Some(CompressionAlgorithm::Bzip2(CompressionLevel::Fast))
    } else if ends_with(name, extension_bytes(CompressionAlgorithm::Gzip(CompressionLevel::Fast))) {
        Some(CompressionAlgorithm::Gzip(CompressionLevel::Fast))
    } else if ends_with(name, extension_bytes(CompressionAlgorithm::Zip)) {
        Some(CompressionAlgorithm::Zip)
    } else {
        None
    }
}

/// The algorithm a configuration word names (already lower-cased).
pub open spec fn algorithm_named(word: Seq<char>) -> Option<CompressionAlgorithm> {
    if word == "bzip2"@ {
        Some(CompressionAlgorithm::Bzip2(CompressionLevel::Fast))
    } else if word == "gzip"@ {
        Some(CompressionAlgorithm::Gzip(CompressionLevel::Fast))
    } else if word == "zip"@ {
        Some(CompressionAlgorithm::Zip)
    } else {
        None
    }
}

/// The level a configuration word names (already lower-cased): `best`, `fast`
/// or one decimal digit.
pub open spec fn level_named(word: Seq<char>) -> Option<CompressionLevel> {
    if word == "best"@ {
        Some(CompressionLevel::Best)
    } else if word == "fast"@ {
        Some(CompressionLevel::Fast)
    } else if word.len() == 1 && 0x30 <= (word[0] as u32) && (word[0] as u32) <= 0x39 {
        Some(CompressionLevel::Level(((word[0] as u32) - 0x30) as u8))
    } else {
        None
    }
}

fn ends_with_bytes(s: &[u8], suffix: &Vec<u8>) -> (r: bool)
    ensures
        r == ends_with(s@, suffix@),
{
    if s.len() < suffix.len() {
        return false;
    }
    let off = s.len() - suffix.len();
    let mut i: usize = 0;
    while i < suffix.len()
        invariant
            i <= suffix@.len(),
            off + suffix@.len() == s@.len(),
            s@.len() <= usize::MAX,
            forall|k: int| 0 <= k < i ==> s@[off + k] == suffix@[k],
        decreases suffix.len() - i,
    {
        if s[off + i] != suffix[i] {
            proof {
                assert(s@.subrange(off as int, s@.len() as int)[i as int] != suffix@[i as int]);
            }
            return false;
        }
        i = i + 1;
    }
    proof {
        assert(s@.subrange(off as int, s@.len() as int) =~= suffix@);
    }
    true
}

impl CompressionAlgorithm {
    /// The algorithm that the suffix of an archive's file name names.
    pub fn from_extension(name: &[u8]) -> (r: Option<CompressionAlgorithm>)
        ensures
            r == algorithm_of_name(name@),
    {
        let bz = CompressionAlgorithm::Bzip2(CompressionLevel::Fast);
        let gz = CompressionAlgorithm::Gzip(CompressionLevel::Fast);
        if ends_with_bytes(name, &bz.extension_suffix()) {
            Some(bz)
        } else if ends_with_bytes(name, &gz.extension_suffix()) {
            Some(gz)
        } else if ends_with_bytes(name, &CompressionAlgorithm::Zip.extension_suffix()) {
            Some(CompressionAlgorithm::Zip)
        } else {
            None
        }
    }

    /// The archive suffix, such as `.tar.gz`.
    pub fn extension(&self) -> (r: &'static str)
        ensures
            r@ == extension_of(*self),
    {
        match self {
            CompressionAlgorithm::Bzip2(..) => ".tar.bz2",
            CompressionAlgorithm::Gzip(..) => ".tar.gz",
            CompressionAlgorithm::Zip => ".zip",
        }
    }

    /// The archive suffix as bytes.
    pub fn extension_suffix(&self) -> (r: Vec<u8>)
        ensures
            r@ == extension_bytes(*self),
    {
        let r = match self {
            CompressionAlgorithm::Bzip2(..) => vec![0x2eu8, 0x74u8, 0x61u8, 0x72u8, 0x2eu8, 0x62u8, 0x7au8, 0x32u8],
            CompressionAlgorithm::Gzip(..) => vec![0x2eu8, 0x74u8, 0x61u8, 0x72u8, 0x2eu8, 0x67u8, 0x7au8],
            CompressionAlgorithm::Zip => vec![0x2eu8, 0x7au8, 0x69u8, 0x70u8],
        };
        proof {
            assert(r@ =~= extension_bytes(*self));
        }
        r
    }

    /// The algorithm named by a configuration word, in any case; `Err` holds
    /// the lower-cased word when it names none.
    pub fn from_str(s: &str) -> (r: Result<CompressionAlgorithm, String>)
        ensures
            r matches Ok(a) ==> algorithm_named(lower_of(s@)) == Some(a),
            r matches Err(w) ==> algorithm_named(lower_of(s@)) is None && w@ == lower_of(s@),
    {
        let w = lowercase(s);
        if str_eq(w.as_str(), "bzip2") {
            Ok(CompressionAlgorithm::Bzip2(CompressionLevel::Fast))
        } else if str_eq(w.as_str(), "gzip") {
            Ok(CompressionAlgorithm::Gzip(CompressionLevel::Fast))
        } else if str_eq(w.as_str(), "zip") {
            Ok(CompressionAlgorithm::Zip)
        } else {
            Err(w)
        }
    }
}

impl CompressionLevel {
    /// The level named by a configuration word, in any case; `Err` holds the
    /// lower-cased word when it names none.
    pub fn from_str(s: &str) -> (r: Result<CompressionLevel, String>)
        ensures
            r matches Ok(l) ==> level_named(lower_of(s@)) == Some(l),
            r matches Err(w) ==> level_named(lower_of(s@)) is None && w@ == lower_of(s@),
    {
        let w = lowercase(s);
        if str_eq(w.as_str(), "best") {
            Ok(CompressionLevel::Best)
        } else if str_eq(w.as_str(), "fast") {
            Ok(CompressionLevel::Fast)
        } else if w.as_str().unicode_len() == 1 {
            let c = w.as_str().get_char(0);
            let u = c as u32;
            if 0x30 <= u && u <= 0x39 {
                Ok(CompressionLevel::Level((u - 0x30) as u8))
            } else {
                Err(w)
            }
        } else {
            Err(w)
        }
    }
}

} // verus!
