//! The on-disk cache of an index run: where it lies, and the tag that keeps
//! a cache of another version from being misread.
use vstd::prelude::*;

use crate::language::{Extraction, ExtractionView};
use crate::paths;

verus! {

/// What one file came to in an index run: its repo-relative path, the hash
/// of its contents and what was extracted from it.
pub type CachedExtraction = (String, [u8; 32], Extraction);

/// What a [`CachedExtraction`] says.
pub open spec fn cached_view(c: CachedExtraction) -> (Seq<char>, Seq<u8>, ExtractionView) {
    (c.0@, c.1@, c.2@)
}

/// What a list of them says.
pub open spec fn cached_views(v: Seq<CachedExtraction>) -> Seq<
    (Seq<char>, Seq<u8>, ExtractionView),
> {
    v.map_values(|c: CachedExtraction| cached_view(c))
}

/// The tag that a cache file begins with: `TST2`. The payload after it does
/// not describe itself, so the tag changes whenever the payload's shape does.
pub open spec fn magic() -> Seq<u8> {
    seq![0x54u8, 0x53u8, 0x54u8, 0x32u8]
}

/// The cache of one repository.
#[derive(Debug)]
pub struct Cache {
    pub root: String,
}

/// What a file holds behind the tag; nothing for a file without it.
pub open spec fn payload_of(bytes: Seq<u8>) -> Option<Seq<u8>> {
    if bytes.len() >= 4 && bytes.take(4) == magic() {
        Some(bytes.skip(4))
    } else {
        None
    }
}

/// What an optional payload says.
pub open spec fn opt_bytes(o: Option<Vec<u8>>) -> Option<Seq<u8>> {
    match o {
        Some(v) => Some(v@),
        None => None,
    }
}

impl Cache {
    /// The cache file.
    pub fn file(&self) -> (r: String)
        ensures
            r@ == paths::joined(self.root@, "graph.bin"@),
    {
        paths::join_path(self.root.as_str(), "graph.bin")
    }

    /// What the bytes of a cache file hold behind the tag; nothing where the
    /// tag is missing.
    pub fn open(bytes: &Vec<u8>) -> (r: Option<Vec<u8>>)
        ensures
            opt_bytes(r) == payload_of(bytes@),
    {
        if bytes.len() < 4 || bytes[0] != 0x54 || bytes[1] != 0x53 || bytes[2] != 0x54 || bytes[3]
            != 0x32 {
            proof {
                if bytes@.len() >= 4 && bytes@.take(4) == magic() {
                    let t = bytes@.take(4);
                    assert(t[0] == bytes@[0] && t[1] == bytes@[1] && t[2] == bytes@[2] && t[3]
                        == bytes@[3]);
                }
            }
            return None;
        }
        assert(bytes@.take(4) =~= magic());
        let mut out: Vec<u8> = Vec::new();
        let mut i: usize = 4;
        while i < bytes.len()
            invariant
                4 <= i <= bytes@.len(),
                out@ == bytes@.subrange(4, i as int),
            decreases bytes@.len() - i,
        {
            out.push(bytes[i]);
            i = i + 1;
            assert(bytes@.subrange(4, i as int) =~= bytes@.subrange(4, i - 1).push(bytes@[i - 1]));
        }
        assert(bytes@.subrange(4, bytes@.len() as int) =~= bytes@.skip(4));
        Some(out)
    }

    /// The bytes of a cache file that holds `payload`.
    pub fn seal(payload: &Vec<u8>) -> (r: Vec<u8>)
        ensures
            r@ == magic() + payload@,
    {
        let mut out: Vec<u8> = Vec::new();
        out.push(0x54);
        out.push(0x53);
        out.push(0x54);
        out.push(0x32);
        assert(out@ =~= magic());
        let mut i: usize = 0;
        while i < payload.len()
            invariant
                i <= payload@.len(),
                out@ == magic() + payload@.take(i as int),
            decreases payload@.len() - i,
        {
            out.push(payload[i]);
            assert(payload@.take(i + 1) =~= payload@.take(i as int).push(payload@[i as int]));
            i = i + 1;
        }
        assert(payload@.take(payload@.len() as int) =~= payload@);
        out
    }
}

/// What was sealed is what is opened.
pub proof fn law_open_after_seal(payload: Seq<u8>)
    ensures
        payload_of(magic() + payload) == Some(payload),
{
    let bytes = magic() + payload;
    assert(bytes.take(4) =~= magic());
    assert(bytes.skip(4) =~= payload);
}

/// Only what begins with the tag opens.
pub proof fn law_untagged_never_opens(bytes: Seq<u8>)
    ensures
        payload_of(bytes) is Some <==> exists|payload: Seq<u8>| bytes == #[trigger] (magic()
            + payload),
{
    if payload_of(bytes) is Some {
        assert(bytes =~= magic() + bytes.skip(4));
    }
    if exists|payload: Seq<u8>| bytes == #[trigger] (magic() + payload) {
        let payload = choose|payload: Seq<u8>| bytes == #[trigger] (magic() + payload);
        law_open_after_seal(payload);
    }
}

/// What is loaded from a cache file, where `decode` reads its payload:
/// nothing where there is no file, it has no tag, or the payload does not
/// decode.
pub open spec fn loaded<T>(
    file: Option<Seq<u8>>,
    decode: spec_fn(Seq<u8>) -> Option<T>,
) -> Option<T> {
    match file {
        Some(bytes) => match payload_of(bytes) {
            Some(payload) => decode(payload),
            None => None,
        },
        None => None,
    }
}

/// What was saved is what is loaded, as long as the encoding of the payload
/// gives back what it was given.
pub proof fn law_load_after_save<T>(
    saved: T,
    encode: spec_fn(T) -> Seq<u8>,
    decode: spec_fn(Seq<u8>) -> Option<T>,
)
    requires
        decode(encode(saved)) == Some(saved),
    ensures
        loaded(Some(magic() + encode(saved)), decode) == Some(saved),
{
    law_open_after_seal(encode(saved));
}

/// A missing file loads nothing, and neither does one without the tag or one
/// whose payload does not decode.
pub proof fn law_what_is_no_cache_loads_nothing<T>(
    bytes: Seq<u8>,
    decode: spec_fn(Seq<u8>) -> Option<T>,
)
    ensures
        loaded(None, decode) is None,
        payload_of(bytes) is None ==> loaded(Some(bytes), decode) is None,
        payload_of(bytes) matches Some(payload) && decode(payload) is None ==> loaded(
            Some(bytes),
            decode,
        ) is None,
{
}

} // verus!
