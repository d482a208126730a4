use vstd::prelude::*;

use vstd::string::StringExecFns;

use crate::util::{clone_opt_string, str_eq};

verus! {

/// The SHA-256 digest of a byte string. SHA-256 is a fixed published
/// function of its input alone; its value is not spelled out here.
pub uninterp spec fn sha256_of(b: Seq<u8>) -> Seq<u8>;

/// Relies on `sha2::Sha256`: the digest is 32 bytes and depends on the
/// input bytes alone.
#[verifier::external_body]
fn sha256_digest(bytes: &[u8]) -> (r: Vec<u8>)
    ensures
        r@ == sha256_of(bytes@),
        r@.len() == 32,
{
    let mut hasher = <sha2::Sha256 as sha2::Digest>::new();
    sha2::Digest::update(&mut hasher, bytes);
    sha2::Digest::finalize(hasher).to_vec()
}

/// The character for one hexadecimal digit, lower case.
pub open spec fn spec_hex_digit(n: int) -> char {
    seq!['0', '1', '2', '3', '4', '5', '6', '7', '8', '9', 'a', 'b', 'c', 'd', 'e', 'f'][n]
}

/// Bytes written as lower-case hexadecimal, two digits per byte, high
/// nibble first.
pub open spec fn spec_hex_lower(b: Seq<u8>) -> Seq<char> {
    Seq::new(
        2 * b.len(),
        |i: int|
            if i % 2 == 0 {
                spec_hex_digit((b[i / 2] >> 4) as int)
            } else {
                spec_hex_digit((b[i / 2] & 0xf) as int)
            },
    )
}

/// Relies on `base16::encode_lower`: each input byte becomes two
/// lower-case hexadecimal digits, high nibble first.
#[verifier::external_body]
fn hex_encode_lower(bytes: &[u8]) -> (r: String)
    ensures
        r@ == spec_hex_lower(bytes@),
{
    base16::encode_lower(bytes)
}

/// A payload to store: raw bytes with optional name and MIME type.
#[derive(Debug, Clone)]
pub struct Media {
    pub filename: Option<String>,
    pub mimetype: Option<String>,
    pub body: Vec<u8>,
}

/// The mathematical value of a payload.
#[verifier::ext_equal]
pub struct MediaView {
    pub filename: Option<Seq<char>>,
    pub mimetype: Option<Seq<char>>,
    pub body: Seq<u8>,
}

impl View for Media {
    type V = MediaView;

    open spec fn view(&self) -> MediaView {
        MediaView {
            filename: crate::tags::opt_view(self.filename),
            mimetype: crate::tags::opt_view(self.mimetype),
            body: self.body@,
        }
    }
}

/// One manifest entry: what was uploaded and where it was stored.
#[derive(Debug, Clone)]
pub struct FileEntry {
    pub filename: Option<String>,
    pub mimetype: Option<String>,
    pub storage_path: String,
}

/// The mathematical value of a manifest entry.
#[verifier::ext_equal]
pub struct FileEntryView {
    pub filename: Option<Seq<char>>,
    pub mimetype: Option<Seq<char>>,
    pub storage_path: Seq<char>,
}

impl View for FileEntry {
    type V = FileEntryView;

    open spec fn view(&self) -> FileEntryView {
        FileEntryView {
            filename: crate::tags::opt_view(self.filename),
            mimetype: crate::tags::opt_view(self.mimetype),
            storage_path: self.storage_path@,
        }
    }
}

/// The storage path a payload resolves to: the digest in hexadecimal,
/// then the filename under it, or the bare digest without one.
pub open spec fn spec_storage_path(body: Seq<u8>, filename: Option<Seq<char>>) -> Seq<char> {
    let hex = spec_hex_lower(sha256_of(body));
    match filename {
        Some(n) => hex + seq!['/'] + n,
        None => hex,
    }
}

/// Idempotent upload: byte-identical payloads always resolve to the
/// identical storage path, whichever call computes it.
pub proof fn lemma_upload_path_deterministic(b1: Seq<u8>, b2: Seq<u8>, filename: Option<Seq<char>>)
    requires
        b1 == b2,
    ensures
        spec_storage_path(b1, filename) == spec_storage_path(b2, filename),
{
}

/// Payloads with identical bytes share the digest directory of their
/// storage paths, whatever their filenames.
pub proof fn lemma_same_bytes_same_digest_dir(b1: Seq<u8>, b2: Seq<u8>, f1: Option<Seq<char>>, f2: Option<Seq<char>>)
    requires
        b1 == b2,
    ensures
        spec_storage_path(b1, f1).take(spec_hex_lower(sha256_of(b1)).len() as int)
            == spec_storage_path(b2, f2).take(spec_hex_lower(sha256_of(b2)).len() as int),
{
    let hex = spec_hex_lower(sha256_of(b1));
    match f1 {
        Some(n) => {
            assert((hex + seq!['/'] + n).take(hex.len() as int) =~~= hex);
        },
        None => {
            assert(hex.take(hex.len() as int) =~~= hex);
        },
    }
    match f2 {
        Some(n) => {
            assert((hex + seq!['/'] + n).take(hex.len() as int) =~~= hex);
        },
        None => {
            assert(hex.take(hex.len() as int) =~~= hex);
        },
    }
}

/// The public URL for a stored path: the prefix, a slash, the path.
pub open spec fn spec_object_url(prefix: Seq<char>, path: Seq<char>) -> Seq<char> {
    prefix + seq!['/'] + path
}

/// The public URL for a stored path.
pub fn object_url(prefix: &str, path: &str) -> (r: String)
    ensures
        r@ == spec_object_url(prefix@, path@),
{
    let mut s = String::new();
    s.append(prefix);
    s.append("/");
    s.append(path);
    proof {
        reveal_strlit("/");
        assert(s@ =~~= spec_object_url(prefix@, path@));
    }
    s
}

/// A write the backing store still has to perform: these bytes at this
/// path.
pub struct StoreWrite {
    pub path: String,
    pub body: Vec<u8>,
}

/// The mathematical value of a media registry: the URL prefix, the
/// manifest of every upload, and the set of paths whose bytes are
/// already stored.
#[verifier::ext_equal]
pub struct RegistryView {
    pub url_prefix: Seq<char>,
    pub files: Seq<FileEntryView>,
    pub stored: Seq<Seq<char>>,
}

/// A content-addressed media registry.
///
/// Every upload is hashed; its storage path is derived from the digest,
/// so byte-identical payloads share it. The registry keeps an append-only
/// manifest of every upload and remembers which paths are already
/// stored, so the same bytes are never written twice to one path. The
/// backing writes themselves are handed back to the caller.
#[derive(Debug)]
pub struct MediaRegistry {
    url_prefix: String,
    files: Vec<FileEntry>,
    stored_paths: Vec<String>,
}

impl View for MediaRegistry {
    type V = RegistryView;

    closed spec fn view(&self) -> RegistryView {
        RegistryView {
            url_prefix: self.url_prefix@,
            files: self.files@.map_values(|f: FileEntry| f@),
            stored: self.stored_paths@.map_values(|p: String| p@),
        }
    }
}

impl MediaRegistry {
    /// No two stored paths are the same: each object is stored at most
    /// once.
    pub open spec fn wf(&self) -> bool {
        forall|i: int, j: int|
            0 <= i < j < self@.stored.len() ==> self@.stored[i] != self@.stored[j]
    }

    /// A fresh registry with the given URL prefix and nothing stored.
    pub fn new(url_prefix: String) -> (r: Self)
        ensures
            r@.url_prefix == url_prefix@,
            r@.files == Seq::<FileEntryView>::empty(),
            r@.stored == Seq::<Seq<char>>::empty(),
            r.wf(),
    {
        let r = MediaRegistry { url_prefix, files: Vec::new(), stored_paths: Vec::new() };
        proof {
            assert(r@.files =~~= Seq::<FileEntryView>::empty());
            assert(r@.stored =~~= Seq::<Seq<char>>::empty());
        }
        r
    }

    /// Consume the registry; every manifest entry, in upload order.
    pub fn into_files(self) -> (r: Vec<FileEntry>)
        ensures
            r@.map_values(|f: FileEntry| f@) == self@.files,
    {
        self.files
    }

    /// Upload a payload.
    ///
    /// Returns the payload's public URL, and the write the backing store
    /// still has to perform: nothing when the path's bytes are already
    /// stored, so byte-identical payloads with the same name are never
    /// written twice. The manifest gains this upload either way.
    pub fn upload_media(&mut self, media: Media) -> (r: (String, Option<StoreWrite>))
        requires
            old(self).wf(),
        ensures
            final(self).wf(),
            final(self)@.url_prefix == old(self)@.url_prefix,
            r.0@ == spec_object_url(
                old(self)@.url_prefix,
                spec_storage_path(media@.body, media@.filename),
            ),
            final(self)@.files == old(self)@.files.push(
                FileEntryView {
                    filename: media@.filename,
                    mimetype: media@.mimetype,
                    storage_path: spec_storage_path(media@.body, media@.filename),
                },
            ),
            old(self)@.stored.contains(spec_storage_path(media@.body, media@.filename)) ==> (
            r.1 is None && final(self)@.stored == old(self)@.stored),
            !old(self)@.stored.contains(spec_storage_path(media@.body, media@.filename)) ==> (
            match r.1 {
                Some(w) => w.path@ == spec_storage_path(media@.body, media@.filename)
                    && w.body@ == media@.body && final(self)@.stored == old(self)@.stored.push(
                    w.path@,
                ),
                None => false,
            }),
    {
        let ghost path_spec = spec_storage_path(media@.body, media@.filename);
        let digest = sha256_digest(media.body.as_slice());
        let hex = hex_encode_lower(digest.as_slice());
        let path: String = match &media.filename {
            Some(n) => {
                let mut p = hex;
                p.append("/");
                p.append(n.as_str());
                proof {
                    reveal_strlit("/");
                    assert(p@ =~~= path_spec);
                }
                p
            },
            None => hex,
        };
        let url = object_url(self.url_prefix.as_str(), path.as_str());
        let entry = FileEntry {
            filename: clone_opt_string(&media.filename),
            mimetype: clone_opt_string(&media.mimetype),
            storage_path: path.clone(),
        };
        let ghost pre_files = self@.files;
        let ghost pre_stored = self@.stored;
        self.files.push(entry);
        proof {
            assert(self@.files =~~= pre_files.push(
                FileEntryView {
                    filename: media@.filename,
                    mimetype: media@.mimetype,
                    storage_path: path_spec,
                },
            ));
        }
        let mut already = false;
        let mut i: usize = 0;
        while i < self.stored_paths.len()
            invariant
                0 <= i <= self@.stored.len(),
                path@ == path_spec,
                already <==> exists|k: int| 0 <= k < i && self@.stored[k] == path_spec,
            decreases self@.stored.len() - i,
        {
            if str_eq(self.stored_paths[i].as_str(), path.as_str()) {
                already = true;
                proof {
                    assert(self@.stored[i as int] == path_spec);
                }
            }
            i = i + 1;
        }
        if already {
            proof {
                let k = choose|k: int|
                    0 <= k < self@.stored.len() && self@.stored[k] == path_spec;
                assert(self@.stored.contains(path_spec));
            }
            (url, None)
        } else {
            proof {
                if pre_stored.contains(path_spec) {
                    let k = choose|k: int|
                        0 <= k < pre_stored.len() && pre_stored[k] == path_spec;
                    assert(false);
                }
            }
            self.stored_paths.push(path.clone());
            proof {
                assert(self@.stored =~~= pre_stored.push(path_spec));
                assert forall|a: int, b: int|
                    0 <= a < b < self@.stored.len() implies self@.stored[a] != self@.stored[b] by {
                    if b == self@.stored.len() - 1 {
                        if self@.stored[a] == path_spec {
                            assert(pre_stored[a] == path_spec);
                            assert(pre_stored.contains(path_spec));
                            assert(false);
                        }
                    }
                }
            }
            (url, Some(StoreWrite { path, body: media.body }))
        }
    }
}

} // verus!
