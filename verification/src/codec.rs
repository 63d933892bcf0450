//! The archive codec: packing files and directory trees into compressed
//! container archives held as byte vectors, and unpacking them again.
//! Compression and the container format come from the flate2 and tar
//! crates; what they return is named, and the round trip is stated on
//! those names.

use vstd::prelude::*;
use crate::TrashError;

verus! {

/// One entry of a container archive: an internal path, whether it is a
/// directory, and (for files) its content.
#[derive(Debug)]
pub struct ArchiveEntry {
    pub path: String,
    pub is_dir: bool,
    pub data: Vec<u8>,
}

impl View for ArchiveEntry {
    type V = (Seq<char>, bool, Seq<u8>);

    open spec fn view(&self) -> (Seq<char>, bool, Seq<u8>) {
        (self.path@, self.is_dir, self.data@)
    }
}

/// The view of each entry, in order.
pub open spec fn entry_views(s: Seq<ArchiveEntry>) -> Seq<(Seq<char>, bool, Seq<u8>)> {
    s.map_values(|e: ArchiveEntry| e@)
}

/// What a gzip stream decompresses to; a function of its bytes alone.
pub uninterp spec fn gunzip_of(bytes: Seq<u8>) -> Option<Seq<u8>>;

/// The entries a tar byte stream holds, as (path, is-directory,
/// content); a function of its bytes alone.
pub uninterp spec fn tar_parse(bytes: Seq<u8>) -> Option<Seq<(Seq<char>, bool, Seq<u8>)>>;

/// Scans the rest of a path, one component at a time. `comp_len` is the
/// length of the component read so far and `dots` how many characters of
/// it are leading dots (capped: 3 stands for "not a dot-only component").
/// A component may not be empty, `.` or `..`, and no character may be NUL.
pub open spec fn tar_safe_tail(s: Seq<char>, comp_len: nat, dots: nat) -> bool
    decreases s.len(),
{
    if s.len() == 0 {
        comp_len > 0 && dots != 1 && dots != 2
    } else if s[0] == '/' {
        comp_len > 0 && dots != 1 && dots != 2 && tar_safe_tail(s.drop_first(), 0, 0)
    } else if s[0] == '\0' {
        false
    } else {
        tar_safe_tail(
            s.drop_first(),
            comp_len + 1,
            if s[0] == '.' && dots == comp_len && dots < 2 {
                dots + 1
            } else {
                3
            },
        )
    }
}

/// A path tar stores byte-for-byte: nonempty and relative, with no NUL
/// character, no empty (`//`) component, no trailing separator, and no
/// `.` or `..` component. On any other path tar's writer normalizes or
/// refuses (it drops `.` components, collapses doubled separators, and
/// truncates at a NUL), so only these paths are handed to it.
pub open spec fn tar_safe_path(s: Seq<char>) -> bool {
    tar_safe_tail(s, 0, 0)
}

/// Whether `s` is a path tar stores byte-for-byte.
pub fn is_tar_safe(s: &str) -> (r: bool)
    ensures
        r == tar_safe_path(s@),
{
    let n = s.unicode_len();
    let mut comp_len: usize = 0;
    let mut dots: usize = 0;
    let mut i: usize = 0;
    proof {
        assert(s@.skip(0) =~= s@);
    }
    while i < n
        invariant
            n == s@.len(),
            i <= n,
            comp_len <= i,
            dots <= 3,
            tar_safe_path(s@) == tar_safe_tail(s@.skip(i as int), comp_len as nat, dots as nat),
        decreases n - i,
    {
        let ghost t = s@.skip(i as int);
        let c = s.get_char(i);
        proof {
            assert(t[0] == s@[i as int]);
            assert(t.drop_first() =~= s@.skip(i + 1));
        }
        if c == '/' {
            if comp_len == 0 || dots == 1 || dots == 2 {
                return false;
            }
            comp_len = 0;
            dots = 0;
        } else if c == '\0' {
            return false;
        } else {
            dots = if c == '.' && dots == comp_len && dots < 2 {
                dots + 1
            } else {
                3
            };
            comp_len = comp_len + 1;
        }
        i += 1;
    }
    proof {
        assert(s@.skip(n as int) =~= Seq::<char>::empty());
    }
    comp_len > 0 && dots != 1 && dots != 2
}

/// Holds a tar archive being written into memory. Opaque: what has been
/// appended is tracked only through `builder_entries`.
#[verifier::external_body]
pub struct TarPacker {
    inner: tar::Builder<Vec<u8>>,
}

/// The entries appended to a tar packer so far.
pub uninterp spec fn builder_entries(b: TarPacker) -> Seq<(Seq<char>, bool, Seq<u8>)>;

/// Relies on tar::Builder::new: a fresh archive holds no entries.
#[verifier::external_body]
fn tar_builder_new() -> (b: TarPacker)
    ensures
        builder_entries(b) == Seq::<(Seq<char>, bool, Seq<u8>)>::empty(),
{
    TarPacker { inner: tar::Builder::new(Vec::new()) }
}

/// Relies on tar::Builder::append_data with a GNU header: a safe
/// relative path is stored byte-for-byte, and writing into memory it
/// cannot fail (its only errors are absolute, empty and `..` paths).
#[verifier::external_body]
fn tar_append(b: &mut TarPacker, path: &String, is_dir: bool, data: &Vec<u8>)
    requires
        tar_safe_path(path@),
    ensures
        builder_entries(*final(b)) == builder_entries(*old(b)).push((path@, is_dir, data@)),
{
    let mut h = tar::Header::new_gnu();
    h.set_entry_type(if is_dir {
        tar::EntryType::dir()
    } else {
        tar::EntryType::file()
    });
    h.set_mode(if is_dir { 0o755 } else { 0o644 });
    h.set_size(data.len() as u64);
    b.inner
        .append_data(&mut h, path, &data[..])
        .expect("appending a safe path into memory cannot fail");
}

/// Relies on tar::Builder::into_inner: finishing only writes the
/// archive terminator into the memory buffer, which cannot fail, and the
/// tar reader yields exactly the appended entries from the result.
#[verifier::external_body]
fn tar_finish(b: TarPacker) -> (r: Vec<u8>)
    ensures
        tar_parse(r@) == Some(builder_entries(b)),
{
    b.inner.into_inner().expect("finishing into memory cannot fail")
}

/// Relies on tar::Archive::entries and tar::Entry: reads every entry of
/// a tar byte stream into plain values.
#[verifier::external_body]
fn tar_read(bytes: &Vec<u8>) -> (r: Option<Vec<ArchiveEntry>>)
    ensures
        match r {
            Some(v) => tar_parse(bytes@) == Some(entry_views(v@)),
            None => tar_parse(bytes@) is None,
        },
{
    let mut ar = tar::Archive::new(&bytes[..]);
    let mut out = Vec::new();
    for e in ar.entries().ok()? {
        let mut e = e.ok()?;
        let path = e.path().ok()?.to_string_lossy().into_owned();
        let is_dir = e.header().entry_type().is_dir();
        let mut data = Vec::new();
        std::io::Read::read_to_end(&mut e, &mut data).ok()?;
        out.push(ArchiveEntry { path, is_dir, data });
    }
    Some(out)
}

/// Relies on flate2's GzEncoder at best compression: writing into
/// memory performs no fallible I/O, and GzDecoder reads back what the
/// encoder wrote, so decompressing the result yields the input again.
#[verifier::external_body]
fn gzip_bytes(data: &Vec<u8>) -> (r: Vec<u8>)
    ensures
        gunzip_of(r@) == Some(data@),
{
    let mut enc = flate2::write::GzEncoder::new(Vec::new(), flate2::Compression::best());
    std::io::Write::write_all(&mut enc, &data[..]).expect("writing into memory cannot fail");
    enc.finish().expect("finishing into memory cannot fail")
}

/// Relies on flate2's GzDecoder: what a gzip stream decompresses to is a
/// function of its bytes alone.
#[verifier::external_body]
fn gunzip_bytes(data: &Vec<u8>) -> (r: Option<Vec<u8>>)
    ensures
        match r {
            Some(v) => gunzip_of(data@) == Some(v@),
            None => gunzip_of(data@) is None,
        },
{
    let mut dec = flate2::read::GzDecoder::new(&data[..]);
    let mut out = Vec::new();
    match std::io::Read::read_to_end(&mut dec, &mut out) {
        Ok(_) => Some(out),
        Err(_) => None,
    }
}

/// The archive bytes decode — decompress, then parse — to exactly these
/// entries.
pub open spec fn archive_decodes_to(
    bytes: Seq<u8>,
    entries: Seq<(Seq<char>, bool, Seq<u8>)>,
) -> bool {
    match gunzip_of(bytes) {
        Some(t) => tar_parse(t) == Some(entries),
        None => false,
    }
}

/// Packs the entries, in order, into a compressed container archive;
/// succeeds whenever every entry's internal path is one tar stores
/// byte-for-byte, and reports `IoError` otherwise.
pub fn archive_entries(entries: &Vec<ArchiveEntry>) -> (r: Result<Vec<u8>, TrashError>)
    ensures
        r is Ok ==> archive_decodes_to(r.unwrap()@, entry_views(entries@)),
        r is Err ==> r.unwrap_err() == TrashError::IoError,
        (forall|i: int|
            0 <= i < entries@.len() ==> tar_safe_path(#[trigger] entry_views(entries@)[i].0))
            ==> r is Ok,
{
    let mut b = tar_builder_new();
    let n = entries.len();
    let mut i: usize = 0;
    while i < n
        invariant
            n == entries@.len(),
            i <= n,
            builder_entries(b) == entry_views(entries@.take(i as int)),
        decreases n - i,
    {
        let e = &entries[i];
        if !is_tar_safe(e.path.as_str()) {
            proof {
                assert(!tar_safe_path(entry_views(entries@)[i as int].0));
            }
            return Err(TrashError::IoError);
        }
        tar_append(&mut b, &e.path, e.is_dir, &e.data);
        proof {
            assert(entry_views(entries@.take(i + 1)).drop_last() =~= entry_views(
                entries@.take(i as int),
            ));
            assert(entry_views(entries@.take(i + 1)) =~= entry_views(
                entries@.take(i as int),
            ).push(e@));
        }
        i += 1;
    }
    proof {
        assert(entries@.take(n as int) =~= entries@);
    }
    let t = tar_finish(b);
    Ok(gzip_bytes(&t))
}

/// Unpacks a compressed container archive into its entries. Fails
/// exactly when the bytes decode to no entry list.
pub fn extract_entries(bytes: &Vec<u8>) -> (r: Result<Vec<ArchiveEntry>, TrashError>)
    ensures
        match r {
            Ok(v) => archive_decodes_to(bytes@, entry_views(v@)),
            Err(e) => e == TrashError::IoError && forall|es: Seq<(Seq<char>, bool, Seq<u8>)>|
                !archive_decodes_to(bytes@, es),
        },
{
    let t = match gunzip_bytes(bytes) {
        Some(t) => t,
        None => {
            return Err(TrashError::IoError);
        },
    };
    match tar_read(&t) {
        Some(v) => Ok(v),
        None => Err(TrashError::IoError),
    }
}

/// Packs one regular file, stored under its own base name; succeeds
/// whenever that name is a path tar stores byte-for-byte.
pub fn archive_file_bytes(name: &String, content: &Vec<u8>) -> (r: Result<Vec<u8>, TrashError>)
    ensures
        r is Ok ==> archive_decodes_to(
            r.unwrap()@,
            seq![(name@, false, content@)],
        ),
        r is Err ==> r.unwrap_err() == TrashError::IoError,
        tar_safe_path(name@) ==> r is Ok,
{
    let mut v: Vec<ArchiveEntry> = Vec::new();
    v.push(ArchiveEntry { path: name.clone(), is_dir: false, data: clone_bytes(content) });
    proof {
        assert(entry_views(v@) =~= seq![(name@, false, content@)]);
    }
    let r = archive_entries(&v);
    proof {
        if tar_safe_path(name@) {
            assert forall|i: int| 0 <= i < v@.len() implies tar_safe_path(
                #[trigger] entry_views(v@)[i].0,
            ) by {
                assert(entry_views(v@)[i].0 == name@);
            }
        }
    }
    r
}

/// A byte-for-byte copy.
fn clone_bytes(v: &Vec<u8>) -> (r: Vec<u8>)
    ensures
        r@ == v@,
{
    let mut out: Vec<u8> = Vec::new();
    let n = v.len();
    let mut i: usize = 0;
    while i < n
        invariant
            n == v@.len(),
            i <= n,
            out@ == v@.take(i as int),
        decreases n - i,
    {
        out.push(v[i]);
        proof {
            assert(v@.take(i + 1) =~= v@.take(i as int).push(v@[i as int]));
        }
        i += 1;
    }
    proof {
        assert(v@.take(n as int) =~= v@);
    }
    out
}

/// Archive bytes decode to at most one entry list: packing then
/// unpacking gives back exactly what was packed.
pub proof fn lemma_archive_decode_unique(
    bytes: Seq<u8>,
    es1: Seq<(Seq<char>, bool, Seq<u8>)>,
    es2: Seq<(Seq<char>, bool, Seq<u8>)>,
)
    requires
        archive_decodes_to(bytes, es1),
        archive_decodes_to(bytes, es2),
    ensures
        es1 == es2,
{
}

/// Decompresses a legacy single-stream entry (no container around it).
/// Fails exactly when the bytes are not a well-formed stream.
pub fn decompress_legacy(bytes: &Vec<u8>) -> (r: Result<Vec<u8>, TrashError>)
    ensures
        match r {
            Ok(v) => gunzip_of(bytes@) == Some(v@),
            Err(e) => e == TrashError::IoError && gunzip_of(bytes@) is None,
        },
{
    match gunzip_bytes(bytes) {
        Some(v) => Ok(v),
        None => Err(TrashError::IoError),
    }
}

/// The content of the first entry of the archive, for single-file
/// restores: whatever entry list the bytes decode to, the result is its
/// first entry's content; it fails when there is none to take.
pub fn extract_first_file(bytes: &Vec<u8>) -> (r: Result<Vec<u8>, TrashError>)
    ensures
        forall|es: Seq<(Seq<char>, bool, Seq<u8>)>| archive_decodes_to(bytes@, es) ==> (if es.len()
            > 0 {
            r is Ok && r.unwrap()@ == es[0].2
        } else {
            r is Err
        }),
        r is Err ==> r.unwrap_err() == TrashError::IoError,
{
    match extract_entries(bytes) {
        Ok(v) => {
            if v.len() == 0 {
                proof {
                    assert forall|es: Seq<(Seq<char>, bool, Seq<u8>)>|
                        archive_decodes_to(bytes@, es) implies es.len() == 0 by {
                        assert(es == entry_views(v@));
                    }
                }
                Err(TrashError::IoError)
            } else {
                let first = clone_bytes(&v[0].data);
                proof {
                    assert forall|es: Seq<(Seq<char>, bool, Seq<u8>)>|
                        archive_decodes_to(bytes@, es) implies es.len() > 0 && es[0].2
                        == first@ by {
                        assert(es == entry_views(v@));
                        assert(es[0] == v@[0]@);
                    }
                }
                Ok(first)
            }
        },
        Err(e) => Err(e),
    }
}

} // verus!
