//! The trash engine's decisions: what a move stores and under which
//! name, how a restore is dispatched, what the listing shows, and which
//! entry an interactive selection picks. The filesystem work these
//! decisions call for is carried out by the surrounding shell.

use vstd::prelude::*;
use crate::TrashError;
use crate::meta::{MetaMap, TrashItem};
use crate::name::{
    cand, generate_unique_name, gz_suffix, lemma_cand_keeps_archive_suffix, names_of, sfx_kind,
    sfx_of, taken, tgz_suffix, ArchiveSfx,
};
use crate::strutil::{dec_val, digit_val, has_suffix, str_has_suffix, substring_copy};

verus! {

/// How the source of a move classifies on disk.
#[derive(Clone, Copy, PartialEq, Eq, Structural, Debug)]
pub enum SourceKind {
    FileItem,
    EmptyDir,
    NonEmptyDir,
}

pub open spec fn kind_is_dir(kind: SourceKind) -> bool {
    kind != SourceKind::FileItem
}

/// The name under which a move tries to store its item: empty
/// directories keep their own name (they are moved raw), everything else
/// is stored as a container archive and carries the archive suffix.
pub open spec fn move_candidate(file_name: Seq<char>, kind: SourceKind) -> Seq<char> {
    if kind == SourceKind::EmptyDir {
        file_name
    } else if has_suffix(file_name, tgz_suffix()) {
        file_name
    } else {
        file_name + tgz_suffix()
    }
}

/// What a move does besides writing the item: the resolved trash name,
/// whether the item is moved raw or archived, and the store to persist.
#[derive(Debug)]
pub struct MovePlan {
    pub trash_name: String,
    pub is_dir: bool,
    pub rename_raw: bool,
    pub meta: MetaMap,
}

/// Decides a move: resolves the collision-free trash name and records the
/// item under it. The caller then writes the archive (or renames the
/// empty directory), deletes the source, and persists `meta`.
pub fn plan_move(
    file_name: &String,
    original_path: &String,
    kind: SourceKind,
    existing: &Vec<String>,
    meta: MetaMap,
) -> (r: MovePlan)
    requires
        meta.wf(),
    ensures
        r.is_dir == kind_is_dir(kind),
        r.rename_raw == (kind == SourceKind::EmptyDir),
        !taken(r.trash_name@, names_of(existing@), meta@, original_path@, r.is_dir),
        exists|k: nat|
            {
                &&& r.trash_name@ == cand(move_candidate(file_name@, kind), k)
                &&& forall|j: nat| j < k ==> taken(
                    cand(move_candidate(file_name@, kind), j),
                    names_of(existing@),
                    meta@,
                    original_path@,
                    kind_is_dir(kind),
                )
            },
        (meta@.contains_key(move_candidate(file_name@, kind)) && meta@[move_candidate(
            file_name@,
            kind,
        )] == (original_path@, kind_is_dir(kind))) ==> r.trash_name@ == move_candidate(
            file_name@,
            kind,
        ),
        r.meta.wf(),
        r.meta@ =~= meta@.insert(r.trash_name@, (original_path@, kind_is_dir(kind))),
{
    let is_dir = match kind {
        SourceKind::FileItem => false,
        _ => true,
    };
    let candidate: String = match kind {
        SourceKind::EmptyDir => file_name.clone(),
        _ => {
            if str_has_suffix(file_name.as_str(), ".tar.gz") {
                proof {
                    reveal_strlit(".tar.gz");
                    assert(".tar.gz"@ =~= tgz_suffix());
                }
                file_name.clone()
            } else {
                proof {
                    reveal_strlit(".tar.gz");
                    assert(".tar.gz"@ =~= tgz_suffix());
                }
                let mut c = file_name.clone();
                c.append(".tar.gz");
                c
            }
        },
    };
    proof {
        assert(candidate@ == move_candidate(file_name@, kind));
    }
    let trash_name = generate_unique_name(&candidate, original_path, is_dir, existing, &meta);
    let mut meta = meta;
    meta.insert(
        trash_name.clone(),
        TrashItem { path: original_path.clone(), is_dir },
    );
    MovePlan { trash_name, is_dir, rename_raw: matches!(kind, SourceKind::EmptyDir), meta }
}

/// A name resolved against a store that holds another item under some
/// name never lands on that name: restoring either item later cannot be
/// confused with the other.
pub proof fn lemma_distinct_names(
    resolved: Seq<char>,
    disk: Seq<Seq<char>>,
    m: Map<Seq<char>, (Seq<char>, bool)>,
    orig: Seq<char>,
    is_dir: bool,
    other: Seq<char>,
)
    requires
        !taken(resolved, disk, m, orig, is_dir),
        m.contains_key(other),
        m[other] != (orig, is_dir),
    ensures
        resolved != other,
{
}

/// What a move records under a trash name is exactly what a later
/// restore of that name goes back to: the original path and type bit
/// come out of the store unchanged.
pub proof fn lemma_move_restore_target(
    m: Map<Seq<char>, (Seq<char>, bool)>,
    name: Seq<char>,
    orig: Seq<char>,
    is_dir: bool,
    cwd: Seq<char>,
    on_disk: OnDisk,
)
    ensures
        restore_record(m.insert(name, (orig, is_dir)), name, cwd, on_disk) == (orig, is_dir),
{
}

/// What the trash entry is on disk.
#[derive(Clone, Copy, PartialEq, Eq, Structural, Debug)]
pub enum OnDisk {
    MissingEntry,
    FileEntry,
    DirEntry,
}

/// How a restore reproduces the item at its target.
#[derive(Clone, Copy, PartialEq, Eq, Structural, Debug)]
pub enum RestoreMethod {
    /// Unpack the whole container archive into the target's parent.
    UnpackTree,
    /// Unpack the archive's first entry to the target path.
    ExtractSingle,
    /// Decompress the legacy single-stream entry to the target path.
    GunzipStream,
    /// Copy the uncompressed file entry to the target path.
    CopyFile,
    /// Rename the raw directory entry back to the target path.
    RenameDir,
}

/// `s` with every trailing `.tar.gz` removed.
pub open spec fn strip_all_tgz(s: Seq<char>) -> Seq<char>
    decreases s.len(),
{
    if has_suffix(s, tgz_suffix()) {
        strip_all_tgz(s.take(s.len() - 7))
    } else {
        s
    }
}

/// `s` with every trailing `.gz` removed.
pub open spec fn strip_all_gz(s: Seq<char>) -> Seq<char>
    decreases s.len(),
{
    if has_suffix(s, gz_suffix()) {
        strip_all_gz(s.take(s.len() - 3))
    } else {
        s
    }
}

/// The one name-stripping rule: every trailing `.tar.gz`, then every
/// remaining trailing `.gz`. Both the listing's display name and the
/// fallback restore target use it.
pub open spec fn display_base(s: Seq<char>) -> Seq<char> {
    strip_all_gz(strip_all_tgz(s))
}

/// A path under `cwd`, without doubling the separator when `cwd` is the
/// root (or otherwise ends with one).
pub open spec fn join_path(cwd: Seq<char>, rest: Seq<char>) -> Seq<char> {
    if cwd.len() > 0 && cwd.last() == '/' {
        cwd + rest
    } else {
        cwd + seq!['/'] + rest
    }
}

/// The record a restore goes by: the stored one, or — when the store has
/// forgotten the entry — a path under the working directory, named by the
/// stripped trash name, with the entry's on-disk type.
pub open spec fn restore_record(
    m: Map<Seq<char>, (Seq<char>, bool)>,
    name: Seq<char>,
    cwd: Seq<char>,
    on_disk: OnDisk,
) -> (Seq<char>, bool) {
    if m.contains_key(name) {
        m[name]
    } else {
        (join_path(cwd, display_base(name)), on_disk == OnDisk::DirEntry)
    }
}

/// Copies `s` with every trailing archive suffix removed, as
/// `display_base` says.
fn display_base_of(s: &str) -> (r: String)
    ensures
        r@ == display_base(s@),
{
    let mut cur: String = s.to_owned();
    loop
        invariant
            strip_all_tgz(s@) == strip_all_tgz(cur@),
        ensures
            cur@ == strip_all_tgz(s@),
        decreases cur@.len(),
    {
        proof {
            reveal_strlit(".tar.gz");
            assert(".tar.gz"@ =~= tgz_suffix());
        }
        if !str_has_suffix(cur.as_str(), ".tar.gz") {
            break;
        }
        let n = cur.unicode_len();
        cur = substring_copy(cur.as_str(), 0, n - 7);
    }
    let ghost mid = cur@;
    loop
        invariant
            mid == strip_all_tgz(s@),
            strip_all_gz(mid) == strip_all_gz(cur@),
        ensures
            cur@ == strip_all_gz(mid),
        decreases cur@.len(),
    {
        proof {
            reveal_strlit(".gz");
            assert(".gz"@ =~= gz_suffix());
        }
        if !str_has_suffix(cur.as_str(), ".gz") {
            break;
        }
        let n = cur.unicode_len();
        cur = substring_copy(cur.as_str(), 0, n - 3);
    }
    cur
}

/// The dispatch rule of a restore, by the entry's on-disk type and
/// suffix; `None` is the not-found case.
pub open spec fn restore_method(name: Seq<char>, is_dir: bool, on_disk: OnDisk) -> Option<
    RestoreMethod,
> {
    match on_disk {
        OnDisk::FileEntry => match sfx_of(name) {
            ArchiveSfx::TarGz => if is_dir {
                Some(RestoreMethod::UnpackTree)
            } else {
                Some(RestoreMethod::ExtractSingle)
            },
            ArchiveSfx::Gz => Some(RestoreMethod::GunzipStream),
            ArchiveSfx::Plain => Some(RestoreMethod::CopyFile),
        },
        OnDisk::DirEntry => if is_dir {
            Some(RestoreMethod::RenameDir)
        } else {
            None
        },
        OnDisk::MissingEntry => None,
    }
}

/// What a restore does: the target path, the dispatch method, and the
/// store (with the entry's record dropped) to persist on success.
#[derive(Debug)]
pub struct RestorePlan {
    pub target: String,
    pub is_dir: bool,
    pub method: RestoreMethod,
    pub meta: MetaMap,
}

/// Decides a restore. On success the caller creates the target's parent
/// directories, carries the method out, deletes the trash entry (the
/// rename does so itself), and persists `meta`.
pub fn plan_restore(trash_name: &String, on_disk: OnDisk, cwd: &String, meta: MetaMap) -> (r:
    Result<RestorePlan, TrashError>)
    requires
        meta.wf(),
    ensures
        match r {
            Ok(p) => {
                &&& (p.target@, p.is_dir) == restore_record(meta@, trash_name@, cwd@, on_disk)
                &&& Some(p.method) == restore_method(
                    trash_name@,
                    restore_record(meta@, trash_name@, cwd@, on_disk).1,
                    on_disk,
                )
                &&& p.meta.wf()
                &&& p.meta@ =~= meta@.remove(trash_name@)
            },
            Err(e) => {
                &&& e == TrashError::NotFound
                &&& restore_method(
                    trash_name@,
                    restore_record(meta@, trash_name@, cwd@, on_disk).1,
                    on_disk,
                ) is None
            },
        },
{
    let (target, is_dir): (String, bool) = match meta.get(trash_name.as_str()) {
        Some(item) => (item.path, item.is_dir),
        None => {
            proof {
                reveal_strlit("/");
                assert("/"@ =~= seq!['/']);
            }
            let mut t = cwd.clone();
            if !str_has_suffix(cwd.as_str(), "/") {
                proof {
                    if cwd@.len() > 0 && cwd@.last() == '/' {
                        assert(cwd@.subrange(cwd@.len() - 1, cwd@.len() as int) =~= seq![
                            cwd@.last(),
                        ]);
                        assert(has_suffix(cwd@, seq!['/']));
                    }
                }
                t.append("/");
            } else {
                proof {
                    assert(cwd@.subrange(cwd@.len() - 1, cwd@.len() as int) =~= seq![cwd@.last()]);
                    assert(seq![cwd@.last()] == seq!['/']);
                    assert(seq![cwd@.last()][0] == seq!['/'][0]);
                    assert(cwd@.last() == '/');
                }
            }
            let stripped = display_base_of(trash_name.as_str());
            t.append(stripped.as_str());
            proof {
                assert(t@ == join_path(cwd@, display_base(trash_name@)));
            }
            (t, matches!(on_disk, OnDisk::DirEntry))
        },
    };
    let method: RestoreMethod = match on_disk {
        OnDisk::FileEntry => match sfx_kind(trash_name.as_str()) {
            ArchiveSfx::TarGz => if is_dir {
                RestoreMethod::UnpackTree
            } else {
                RestoreMethod::ExtractSingle
            },
            ArchiveSfx::Gz => RestoreMethod::GunzipStream,
            ArchiveSfx::Plain => RestoreMethod::CopyFile,
        },
        OnDisk::DirEntry => {
            if is_dir {
                RestoreMethod::RenameDir
            } else {
                return Err(TrashError::NotFound);
            }
        },
        OnDisk::MissingEntry => {
            return Err(TrashError::NotFound);
        },
    };
    let mut meta = meta;
    meta.remove(trash_name.as_str());
    Ok(RestorePlan { target, is_dir, method, meta })
}

/// An item stored as a container archive comes back through the archive:
/// whatever counter its name was resolved with, the entry's suffix
/// dispatches a later restore to the container path — the whole tree for
/// a directory, the single entry for a file — and the stored record
/// leads it to the original path and type.
pub proof fn lemma_archived_restore_dispatch(
    c: Seq<char>,
    k: nat,
    m: Map<Seq<char>, (Seq<char>, bool)>,
    orig: Seq<char>,
    is_dir: bool,
    cwd: Seq<char>,
)
    requires
        has_suffix(c, tgz_suffix()),
    ensures
        restore_method(cand(c, k), is_dir, OnDisk::FileEntry) == Some(
            if is_dir {
                RestoreMethod::UnpackTree
            } else {
                RestoreMethod::ExtractSingle
            },
        ),
        restore_record(m.insert(cand(c, k), (orig, is_dir)), cand(c, k), cwd, OnDisk::FileEntry)
            == (orig, is_dir),
{
    lemma_cand_keeps_archive_suffix(c, k);
    assert(sfx_of(cand(c, k)) == ArchiveSfx::TarGz);
}

/// `.metadata`, the store's own file, which the listing leaves out.
pub open spec fn metadata_filename() -> Seq<char> {
    seq!['.', 'm', 'e', 't', 'a', 'd', 'a', 't', 'a']
}

pub open spec fn strip_tgz_once(s: Seq<char>) -> Seq<char> {
    if has_suffix(s, tgz_suffix()) {
        s.take(s.len() - 7)
    } else {
        s
    }
}

pub open spec fn strip_gz_once(s: Seq<char>) -> Seq<char> {
    if has_suffix(s, gz_suffix()) {
        s.take(s.len() - 3)
    } else {
        s
    }
}

/// The store record for an entry, probed under the suffix-normalized
/// variants of its name: the name itself, the name with an archive
/// suffix stripped, and those with the suffix put back. Older stores
/// keyed entries inconsistently; the probing tolerates all of them.
pub open spec fn meta_probe(m: Map<Seq<char>, (Seq<char>, bool)>, e: Seq<char>) -> Option<
    (Seq<char>, bool),
> {
    if m.contains_key(e) {
        Some(m[e])
    } else if m.contains_key(strip_tgz_once(e)) {
        Some(m[strip_tgz_once(e)])
    } else if m.contains_key(strip_gz_once(e)) {
        Some(m[strip_gz_once(e)])
    } else if m.contains_key(strip_tgz_once(e) + tgz_suffix()) {
        Some(m[strip_tgz_once(e) + tgz_suffix()])
    } else if m.contains_key(strip_gz_once(e) + gz_suffix()) {
        Some(m[strip_gz_once(e) + gz_suffix()])
    } else {
        None
    }
}

/// `Unknown`, shown when no record matches an entry.
pub open spec fn unknown_location() -> Seq<char> {
    seq!['U', 'n', 'k', 'n', 'o', 'w', 'n']
}

/// One listing row: (raw name, display name, is-directory, original
/// location).
pub open spec fn row_view(
    m: Map<Seq<char>, (Seq<char>, bool)>,
    e: Seq<char>,
    disk_dir: bool,
) -> (Seq<char>, Seq<char>, bool, Seq<char>) {
    let pd = meta_probe(m, e);
    let isd = match pd {
        Some(p) => p.1,
        None => disk_dir,
    };
    let loc = match pd {
        Some(p) => p.0,
        None => unknown_location(),
    };
    (
        e,
        display_base(e) + (if isd {
            seq!['/']
        } else {
            Seq::<char>::empty()
        }),
        isd,
        loc,
    )
}

/// What the listing shows for a directory scan: one row per entry other
/// than the metadata file, in scan order.
pub open spec fn spec_rows(disk: Seq<(String, bool)>, m: Map<Seq<char>, (Seq<char>, bool)>) -> Seq<
    (Seq<char>, Seq<char>, bool, Seq<char>),
>
    decreases disk.len(),
{
    if disk.len() == 0 {
        Seq::empty()
    } else {
        spec_rows(disk.drop_last(), m) + (if disk.last().0@ == metadata_filename() {
            Seq::empty()
        } else {
            seq![row_view(m, disk.last().0@, disk.last().1)]
        })
    }
}

/// The listing is empty exactly when the trash root holds nothing but
/// the metadata file; listing alone never changes anything.
pub proof fn lemma_listing_empty(disk: Seq<(String, bool)>, m: Map<Seq<char>, (Seq<char>, bool)>)
    ensures
        spec_rows(disk, m).len() == 0 <==> (forall|i: int|
            0 <= i < disk.len() ==> disk[i].0@ == metadata_filename()),
    decreases disk.len(),
{
    if disk.len() > 0 {
        lemma_listing_empty(disk.drop_last(), m);
        assert forall|i: int| 0 <= i < disk.len() - 1 implies disk.drop_last()[i] == disk[i] by {}
        if spec_rows(disk, m).len() == 0 {
            assert(spec_rows(disk.drop_last(), m).len() == 0);
            assert(disk[disk.len() - 1].0@ == metadata_filename());
        }
        if forall|i: int| 0 <= i < disk.len() ==> disk[i].0@ == metadata_filename() {
            assert(disk[disk.len() - 1].0@ == metadata_filename());
        }
    }
}

/// One listing row, ready to print.
#[derive(Debug)]
pub struct ListRow {
    pub raw_name: String,
    pub display: String,
    pub is_dir: bool,
    pub location: String,
}

impl View for ListRow {
    type V = (Seq<char>, Seq<char>, bool, Seq<char>);

    open spec fn view(&self) -> (Seq<char>, Seq<char>, bool, Seq<char>) {
        (self.raw_name@, self.display@, self.is_dir, self.location@)
    }
}

pub open spec fn row_views(s: Seq<ListRow>) -> Seq<(Seq<char>, Seq<char>, bool, Seq<char>)> {
    s.map_values(|r: ListRow| r@)
}

/// The display information of one entry.
fn display_info(entry: &String, disk_dir: bool, meta: &MetaMap) -> (r: ListRow)
    requires
        meta.wf(),
    ensures
        r@ == row_view(meta@, entry@, disk_dir),
{
    proof {
        reveal_strlit(".tar.gz");
        reveal_strlit(".gz");
        reveal_strlit("Unknown");
        reveal_strlit("/");
        assert(".tar.gz"@ =~= tgz_suffix());
        assert(".gz"@ =~= gz_suffix());
        assert("Unknown"@ =~= unknown_location());
        assert("/"@ =~= seq!['/']);
    }
    let n = entry.as_str().unicode_len();
    let v1: String = if str_has_suffix(entry.as_str(), ".tar.gz") {
        substring_copy(entry.as_str(), 0, n - 7)
    } else {
        entry.clone()
    };
    let v2: String = if str_has_suffix(entry.as_str(), ".gz") {
        substring_copy(entry.as_str(), 0, n - 3)
    } else {
        entry.clone()
    };
    proof {
        assert(v1@ == strip_tgz_once(entry@));
        assert(v2@ == strip_gz_once(entry@));
    }
    let mut v3 = v1.clone();
    v3.append(".tar.gz");
    let mut v4 = v2.clone();
    v4.append(".gz");
    let probed: Option<TrashItem> = match meta.get(entry.as_str()) {
        Some(it) => Some(it),
        None => match meta.get(v1.as_str()) {
            Some(it) => Some(it),
            None => match meta.get(v2.as_str()) {
                Some(it) => Some(it),
                None => match meta.get(v3.as_str()) {
                    Some(it) => Some(it),
                    None => meta.get(v4.as_str()),
                },
            },
        },
    };
    proof {
        match meta_probe(meta@, entry@) {
            Some(p) => {
                assert(probed is Some && probed.unwrap()@ == p);
            },
            None => {
                assert(probed is None);
            },
        }
    }
    let is_dir: bool = match &probed {
        Some(it) => it.is_dir,
        None => disk_dir,
    };
    let location: String = match probed {
        Some(it) => it.path,
        None => {
            let mut u = String::new();
            u.append("Unknown");
            u
        },
    };
    let mut display: String = display_base_of(entry.as_str());
    if is_dir {
        display.append("/");
    }
    ListRow { raw_name: entry.clone(), display, is_dir, location }
}

/// Builds the listing for a scan of the trash root. Pure: reads the
/// scan and the store, changes nothing.
pub fn list_rows(disk: &Vec<(String, bool)>, meta: &MetaMap) -> (r: Vec<ListRow>)
    requires
        meta.wf(),
    ensures
        row_views(r@) == spec_rows(disk@, meta@),
{
    proof {
        reveal_strlit(".metadata");
        assert(".metadata"@ =~= metadata_filename());
    }
    let n = disk.len();
    let mut out: Vec<ListRow> = Vec::new();
    let mut i: usize = 0;
    while i < n
        invariant
            meta.wf(),
            n == disk@.len(),
            i <= n,
            row_views(out@) == spec_rows(disk@.take(i as int), meta@),
        decreases n - i,
    {
        let ghost pre = out@;
        proof {
            reveal_strlit(".metadata");
            assert(".metadata"@ =~= metadata_filename());
        }
        if !crate::strutil::str_eq(disk[i].0.as_str(), ".metadata") {
            let row = display_info(&disk[i].0, disk[i].1, meta);
            out.push(row);
            proof {
                assert(row_views(out@).drop_last() =~= row_views(pre));
                assert(row_views(out@).last() == row@);
            }
        }
        proof {
            assert(disk@.take(i + 1).drop_last() =~= disk@.take(i as int));
            assert(disk@.take(i + 1).last() == disk@[i as int]);
            if disk@[i as int].0@ == metadata_filename() {
                assert(row_views(out@) =~= spec_rows(disk@.take(i + 1), meta@));
            } else {
                assert(row_views(out@) =~= spec_rows(disk@.take(i + 1), meta@));
            }
        }
        i += 1;
    }
    proof {
        assert(disk@.take(n as int) =~= disk@);
    }
    out
}

pub open spec fn is_space(c: char) -> bool {
    c == ' ' || c == '\t' || c == '\n' || c == '\r'
}

pub open spec fn is_digit(c: char) -> bool {
    c == '0' || c == '1' || c == '2' || c == '3' || c == '4' || c == '5' || c == '6' || c == '7'
        || c == '8' || c == '9'
}

/// `s` without leading and trailing whitespace: the characters between
/// the first and last non-space positions.
pub open spec fn spec_trim(s: Seq<char>) -> Seq<char>
    decreases s.len(),
{
    if s.len() == 0 {
        s
    } else if is_space(s[0]) {
        spec_trim(s.drop_first())
    } else if is_space(s.last()) {
        spec_trim(s.drop_last())
    } else {
        s
    }
}

/// The 1-based selection an input line makes against `n` rows, as the
/// 0-based index: the trimmed input must be all digits and denote a
/// value from 1 through `n`.
pub open spec fn spec_selection(s: Seq<char>, n: nat) -> Option<nat> {
    let t = spec_trim(s);
    if t.len() > 0 && (forall|i: int| 0 <= i < t.len() ==> is_digit(t[i])) && 1 <= dec_val(t)
        <= n {
        Some((dec_val(t) - 1) as nat)
    } else {
        None
    }
}

pub proof fn lemma_trim_range(s: Seq<char>, a: int, b: int)
    requires
        0 <= a <= b <= s.len(),
        forall|i: int| 0 <= i < a ==> is_space(s[i]),
        forall|i: int| b <= i < s.len() ==> is_space(s[i]),
        a < b ==> !is_space(s[a]) && !is_space(s[b - 1]),
    ensures
        spec_trim(s) == s.subrange(a, b),
    decreases s.len(),
{
    if a == b {
        assert(s.subrange(a, b) =~= Seq::<char>::empty());
        lemma_trim_all_space(s);
    } else if a > 0 {
        assert(is_space(s[0]));
        lemma_trim_range(s.drop_first(), a - 1, b - 1);
        assert(s.drop_first().subrange(a - 1, b - 1) =~= s.subrange(a, b));
    } else if b < s.len() {
        assert(is_space(s.last()));
        assert(!is_space(s[0]));
        lemma_trim_range(s.drop_last(), a, b);
        assert(s.drop_last().subrange(a, b) =~= s.subrange(a, b));
    } else {
        assert(!is_space(s[0]) && !is_space(s.last()));
        assert(s.subrange(0, s.len() as int) =~= s);
    }
}

pub proof fn lemma_trim_all_space(s: Seq<char>)
    requires
        forall|i: int| 0 <= i < s.len() ==> is_space(s[i]),
    ensures
        spec_trim(s).len() == 0,
    decreases s.len(),
{
    if s.len() > 0 {
        assert(is_space(s[0]));
        lemma_trim_all_space(s.drop_first());
    }
}

/// Reads an interactive selection: `Some(i)` exactly when the input
/// denotes row `i` (0-based) of `n` rows.
pub fn select_index(input: &String, n: usize) -> (r: Option<usize>)
    ensures
        match r {
            Some(i) => spec_selection(input@, n as nat) == Some(i as nat),
            None => spec_selection(input@, n as nat) is None,
        },
{
    let s = input.as_str();
    let len = s.unicode_len();
    // trim
    let mut a: usize = 0;
    while a < len && is_space_char(s.get_char(a))
        invariant
            len == s@.len(),
            a <= len,
            forall|i: int| 0 <= i < a ==> is_space(s@[i]),
        decreases len - a,
    {
        a += 1;
    }
    let mut b: usize = len;
    while b > a && is_space_char(s.get_char(b - 1))
        invariant
            len == s@.len(),
            a <= b <= len,
            forall|i: int| 0 <= i < a ==> is_space(s@[i]),
            forall|i: int| b <= i < len ==> is_space(s@[i]),
        decreases b,
    {
        b -= 1;
    }
    proof {
        lemma_trim_range(s@, a as int, b as int);
    }
    let ghost t = spec_trim(s@);
    if a == b {
        return None;
    }
    // all digits, with a saturating value
    let mut acc: u128 = 0;
    let cap: u128 = n as u128 + 1;
    let mut i: usize = a;
    while i < b
        invariant
            len == s@.len(),
            s@ == input@,
            a <= i <= b <= len,
            a < b,
            t == s@.subrange(a as int, b as int),
            t == spec_trim(input@),
            forall|j: int| a <= j < i ==> is_digit(s@[j]),
            cap == n as u128 + 1,
            acc <= cap,
            dec_val(t.take(i - a)) <= n ==> acc == dec_val(t.take(i - a)),
            dec_val(t.take(i - a)) > n ==> acc == cap,
        decreases b - i,
    {
        let c = s.get_char(i);
        let d: u128 = if c == '0' {
            0
        } else if c == '1' {
            1
        } else if c == '2' {
            2
        } else if c == '3' {
            3
        } else if c == '4' {
            4
        } else if c == '5' {
            5
        } else if c == '6' {
            6
        } else if c == '7' {
            7
        } else if c == '8' {
            8
        } else if c == '9' {
            9
        } else {
            proof {
                assert(t[i - a] == s@[i as int]);
                assert(!is_digit(t[i - a]));
            }
            return None;
        };
        proof {
            assert(is_digit(s@[i as int]));
            assert(d == digit_val(s@[i as int]));
            assert(t.take(i - a + 1).drop_last() =~= t.take(i - a));
            assert(t.take(i - a + 1).last() == s@[i as int]);
            assert(dec_val(t.take(i - a + 1)) == dec_val(t.take(i - a)) * 10 + digit_val(
                s@[i as int],
            ));
        }
        proof {
            assert(n as u128 <= 0xffff_ffff_ffff_ffff);
            assert(acc * 10 + d <= 0xffff_ffff_ffff_ffff_f) by (nonlinear_arith)
                requires
                    acc <= 0x1_0000_0000_0000_0000,
                    d <= 9,
            ;
        }
        let next: u128 = if acc >= cap {
            cap
        } else {
            let x = acc * 10 + d;
            if x >= cap {
                cap
            } else {
                x
            }
        };
        proof {
            let v0 = dec_val(t.take(i - a));
            let v1 = dec_val(t.take(i - a + 1));
            assert(v1 == v0 * 10 + d);
            if v0 > n {
                assert(v0 * 10 >= v0) by (nonlinear_arith)
                    requires v0 >= 0;
                assert(v1 > n);
            } else {
                assert(acc == v0);
            }
        }
        acc = next;
        i += 1;
    }
    proof {
        assert(t.take(b - a) =~= t);
        assert forall|idx: int| 0 <= idx < t.len() implies is_digit(t[idx]) by {
            assert(t[idx] == s@[a + idx]);
        }
        if acc >= cap && dec_val(t) <= n {
            assert(acc == dec_val(t));
            assert(false);
        }
    }
    if acc >= 1 && acc < cap {
        let idx = (acc - 1) as u128;
        proof {
            assert(dec_val(t) == acc);
            assert(acc <= n as u128);
        }
        Some((acc as usize) - 1)
    } else {
        proof {
            if acc == 0 {
                assert(dec_val(t) == 0);
            }
        }
        None
    }
}

fn is_space_char(c: char) -> (r: bool)
    ensures
        r == is_space(c),
{
    c == ' ' || c == '\t' || c == '\n' || c == '\r'
}

} // verus!
