//! The naming resolver: archive suffix handling and collision-free
//! trash-entry names.

use vstd::prelude::*;
use crate::meta::MetaMap;
use crate::strutil::{
    dec_str, dec_val, has_suffix, lemma_dec_val_of_dec_str, push_decimal, str_eq, str_has_suffix,
    substring_copy,
};
use vstd::set_lib::{lemma_len_subset, lemma_len_union, lemma_int_range, lemma_map_size, set_int_range};
use vstd::relations::injective_on;

verus! {

/// `.tar.gz`, the container-archive suffix.
pub open spec fn tgz_suffix() -> Seq<char> {
    seq!['.', 't', 'a', 'r', '.', 'g', 'z']
}

/// `.gz`, the legacy single-stream suffix.
pub open spec fn gz_suffix() -> Seq<char> {
    seq!['.', 'g', 'z']
}

/// Which archive suffix a trash-entry name carries.
#[derive(Clone, Copy, PartialEq, Eq, Structural, Debug)]
pub enum ArchiveSfx {
    TarGz,
    Gz,
    Plain,
}

pub open spec fn sfx_of(s: Seq<char>) -> ArchiveSfx {
    if has_suffix(s, tgz_suffix()) {
        ArchiveSfx::TarGz
    } else if has_suffix(s, gz_suffix()) {
        ArchiveSfx::Gz
    } else {
        ArchiveSfx::Plain
    }
}

pub open spec fn sfx_seq(x: ArchiveSfx) -> Seq<char> {
    match x {
        ArchiveSfx::TarGz => tgz_suffix(),
        ArchiveSfx::Gz => gz_suffix(),
        ArchiveSfx::Plain => Seq::empty(),
    }
}

/// The name with its archive suffix (if any) removed.
pub open spec fn strip_archive(s: Seq<char>) -> Seq<char> {
    s.take(s.len() - sfx_seq(sfx_of(s)).len())
}

/// Which archive suffix `c` ends with.
pub fn sfx_kind(c: &str) -> (k: ArchiveSfx)
    ensures
        k == sfx_of(c@),
{
    proof {
        reveal_strlit(".tar.gz");
        reveal_strlit(".gz");
        assert(".tar.gz"@ =~= tgz_suffix());
        assert(".gz"@ =~= gz_suffix());
    }
    if str_has_suffix(c, ".tar.gz") {
        ArchiveSfx::TarGz
    } else if str_has_suffix(c, ".gz") {
        ArchiveSfx::Gz
    } else {
        ArchiveSfx::Plain
    }
}

/// The index of the last `.` in `b`, or `-1` if there is none.
pub open spec fn last_dot(b: Seq<char>) -> int
    decreases b.len(),
{
    if b.len() == 0 {
        -1
    } else if b.last() == '.' {
        b.len() - 1
    } else {
        last_dot(b.drop_last())
    }
}

pub proof fn lemma_last_dot_props(b: Seq<char>)
    ensures
        -1 <= last_dot(b) < b.len(),
        last_dot(b) == -1 ==> forall|j: int| 0 <= j < b.len() ==> b[j] != '.',
        last_dot(b) >= 0 ==> 0 <= last_dot(b) < b.len() && b[last_dot(b)] == '.' && forall|j: int|
            last_dot(b) < j < b.len() ==> b[j] != '.',
    decreases b.len(),
{
    if b.len() > 0 && b.last() != '.' {
        lemma_last_dot_props(b.drop_last());
        assert(forall|j: int| 0 <= j < b.len() - 1 ==> b[j] == b.drop_last()[j]);
    }
}

/// The stem a numbered variant is built on: the stripped name up to its
/// last dot, when that dot marks an extension.
pub open spec fn num_stem(base: Seq<char>) -> Seq<char> {
    if last_dot(base) > 0 {
        base.take(last_dot(base))
    } else {
        base
    }
}

/// What follows the counter: the reattached extension (with its dot, when
/// it is not empty) and the archive suffix.
pub open spec fn num_tail(base: Seq<char>, sfx: ArchiveSfx) -> Seq<char> {
    (if last_dot(base) > 0 && last_dot(base) < base.len() - 1 {
        seq!['.'] + base.skip(last_dot(base) + 1)
    } else {
        Seq::empty()
    }) + sfx_seq(sfx)
}

/// The `k`-th numbered variant of the candidate name `c`.
pub open spec fn numbered(c: Seq<char>, k: nat) -> Seq<char> {
    num_stem(strip_archive(c)).push('(') + dec_str(k) + (seq![')'] + num_tail(
        strip_archive(c),
        sfx_of(c),
    ))
}

/// The `k`-th name tried for the candidate `c`: the candidate itself
/// first, then its numbered variants.
pub open spec fn cand(c: Seq<char>, k: nat) -> Seq<char> {
    if k == 0 {
        c
    } else {
        numbered(c, k)
    }
}

/// Distinct counters give distinct numbered variants.
pub proof fn lemma_numbered_injective(c: Seq<char>, a: nat, b: nat)
    requires
        numbered(c, a) == numbered(c, b),
    ensures
        a == b,
{
    let pre = num_stem(strip_archive(c)).push('(');
    let post = seq![')'] + num_tail(strip_archive(c), sfx_of(c));
    let x = dec_str(a);
    let y = dec_str(b);
    assert(x.len() == y.len()) by {
        assert((pre + x + post).len() == pre.len() + x.len() + post.len());
        assert((pre + y + post).len() == pre.len() + y.len() + post.len());
    }
    assert(x =~= y) by {
        assert forall|j: int| 0 <= j < x.len() implies x[j] == y[j] by {
            assert((pre + x + post)[pre.len() + j] == x[j]);
            assert((pre + y + post)[pre.len() + j] == y[j]);
        }
    }
    lemma_dec_val_of_dec_str(a);
    lemma_dec_val_of_dec_str(b);
    assert(dec_val(x) == a && dec_val(y) == b);
}

/// Every name tried for an archive-suffixed candidate carries the
/// archive suffix itself: numbering a name never loses `.tar.gz`.
pub proof fn lemma_cand_keeps_archive_suffix(c: Seq<char>, k: nat)
    requires
        has_suffix(c, tgz_suffix()),
    ensures
        has_suffix(cand(c, k), tgz_suffix()),
{
    if k > 0 {
        assert(sfx_of(c) == ArchiveSfx::TarGz);
        let name = numbered(c, k);
        let head = num_stem(strip_archive(c)).push('(') + dec_str(k);
        let base = strip_archive(c);
        let epart: Seq<char> = if last_dot(base) > 0 && last_dot(base) < base.len() - 1 {
            seq!['.'] + base.skip(last_dot(base) + 1)
        } else {
            Seq::empty()
        };
        assert(num_tail(base, sfx_of(c)) == epart + tgz_suffix());
        assert(name =~= (head + seq![')'] + epart) + tgz_suffix());
        let pre = head + seq![')'] + epart;
        assert(name.len() == pre.len() + 7);
        assert(name.subrange(name.len() - 7, name.len() as int) =~= tgz_suffix()) by {
            assert forall|j: int| 0 <= j < 7 implies name[pre.len() + j] == tgz_suffix()[j] by {
                assert((pre + tgz_suffix())[pre.len() + j] == tgz_suffix()[j]);
            }
        }
    }
}

/// The views of a vector of names.
pub open spec fn names_of(s: Seq<String>) -> Seq<Seq<char>> {
    s.map_values(|x: String| x@)
}

/// The collision rule: a name is taken when something already sits on
/// disk under it or another record claims it — unless the record under it
/// is exactly the item being inserted, which is a re-trash and reuses the
/// name.
pub open spec fn taken(
    name: Seq<char>,
    disk: Seq<Seq<char>>,
    m: Map<Seq<char>, (Seq<char>, bool)>,
    orig: Seq<char>,
    is_dir: bool,
) -> bool {
    &&& !(m.contains_key(name) && m[name] == (orig, is_dir))
    &&& (disk.contains(name) || m.contains_key(name))
}

fn is_taken(
    name: &String,
    existing: &Vec<String>,
    metadata: &MetaMap,
    original_path: &String,
    is_directory: bool,
) -> (r: bool)
    requires
        metadata.wf(),
    ensures
        r == taken(name@, names_of(existing@), metadata@, original_path@, is_directory),
{
    match metadata.get(name.as_str()) {
        Some(item) => {
            if item.is_dir == is_directory && str_eq(item.path.as_str(), original_path.as_str()) {
                false
            } else {
                true
            }
        },
        None => {
            let n = existing.len();
            let mut i: usize = 0;
            while i < n
                invariant
                    n == existing@.len(),
                    i <= n,
                    !metadata@.contains_key(name@),
                    forall|j: int| 0 <= j < i ==> existing@[j]@ != name@,
                decreases n - i,
            {
                if str_eq(existing[i].as_str(), name.as_str()) {
                    proof {
                        assert(names_of(existing@)[i as int] == name@);
                        assert(names_of(existing@).contains(name@));
                    }
                    return true;
                }
                i += 1;
            }
            proof {
                if names_of(existing@).contains(name@) {
                    let j = choose|j: int|
                        0 <= j < names_of(existing@).len() && names_of(existing@)[j] == name@;
                    assert(existing@[j]@ == name@);
                }
            }
            false
        },
    }
}

/// Builds the `k`-th numbered variant of `c`.
fn build_numbered(c: &str, k: u128) -> (r: String)
    ensures
        r@ == numbered(c@, k as nat),
{
    proof {
        reveal_strlit(".tar.gz");
        reveal_strlit(".gz");
        reveal_strlit("");
        assert(".tar.gz"@ =~= tgz_suffix());
        assert(".gz"@ =~= gz_suffix());
    }
    let kind = sfx_kind(c);
    let n = c.unicode_len();
    let base_len: usize = match kind {
        ArchiveSfx::TarGz => n - 7,
        ArchiveSfx::Gz => n - 3,
        ArchiveSfx::Plain => n,
    };
    let ghost base = strip_archive(c@);
    proof {
        assert(base =~= c@.take(base_len as int));
    }
    // find the last dot of the stripped name
    let mut j: usize = base_len;
    let mut dot: usize = 0;
    let mut seen_dot = false;
    loop
        invariant_except_break
            !seen_dot,
            forall|t: int| j <= t < base_len ==> base[t] != '.',
        invariant
            base_len <= n == c@.len(),
            base == c@.take(base_len as int),
            j <= base_len,
        ensures
            seen_dot ==> dot < base_len && base[dot as int] == '.' && forall|t: int|
                dot < t < base_len ==> base[t] != '.',
            !seen_dot ==> forall|t: int| 0 <= t < base_len ==> base[t] != '.',
        decreases j,
    {
        if j == 0 {
            break;
        }
        j -= 1;
        if c.get_char(j) == '.' {
            dot = j;
            seen_dot = true;
            proof {
                assert(base[j as int] == c@[j as int]);
            }
            break;
        }
        assert(base[j as int] == c@[j as int]);
    }
    proof {
        lemma_last_dot_props(base);
        assert(base.len() == base_len);
        if seen_dot {
            if last_dot(base) == -1 {
                assert(base[dot as int] != '.');
                assert(false);
            }
            if last_dot(base) > dot {
                assert(base[last_dot(base)] != '.');
                assert(false);
            }
            if 0 <= last_dot(base) < dot {
                assert(base[dot as int] != '.');
                assert(false);
            }
            assert(last_dot(base) == dot);
        } else {
            if last_dot(base) >= 0 {
                assert(base[last_dot(base)] == '.');
                assert(base[last_dot(base)] != '.');
            }
            assert(last_dot(base) == -1);
        }
    }
    let has_ext = seen_dot && dot > 0;
    let stem_end: usize = if has_ext {
        dot
    } else {
        base_len
    };
    let mut out = substring_copy(c, 0, stem_end);
    proof {
        assert(out@ =~= num_stem(base));
    }
    out.push('(');
    push_decimal(&mut out, k);
    out.push(')');
    let ghost mid = num_stem(base).push('(') + dec_str(k as nat) + seq![')'];
    proof {
        assert(out@ =~= mid);
    }
    if has_ext && dot + 1 < base_len {
        out.push('.');
        let ext = substring_copy(c, dot + 1, base_len);
        out.append(ext.as_str());
        proof {
            assert(ext@ =~= base.skip(last_dot(base) + 1));
        }
    }
    proof {
        if last_dot(base) > 0 && last_dot(base) < base.len() - 1 {
            assert(out@ =~= mid + (seq!['.'] + base.skip(last_dot(base) + 1)));
        } else {
            assert(out@ =~= mid);
        }
    }
    match kind {
        ArchiveSfx::TarGz => {
            out.append(".tar.gz");
        },
        ArchiveSfx::Gz => {
            out.append(".gz");
        },
        ArchiveSfx::Plain => {},
    }
    proof {
        assert(out@ =~= numbered(c@, k as nat));
    }
    out
}

/// Some candidate under the pigeonhole bound is free: there are more
/// distinct numbered variants than names that can be taken.
proof fn lemma_free_candidate(
    c: Seq<char>,
    disk: Seq<Seq<char>>,
    m: Map<Seq<char>, (Seq<char>, bool)>,
    orig: Seq<char>,
    is_dir: bool,
)
    requires
        m.dom().finite(),
    ensures
        exists|j: nat|
            j < disk.len() + m.dom().len() + 2 && !taken(cand(c, j), disk, m, orig, is_dir),
{
    broadcast use vstd::seq_lib::seq_to_set_is_finite;

    if !(exists|j: nat|
        j < disk.len() + m.dom().len() + 2 && !taken(cand(c, j), disk, m, orig, is_dir)) {
        assert(forall|j: nat|
            j < disk.len() + m.dom().len() + 2 ==> taken(cand(c, j), disk, m, orig, is_dir));
        let nn = disk.len() + m.dom().len();
        let pool = disk.to_set().union(m.dom());
        disk.lemma_cardinality_of_set();
        lemma_len_union(disk.to_set(), m.dom());
        assert(pool.finite());
        assert(pool.len() <= nn);
        let f = |i: int| numbered(c, i as nat);
        let rng = set_int_range(1, nn + 2 as int);
        lemma_int_range(1, nn + 2 as int);
        assert(rng.len() == nn + 1);
        assert(injective_on(f, rng)) by {
            assert forall|i1: int, i2: int|
                rng.contains(i1) && rng.contains(i2) && #[trigger] f(i1) == #[trigger] f(i2)
            implies i1 == i2 by {
                lemma_numbered_injective(c, i1 as nat, i2 as nat);
            }
        }
        let img = rng.map(f);
        lemma_map_size(rng, img, f);
        assert(img.len() == nn + 1);
        assert(img.subset_of(pool)) by {
            assert forall|x: Seq<char>| #[trigger] img.contains(x) implies pool.contains(x) by {
                let i = choose|i: int| rng.contains(i) && f(i) == x;
                assert(1 <= i < nn + 2);
                assert(taken(cand(c, i as nat), disk, m, orig, is_dir));
                assert(cand(c, i as nat) == x);
                if disk.contains(x) {
                    assert(disk.to_set().contains(x));
                }
            }
        }
        lemma_len_subset(img, pool);
        assert(false);
    }
}

/// Resolves the name an item is stored under in the trash root: the
/// candidate itself when it is free or already maps to the same item,
/// else the first numbered variant that is.
pub fn generate_unique_name(
    file_name: &String,
    original_path: &String,
    is_directory: bool,
    existing: &Vec<String>,
    metadata: &MetaMap,
) -> (r: String)
    requires
        metadata.wf(),
    ensures
        exists|k: nat|
            {
                &&& r@ == cand(file_name@, k)
                &&& !taken(cand(file_name@, k), names_of(existing@), metadata@, original_path@, is_directory)
                &&& forall|j: nat| j < k ==> taken(
                    cand(file_name@, j),
                    names_of(existing@),
                    metadata@,
                    original_path@,
                    is_directory,
                )
            },
        !taken(r@, names_of(existing@), metadata@, original_path@, is_directory),
        (metadata@.contains_key(file_name@) && metadata@[file_name@] == (
            original_path@,
            is_directory,
        )) ==> r@ == file_name@,
{
    let ghost disk = names_of(existing@);
    let bound: u128 = existing.len() as u128 + metadata.len() as u128 + 2;
    let mut k: u128 = 0;
    let mut cur: String = file_name.clone();
    while is_taken(&cur, existing, metadata, original_path, is_directory)
        invariant
            metadata.wf(),
            disk == names_of(existing@),
            bound == existing@.len() + metadata.spec_len() + 2,
            k <= bound,
            cur@ == cand(file_name@, k as nat),
            forall|j: nat| j < k ==> taken(
                cand(file_name@, j),
                disk,
                metadata@,
                original_path@,
                is_directory,
            ),
        decreases bound - k,
    {
        proof {
            metadata.lemma_dom_size();
            if k == bound {
                lemma_free_candidate(file_name@, disk, metadata@, original_path@, is_directory);
                let j = choose|j: nat|
                    j < disk.len() + metadata@.dom().len() + 2 && !taken(
                        cand(file_name@, j),
                        disk,
                        metadata@,
                        original_path@,
                        is_directory,
                    );
                assert(j < k);
                assert(false);
            }
        }
        k = k + 1;
        cur = build_numbered(file_name.as_str(), k);
    }
    proof {
        let kk = k as nat;
        assert(cur@ == cand(file_name@, kk) && !taken(
            cand(file_name@, kk),
            disk,
            metadata@,
            original_path@,
            is_directory,
        ) && forall|j: nat| j < kk ==> taken(
            cand(file_name@, j),
            disk,
            metadata@,
            original_path@,
            is_directory,
        ));
        if metadata@.contains_key(file_name@) && metadata@[file_name@] == (
            original_path@,
            is_directory,
        ) {
            assert(!taken(cand(file_name@, 0), disk, metadata@, original_path@, is_directory));
            assert(kk == 0);
        }
    }
    cur
}

} // verus!
