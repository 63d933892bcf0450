//! Reading and writing the metadata store's file content: a flat JSON
//! string map whose values are records (or legacy bare paths).

use vstd::prelude::*;
use crate::meta::{MetaMap, TrashItem};
use crate::TrashError;
use crate::records::{parse_record, encode_record, record_str, spec_parse_record};

verus! {

/// The key of each raw pair, in order.
pub open spec fn pair_keys(s: Seq<(String, String)>) -> Seq<Seq<char>> {
    s.map_values(|p: (String, String)| p.0@)
}

/// The mapping a raw pair vector denotes; a later pair wins.
pub open spec fn map_of_pairs(s: Seq<(String, String)>) -> Map<Seq<char>, Seq<char>>
    decreases s.len(),
{
    if s.len() == 0 {
        Map::empty()
    } else {
        map_of_pairs(s.drop_last()).insert(s.last().0@, s.last().1@)
    }
}

pub proof fn lemma_map_of_pairs_contains(s: Seq<(String, String)>)
    ensures
        forall|k: Seq<char>| map_of_pairs(s).contains_key(k) <==> pair_keys(s).contains(k),
    decreases s.len(),
{
    if s.len() > 0 {
        lemma_map_of_pairs_contains(s.drop_last());
        assert forall|k: Seq<char>|
            map_of_pairs(s).contains_key(k) <==> pair_keys(s).contains(k) by {
            assert(pair_keys(s).drop_last() =~= pair_keys(s.drop_last()));
            if map_of_pairs(s).contains_key(k) {
                if k == s.last().0@ {
                    assert(pair_keys(s)[s.len() - 1] == k);
                } else {
                    assert(map_of_pairs(s.drop_last()).contains_key(k));
                    assert(pair_keys(s.drop_last()).contains(k));
                    let j = choose|j: int|
                        0 <= j < pair_keys(s.drop_last()).len() && pair_keys(s.drop_last())[j]
                            == k;
                    assert(pair_keys(s)[j] == k);
                    assert(pair_keys(s).contains(k));
                }
            }
            if pair_keys(s).contains(k) {
                let i = choose|i: int| 0 <= i < pair_keys(s).len() && pair_keys(s)[i] == k;
                if i < s.len() - 1 {
                    assert(pair_keys(s.drop_last())[i] == k);
                    assert(pair_keys(s.drop_last()).contains(k));
                    assert(map_of_pairs(s.drop_last()).contains_key(k));
                } else {
                    assert(k == s.last().0@);
                }
                assert(map_of_pairs(s).contains_key(k));
            }
        }
    }
}

pub proof fn lemma_map_of_pairs_index(s: Seq<(String, String)>, i: int)
    requires
        pair_keys(s).no_duplicates(),
        0 <= i < s.len(),
    ensures
        map_of_pairs(s).contains_key(s[i].0@),
        map_of_pairs(s)[s[i].0@] == s[i].1@,
    decreases s.len(),
{
    lemma_map_of_pairs_contains(s);
    assert(pair_keys(s)[i] == s[i].0@);
    if i < s.len() - 1 {
        assert(pair_keys(s).drop_last() =~= pair_keys(s.drop_last()));
        assert(pair_keys(s)[i] != pair_keys(s)[s.len() - 1]);
        lemma_map_of_pairs_index(s.drop_last(), i);
        assert(s.drop_last()[i] == s[i]);
    }
}

/// What serde_json reads a flat string-to-string map from `s` as.
pub uninterp spec fn json_map_parse(s: Seq<char>) -> Option<Map<Seq<char>, Seq<char>>>;

/// Relies on serde_json::from_str for a `BTreeMap<String, String>`: the
/// result is a function of the text alone; its keys are distinct; the
/// vector holds exactly its pairs.
#[verifier::external_body]
fn parse_json_map(s: &str) -> (r: Option<Vec<(String, String)>>)
    ensures
        match r {
            Some(v) => json_map_parse(s@) is Some && pair_keys(v@).no_duplicates() && map_of_pairs(
                v@,
            ) == json_map_parse(s@).unwrap(),
            None => json_map_parse(s@) is None,
        },
{
    match serde_json::from_str::<std::collections::BTreeMap<String, String>>(s) {
        Ok(m) => Some(m.into_iter().collect()),
        Err(_) => None,
    }
}

/// Relies on serde_json::to_string for a `BTreeMap<String, String>`,
/// which cannot fail for string keys and values, and on serde_json
/// reading back what it wrote: parsing the result yields exactly the
/// encoded mapping.
#[verifier::external_body]
fn encode_json_map(pairs: &Vec<(String, String)>) -> (r: String)
    ensures
        json_map_parse(r@) == Some(map_of_pairs(pairs@)),
{
    let m: std::collections::BTreeMap<String, String> = pairs.iter().cloned().collect();
    serde_json::to_string(&m).expect("a map of strings always serializes")
}

/// Reads the metadata file's text as raw key/value pairs. Text that does
/// not parse yields the empty mapping: corrupt metadata degrades to an
/// empty store instead of failing.
pub fn read_raw_metadata(content: &str) -> (r: Vec<(String, String)>)
    ensures
        pair_keys(r@).no_duplicates(),
        match json_map_parse(content@) {
            Some(m) => map_of_pairs(r@) == m,
            None => r@.len() == 0,
        },
{
    match parse_json_map(content) {
        Some(v) => v,
        None => Vec::new(),
    }
}

/// What one raw value denotes once migrated: a record's own fields, or a
/// legacy bare path with the probed type bit.
pub open spec fn migrated(v: Seq<char>, probe: bool) -> (Seq<char>, bool) {
    match spec_parse_record(v) {
        Some(pd) => pd,
        None => (v, probe),
    }
}

/// A value in record form migrates to its own fields, whatever the
/// filesystem probe would have said.
pub proof fn lemma_migrated_record(p: Seq<char>, d: bool, probe: bool)
    ensures
        migrated(record_str(p, d), probe) == (p, d),
{
    crate::records::lemma_record_round_trip(p, d);
}

/// Upgrades raw pairs to the typed store. `probes@[i]` says whether the
/// filesystem shows a directory at the path in value `i`; it is consulted
/// only for legacy bare-path values.
pub fn migrate_metadata(raw: &Vec<(String, String)>, probes: &Vec<bool>) -> (m: MetaMap)
    requires
        probes@.len() == raw@.len(),
        pair_keys(raw@).no_duplicates(),
    ensures
        m.wf(),
        forall|k: Seq<char>| m@.contains_key(k) <==> pair_keys(raw@).contains(k),
        forall|i: int|
            #![trigger raw@[i]]
            0 <= i < raw@.len() ==> m@.contains_key(raw@[i].0@) && m@[raw@[i].0@] == migrated(
                raw@[i].1@,
                probes@[i],
            ),
{
    let n = raw.len();
    let mut m = MetaMap::new();
    let mut i: usize = 0;
    while i < n
        invariant
            n == raw@.len(),
            probes@.len() == raw@.len(),
            pair_keys(raw@).no_duplicates(),
            i <= n,
            m.wf(),
            forall|k: Seq<char>| m@.contains_key(k) <==> pair_keys(raw@.take(i as int)).contains(
                k,
            ),
            forall|j: int|
                #![trigger raw@[j]]
                0 <= j < i ==> m@.contains_key(raw@[j].0@) && m@[raw@[j].0@] == migrated(
                    raw@[j].1@,
                    probes@[j],
                ),
        decreases n - i,
    {
        let key = raw[i].0.clone();
        let item: TrashItem = match parse_record(raw[i].1.as_str()) {
            Some(it) => it,
            None => TrashItem { path: raw[i].1.clone(), is_dir: probes[i] },
        };
        proof {
            assert(item@ == migrated(raw@[i as int].1@, probes@[i as int]));
        }
        let ghost m0 = m@;
        let ghost itemv = item@;
        let ghost keyv = key@;
        m.insert(key, item);
        proof {
            assert(keyv == raw@[i as int].0@);
            assert(m@ == m0.insert(keyv, itemv));
            assert(pair_keys(raw@.take(i + 1)).drop_last() =~= pair_keys(raw@.take(i as int)));
            assert(pair_keys(raw@.take(i + 1)).last() == raw@[i as int].0@);
            assert forall|k: Seq<char>|
                m@.contains_key(k) <==> pair_keys(raw@.take(i + 1)).contains(k) by {
                let pk = pair_keys(raw@.take(i + 1));
                if m@.contains_key(k) {
                    if k == raw@[i as int].0@ {
                        assert(pk[pk.len() - 1] == k);
                    } else {
                        let j = choose|j: int|
                            0 <= j < pair_keys(raw@.take(i as int)).len() && pair_keys(
                                raw@.take(i as int),
                            )[j] == k;
                        assert(pk[j] == k);
                    }
                    assert(pk.contains(k));
                }
                if pk.contains(k) {
                    let j = choose|j: int| 0 <= j < pk.len() && pk[j] == k;
                    if j < pk.len() - 1 {
                        assert(pair_keys(raw@.take(i as int))[j] == k);
                        assert(pair_keys(raw@.take(i as int)).contains(k));
                    }
                }
            }
            assert forall|j: int|
                #![trigger raw@[j]]
                0 <= j < i + 1 implies m@.contains_key(raw@[j].0@) && m@[raw@[j].0@] == migrated(
                raw@[j].1@,
                probes@[j],
            ) by {
                if j < i {
                    let w = migrated(raw@[j].1@, probes@[j]);
                    assert(pair_keys(raw@)[j] == raw@[j].0@);
                    assert(pair_keys(raw@)[i as int] == raw@[i as int].0@);
                    assert(raw@[j].0@ != keyv);
                    assert(m0.contains_key(raw@[j].0@) && m0[raw@[j].0@] == w);
                    assert(m@[raw@[j].0@] == m0[raw@[j].0@]);
                } else {
                    assert(m@.contains_key(keyv));
                    assert(m@[keyv] == itemv);
                }
            }
        }
        i += 1;
    }
    proof {
        assert(raw@.take(n as int) =~= raw@);
    }
    m
}

/// The file content a store serializes to, as a mapping: each key to the
/// record form of its fields.
pub open spec fn meta_encoded(mv: Map<Seq<char>, (Seq<char>, bool)>) -> Map<Seq<char>, Seq<char>> {
    Map::new(|k: Seq<char>| mv.contains_key(k), |k: Seq<char>| record_str(mv[k].0, mv[k].1))
}

/// Serializes the store; always succeeds, since a map of strings always
/// serializes.
pub fn encode_metadata(m: &MetaMap) -> (r: Result<String, TrashError>)
    requires
        m.wf(),
    ensures
        r is Ok,
        r is Ok ==> json_map_parse(r.unwrap()@) == Some(meta_encoded(m@)),
{
    let n = m.len();
    let mut pairs: Vec<(String, String)> = Vec::new();
    let mut i: usize = 0;
    while i < n
        invariant
            n == m.spec_len(),
            m.wf(),
            i <= n,
            pairs@.len() == i,
            forall|j: int| 0 <= j < i ==> pairs@[j].0@ == m.entry_view(j).0,
            forall|j: int| 0 <= j < i ==> #[trigger] pairs@[j].1@ == record_str(
                m@[m.entry_view(j).0].0,
                m@[m.entry_view(j).0].1,
            ),
        decreases n - i,
    {
        let (key, path, is_dir) = m.entry_at(i);
        let value = encode_record(&TrashItem { path, is_dir });
        pairs.push((key, value));
        i += 1;
    }
    proof {
        lemma_map_of_pairs_contains(pairs@);
        crate::meta::lemma_map_of_contains(m.entries@);
        assert(pair_keys(pairs@) =~= m.key_seq()) by {
            assert forall|j: int| 0 <= j < n implies pair_keys(pairs@)[j] == m.key_seq()[j] by {
                assert(pairs@[j].0@ == m.entry_view(j).0);
            }
        }
        assert(pair_keys(pairs@).no_duplicates());
        assert forall|k: Seq<char>| #[trigger] map_of_pairs(pairs@).contains_key(k)
            <==> meta_encoded(m@).contains_key(k) by {
            assert(map_of_pairs(pairs@).contains_key(k) <==> pair_keys(pairs@).contains(k));
            assert(m.key_seq().contains(k) <==> m@.contains_key(k));
        }
        assert forall|k: Seq<char>| map_of_pairs(pairs@).contains_key(k)
            implies map_of_pairs(pairs@)[k] == meta_encoded(m@)[k] by {
            assert(pair_keys(pairs@).contains(k));
            let j = choose|j: int|
                0 <= j < pair_keys(pairs@).len() && pair_keys(pairs@)[j] == k;
            assert(pairs@[j].0@ == k);
            lemma_map_of_pairs_index(pairs@, j);
            assert(m.entry_view(j).0 == m.key_seq()[j]);
            assert(pairs@[j].0@ == m.entry_view(j).0);
            assert(map_of_pairs(pairs@)[k] == pairs@[j].1@);
            assert(pairs@[j].1@ == record_str(m@[k].0, m@[k].1));
        }
        assert(map_of_pairs(pairs@) =~= meta_encoded(m@));
    }
    Ok(encode_json_map(&pairs))
}

} // verus!
