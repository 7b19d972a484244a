//! The identifier-to-path table, and the startup decision that produces it
//! from the mapping file's bytes.

use vstd::prelude::*;

use crate::json;
use crate::json::{entry_views, spec_parse_config, spec_serialize_config};

verus! {

/// The map denoted by a sequence of (key, value) pairs: a later pair with
/// the same key overrides an earlier one.
pub open spec fn map_of(es: Seq<(Seq<u8>, Seq<u8>)>) -> Map<Seq<u8>, Seq<u8>>
    decreases es.len(),
{
    if es.len() == 0 {
        Map::empty()
    } else {
        map_of(es.drop_last()).insert(es.last().0, es.last().1)
    }
}

/// The value paired with `k`, the last pair winning.
pub open spec fn spec_lookup(es: Seq<(Seq<u8>, Seq<u8>)>, k: Seq<u8>) -> Option<Seq<u8>>
    decreases es.len(),
{
    if es.len() == 0 {
        None
    } else if es.last().0 == k {
        Some(es.last().1)
    } else {
        spec_lookup(es.drop_last(), k)
    }
}

pub proof fn lemma_lookup_map_of(es: Seq<(Seq<u8>, Seq<u8>)>, k: Seq<u8>)
    ensures
        spec_lookup(es, k) is Some <==> map_of(es).contains_key(k),
        spec_lookup(es, k) matches Some(v) ==> map_of(es)[k] == v,
    decreases es.len(),
{
    if es.len() > 0 {
        lemma_lookup_map_of(es.drop_last(), k);
    }
}

/// A failure at startup: the mapping file cannot be decoded, or (reported by
/// the I/O layer) a fresh one cannot be written.
#[derive(Debug, Clone, Copy, PartialEq, Eq, Structural)]
pub enum ConfigError {
    /// The file is not a well-formed JSON object of strings.
    Parse,
    /// A fresh mapping file could not be persisted.
    Write,
}

/// The identifier-to-path table: the (key, value) pairs of the mapping file,
/// immutable for the life of the server once loaded.
pub struct Mapping {
    entries: Vec<(Vec<u8>, Vec<u8>)>,
}

impl Mapping {
    /// The decoded pairs, in the mapping file's textual order.
    pub closed spec fn entry_seq(&self) -> Seq<(Seq<u8>, Seq<u8>)> {
        entry_views(self.entries@)
    }
}

impl View for Mapping {
    type V = Map<Seq<u8>, Seq<u8>>;

    open spec fn view(&self) -> Map<Seq<u8>, Seq<u8>> {
        map_of(self.entry_seq())
    }
}

impl Mapping {
    /// The empty table.
    pub fn new() -> (m: Mapping)
        ensures
            m.entry_seq() == Seq::<(Seq<u8>, Seq<u8>)>::empty(),
            m@ == Map::<Seq<u8>, Seq<u8>>::empty(),
    {
        let m = Mapping { entries: Vec::new() };
        proof {
            assert(m.entry_seq() =~= Seq::<(Seq<u8>, Seq<u8>)>::empty());
        }
        m
    }

    /// Adds a pair; an existing binding of the same key is overridden.
    pub fn insert(&mut self, k: Vec<u8>, v: Vec<u8>)
        ensures
            final(self).entry_seq() == old(self).entry_seq().push((k@, v@)),
            final(self)@ == old(self)@.insert(k@, v@),
    {
        let ghost kv = (k@, v@);
        let ghost pre = self.entries@;
        self.entries.push((k, v));
        proof {
            assert(self.entry_seq() =~= entry_views(pre).push(kv));
            assert(self.entry_seq().drop_last() =~= entry_views(pre));
        }
    }

    /// The path bound to `id`, or `None` where the table has no such key.
    pub fn lookup(&self, id: &Vec<u8>) -> (r: Option<&Vec<u8>>)
        ensures
            r is Some <==> self@.contains_key(id@),
            r matches Some(v) ==> v@ == self@[id@],
    {
        let ghost es = self.entry_seq();
        let mut j: usize = self.entries.len();
        proof {
            assert(es.take(j as int) =~= es);
        }
        while j > 0
            invariant
                0 <= j <= self.entries@.len(),
                es == self.entry_seq(),
                spec_lookup(es, id@) == spec_lookup(es.take(j as int), id@),
            decreases j,
        {
            let hit = bytes_eq(&self.entries[j - 1].0, id);
            proof {
                assert(es.take(j as int).last() == es[j - 1]);
                assert(es.take(j as int).drop_last() =~= es.take(j as int - 1));
                lemma_lookup_map_of(es, id@);
            }
            if hit {
                return Some(&self.entries[j - 1].1);
            }
            j = j - 1;
        }
        proof {
            assert(es.take(0) =~= Seq::<(Seq<u8>, Seq<u8>)>::empty());
            lemma_lookup_map_of(es, id@);
        }
        None
    }

    /// The serialized form of the table: one JSON object, pairs in order.
    pub fn to_json_bytes(&self) -> (r: Vec<u8>)
        ensures
            r@ == spec_serialize_config(self.entry_seq()),
    {
        json::serialize_config_entries(&self.entries)
    }
}

/// Byte-for-byte equality of two byte vectors.
pub fn bytes_eq(a: &Vec<u8>, b: &Vec<u8>) -> (r: bool)
    ensures
        r == (a@ == b@),
{
    if a.len() != b.len() {
        proof {
            assert(a@ != b@);
        }
        return false;
    }
    let mut i: usize = 0;
    while i < a.len()
        invariant
            0 <= i <= a@.len(),
            a@.len() == b@.len(),
            forall|t: int| 0 <= t < i ==> a@[t] == b@[t],
        decreases a@.len() - i,
    {
        if a[i] != b[i] {
            return false;
        }
        i = i + 1;
    }
    proof {
        assert(a@ =~= b@);
    }
    true
}

/// Decodes the mapping file. The result is `Ok` exactly where the bytes are
/// one well-formed JSON object of strings; the table then holds its pairs.
pub fn parse_config(bytes: &Vec<u8>) -> (r: Result<Mapping, ConfigError>)
    ensures
        r is Ok <==> spec_parse_config(bytes@) is Some,
        r matches Ok(m) ==> Some(m.entry_seq()) == spec_parse_config(bytes@),
        r matches Err(e) ==> e == ConfigError::Parse,
{
    match json::parse_config_entries(bytes) {
        Ok(es) => Ok(Mapping { entries: es }),
        Err(_) => Err(ConfigError::Parse),
    }
}

/// What startup produced: the table to serve from, and, where no mapping
/// file existed, the bytes of the fresh one that must be persisted.
pub struct LoadResult {
    pub mapping: Mapping,
    pub to_write: Option<Vec<u8>>,
}

/// The startup decision, over the mapping file's contents (`None` where the
/// file does not exist). An existing file must decode or startup fails; an
/// absent one yields the empty table and the bytes of an empty object, which
/// are guaranteed to load back as that same empty table.
pub fn load_or_init(existing: Option<Vec<u8>>) -> (r: Result<LoadResult, ConfigError>)
    ensures
        existing matches Some(bytes) ==> {
            &&& r is Ok <==> spec_parse_config(bytes@) is Some
            &&& (r matches Ok(lr) ==> Some(lr.mapping.entry_seq()) == spec_parse_config(bytes@)
                && lr.to_write is None)
            &&& (r matches Err(e) ==> e == ConfigError::Parse)
        },
        existing is None ==> (r matches Ok(lr) && {
            &&& lr.mapping.entry_seq() == Seq::<(Seq<u8>, Seq<u8>)>::empty()
            &&& lr.mapping@ == Map::<Seq<u8>, Seq<u8>>::empty()
            &&& (lr.to_write matches Some(w) && w@ == spec_serialize_config(
                Seq::<(Seq<u8>, Seq<u8>)>::empty(),
            ) && spec_parse_config(w@) == Some(Seq::<(Seq<u8>, Seq<u8>)>::empty()))
        }),
{
    match existing {
        Some(bytes) => match parse_config(&bytes) {
            Ok(m) => Ok(LoadResult { mapping: m, to_write: None }),
            Err(e) => Err(e),
        },
        None => {
            let m = Mapping::new();
            let w = m.to_json_bytes();
            proof {
                lemma_empty_round_trip();
            }
            Ok(LoadResult { mapping: m, to_write: Some(w) })
        },
    }
}

/// Law: the serialized empty table parses back as the empty table, so a
/// freshly initialized mapping file loads without error on the next run.
pub proof fn lemma_empty_round_trip()
    ensures
        spec_parse_config(spec_serialize_config(Seq::<(Seq<u8>, Seq<u8>)>::empty())) == Some(
            Seq::<(Seq<u8>, Seq<u8>)>::empty(),
        ),
{
    let bs = spec_serialize_config(Seq::<(Seq<u8>, Seq<u8>)>::empty());
    assert(bs =~= seq![json::LBRACE, json::RBRACE]);
    assert(json::spec_skip_ws(bs, 0) == 0);
    assert(json::spec_skip_ws(bs, 1) == 1);
    assert(json::spec_skip_ws(bs, 2) == 2);
}

} // verus!
