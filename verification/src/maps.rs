//! The hash maps of the storage layer, each a `hashbrown::HashMap` held in a
//! private field. Every map's contents are named by an uninterpreted spec
//! function, and each operation used by the library is a thin wrapper whose
//! contract states, over those contents, what `hashbrown` documents for it:
//! `insert` maps the key to the value (replacing any previous value), `get` /
//! `contains_key` look the key up, `remove` takes the key's value out, `len`
//! counts keys. Keys are compared by `Eq` (for `String` and `Vec<u32>` keys:
//! by their character / element sequences).
use vstd::prelude::*;

verus! {

/// `hashbrown::HashMap<u32, usize>`: component id → column index.
#[verifier::external_body]
pub struct IndexMap {
    map: hashbrown::HashMap<u32, usize>,
}

/// Contents of an `IndexMap`.
pub uninterp spec fn index_map_contents(m: IndexMap) -> Map<u32, usize>;

/// The empty index map.
pub open spec fn index_map_empty() -> Map<u32, usize> {
    Map::empty()
}

/// `hashbrown::HashMap::new`: an empty map.
#[verifier::external_body]
pub(crate) fn index_map_new() -> (r: IndexMap)
    ensures
        index_map_contents(r) == index_map_empty(),
{
    IndexMap { map: hashbrown::HashMap::new() }
}

/// `hashbrown::HashMap::insert`: afterwards `k` maps to `v`.
#[verifier::external_body]
pub(crate) fn index_map_insert(m: &mut IndexMap, k: u32, v: usize)
    ensures
        index_map_contents(*final(m)) == index_map_contents(*old(m)).insert(k, v),
{
    m.map.insert(k, v);
}

/// `hashbrown::HashMap::get` (copied out): the value `k` maps to, if any.
#[verifier::external_body]
pub(crate) fn index_map_get(m: &IndexMap, k: u32) -> (r: Option<usize>)
    ensures
        r == (if index_map_contents(*m).dom().contains(k) {
            Some(index_map_contents(*m)[k])
        } else {
            None
        }),
{
    m.map.get(&k).copied()
}

/// `hashbrown::HashMap::contains_key`.
#[verifier::external_body]
pub(crate) fn index_map_contains(m: &IndexMap, k: u32) -> (r: bool)
    ensures
        r == index_map_contents(*m).dom().contains(k),
{
    m.map.contains_key(&k)
}

/// `hashbrown::HashMap<Vec<u32>, u32>`: sorted component-id list → archetype id.
#[verifier::external_body]
pub struct IdListMap {
    map: hashbrown::HashMap<Vec<u32>, u32>,
}

/// Contents of an `IdListMap`, keys by their element sequences.
pub uninterp spec fn id_list_map_contents(m: IdListMap) -> Map<Seq<u32>, u32>;

/// The empty id list map.
pub open spec fn id_list_map_empty() -> Map<Seq<u32>, u32> {
    Map::empty()
}

/// `hashbrown::HashMap::new`: an empty map.
#[verifier::external_body]
pub(crate) fn id_list_map_new() -> (r: IdListMap)
    ensures
        id_list_map_contents(r) == id_list_map_empty(),
{
    IdListMap { map: hashbrown::HashMap::new() }
}

/// `hashbrown::HashMap::insert`: afterwards `k` maps to `v`.
#[verifier::external_body]
pub(crate) fn id_list_map_insert(m: &mut IdListMap, k: Vec<u32>, v: u32)
    ensures
        id_list_map_contents(*final(m)) == id_list_map_contents(*old(m)).insert(k@, v),
{
    m.map.insert(k, v);
}

/// `hashbrown::HashMap::get` with a slice key (copied out).
#[verifier::external_body]
pub(crate) fn id_list_map_get(m: &IdListMap, k: &[u32]) -> (r: Option<u32>)
    ensures
        r == (if id_list_map_contents(*m).dom().contains(k@) {
            Some(id_list_map_contents(*m)[k@])
        } else {
            None
        }),
{
    m.map.get(k).copied()
}

/// `hashbrown::HashMap::len`: the number of keys.
#[verifier::external_body]
pub(crate) fn id_list_map_len(m: &IdListMap) -> (r: usize)
    ensures
        r == id_list_map_contents(*m).dom().len(),
{
    m.map.len()
}

/// `hashbrown::HashMap<String, u32>`: name → id.
#[verifier::external_body]
pub struct NameMap {
    map: hashbrown::HashMap<String, u32>,
}

/// Contents of a `NameMap`, keys by their character sequences.
pub uninterp spec fn name_map_contents(m: NameMap) -> Map<Seq<char>, u32>;

/// The empty name map.
pub open spec fn name_map_empty() -> Map<Seq<char>, u32> {
    Map::empty()
}

/// `hashbrown::HashMap::new`: an empty map.
#[verifier::external_body]
pub(crate) fn name_map_new() -> (r: NameMap)
    ensures
        name_map_contents(r) == name_map_empty(),
{
    NameMap { map: hashbrown::HashMap::new() }
}

/// `hashbrown::HashMap::insert`: afterwards `k` maps to `v`.
#[verifier::external_body]
pub(crate) fn name_map_insert(m: &mut NameMap, k: String, v: u32)
    ensures
        name_map_contents(*final(m)) == name_map_contents(*old(m)).insert(k@, v),
{
    m.map.insert(k, v);
}

/// `hashbrown::HashMap::get` with a `&str` key (copied out).
#[verifier::external_body]
pub(crate) fn name_map_get(m: &NameMap, k: &str) -> (r: Option<u32>)
    ensures
        r == (if name_map_contents(*m).dom().contains(k@) {
            Some(name_map_contents(*m)[k@])
        } else {
            None
        }),
{
    m.map.get(k).copied()
}

/// `hashbrown::HashMap<u32, Vec<u8>>`: id → stored bytes.
#[verifier::external_body]
pub struct BytesMap {
    map: hashbrown::HashMap<u32, Vec<u8>>,
}

/// Contents of a `BytesMap`.
pub uninterp spec fn bytes_map_contents(m: BytesMap) -> Map<u32, Seq<u8>>;

/// The empty bytes map.
pub open spec fn bytes_map_empty() -> Map<u32, Seq<u8>> {
    Map::empty()
}

/// `hashbrown::HashMap::new`: an empty map.
#[verifier::external_body]
pub(crate) fn bytes_map_new() -> (r: BytesMap)
    ensures
        bytes_map_contents(r) == bytes_map_empty(),
{
    BytesMap { map: hashbrown::HashMap::new() }
}

/// `hashbrown::HashMap::insert`: afterwards `k` maps to `v`.
#[verifier::external_body]
pub(crate) fn bytes_map_insert(m: &mut BytesMap, k: u32, v: Vec<u8>)
    ensures
        bytes_map_contents(*final(m)) == bytes_map_contents(*old(m)).insert(k, v@),
{
    m.map.insert(k, v);
}

/// `hashbrown::HashMap::get`, as a byte slice.
#[verifier::external_body]
pub(crate) fn bytes_map_get(m: &BytesMap, k: u32) -> (r: Option<&[u8]>)
    ensures
        match r {
            Some(b) => bytes_map_contents(*m).dom().contains(k) && b@ == bytes_map_contents(*m)[k],
            None => !bytes_map_contents(*m).dom().contains(k),
        },
{
    m.map.get(&k).map(|v| v.as_slice())
}

/// `hashbrown::HashMap::contains_key`.
#[verifier::external_body]
pub(crate) fn bytes_map_contains(m: &BytesMap, k: u32) -> (r: bool)
    ensures
        r == bytes_map_contents(*m).dom().contains(k),
{
    m.map.contains_key(&k)
}

/// `hashbrown::HashMap::get_mut`, as a mutable byte slice: the slice shows the
/// stored bytes, and what is left in it (a slice keeps its length) is the
/// key's value afterwards.
#[verifier::external_body]
pub(crate) fn bytes_map_get_mut(m: &mut BytesMap, k: u32) -> (r: Option<&mut [u8]>)
    ensures
        match r {
            Some(b) => {
                &&& bytes_map_contents(*old(m)).dom().contains(k)
                &&& b@ == bytes_map_contents(*old(m))[k]
                &&& final(b)@.len() == b@.len()
                &&& bytes_map_contents(*final(m)) == bytes_map_contents(*old(m)).insert(k, final(b)@)
            },
            None => {
                &&& !bytes_map_contents(*old(m)).dom().contains(k)
                &&& bytes_map_contents(*final(m)) == bytes_map_contents(*old(m))
            },
        },
{
    m.map.get_mut(&k).map(|v| v.as_mut_slice())
}

/// `hashbrown::HashMap<u32, Vec<Vec<u8>>>`: event id → queued payloads.
#[verifier::external_body]
pub struct QueueMap {
    map: hashbrown::HashMap<u32, Vec<Vec<u8>>>,
}

/// Contents of a `QueueMap`, each queue by its payloads' byte sequences.
pub uninterp spec fn queue_map_contents(m: QueueMap) -> Map<u32, Seq<Seq<u8>>>;

/// The empty queue map.
pub open spec fn queue_map_empty() -> Map<u32, Seq<Seq<u8>>> {
    Map::empty()
}

/// `hashbrown::HashMap::new`: an empty map.
#[verifier::external_body]
pub(crate) fn queue_map_new() -> (r: QueueMap)
    ensures
        queue_map_contents(r) == queue_map_empty(),
{
    QueueMap { map: hashbrown::HashMap::new() }
}

/// `hashbrown::HashMap::insert`: afterwards `k` maps to `v`.
#[verifier::external_body]
pub(crate) fn queue_map_insert(m: &mut QueueMap, k: u32, v: Vec<Vec<u8>>)
    ensures
        queue_map_contents(*final(m)) == queue_map_contents(*old(m)).insert(k, v.deep_view()),
{
    m.map.insert(k, v);
}

/// `hashbrown::HashMap::get`.
#[verifier::external_body]
pub(crate) fn queue_map_get(m: &QueueMap, k: u32) -> (r: Option<&Vec<Vec<u8>>>)
    ensures
        match r {
            Some(q) => queue_map_contents(*m).dom().contains(k) && q.deep_view()
                == queue_map_contents(*m)[k],
            None => !queue_map_contents(*m).dom().contains(k),
        },
{
    m.map.get(&k)
}

/// `hashbrown::HashMap::remove`: takes `k`'s queue out of the map.
#[verifier::external_body]
pub(crate) fn queue_map_remove(m: &mut QueueMap, k: u32) -> (r: Option<Vec<Vec<u8>>>)
    ensures
        queue_map_contents(*final(m)) == queue_map_contents(*old(m)).remove(k),
        match r {
            Some(q) => queue_map_contents(*old(m)).dom().contains(k) && q.deep_view()
                == queue_map_contents(*old(m))[k],
            None => !queue_map_contents(*old(m)).dom().contains(k),
        },
{
    m.map.remove(&k)
}

} // verus!
