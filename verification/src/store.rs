use vstd::prelude::*;
use vstd::string::*;
use crate::codec::{Data, DataView};
use crate::errors::BridgeError;
use crate::hive::Hive;
use crate::strseq::{split_sep, split_string};

verus! {

// ---------------------------------------------------------------------
// Paths
// ---------------------------------------------------------------------

/// The segments a path string denotes, if it is well-formed: split on
/// the backslash separator, with no segment empty. A leading, trailing
/// or doubled separator, or an empty path, is malformed.
pub open spec fn spec_parse_path(s: Seq<char>) -> Option<Seq<Seq<char>>> {
    let segs = split_sep(s, '\\');
    if forall|i: int| 0 <= i < segs.len() ==> segs[i].len() > 0 {
        Some(segs)
    } else {
        None
    }
}

/// Splits a path string into segments, rejecting empty-segment
/// ambiguity.
pub fn parse_path(s: &str) -> (r: Result<Vec<String>, BridgeError>)
    ensures
        match spec_parse_path(s@) {
            Some(segs) => r matches Ok(v) && v.deep_view() == segs,
            None => r matches Err(e) && e == BridgeError::InvalidPath,
        },
{
    let parts = split_string(s, '\\');
    let mut i: usize = 0;
    while i < parts.len()
        invariant
            parts.deep_view() == split_sep(s@, '\\'),
            i <= parts@.len(),
            forall|j: int| 0 <= j < i ==> parts.deep_view()[j].len() > 0,
        decreases parts@.len() - i,
    {
        if parts[i].as_str().unicode_len() == 0 {
            proof {
                assert(parts.deep_view()[i as int].len() == 0);
            }
            return Err(BridgeError::InvalidPath);
        }
        i += 1;
    }
    Ok(parts)
}

// ---------------------------------------------------------------------
// The model: a map from key identity to the key's name-to-value map
// ---------------------------------------------------------------------

/// A resolved reference to one key: its hive and its path segments.
#[derive(Debug)]
pub struct KeyHandle {
    pub hive: Hive,
    pub path: Vec<String>,
}

impl KeyHandle {
    /// The identity of the key this handle refers to.
    pub open spec fn id(&self) -> (Hive, Seq<Seq<char>>) {
        (self.hive, self.path.deep_view())
    }
}

/// One live key: its hive, its path segments, and its named values.
struct KeyEntry {
    hive: Hive,
    path: Vec<String>,
    values: Vec<(String, Data)>,
}

/// The identity of a stored key.
spec fn key_id(e: KeyEntry) -> (Hive, Seq<Seq<char>>) {
    (e.hive, e.path.deep_view())
}

/// The name-to-value map a list of named values denotes; with distinct
/// names, the only case the store keeps, the order does not matter.
spec fn values_map(vs: Seq<(Seq<char>, DataView)>) -> Map<Seq<char>, DataView>
    decreases vs.len(),
{
    if vs.len() == 0 {
        Map::empty()
    } else {
        values_map(vs.skip(1)).insert(vs[0].0, vs[0].1)
    }
}

/// No two entries of the list share a name.
pub open spec fn distinct_names(vs: Seq<(Seq<char>, DataView)>) -> bool {
    forall|i: int, j: int| 0 <= i < j < vs.len() ==> vs[i].0 != vs[j].0
}

/// No entry holds the `Other` variant, which has no wire form.
spec fn no_other_values(vs: Seq<(Seq<char>, DataView)>) -> bool {
    forall|i: int| 0 <= i < vs.len() ==> !((#[trigger] vs[i]).1 is Other)
}

/// The map a stored key's value list denotes.
spec fn entry_vm(e: KeyEntry) -> Map<Seq<char>, DataView> {
    values_map(e.values.deep_view())
}

/// The whole store a list of keys denotes.
spec fn keys_view(s: Seq<KeyEntry>) -> Map<(Hive, Seq<Seq<char>>), Map<Seq<char>, DataView>>
    decreases s.len(),
{
    if s.len() == 0 {
        Map::empty()
    } else {
        keys_view(s.skip(1)).insert(key_id(s[0]), entry_vm(s[0]))
    }
}

/// No two stored keys share an identity.
spec fn distinct_ids(s: Seq<KeyEntry>) -> bool {
    forall|i: int, j: int| 0 <= i < j < s.len() ==> key_id(s[i]) != key_id(s[j])
}

// ---------------------------------------------------------------------
// Algebra of the value-list map
// ---------------------------------------------------------------------

/// A name is in the map exactly when some entry bears it.
proof fn lemma_vm_contains(vs: Seq<(Seq<char>, DataView)>, n: Seq<char>)
    ensures
        values_map(vs).contains_key(n) <==> exists|i: int| 0 <= i < vs.len() && vs[i].0 == n,
    decreases vs.len(),
{
    if vs.len() != 0 {
        lemma_vm_contains(vs.skip(1), n);
        if values_map(vs).contains_key(n) {
            if vs[0].0 == n {
                assert(0 <= 0 < vs.len() && vs[0].0 == n);
            } else {
                let i = choose|i: int| 0 <= i < vs.skip(1).len() && vs.skip(1)[i].0 == n;
                assert(vs[i + 1].0 == n);
            }
        }
        if exists|i: int| 0 <= i < vs.len() && vs[i].0 == n {
            let i = choose|i: int| 0 <= i < vs.len() && vs[i].0 == n;
            if i > 0 {
                assert(vs.skip(1)[i - 1].0 == n);
            }
        }
    }
}

/// With distinct names, the map sends each entry's name to its value.
proof fn lemma_vm_at(vs: Seq<(Seq<char>, DataView)>, i: int)
    requires
        distinct_names(vs),
        0 <= i < vs.len(),
    ensures
        values_map(vs).contains_key(vs[i].0),
        values_map(vs)[vs[i].0] == vs[i].1,
    decreases vs.len(),
{
    if i == 0 {
    } else {
        assert(distinct_names(vs.skip(1))) by {
            assert forall|a: int, b: int| 0 <= a < b < vs.skip(1).len() implies vs.skip(1)[a].0
                != vs.skip(1)[b].0 by {
                assert(vs[a + 1].0 != vs[b + 1].0);
            }
        }
        lemma_vm_at(vs.skip(1), i - 1);
        assert(vs.skip(1)[i - 1] == vs[i]);
        assert(vs[0].0 != vs[i].0);
    }
}

/// Appending a fresh name inserts it into the map.
proof fn lemma_vm_push(vs: Seq<(Seq<char>, DataView)>, n: Seq<char>, d: DataView)
    requires
        forall|i: int| 0 <= i < vs.len() ==> (#[trigger] vs[i]).0 != n,
    ensures
        values_map(vs.push((n, d))) =~= values_map(vs).insert(n, d),
    decreases vs.len(),
{
    if vs.len() == 0 {
        let w = vs.push((n, d));
        assert(w[0] == (n, d));
        assert(w.skip(1) =~= Seq::<(Seq<char>, DataView)>::empty());
        assert(values_map(w) == values_map(w.skip(1)).insert(w[0].0, w[0].1));
        assert(values_map(w.skip(1)) =~= Map::<Seq<char>, DataView>::empty());
        assert(values_map(vs) =~= Map::<Seq<char>, DataView>::empty());
    } else {
        assert forall|i: int| 0 <= i < vs.skip(1).len() implies (#[trigger] vs.skip(1)[i]).0
            != n by {
            assert(vs.skip(1)[i] == vs[i + 1]);
        }
        lemma_vm_push(vs.skip(1), n, d);
        assert(vs.push((n, d)).skip(1) =~= vs.skip(1).push((n, d)));
        assert(vs[0].0 != n);
        assert(vs.push((n, d))[0] == vs[0]);
        assert(values_map(vs.push((n, d))) == values_map(vs.skip(1)).insert(n, d).insert(
            vs[0].0,
            vs[0].1,
        ));
        assert(values_map(vs) == values_map(vs.skip(1)).insert(vs[0].0, vs[0].1));
        assert(values_map(vs.skip(1)).insert(n, d).insert(vs[0].0, vs[0].1)
            =~= values_map(vs.skip(1)).insert(vs[0].0, vs[0].1).insert(n, d));
    }
}

/// With distinct names, dropping an entry removes its name from the map.
proof fn lemma_vm_remove(vs: Seq<(Seq<char>, DataView)>, i: int)
    requires
        distinct_names(vs),
        0 <= i < vs.len(),
    ensures
        values_map(vs.remove(i)) =~= values_map(vs).remove(vs[i].0),
    decreases vs.len(),
{
    if i == 0 {
        assert(vs.remove(0) =~= vs.skip(1));
        lemma_vm_contains(vs.skip(1), vs[0].0);
        assert(forall|j: int|
            0 <= j < vs.skip(1).len() ==> (#[trigger] vs.skip(1)[j]) == vs[j + 1]);
        assert(!values_map(vs.skip(1)).contains_key(vs[0].0));
    } else {
        assert(distinct_names(vs.skip(1))) by {
            assert forall|a: int, b: int| 0 <= a < b < vs.skip(1).len() implies vs.skip(1)[a].0
                != vs.skip(1)[b].0 by {
                assert(vs[a + 1].0 != vs[b + 1].0);
            }
        }
        lemma_vm_remove(vs.skip(1), i - 1);
        assert(vs.remove(i).skip(1) =~= vs.skip(1).remove(i - 1));
        assert(vs.skip(1)[i - 1] == vs[i]);
        assert(vs[0].0 != vs[i].0);
    }
}

// ---------------------------------------------------------------------
// Algebra of the key-list map
// ---------------------------------------------------------------------

/// An identity is in the store exactly when some key bears it.
proof fn lemma_kv_contains(s: Seq<KeyEntry>, id: (Hive, Seq<Seq<char>>))
    ensures
        keys_view(s).contains_key(id) <==> exists|i: int| 0 <= i < s.len() && key_id(s[i]) == id,
    decreases s.len(),
{
    if s.len() != 0 {
        lemma_kv_contains(s.skip(1), id);
        if keys_view(s).contains_key(id) {
            if key_id(s[0]) == id {
                assert(0 <= 0 < s.len() && key_id(s[0]) == id);
            } else {
                let i = choose|i: int| 0 <= i < s.skip(1).len() && key_id(s.skip(1)[i]) == id;
                assert(key_id(s[i + 1]) == id);
            }
        }
        if exists|i: int| 0 <= i < s.len() && key_id(s[i]) == id {
            let i = choose|i: int| 0 <= i < s.len() && key_id(s[i]) == id;
            if i > 0 {
                assert(key_id(s.skip(1)[i - 1]) == id);
            }
        }
    }
}

/// With distinct identities, the store sends each key to its value map.
proof fn lemma_kv_at(s: Seq<KeyEntry>, i: int)
    requires
        distinct_ids(s),
        0 <= i < s.len(),
    ensures
        keys_view(s).contains_key(key_id(s[i])),
        keys_view(s)[key_id(s[i])] == entry_vm(s[i]),
    decreases s.len(),
{
    if i == 0 {
    } else {
        assert(distinct_ids(s.skip(1))) by {
            assert forall|a: int, b: int| 0 <= a < b < s.skip(1).len() implies key_id(s.skip(1)[a])
                != key_id(s.skip(1)[b]) by {
                assert(key_id(s[a + 1]) != key_id(s[b + 1]));
            }
        }
        lemma_kv_at(s.skip(1), i - 1);
        assert(s.skip(1)[i - 1] == s[i]);
        assert(key_id(s[0]) != key_id(s[i]));
    }
}

/// Appending a key of fresh identity inserts it into the store.
proof fn lemma_kv_push(s: Seq<KeyEntry>, e: KeyEntry)
    requires
        forall|i: int| 0 <= i < s.len() ==> key_id(#[trigger] s[i]) != key_id(e),
    ensures
        keys_view(s.push(e)) =~= keys_view(s).insert(key_id(e), entry_vm(e)),
    decreases s.len(),
{
    if s.len() == 0 {
        let w = s.push(e);
        assert(w[0] == e);
        assert(w.skip(1) =~= Seq::<KeyEntry>::empty());
        assert(keys_view(w) == keys_view(w.skip(1)).insert(key_id(w[0]), entry_vm(w[0])));
        assert(keys_view(w.skip(1)) =~= Map::<(Hive, Seq<Seq<char>>), Map<Seq<char>, DataView>>::empty());
        assert(keys_view(s) =~= Map::<(Hive, Seq<Seq<char>>), Map<Seq<char>, DataView>>::empty());
    } else {
        assert forall|i: int| 0 <= i < s.skip(1).len() implies key_id(#[trigger] s.skip(1)[i])
            != key_id(e) by {
            assert(s.skip(1)[i] == s[i + 1]);
        }
        lemma_kv_push(s.skip(1), e);
        assert(s.push(e).skip(1) =~= s.skip(1).push(e));
        assert(key_id(s[0]) != key_id(e));
        assert(s.push(e)[0] == s[0]);
        assert(keys_view(s.push(e)) == keys_view(s.skip(1)).insert(key_id(e), entry_vm(e)).insert(
            key_id(s[0]),
            entry_vm(s[0]),
        ));
        assert(keys_view(s) == keys_view(s.skip(1)).insert(key_id(s[0]), entry_vm(s[0])));
        assert(keys_view(s.skip(1)).insert(key_id(e), entry_vm(e)).insert(
            key_id(s[0]),
            entry_vm(s[0]),
        ) =~= keys_view(s.skip(1)).insert(key_id(s[0]), entry_vm(s[0])).insert(
            key_id(e),
            entry_vm(e),
        ));
    }
}

/// Whether a key identity lies in the subtree rooted at `path` under
/// `hive` (the key itself included).
pub open spec fn is_under(id: (Hive, Seq<Seq<char>>), hive: Hive, path: Seq<Seq<char>>) -> bool {
    id.0 == hive && path.len() <= id.1.len() && id.1.take(path.len() as int) == path
}

/// The store after creating the key at `path` under `hive`: every
/// ancestor prefix that was missing is added with no values, and every
/// key that existed keeps its values.
pub open spec fn spec_create(
    m: Map<(Hive, Seq<Seq<char>>), Map<Seq<char>, DataView>>,
    hive: Hive,
    path: Seq<Seq<char>>,
) -> Map<(Hive, Seq<Seq<char>>), Map<Seq<char>, DataView>>
    decreases path.len(),
{
    if path.len() == 0 {
        m
    } else {
        let m2 = spec_create(m, hive, path.drop_last());
        if m2.contains_key((hive, path)) {
            m2
        } else {
            m2.insert((hive, path), Map::empty())
        }
    }
}

/// The store after deleting the key at `path` under `hive` together
/// with its whole subtree; every other key keeps its values.
pub open spec fn spec_delete(
    m: Map<(Hive, Seq<Seq<char>>), Map<Seq<char>, DataView>>,
    hive: Hive,
    path: Seq<Seq<char>>,
) -> Map<(Hive, Seq<Seq<char>>), Map<Seq<char>, DataView>> {
    Map::new(
        |id: (Hive, Seq<Seq<char>>)| m.contains_key(id) && !is_under(id, hive, path),
        |id: (Hive, Seq<Seq<char>>)| m[id],
    )
}

/// The key list with every key under `path` dropped.
spec fn drop_under(s: Seq<KeyEntry>, hive: Hive, path: Seq<Seq<char>>) -> Seq<KeyEntry>
    decreases s.len(),
{
    if s.len() == 0 {
        s
    } else {
        let rest = drop_under(s.skip(1), hive, path);
        if is_under(key_id(s[0]), hive, path) {
            rest
        } else {
            seq![s[0]] + rest
        }
    }
}

/// Distinct identities survive dropping later entries.
proof fn lemma_distinct_ids_skip(s: Seq<KeyEntry>)
    requires
        s.len() >= 1,
        distinct_ids(s),
    ensures
        distinct_ids(s.skip(1)),
{
    assert forall|a: int, b: int| 0 <= a < b < s.skip(1).len() implies key_id(s.skip(1)[a])
        != key_id(s.skip(1)[b]) by {
        assert(key_id(s[a + 1]) != key_id(s[b + 1]));
    }
}

/// Dropping a subtree turns the denoted store into its restriction to
/// the keys outside that subtree, keeps identities distinct, and keeps
/// only entries of the given list.
proof fn lemma_drop_under_view(s: Seq<KeyEntry>, hive: Hive, path: Seq<Seq<char>>)
    requires
        distinct_ids(s),
    ensures
        keys_view(drop_under(s, hive, path)) =~= spec_delete(keys_view(s), hive, path),
        distinct_ids(drop_under(s, hive, path)),
        forall|j: int|
            0 <= j < drop_under(s, hive, path).len() ==> s.contains(
                #[trigger] drop_under(s, hive, path)[j],
            ),
    decreases s.len(),
{
    let r = drop_under(s, hive, path);
    if s.len() == 0 {
        assert(keys_view(r) =~= spec_delete(keys_view(s), hive, path));
    } else {
        lemma_distinct_ids_skip(s);
        lemma_drop_under_view(s.skip(1), hive, path);
        let rest = drop_under(s.skip(1), hive, path);
        lemma_kv_contains(s.skip(1), key_id(s[0]));
        assert(forall|j: int| 0 <= j < s.skip(1).len() ==> (#[trigger] s.skip(1)[j]) == s[j + 1]);
        assert(!keys_view(s.skip(1)).contains_key(key_id(s[0])));
        assert(keys_view(s) == keys_view(s.skip(1)).insert(key_id(s[0]), entry_vm(s[0])));
        assert forall|j: int| 0 <= j < rest.len() implies s.contains(#[trigger] rest[j]) by {
            assert(s.skip(1).contains(rest[j]));
            let i = choose|i: int| 0 <= i < s.skip(1).len() && s.skip(1)[i] == rest[j];
            assert(s[i + 1] == rest[j]);
        }
        if is_under(key_id(s[0]), hive, path) {
            assert(r == rest);
            assert(keys_view(r) =~= spec_delete(keys_view(s), hive, path));
        } else {
            assert(r == seq![s[0]] + rest);
            assert(r[0] == s[0]);
            assert(r.skip(1) =~= rest);
            assert(keys_view(r) == keys_view(rest).insert(key_id(s[0]), entry_vm(s[0])));
            assert(keys_view(r) =~= spec_delete(keys_view(s), hive, path));
            assert forall|a: int, b: int| 0 <= a < b < r.len() implies key_id(r[a]) != key_id(
                r[b],
            ) by {
                if a == 0 {
                    assert(s.skip(1).contains(rest[b - 1]));
                    let i = choose|i: int|
                        0 <= i < s.skip(1).len() && s.skip(1)[i] == rest[b - 1];
                    assert(key_id(s[0]) != key_id(s[i + 1]));
                } else {
                    assert(key_id(rest[a - 1]) != key_id(rest[b - 1]));
                }
            }
        }
    }
}

/// With distinct identities, dropping a key removes it from the store.
proof fn lemma_kv_remove(s: Seq<KeyEntry>, i: int)
    requires
        distinct_ids(s),
        0 <= i < s.len(),
    ensures
        keys_view(s.remove(i)) =~= keys_view(s).remove(key_id(s[i])),
    decreases s.len(),
{
    if i == 0 {
        assert(s.remove(0) =~= s.skip(1));
        lemma_kv_contains(s.skip(1), key_id(s[0]));
        assert(forall|j: int| 0 <= j < s.skip(1).len() ==> (#[trigger] s.skip(1)[j]) == s[j + 1]);
        assert(!keys_view(s.skip(1)).contains_key(key_id(s[0])));
    } else {
        assert(distinct_ids(s.skip(1))) by {
            assert forall|a: int, b: int| 0 <= a < b < s.skip(1).len() implies key_id(s.skip(1)[a])
                != key_id(s.skip(1)[b]) by {
                assert(key_id(s[a + 1]) != key_id(s[b + 1]));
            }
        }
        lemma_kv_remove(s.skip(1), i - 1);
        assert(s.remove(i).skip(1) =~= s.skip(1).remove(i - 1));
        assert(s.skip(1)[i - 1] == s[i]);
        assert(key_id(s[0]) != key_id(s[i]));
    }
}


// ---------------------------------------------------------------------
// Executable helpers
// ---------------------------------------------------------------------

/// Clones a list of strings.
fn clone_strings(v: &Vec<String>) -> (r: Vec<String>)
    ensures
        r.deep_view() == v.deep_view(),
{
    let mut r: Vec<String> = Vec::new();
    let mut i: usize = 0;
    while i < v.len()
        invariant
            i <= v@.len(),
            r.deep_view() =~~= v.deep_view().take(i as int),
        decreases v@.len() - i,
    {
        let ghost old_dv = r.deep_view();
        r.push(v[i].clone());
        proof {
            assert(r.deep_view() =~~= old_dv.push(v.deep_view()[i as int]));
            assert(r.deep_view() =~~= v.deep_view().take(i as int + 1));
        }
        i += 1;
    }
    proof {
        assert(v.deep_view().take(v.deep_view().len() as int) =~~= v.deep_view());
    }
    r
}

/// True exactly when two path vectors hold the same segments.
fn path_eq(a: &Vec<String>, b: &Vec<String>) -> (r: bool)
    ensures
        r == (a.deep_view() == b.deep_view()),
{
    if a.len() != b.len() {
        proof {
            assert(a.deep_view().len() == a@.len());
            assert(b.deep_view().len() == b@.len());
        }
        return false;
    }
    let mut i: usize = 0;
    while i < a.len()
        invariant
            a@.len() == b@.len(),
            i <= a@.len(),
            forall|j: int| 0 <= j < i ==> a.deep_view()[j] == b.deep_view()[j],
        decreases a@.len() - i,
    {
        if !crate::strseq::str_equal(a[i].as_str(), b[i].as_str()) {
            proof {
                assert(a.deep_view()[i as int] == a@[i as int]@);
                assert(b.deep_view()[i as int] == b@[i as int]@);
            }
            return false;
        }
        i += 1;
    }
    proof {
        assert(a.deep_view() =~= b.deep_view());
    }
    true
}

/// True exactly when the stored key lies in the subtree at `path`.
fn entry_under(e: &KeyEntry, hive: Hive, path: &Vec<String>) -> (r: bool)
    ensures
        r == is_under(key_id(*e), hive, path.deep_view()),
{
    if !(e.hive == hive) {
        return false;
    }
    let n = path.len();
    if n > e.path.len() {
        return false;
    }
    let mut i: usize = 0;
    while i < n
        invariant
            n == path@.len(),
            n <= e.path@.len(),
            i <= n,
            forall|j: int| 0 <= j < i ==> e.path.deep_view()[j] == path.deep_view()[j],
        decreases n - i,
    {
        if !crate::strseq::str_equal(e.path[i].as_str(), path[i].as_str()) {
            proof {
                assert(e.path.deep_view().take(n as int)[i as int] != path.deep_view()[i as int]);
            }
            return false;
        }
        i += 1;
    }
    proof {
        assert(e.path.deep_view().take(n as int) =~= path.deep_view());
    }
    true
}

/// Finds the position of a name in a value list.
fn find_value(values: &Vec<(String, Data)>, name: &str) -> (r: Option<usize>)
    ensures
        match r {
            Some(i) => i < values@.len() && values.deep_view()[i as int].0 == name@,
            None => forall|i: int|
                0 <= i < values@.len() ==> (#[trigger] values.deep_view()[i]).0 != name@,
        },
{
    let mut i: usize = 0;
    while i < values.len()
        invariant
            i <= values@.len(),
            forall|j: int| 0 <= j < i ==> (#[trigger] values.deep_view()[j]).0 != name@,
        decreases values@.len() - i,
    {
        if crate::strseq::str_equal(values[i].0.as_str(), name) {
            return Some(i);
        }
        i += 1;
    }
    None
}

// ---------------------------------------------------------------------
// The store
// ---------------------------------------------------------------------

/// In-memory model of the registry: a set of keys, each owning a
/// mapping from value name to typed value. Keys are identified by hive
/// and path; deleting a key deletes its whole subtree.
pub struct RegistryStore {
    keys: Vec<KeyEntry>,
}

impl View for RegistryStore {
    type V = Map<(Hive, Seq<Seq<char>>), Map<Seq<char>, DataView>>;

    closed spec fn view(&self) -> Self::V {
        keys_view(self.keys@)
    }
}

impl RegistryStore {
    /// The store's internal well-formedness: key identities are
    /// distinct, paths are nonempty, and each key's value names are
    /// distinct with no `Other` value stored.
    pub closed spec fn wf(&self) -> bool {
        keys_wf(self.keys@)
    }

    /// An empty store with no keys.
    pub fn new() -> (r: RegistryStore)
        ensures
            r.wf(),
            r@ =~= Map::<(Hive, Seq<Seq<char>>), Map<Seq<char>, DataView>>::empty(),
    {
        RegistryStore { keys: Vec::new() }
    }

    /// Finds the position of a key by identity.
    fn find_key(&self, hive: Hive, path: &Vec<String>) -> (r: Option<usize>)
        ensures
            match r {
                Some(i) => i < self.keys@.len() && key_id(self.keys@[i as int]) == (
                    hive,
                    path.deep_view(),
                ),
                None => forall|i: int|
                    0 <= i < self.keys@.len() ==> key_id(#[trigger] self.keys@[i]) != (
                        hive,
                        path.deep_view(),
                    ),
            },
    {
        let mut i: usize = 0;
        while i < self.keys.len()
            invariant
                i <= self.keys@.len(),
                forall|j: int|
                    0 <= j < i ==> key_id(#[trigger] self.keys@[j]) != (hive, path.deep_view()),
            decreases self.keys@.len() - i,
        {
            if self.keys[i].hive == hive && path_eq(&self.keys[i].path, path) {
                return Some(i);
            }
            i += 1;
        }
        None
    }
}

/// All well-formedness of the key list in one place.
spec fn keys_wf(s: Seq<KeyEntry>) -> bool {
    &&& distinct_ids(s)
    &&& forall|i: int| 0 <= i < s.len() ==> (#[trigger] s[i]).path@.len() >= 1
    &&& forall|i: int| 0 <= i < s.len() ==> distinct_names((#[trigger] s[i]).values.deep_view())
    &&& forall|i: int| 0 <= i < s.len() ==> no_other_values((#[trigger] s[i]).values.deep_view())
}

/// Removing a key keeps the list well-formed.
proof fn lemma_keys_wf_remove(s: Seq<KeyEntry>, i: int)
    requires
        keys_wf(s),
        0 <= i < s.len(),
    ensures
        keys_wf(s.remove(i)),
{
    let r = s.remove(i);
    assert forall|a: int, b: int| 0 <= a < b < r.len() implies key_id(r[a]) != key_id(r[b]) by {
        let a2: int = if a < i { a } else { a + 1 };
        let b2: int = if b < i { b } else { b + 1 };
        assert(r[a] == s[a2]);
        assert(r[b] == s[b2]);
        assert(key_id(s[a2]) != key_id(s[b2]));
    }
    assert forall|j: int| 0 <= j < r.len() implies ((#[trigger] r[j]).path@.len() >= 1
        && distinct_names(r[j].values.deep_view()) && no_other_values(r[j].values.deep_view())) by {
        let j2: int = if j < i { j } else { j + 1 };
        assert(r[j] == s[j2]);
        assert(s[j2].path@.len() >= 1);
        assert(distinct_names(s[j2].values.deep_view()));
        assert(no_other_values(s[j2].values.deep_view()));
    }
}

/// Appending a well-formed key of fresh identity keeps the list
/// well-formed.
proof fn lemma_keys_wf_push(s: Seq<KeyEntry>, e: KeyEntry)
    requires
        keys_wf(s),
        forall|i: int| 0 <= i < s.len() ==> key_id(#[trigger] s[i]) != key_id(e),
        e.path@.len() >= 1,
        distinct_names(e.values.deep_view()),
        no_other_values(e.values.deep_view()),
    ensures
        keys_wf(s.push(e)),
{
    let r = s.push(e);
    assert forall|a: int, b: int| 0 <= a < b < r.len() implies key_id(r[a]) != key_id(r[b]) by {
        if b == s.len() {
            assert(r[a] == s[a]);
            assert(r[b] == e);
        } else {
            assert(r[a] == s[a]);
            assert(r[b] == s[b]);
        }
    }
    assert forall|j: int| 0 <= j < r.len() implies ((#[trigger] r[j]).path@.len() >= 1
        && distinct_names(r[j].values.deep_view()) && no_other_values(r[j].values.deep_view())) by {
        if j == s.len() {
            assert(r[j] == e);
        } else {
            assert(r[j] == s[j]);
        }
    }
}

/// Removing an entry keeps a value list well-formed.
proof fn lemma_values_wf_remove(vs: Seq<(Seq<char>, DataView)>, j: int)
    requires
        distinct_names(vs),
        no_other_values(vs),
        0 <= j < vs.len(),
    ensures
        distinct_names(vs.remove(j)),
        no_other_values(vs.remove(j)),
        forall|t: int|
            0 <= t < vs.remove(j).len() ==> (#[trigger] vs.remove(j)[t]).0 != vs[j].0,
{
    let r = vs.remove(j);
    assert forall|a: int, b: int| 0 <= a < b < r.len() implies r[a].0 != r[b].0 by {
        let a2: int = if a < j { a } else { a + 1 };
        let b2: int = if b < j { b } else { b + 1 };
        assert(r[a] == vs[a2]);
        assert(r[b] == vs[b2]);
        assert(vs[a2].0 != vs[b2].0);
    }
    assert forall|t: int| 0 <= t < r.len() implies (!((#[trigger] r[t]).1 is Other) && r[t].0
        != vs[j].0) by {
        let t2: int = if t < j { t } else { t + 1 };
        assert(r[t] == vs[t2]);
        assert(!(vs[t2].1 is Other));
        assert(vs[t2].0 != vs[j].0);
    }
}

impl RegistryStore {
    /// A stored value is never the `Other` variant.
    pub proof fn lemma_no_other(self, id: (Hive, Seq<Seq<char>>), n: Seq<char>)
        requires
            self.wf(),
            self@.contains_key(id),
            self@[id].contains_key(n),
        ensures
            !(self@[id][n] is Other),
    {
        lemma_kv_contains(self.keys@, id);
        let i = choose|i: int| 0 <= i < self.keys@.len() && key_id(self.keys@[i]) == id;
        lemma_kv_at(self.keys@, i);
        let vs = self.keys@[i].values.deep_view();
        lemma_vm_contains(vs, n);
        let j = choose|j: int| 0 <= j < vs.len() && vs[j].0 == n;
        lemma_vm_at(vs, j);
    }

    /// Creates the key at `path` under `hive`, creating missing
    /// intermediate keys as needed; opening a key that already exists
    /// succeeds and leaves it unchanged.
    pub fn create(&mut self, hive: Hive, path: &str) -> (r: Result<KeyHandle, BridgeError>)
        requires
            old(self).wf(),
        ensures
            final(self).wf(),
            match spec_parse_path(path@) {
                Some(segs) => (r matches Ok(k) && k.id() == (hive, segs)) && final(self)@
                    =~= spec_create(old(self)@, hive, segs),
                None => (r matches Err(e) && e == BridgeError::InvalidPath) && final(self)@
                    == old(self)@,
            },
    {
        let segs = match parse_path(path) {
            Ok(v) => v,
            Err(e) => {
                return Err(e);
            },
        };
        let ghost m0 = self@;
        let ghost sd = segs.deep_view();
        let mut cur: Vec<String> = Vec::new();
        let mut i: usize = 0;
        proof {
            assert(sd.take(0) =~~= Seq::<Seq<char>>::empty());
            assert(cur.deep_view() =~~= sd.take(0));
        }
        while i < segs.len()
            invariant
                self.wf(),
                i <= segs@.len(),
                sd == segs.deep_view(),
                cur.deep_view() =~~= sd.take(i as int),
                cur@.len() == i,
                self@ == spec_create(m0, hive, sd.take(i as int)),
            decreases segs@.len() - i,
        {
            let ghost m_prev = self@;
            cur.push(segs[i].clone());
            proof {
                assert(cur.deep_view() =~~= sd.take(i as int + 1));
                assert(sd.take(i as int + 1).drop_last() =~~= sd.take(i as int));
            }
            match self.find_key(hive, &cur) {
                Some(j) => {
                    proof {
                        assert(key_id(self.keys@[j as int]) == (hive, cur.deep_view()));
                        lemma_kv_contains(self.keys@, (hive, cur.deep_view()));
                        assert(self@.contains_key((hive, sd.take(i as int + 1))));
                        assert(self@ == spec_create(m0, hive, sd.take(i as int + 1)));
                    }
                },
                None => {
                    proof {
                        lemma_kv_contains(self.keys@, (hive, cur.deep_view()));
                        assert(!self@.contains_key((hive, sd.take(i as int + 1))));
                    }
                    let entry = KeyEntry { hive, path: clone_strings(&cur), values: Vec::new() };
                    let ghost pre = self.keys@;
                    proof {
                        assert(key_id(entry) == (hive, cur.deep_view()));
                        assert(entry.values.deep_view()
                            =~~= Seq::<(Seq<char>, DataView)>::empty());
                        assert(entry_vm(entry) =~= Map::<Seq<char>, DataView>::empty());
                    }
                    self.keys.push(entry);
                    proof {
                        assert forall|t: int| 0 <= t < pre.len() implies key_id(
                            #[trigger] pre[t],
                        ) != key_id(entry) by {}
                        lemma_kv_push(pre, entry);
                        assert(self@ =~= m_prev.insert((hive, sd.take(i as int + 1)), Map::<
                            Seq<char>,
                            DataView,
                        >::empty()));
                        assert(self@ == spec_create(m0, hive, sd.take(i as int + 1)));
                        lemma_keys_wf_push(pre, entry);
                    }
                },
            }
            i += 1;
        }
        proof {
            assert(sd.take(sd.len() as int) =~~= sd);
        }
        Ok(KeyHandle { hive, path: segs })
    }

    /// Opens the key at `path` under `hive`; a key that is not present
    /// gives `NotFound`.
    pub fn open(&self, hive: Hive, path: &str) -> (r: Result<KeyHandle, BridgeError>)
        ensures
            match spec_parse_path(path@) {
                Some(segs) => if self@.contains_key((hive, segs)) {
                    r matches Ok(k) && k.id() == (hive, segs)
                } else {
                    r matches Err(e) && e == BridgeError::NotFound
                },
                None => r matches Err(e) && e == BridgeError::InvalidPath,
            },
    {
        let segs = match parse_path(path) {
            Ok(v) => v,
            Err(e) => {
                return Err(e);
            },
        };
        proof {
            lemma_kv_contains(self.keys@, (hive, segs.deep_view()));
        }
        match self.find_key(hive, &segs) {
            Some(j) => {
                proof {
                    assert(key_id(self.keys@[j as int]) == (hive, segs.deep_view()));
                }
                Ok(KeyHandle { hive, path: segs })
            },
            None => Err(BridgeError::NotFound),
        }
    }

    /// Deletes the key at `path` under `hive` and its entire subtree;
    /// irreversible. A key that is not present gives `NotFound`.
    pub fn delete(&mut self, hive: Hive, path: &str) -> (r: Result<(), BridgeError>)
        requires
            old(self).wf(),
        ensures
            final(self).wf(),
            match spec_parse_path(path@) {
                Some(segs) => if old(self)@.contains_key((hive, segs)) {
                    r is Ok && final(self)@ =~= spec_delete(old(self)@, hive, segs)
                } else {
                    (r matches Err(e) && e == BridgeError::NotFound) && final(self)@ == old(
                        self,
                    )@
                },
                None => (r matches Err(e) && e == BridgeError::InvalidPath) && final(self)@
                    == old(self)@,
            },
    {
        let segs = match parse_path(path) {
            Ok(v) => v,
            Err(e) => {
                return Err(e);
            },
        };
        proof {
            lemma_kv_contains(self.keys@, (hive, segs.deep_view()));
        }
        match self.find_key(hive, &segs) {
            None => {
                return Err(BridgeError::NotFound);
            },
            Some(j) => {
                proof {
                    assert(key_id(self.keys@[j as int]) == (hive, segs.deep_view()));
                }
            },
        }
        let ghost orig = self.keys@;
        let ghost sd = segs.deep_view();
        let mut i: usize = self.keys.len();
        proof {
            assert(orig.take(orig.len() as int) =~= orig);
            assert(orig.skip(orig.len() as int) =~= Seq::<KeyEntry>::empty());
            assert(drop_under(orig.skip(orig.len() as int), hive, sd) =~= Seq::<
                KeyEntry,
            >::empty());
            assert(self.keys@ =~= orig.take(i as int) + drop_under(
                orig.skip(i as int),
                hive,
                sd,
            ));
        }
        while i > 0
            invariant
                i <= orig.len(),
                sd == segs.deep_view(),
                self.keys@ =~= orig.take(i as int) + drop_under(orig.skip(i as int), hive, sd),
            decreases i,
        {
            i -= 1;
            let ghost pre = self.keys@;
            let under = entry_under(&self.keys[i], hive, &segs);
            proof {
                assert(pre[i as int] == orig[i as int]);
                assert(orig.skip(i as int)[0] == orig[i as int]);
                assert(orig.skip(i as int).skip(1) =~= orig.skip(i as int + 1));
                assert(drop_under(orig.skip(i as int), hive, sd) == (if is_under(
                    key_id(orig[i as int]),
                    hive,
                    sd,
                ) {
                    drop_under(orig.skip(i as int + 1), hive, sd)
                } else {
                    seq![orig[i as int]] + drop_under(orig.skip(i as int + 1), hive, sd)
                }));
            }
            if under {
                let _removed = self.keys.remove(i);
                proof {
                    assert(self.keys@ =~= orig.take(i as int) + drop_under(
                        orig.skip(i as int),
                        hive,
                        sd,
                    ));
                }
            } else {
                proof {
                    assert(orig.take(i as int + 1) =~= orig.take(i as int).push(orig[i as int]));
                    assert(self.keys@ =~= orig.take(i as int) + drop_under(
                        orig.skip(i as int),
                        hive,
                        sd,
                    ));
                }
            }
        }
        proof {
            assert(orig.take(0) =~= Seq::<KeyEntry>::empty());
            assert(orig.skip(0) =~= orig);
            assert(self.keys@ =~= drop_under(orig, hive, sd));
            lemma_drop_under_view(orig, hive, sd);
            assert forall|j: int| 0 <= j < self.keys@.len() implies ((#[trigger] self.keys@[j]).path@.len()
                >= 1 && distinct_names(self.keys@[j].values.deep_view()) && no_other_values(
                self.keys@[j].values.deep_view(),
            )) by {
                assert(orig.contains(self.keys@[j]));
                let t = choose|t: int| 0 <= t < orig.len() && orig[t] == self.keys@[j];
                assert(orig[t].path@.len() >= 1);
                assert(distinct_names(orig[t].values.deep_view()));
                assert(no_other_values(orig[t].values.deep_view()));
            }
        }
        Ok(())
    }
}


/// Appending a fresh, non-`Other` entry keeps a value list well-formed.
proof fn lemma_values_wf_push(vs: Seq<(Seq<char>, DataView)>, n: Seq<char>, d: DataView)
    requires
        distinct_names(vs),
        no_other_values(vs),
        forall|i: int| 0 <= i < vs.len() ==> (#[trigger] vs[i]).0 != n,
        !(d is Other),
    ensures
        distinct_names(vs.push((n, d))),
        no_other_values(vs.push((n, d))),
{
    let r = vs.push((n, d));
    assert forall|a: int, b: int| 0 <= a < b < r.len() implies r[a].0 != r[b].0 by {
        if b == vs.len() {
            assert(r[a] == vs[a]);
            assert(r[b] == (n, d));
        } else {
            assert(r[a] == vs[a]);
            assert(r[b] == vs[b]);
        }
    }
    assert forall|t: int| 0 <= t < r.len() implies !((#[trigger] r[t]).1 is Other) by {
        if t == vs.len() {
            assert(r[t] == (n, d));
        } else {
            assert(r[t] == vs[t]);
        }
    }
}

/// What a listing of a key's value map is: names pairwise distinct,
/// every listed pair in the map, and every name of the map listed.
pub open spec fn lists_of(m: Map<Seq<char>, DataView>, out: Seq<(Seq<char>, DataView)>) -> bool {
    &&& distinct_names(out)
    &&& forall|j: int|
        0 <= j < out.len() ==> m.contains_key((#[trigger] out[j]).0) && m[out[j].0] == out[j].1
    &&& forall|n: Seq<char>|
        m.contains_key(n) ==> exists|j: int| 0 <= j < out.len() && (#[trigger] out[j]).0 == n
}

impl RegistryStore {
    /// Reads the named value of a key; an absent key or name gives
    /// `NotFound`.
    pub fn read_value(&self, k: &KeyHandle, name: &str) -> (r: Result<Data, BridgeError>)
        requires
            self.wf(),
        ensures
            if self@.contains_key(k.id()) && self@[k.id()].contains_key(name@) {
                r matches Ok(d) && d@ == self@[k.id()][name@]
            } else {
                r matches Err(e) && e == BridgeError::NotFound
            },
    {
        proof {
            lemma_kv_contains(self.keys@, k.id());
        }
        let i = match self.find_key(k.hive, &k.path) {
            None => {
                return Err(BridgeError::NotFound);
            },
            Some(i) => i,
        };
        let ghost vs0 = self.keys@[i as int].values.deep_view();
        proof {
            assert(key_id(self.keys@[i as int]) == k.id());
            lemma_kv_at(self.keys@, i as int);
            lemma_vm_contains(vs0, name@);
        }
        let j = match find_value(&self.keys[i].values, name) {
            None => {
                return Err(BridgeError::NotFound);
            },
            Some(j) => j,
        };
        proof {
            lemma_vm_at(vs0, j as int);
        }
        Ok(self.keys[i].values[j].1.duplicate())
    }

    /// Writes the named value of a key, overwriting any previous value
    /// of that name. The `Other` variant has no wire form and is
    /// rejected; an absent key gives `NotFound`.
    pub fn write_value(&mut self, k: &KeyHandle, name: &str, data: Data) -> (r: Result<
        (),
        BridgeError,
    >)
        requires
            old(self).wf(),
        ensures
            final(self).wf(),
            if data@ is Other {
                (r matches Err(e) && e == BridgeError::Rejected) && final(self)@ == old(self)@
            } else if old(self)@.contains_key(k.id()) {
                r is Ok && final(self)@ =~= old(self)@.insert(
                    k.id(),
                    old(self)@[k.id()].insert(name@, data@),
                )
            } else {
                (r matches Err(e) && e == BridgeError::NotFound) && final(self)@ == old(self)@
            },
    {
        match &data {
            Data::Other => {
                return Err(BridgeError::Rejected);
            },
            _ => {},
        }
        proof {
            lemma_kv_contains(self.keys@, k.id());
        }
        let i = match self.find_key(k.hive, &k.path) {
            None => {
                return Err(BridgeError::NotFound);
            },
            Some(i) => i,
        };
        let ghost s0 = self.keys@;
        let ghost vs0 = s0[i as int].values.deep_view();
        proof {
            assert(key_id(s0[i as int]) == k.id());
            lemma_kv_at(s0, i as int);
            lemma_kv_remove(s0, i as int);
            lemma_keys_wf_remove(s0, i as int);
        }
        let mut entry = self.keys.remove(i);
        match find_value(&entry.values, name) {
            Some(j) => {
                proof {
                    assert(vs0[j as int].0 == name@);
                    lemma_vm_remove(vs0, j as int);
                    lemma_values_wf_remove(vs0, j as int);
                }
                let _dropped = entry.values.remove(j);
                proof {
                    assert(entry.values.deep_view() =~~= vs0.remove(j as int));
                }
            },
            None => {
                proof {
                    lemma_vm_contains(vs0, name@);
                    assert(values_map(vs0).remove(name@) =~= values_map(vs0));
                }
            },
        }
        let ghost vs1 = entry.values.deep_view();
        proof {
            assert(values_map(vs1) =~= values_map(vs0).remove(name@));
            assert(forall|t: int| 0 <= t < vs1.len() ==> (#[trigger] vs1[t]).0 != name@);
        }
        entry.values.push((name.to_owned(), data));
        proof {
            assert(entry.values.deep_view() =~~= vs1.push((name@, data@)));
            lemma_vm_push(vs1, name@, data@);
            lemma_values_wf_push(vs1, name@, data@);
        }
        let ghost s1 = self.keys@;
        let ghost ge = entry;
        self.keys.push(entry);
        proof {
            assert(key_id(ge) == k.id());
            assert forall|t: int| 0 <= t < s1.len() implies key_id(#[trigger] s1[t]) != key_id(
                ge,
            ) by {
                let t2: int = if t < i as int {
                    t
                } else {
                    t + 1
                };
                assert(s1[t] == s0[t2]);
                assert(key_id(s0[t2]) != key_id(s0[i as int]));
            }
            lemma_kv_push(s1, ge);
            lemma_keys_wf_push(s1, ge);
            assert(entry_vm(ge) =~= old(self)@[k.id()].remove(name@).insert(name@, data@));
            assert(old(self)@[k.id()].remove(name@).insert(name@, data@) =~= old(self)@[
                k.id()
            ].insert(name@, data@));
            assert(self@ =~= old(self)@.insert(k.id(), old(self)@[k.id()].insert(name@, data@)));
        }
        Ok(())
    }

    /// Deletes the named value of a key; an absent key or name gives
    /// `NotFound`.
    pub fn delete_value(&mut self, k: &KeyHandle, name: &str) -> (r: Result<(), BridgeError>)
        requires
            old(self).wf(),
        ensures
            final(self).wf(),
            if old(self)@.contains_key(k.id()) && old(self)@[k.id()].contains_key(name@) {
                r is Ok && final(self)@ =~= old(self)@.insert(
                    k.id(),
                    old(self)@[k.id()].remove(name@),
                )
            } else {
                (r matches Err(e) && e == BridgeError::NotFound) && final(self)@ == old(self)@
            },
    {
        proof {
            lemma_kv_contains(self.keys@, k.id());
        }
        let i = match self.find_key(k.hive, &k.path) {
            None => {
                return Err(BridgeError::NotFound);
            },
            Some(i) => i,
        };
        let ghost s0 = self.keys@;
        let ghost vs0 = s0[i as int].values.deep_view();
        proof {
            assert(key_id(s0[i as int]) == k.id());
            lemma_kv_at(s0, i as int);
            lemma_vm_contains(vs0, name@);
        }
        let j = match find_value(&self.keys[i].values, name) {
            None => {
                return Err(BridgeError::NotFound);
            },
            Some(j) => j,
        };
        proof {
            lemma_kv_remove(s0, i as int);
            lemma_keys_wf_remove(s0, i as int);
            lemma_vm_remove(vs0, j as int);
            lemma_values_wf_remove(vs0, j as int);
        }
        let mut entry = self.keys.remove(i);
        let _dropped = entry.values.remove(j);
        proof {
            assert(vs0[j as int].0 == name@);
            assert(entry.values.deep_view() =~~= vs0.remove(j as int));
        }
        let ghost s1 = self.keys@;
        let ghost ge = entry;
        self.keys.push(entry);
        proof {
            assert(key_id(ge) == k.id());
            assert forall|t: int| 0 <= t < s1.len() implies key_id(#[trigger] s1[t]) != key_id(
                ge,
            ) by {
                let t2: int = if t < i as int {
                    t
                } else {
                    t + 1
                };
                assert(s1[t] == s0[t2]);
                assert(key_id(s0[t2]) != key_id(s0[i as int]));
            }
            lemma_kv_push(s1, ge);
            lemma_keys_wf_push(s1, ge);
            assert(entry_vm(ge) =~= old(self)@[k.id()].remove(name@));
            assert(self@ =~= old(self)@.insert(k.id(), old(self)@[k.id()].remove(name@)));
        }
        Ok(())
    }

    /// Renames a value by reading it, deleting the old name and
    /// recreating it under the new name, as three separate steps; the
    /// rename is not atomic.
    pub fn rename_value(&mut self, k: &KeyHandle, old_name: &str, new_name: &str) -> (r: Result<
        (),
        BridgeError,
    >)
        requires
            old(self).wf(),
        ensures
            final(self).wf(),
            if old(self)@.contains_key(k.id()) && old(self)@[k.id()].contains_key(old_name@) {
                r is Ok && final(self)@ =~= old(self)@.insert(
                    k.id(),
                    old(self)@[k.id()].remove(old_name@).insert(
                        new_name@,
                        old(self)@[k.id()][old_name@],
                    ),
                )
            } else {
                (r matches Err(e) && e == BridgeError::NotFound) && final(self)@ == old(self)@
            },
    {
        let v = match self.read_value(k, old_name) {
            Err(_) => {
                return Err(BridgeError::NotFound);
            },
            Ok(v) => v,
        };
        proof {
            self.lemma_no_other(k.id(), old_name@);
        }
        match self.delete_value(k, old_name) {
            Err(_) => {
                return Err(BridgeError::NotFound);
            },
            Ok(()) => {},
        }
        match self.write_value(k, new_name, v) {
            Err(_) => {
                return Err(BridgeError::NotFound);
            },
            Ok(()) => {},
        }
        proof {
            assert(self@ =~= old(self)@.insert(
                k.id(),
                old(self)@[k.id()].remove(old_name@).insert(
                    new_name@,
                    old(self)@[k.id()][old_name@],
                ),
            ));
        }
        Ok(())
    }

    /// Lists every named value of a key, each name exactly once; the
    /// order is the store's own and callers must not rely on it.
    pub fn list_values(&self, k: &KeyHandle) -> (r: Result<Vec<(String, Data)>, BridgeError>)
        requires
            self.wf(),
        ensures
            match r {
                Ok(out) => self@.contains_key(k.id()) && lists_of(self@[k.id()], out.deep_view()),
                Err(e) => e == BridgeError::NotFound && !self@.contains_key(k.id()),
            },
    {
        proof {
            lemma_kv_contains(self.keys@, k.id());
        }
        let i = match self.find_key(k.hive, &k.path) {
            None => {
                return Err(BridgeError::NotFound);
            },
            Some(i) => i,
        };
        let ghost vs0 = self.keys@[i as int].values.deep_view();
        proof {
            assert(key_id(self.keys@[i as int]) == k.id());
            lemma_kv_at(self.keys@, i as int);
        }
        let mut out: Vec<(String, Data)> = Vec::new();
        let mut j: usize = 0;
        proof {
            assert(out.deep_view() =~~= vs0.take(0));
        }
        while j < self.keys[i].values.len()
            invariant
                i < self.keys@.len(),
                vs0 == self.keys@[i as int].values.deep_view(),
                j <= vs0.len(),
                out.deep_view() =~~= vs0.take(j as int),
            decreases vs0.len() - j,
        {
            let ghost old_dv = out.deep_view();
            out.push((self.keys[i].values[j].0.clone(), self.keys[i].values[j].1.duplicate()));
            proof {
                assert(out.deep_view() =~~= old_dv.push(vs0[j as int]));
                assert(out.deep_view() =~~= vs0.take(j as int + 1));
            }
            j += 1;
        }
        proof {
            assert(vs0.take(vs0.len() as int) =~~= vs0);
            assert(out.deep_view() =~~= vs0);
            let ghost od = out.deep_view();
            assert forall|t: int| 0 <= t < od.len() implies self@[k.id()].contains_key(
                (#[trigger] od[t]).0,
            ) && self@[k.id()][od[t].0] == od[t].1 by {
                lemma_vm_at(vs0, t);
            }
            assert forall|n: Seq<char>| self@[k.id()].contains_key(n) implies exists|t: int|
                0 <= t < od.len() && (#[trigger] od[t]).0 == n by {
                lemma_vm_contains(vs0, n);
            }
            assert(self@.contains_key(k.id()));
            assert(distinct_names(vs0));
            assert(lists_of(self@[k.id()], od));
        }
        Ok(out)
    }
}


// ---------------------------------------------------------------------
// Laws of the store transitions
// ---------------------------------------------------------------------

/// Creating a key makes that key present.
pub proof fn lemma_create_then_contains(
    m: Map<(Hive, Seq<Seq<char>>), Map<Seq<char>, DataView>>,
    hive: Hive,
    path: Seq<Seq<char>>,
)
    requires
        path.len() >= 1,
    ensures
        spec_create(m, hive, path).contains_key((hive, path)),
{
}

/// Creating a key makes every ancestor prefix of it present as well.
pub proof fn lemma_create_prefixes(
    m: Map<(Hive, Seq<Seq<char>>), Map<Seq<char>, DataView>>,
    hive: Hive,
    path: Seq<Seq<char>>,
)
    ensures
        forall|i: int|
            1 <= i <= path.len() ==> spec_create(m, hive, path).contains_key(
                (hive, #[trigger] path.take(i)),
            ),
    decreases path.len(),
{
    if path.len() != 0 {
        lemma_create_prefixes(m, hive, path.drop_last());
        assert forall|i: int| 1 <= i <= path.len() implies spec_create(m, hive, path).contains_key(
            (hive, #[trigger] path.take(i)),
        ) by {
            if i < path.len() {
                assert(path.drop_last().take(i) =~~= path.take(i));
            } else {
                assert(path.take(i) =~~= path);
                lemma_create_then_contains(m, hive, path);
            }
        }
    }
}

/// Creating a key keeps every existing key, with its values unchanged.
pub proof fn lemma_create_preserves(
    m: Map<(Hive, Seq<Seq<char>>), Map<Seq<char>, DataView>>,
    hive: Hive,
    path: Seq<Seq<char>>,
    id: (Hive, Seq<Seq<char>>),
)
    requires
        m.contains_key(id),
    ensures
        spec_create(m, hive, path).contains_key(id),
        spec_create(m, hive, path)[id] == m[id],
    decreases path.len(),
{
    if path.len() != 0 {
        lemma_create_preserves(m, hive, path.drop_last(), id);
    }
}

/// Creating a key whose whole path already exists changes nothing:
/// creation is idempotent.
pub proof fn lemma_create_noop(
    m: Map<(Hive, Seq<Seq<char>>), Map<Seq<char>, DataView>>,
    hive: Hive,
    path: Seq<Seq<char>>,
)
    requires
        forall|i: int| 1 <= i <= path.len() ==> m.contains_key((hive, #[trigger] path.take(i))),
    ensures
        spec_create(m, hive, path) == m,
    decreases path.len(),
{
    if path.len() != 0 {
        assert forall|i: int| 1 <= i <= path.drop_last().len() implies m.contains_key(
            (hive, #[trigger] path.drop_last().take(i)),
        ) by {
            assert(path.drop_last().take(i) =~~= path.take(i));
        }
        lemma_create_noop(m, hive, path.drop_last());
        assert(path.take(path.len() as int) =~~= path);
        assert(m.contains_key((hive, path)));
    }
}

/// Creating the same key twice is the same as creating it once.
pub proof fn lemma_create_idempotent(
    m: Map<(Hive, Seq<Seq<char>>), Map<Seq<char>, DataView>>,
    hive: Hive,
    path: Seq<Seq<char>>,
)
    ensures
        spec_create(spec_create(m, hive, path), hive, path) == spec_create(m, hive, path),
{
    lemma_create_prefixes(m, hive, path);
    lemma_create_noop(spec_create(m, hive, path), hive, path);
}

/// Deleting removes exactly the subtree: a key survives, with its
/// values unchanged, if and only if it does not lie under the deleted
/// path.
pub proof fn lemma_delete_exact(
    m: Map<(Hive, Seq<Seq<char>>), Map<Seq<char>, DataView>>,
    hive: Hive,
    path: Seq<Seq<char>>,
    id: (Hive, Seq<Seq<char>>),
)
    ensures
        spec_delete(m, hive, path).contains_key(id) <==> (m.contains_key(id) && !is_under(
            id,
            hive,
            path,
        )),
        spec_delete(m, hive, path).contains_key(id) ==> spec_delete(m, hive, path)[id] == m[id],
{
}

/// Key lifecycle: creating a key (`child`) lets it be opened, and
/// deleting any key on its path (`parent`) removes it with the whole
/// subtree.
pub proof fn lemma_key_lifecycle(
    m: Map<(Hive, Seq<Seq<char>>), Map<Seq<char>, DataView>>,
    hive: Hive,
    parent: Seq<Seq<char>>,
    child: Seq<Seq<char>>,
)
    requires
        1 <= parent.len() <= child.len(),
        child.take(parent.len() as int) == parent,
    ensures
        spec_create(m, hive, child).contains_key((hive, child)),
        !spec_delete(spec_create(m, hive, child), hive, parent).contains_key((hive, child)),
{
    lemma_create_then_contains(m, hive, child);
    assert(is_under((hive, child), hive, parent));
}

/// Every key's parent is present: the store is a tree under each hive
/// root.
pub open spec fn prefix_closed(m: Map<(Hive, Seq<Seq<char>>), Map<Seq<char>, DataView>>) -> bool {
    forall|id: (Hive, Seq<Seq<char>>)|
        (#[trigger] m.contains_key(id)) && id.1.len() > 1 ==> m.contains_key(
            (id.0, id.1.drop_last()),
        )
}

/// Creation keeps the store a tree: the key and each missing ancestor
/// come in together.
pub proof fn lemma_create_closed(
    m: Map<(Hive, Seq<Seq<char>>), Map<Seq<char>, DataView>>,
    hive: Hive,
    path: Seq<Seq<char>>,
)
    requires
        prefix_closed(m),
    ensures
        prefix_closed(spec_create(m, hive, path)),
    decreases path.len(),
{
    if path.len() != 0 {
        lemma_create_closed(m, hive, path.drop_last());
        let m2 = spec_create(m, hive, path.drop_last());
        let m3 = spec_create(m, hive, path);
        assert forall|id: (Hive, Seq<Seq<char>>)|
            (#[trigger] m3.contains_key(id)) && id.1.len() > 1 implies m3.contains_key(
            (id.0, id.1.drop_last()),
        ) by {
            if id == (hive, path) {
                lemma_create_then_contains(m, hive, path.drop_last());
            } else {
                assert(m2.contains_key(id));
                assert(m2.contains_key((id.0, id.1.drop_last())));
            }
        }
    }
}

/// Deletion keeps the store a tree: a surviving key's parent survives
/// too, since a key under the deleted path takes its whole subtree
/// with it.
pub proof fn lemma_delete_closed(
    m: Map<(Hive, Seq<Seq<char>>), Map<Seq<char>, DataView>>,
    hive: Hive,
    path: Seq<Seq<char>>,
)
    requires
        prefix_closed(m),
    ensures
        prefix_closed(spec_delete(m, hive, path)),
{
    let d = spec_delete(m, hive, path);
    assert forall|id: (Hive, Seq<Seq<char>>)| (#[trigger] d.contains_key(id)) && id.1.len() > 1
        implies d.contains_key((id.0, id.1.drop_last())) by {
        let parent = (id.0, id.1.drop_last());
        assert(m.contains_key(parent));
        if is_under(parent, hive, path) {
            assert(id.1.take(path.len() as int) =~~= parent.1.take(path.len() as int));
            assert(is_under(id, hive, path));
        }
    }
}

/// Changing the values of a key that exists keeps the store a tree:
/// the set of keys does not move.
pub proof fn lemma_update_closed(
    m: Map<(Hive, Seq<Seq<char>>), Map<Seq<char>, DataView>>,
    id: (Hive, Seq<Seq<char>>),
    vm: Map<Seq<char>, DataView>,
)
    requires
        prefix_closed(m),
        m.contains_key(id),
    ensures
        prefix_closed(m.insert(id, vm)),
{
    assert forall|x: (Hive, Seq<Seq<char>>)|
        (#[trigger] m.insert(id, vm).contains_key(x)) && x.1.len() > 1 implies m.insert(
        id,
        vm,
    ).contains_key((x.0, x.1.drop_last())) by {
        assert(m.contains_key(x));
        assert(m.contains_key((x.0, x.1.drop_last())));
    }
}

/// Value lifecycle: writing a name makes reading it yield the written
/// value, and deleting the name afterwards leaves nothing to read. The
/// store's `write_value`, `read_value` and `delete_value` move a key's
/// value map by exactly these insert and remove steps.
pub proof fn lemma_value_lifecycle(vm: Map<Seq<char>, DataView>, n: Seq<char>, d: DataView)
    ensures
        vm.insert(n, d).contains_key(n),
        vm.insert(n, d)[n] == d,
        !vm.insert(n, d).remove(n).contains_key(n),
{
}

/// Rename: after moving a value from one name to another, the new name
/// reads as the old value and the old name is gone. The store's
/// `rename_value` moves a key's value map by exactly this step.
pub proof fn lemma_rename_moves(vm: Map<Seq<char>, DataView>, from: Seq<char>, to: Seq<char>)
    requires
        vm.contains_key(from),
        from != to,
    ensures
        vm.remove(from).insert(to, vm[from]).contains_key(to),
        vm.remove(from).insert(to, vm[from])[to] == vm[from],
        !vm.remove(from).insert(to, vm[from]).contains_key(from),
{
}

} // verus!
