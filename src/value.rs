//! The value tree that the parser builds, and its mathematical model.

use vstd::prelude::*;

verus! {

broadcast use vstd::std_specs::vec::group_vec_axioms, vstd::seq::group_seq_axioms;

/// The model of a value: what a `KV3Value` holds, as mathematical values.
pub enum ValueModel {
    Bool(bool),
    Int(int),
    /// The decimal literal of a floating-point number, as written.
    Double(Seq<char>),
    Str(Seq<char>),
    Array(Seq<ValueModel>),
    HexArray(Seq<u8>),
    Object(Seq<(Seq<char>, ValueModel)>),
    Null,
}

/// One node of a parsed KV3 tree.
#[derive(Debug)]
pub enum KV3Value {
    Bool(bool),
    Int(i64),
    /// A floating-point number, held as its decimal literal (it contains
    /// `.`, `e` or `E`); a caller converts it to the float type it needs.
    Double(String),
    String(String),
    Array(Vec<KV3Value>),
    HexArray(Vec<u8>),
    Object(KV3Object),
    Null,
}

/// A KV3 object: keys mapped to values, in the order in which their keys
/// first appeared. The parser and `insert` keep keys unique (see `wf`).
#[derive(Debug)]
pub struct KV3Object {
    pub fields: Vec<(String, KV3Value)>,
}

impl KV3Value {
    pub open spec fn view(&self) -> ValueModel
        decreases self,
    {
        match self {
            KV3Value::Bool(b) => ValueModel::Bool(*b),
            KV3Value::Int(i) => ValueModel::Int(*i as int),
            KV3Value::Double(t) => ValueModel::Double(t@),
            KV3Value::String(t) => ValueModel::Str(t@),
            KV3Value::Array(items) => ValueModel::Array(views_of(items@)),
            KV3Value::HexArray(bytes) => ValueModel::HexArray(bytes@),
            KV3Value::Object(o) => ValueModel::Object(entries_of(o.fields@)),
            KV3Value::Null => ValueModel::Null,
        }
    }
}

impl KV3Value {
    /// A copy of the whole tree.
    pub fn deep_clone(&self) -> (r: KV3Value)
        ensures
            r@ == self@,
        decreases self,
    {
        match self {
            KV3Value::Bool(b) => KV3Value::Bool(*b),
            KV3Value::Int(i) => KV3Value::Int(*i),
            KV3Value::Double(t) => KV3Value::Double(t.clone()),
            KV3Value::String(t) => KV3Value::String(t.clone()),
            KV3Value::Array(items) => {
                let mut out: Vec<KV3Value> = Vec::new();
                let mut k: usize = 0;
                proof { lemma_views_of(items@); }
                while k < items.len()
                    invariant
                        *self == KV3Value::Array(*items),
                        k <= items@.len(),
                        views_of(items@).len() == items@.len(),
                        forall|m: int| 0 <= m < items@.len() ==> #[trigger] views_of(items@)[m] == items@[m].view(),
                        views_of(out@) == views_of(items@).take(k as int),
                    decreases items@.len() - k,
                {
                    proof {
                        assert((*self)->Array_0 == *items);
                        assert(decreases_to!(*self => (*self)->Array_0));
                        assert(decreases_to!(*items => items[k as int]));
                        assert(decreases_to!(*self => items[k as int]));
                    }
                    let c = items[k].deep_clone();
                    let ghost before = out@;
                    out.push(c);
                    assert(out@.drop_last() =~= before);
                    assert(views_of(out@) =~= views_of(items@).take(k + 1));
                    k += 1;
                }
                assert(views_of(items@).take(k as int) =~= views_of(items@));
                KV3Value::Array(out)
            },
            KV3Value::HexArray(bytes) => {
                let c = bytes.clone();
                assert(c@ =~= bytes@);
                KV3Value::HexArray(c)
            },
            KV3Value::Object(o) => {
                let mut out: Vec<(String, KV3Value)> = Vec::new();
                let mut k: usize = 0;
                proof { lemma_entries_of(o.fields@); }
                while k < o.fields.len()
                    invariant
                        *self == KV3Value::Object(*o),
                        k <= o.fields@.len(),
                        entries_of(o.fields@).len() == o.fields@.len(),
                        forall|m: int| 0 <= m < o.fields@.len() ==> #[trigger] entries_of(o.fields@)[m] == (o.fields@[m].0@, o.fields@[m].1.view()),
                        entries_of(out@) == entries_of(o.fields@).take(k as int),
                    decreases o.fields@.len() - k,
                {
                    proof {
                        assert((*self)->Object_0 == *o);
                        assert(decreases_to!(*self => (*self)->Object_0));
                        assert(decreases_to!(*o => o.fields));
                        assert(decreases_to!(o.fields => o.fields[k as int]));
                        assert(decreases_to!(o.fields[k as int] => o.fields[k as int].1));
                        assert(decreases_to!(*self => o.fields[k as int].1));
                    }
                    let c = o.fields[k].1.deep_clone();
                    let key = o.fields[k].0.clone();
                    let ghost before = out@;
                    out.push((key, c));
                    assert(out@.drop_last() =~= before);
                    assert(entries_of(out@) =~= entries_of(o.fields@).take(k + 1));
                    k += 1;
                }
                assert(entries_of(o.fields@).take(k as int) =~= entries_of(o.fields@));
                KV3Value::Object(KV3Object { fields: out })
            },
            KV3Value::Null => KV3Value::Null,
        }
    }
}

/// The models of a sequence of values.
pub open spec fn views_of(s: Seq<KV3Value>) -> Seq<ValueModel>
    decreases s,
{
    if s.len() == 0 {
        Seq::empty()
    } else {
        views_of(s.drop_last()).push(s.last().view())
    }
}

/// The models of a sequence of object entries.
pub open spec fn entries_of(s: Seq<(String, KV3Value)>) -> Seq<(Seq<char>, ValueModel)>
    decreases s,
{
    if s.len() == 0 {
        Seq::empty()
    } else {
        entries_of(s.drop_last()).push((s.last().0@, s.last().1.view()))
    }
}

pub proof fn lemma_views_of(s: Seq<KV3Value>)
    ensures
        views_of(s).len() == s.len(),
        forall|k: int| 0 <= k < s.len() ==> #[trigger] views_of(s)[k] == s[k].view(),
    decreases s.len(),
{
    if s.len() > 0 {
        lemma_views_of(s.drop_last());
    }
}

pub proof fn lemma_entries_of(s: Seq<(String, KV3Value)>)
    ensures
        entries_of(s).len() == s.len(),
        forall|k: int|
            0 <= k < s.len() ==> #[trigger] entries_of(s)[k] == (s[k].0@, s[k].1.view()),
    decreases s.len(),
{
    if s.len() > 0 {
        lemma_entries_of(s.drop_last());
    }
}

/// The entries of an object, as a sequence of key and value models.
pub type Entries = Seq<(Seq<char>, ValueModel)>;

/// The position of key `k` among the entries, or -1 where it is absent.
pub open spec fn key_index(es: Entries, k: Seq<char>) -> int
    decreases es.len(),
{
    if es.len() == 0 {
        -1
    } else if es.last().0 == k {
        es.len() - 1
    } else {
        key_index(es.drop_last(), k)
    }
}

/// Setting key `k` to `v`: a later value for a key overwrites the earlier
/// one in its place; a new key goes at the end.
pub open spec fn insert_entry(es: Entries, k: Seq<char>, v: ValueModel) -> Entries {
    let x = key_index(es, k);
    if x >= 0 {
        es.update(x, (k, v))
    } else {
        es.push((k, v))
    }
}

/// The object that a sequence of key/value pairs makes, in order.
pub open spec fn build_object(ps: Entries) -> Entries
    decreases ps.len(),
{
    if ps.len() == 0 {
        Seq::empty()
    } else {
        insert_entry(build_object(ps.drop_last()), ps.last().0, ps.last().1)
    }
}

/// No key stands twice among the entries.
pub open spec fn keys_unique(es: Entries) -> bool {
    forall|a: int, b: int| 0 <= a < b < es.len() ==> es[a].0 != es[b].0
}

pub proof fn lemma_key_index(es: Entries, k: Seq<char>)
    ensures
        -1 <= key_index(es, k) < es.len(),
        key_index(es, k) >= 0 ==> es[key_index(es, k)].0 == k,
        key_index(es, k) < 0 ==> forall|a: int| 0 <= a < es.len() ==> es[a].0 != k,
    decreases es.len(),
{
    if es.len() > 0 {
        lemma_key_index(es.drop_last(), k);
        assert forall|a: int| 0 <= a < es.len() - 1 implies es[a] == es.drop_last()[a] by {}
    }
}

/// The position of `key` among the fields, searched from the end.
pub fn find_key(fields: &Vec<(String, KV3Value)>, key: &String) -> (r: Option<usize>)
    ensures
        match r {
            Some(x) => key_index(entries_of(fields@), key@) == x as int,
            None => key_index(entries_of(fields@), key@) == -1,
        },
{
    let ghost es = entries_of(fields@);
    proof { lemma_entries_of(fields@); }
    let mut x: usize = fields.len();
    assert(es.take(x as int) =~= es);
    while x > 0
        invariant
            x <= fields@.len(),
            es == entries_of(fields@),
            es.len() == fields@.len(),
            forall|k: int| 0 <= k < fields@.len() ==> #[trigger] es[k] == (fields@[k].0@, fields@[k].1@),
            key_index(es, key@) == key_index(es.take(x as int), key@),
        decreases x,
    {
        assert(es.take(x as int).drop_last() =~= es.take(x - 1));
        assert(es.take(x as int).last() == es[x - 1]);
        if fields[x - 1].0 == *key {
            return Some(x - 1);
        }
        x -= 1;
    }
    None
}

/// Sets `key` to `v` in the fields; see `insert_entry`.
pub(crate) fn insert_field(fields: &mut Vec<(String, KV3Value)>, key: String, v: KV3Value)
    ensures
        entries_of(final(fields)@) == insert_entry(entries_of(old(fields)@), key@, v@),
{
    proof { lemma_entries_of(fields@); }
    let ghost kv = key@;
    let ghost vv = v@;
    match find_key(fields, &key) {
        Some(x) => {
            proof { lemma_key_index(entries_of(fields@), key@); }
            fields.set(x, (key, v));
            proof { lemma_entries_of(fields@); }
            assert(entries_of(fields@) =~= entries_of(old(fields)@).update(x as int, (kv, vv)));
        },
        None => {
            fields.push((key, v));
            assert(fields@.drop_last() =~= old(fields)@);
        },
    }
}

impl KV3Object {
    /// Well-formed: no key stands twice.
    pub open spec fn wf(&self) -> bool {
        keys_unique(self@)
    }

    /// An object with no entries.
    pub fn new() -> (r: KV3Object)
        ensures
            r@ == Seq::<(Seq<char>, ValueModel)>::empty(),
            r.wf(),
    {
        KV3Object { fields: Vec::new() }
    }

    /// Sets `key` to `v`: a key already there keeps its place and takes the
    /// new value; a new key goes at the end.
    pub fn insert(&mut self, key: String, v: KV3Value)
        ensures
            final(self)@ == insert_entry(old(self)@, key@, v@),
            old(self).wf() ==> final(self).wf(),
    {
        proof { lemma_insert_entry_unique(self@, key@, v@); }
        insert_field(&mut self.fields, key, v);
    }

    /// The entries, as key and value models, in order.
    pub open spec fn view(&self) -> Entries {
        entries_of(self.fields@)
    }

    /// The number of entries.
    pub fn len(&self) -> (r: usize)
        ensures
            r == self@.len(),
    {
        proof { lemma_entries_of(self.fields@); }
        self.fields.len()
    }

    /// The value under `key`, if the object has that key.
    pub fn get(&self, key: &str) -> (r: Option<&KV3Value>)
        ensures
            match r {
                Some(v) => key_index(self@, key@) >= 0 && self@[key_index(self@, key@)].1 == v@,
                None => key_index(self@, key@) == -1,
            },
    {
        proof { lemma_entries_of(self.fields@); }
        let k = key.to_owned();
        match find_key(&self.fields, &k) {
            Some(x) => {
                proof { lemma_key_index(self@, key@); }
                Some(&self.fields[x].1)
            },
            None => None,
        }
    }
}

/// Setting a key keeps the keys unique.
pub proof fn lemma_insert_entry_unique(es: Entries, k: Seq<char>, v: ValueModel)
    ensures
        keys_unique(es) ==> keys_unique(insert_entry(es, k, v)),
{
    lemma_key_index(es, k);
}

/// The entries that pairs make never hold a key twice.
pub proof fn lemma_build_object_unique(ps: Entries)
    ensures
        keys_unique(build_object(ps)),
    decreases ps.len(),
{
    if ps.len() > 0 {
        lemma_build_object_unique(ps.drop_last());
        lemma_insert_entry_unique(build_object(ps.drop_last()), ps.last().0, ps.last().1);
    }
}

/// Pairs whose keys are all distinct make an object that holds exactly
/// those pairs, in their order.
pub proof fn lemma_distinct_pairs_object(ps: Entries)
    requires
        keys_unique(ps),
    ensures
        build_object(ps) == ps,
    decreases ps.len(),
{
    if ps.len() > 0 {
        let front = ps.drop_last();
        assert(keys_unique(front));
        lemma_distinct_pairs_object(front);
        lemma_key_index(front, ps.last().0);
        assert(front.push(ps.last()) =~= ps);
    }
}

} // verus!
