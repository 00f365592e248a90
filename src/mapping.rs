//! The mapping layer: one top-down walk that turns a value tree into the
//! shape a caller describes with a `Schema`.

use vstd::prelude::*;
use crate::chars::push_char;
use crate::error::ParseError;
use crate::grammar::{document, parse_kv3, DEFAULT_MAX_DEPTH};
use crate::value::{KV3Value, ValueModel, Entries, entries_of, views_of, lemma_entries_of, lemma_views_of, key_index, lemma_key_index, find_key};

verus! {

broadcast use vstd::std_specs::vec::group_vec_axioms, vstd::seq::group_seq_axioms;

/// The shape of a value or of what a schema expects.
#[derive(Debug, Clone, Copy, PartialEq, Eq, Structural)]
pub enum Shape {
    Bool,
    Int,
    Float,
    Str,
    Null,
    Sequence,
    Mapping,
    Any,
}

/// A description of the target of a mapping.
#[derive(Debug)]
pub enum Schema {
    /// Takes the value as it stands.
    Any,
    Bool,
    /// An integer within `min..=max`.
    Int { min: i64, max: i64 },
    /// A number: a floating-point literal, or an integer.
    Float,
    Str,
    /// `null`.
    Unit,
    /// An array, or a hex array whose bytes are taken as integers, each
    /// element mapped with the inner schema.
    List(Box<Schema>),
    /// An object, read field by field.
    Record(Vec<Field>),
}

/// One field of a record: the name it has in the target, the key it is read
/// from, whether it must be there, and its own schema.
#[derive(Debug)]
pub struct Field {
    pub name: String,
    pub key: String,
    pub required: bool,
    pub schema: Schema,
}

/// What a mapping produces.
#[derive(Debug)]
pub enum Mapped {
    Tree(KV3Value),
    Bool(bool),
    Int(i64),
    /// The decimal literal of a number.
    Float(String),
    Str(String),
    Unit,
    List(Vec<Mapped>),
    /// The fields that were found, by name, in the order of the schema.
    Record(Vec<(String, Mapped)>),
}

/// A mapping failure.
#[derive(Debug)]
pub enum MapError {
    /// A required field's key is not in the object.
    MissingField(String),
    /// The value has a shape that the schema does not take.
    TypeMismatch { expected: Shape, found: Shape },
    /// An integer outside the schema's range.
    OutOfRange(i64),
}

/// The model of a mapped value.
pub enum MappedModel {
    Tree(ValueModel),
    Bool(bool),
    Int(int),
    Float(Seq<char>),
    Str(Seq<char>),
    Unit,
    List(Seq<MappedModel>),
    Record(Seq<(Seq<char>, MappedModel)>),
}

impl Mapped {
    pub open spec fn view(&self) -> MappedModel
        decreases self,
    {
        match self {
            Mapped::Tree(v) => MappedModel::Tree(v@),
            Mapped::Bool(b) => MappedModel::Bool(*b),
            Mapped::Int(i) => MappedModel::Int(*i as int),
            Mapped::Float(t) => MappedModel::Float(t@),
            Mapped::Str(t) => MappedModel::Str(t@),
            Mapped::Unit => MappedModel::Unit,
            Mapped::List(ms) => MappedModel::List(mapped_views(ms@)),
            Mapped::Record(fs) => MappedModel::Record(mapped_fields(fs@)),
        }
    }
}

pub open spec fn mapped_views(s: Seq<Mapped>) -> Seq<MappedModel>
    decreases s,
{
    if s.len() == 0 {
        Seq::empty()
    } else {
        mapped_views(s.drop_last()).push(s.last().view())
    }
}

pub open spec fn mapped_fields(s: Seq<(String, Mapped)>) -> Seq<(Seq<char>, MappedModel)>
    decreases s,
{
    if s.len() == 0 {
        Seq::empty()
    } else {
        mapped_fields(s.drop_last()).push((s.last().0@, s.last().1.view()))
    }
}

/// The model of a mapping failure: the missing key, or the other cases as
/// they stand.
pub enum MapErrorModel {
    MissingField(Seq<char>),
    TypeMismatch { expected: Shape, found: Shape },
    OutOfRange(int),
}

impl MapError {
    pub open spec fn view(&self) -> MapErrorModel {
        match self {
            MapError::MissingField(k) => MapErrorModel::MissingField(k@),
            MapError::TypeMismatch { expected, found } => MapErrorModel::TypeMismatch {
                expected: *expected,
                found: *found,
            },
            MapError::OutOfRange(i) => MapErrorModel::OutOfRange(*i as int),
        }
    }
}

pub open spec fn value_shape(v: ValueModel) -> Shape {
    match v {
        ValueModel::Bool(_) => Shape::Bool,
        ValueModel::Int(_) => Shape::Int,
        ValueModel::Double(_) => Shape::Float,
        ValueModel::Str(_) => Shape::Str,
        ValueModel::Array(_) => Shape::Sequence,
        ValueModel::HexArray(_) => Shape::Sequence,
        ValueModel::Object(_) => Shape::Mapping,
        ValueModel::Null => Shape::Null,
    }
}

pub open spec fn schema_shape(sc: Schema) -> Shape {
    match sc {
        Schema::Any => Shape::Any,
        Schema::Bool => Shape::Bool,
        Schema::Int { .. } => Shape::Int,
        Schema::Float => Shape::Float,
        Schema::Str => Shape::Str,
        Schema::Unit => Shape::Null,
        Schema::List(_) => Shape::Sequence,
        Schema::Record(_) => Shape::Mapping,
    }
}

/// The decimal digits of a natural number.
pub open spec fn nat_text(n: nat) -> Seq<char>
    decreases n,
{
    if n < 10 {
        seq![(n + '0' as nat) as char]
    } else {
        nat_text(n / 10).push(((n % 10) + '0' as nat) as char)
    }
}

/// The decimal literal of an integer, with `-` before a negative one.
pub open spec fn int_text(v: int) -> Seq<char> {
    if v < 0 {
        seq!['-'] + nat_text((-v) as nat)
    } else {
        nat_text(v as nat)
    }
}

pub open spec fn mismatch(v: ValueModel, sc: Schema) -> MapErrorModel {
    MapErrorModel::TypeMismatch { expected: schema_shape(sc), found: value_shape(v) }
}

/// The mapping of value `v` onto schema `sc`.
pub open spec fn map_model(v: ValueModel, sc: Schema) -> Result<MappedModel, MapErrorModel>
    decreases sc, 2int, 0int,
{
    match sc {
        Schema::Any => Ok(MappedModel::Tree(v)),
        Schema::Bool => match v {
            ValueModel::Bool(b) => Ok(MappedModel::Bool(b)),
            _ => Err(mismatch(v, sc)),
        },
        Schema::Int { min, max } => match v {
            ValueModel::Int(i) => if min <= i <= max {
                Ok(MappedModel::Int(i))
            } else {
                Err(MapErrorModel::OutOfRange(i))
            },
            _ => Err(mismatch(v, sc)),
        },
        Schema::Float => match v {
            ValueModel::Double(t) => Ok(MappedModel::Float(t)),
            ValueModel::Int(i) => Ok(MappedModel::Float(int_text(i))),
            _ => Err(mismatch(v, sc)),
        },
        Schema::Str => match v {
            ValueModel::Str(t) => Ok(MappedModel::Str(t)),
            _ => Err(mismatch(v, sc)),
        },
        Schema::Unit => match v {
            ValueModel::Null => Ok(MappedModel::Unit),
            _ => Err(mismatch(v, sc)),
        },
        Schema::List(inner) => match v {
            ValueModel::Array(vs) => match map_items(vs, sc, 0) {
                Ok(ms) => Ok(MappedModel::List(ms)),
                Err(e) => Err(e),
            },
            ValueModel::HexArray(bs) => match map_items(bytes_as_ints(bs), sc, 0) {
                Ok(ms) => Ok(MappedModel::List(ms)),
                Err(e) => Err(e),
            },
            _ => Err(mismatch(v, sc)),
        },
        Schema::Record(fs) => match v {
            ValueModel::Object(es) => match map_fields(es, sc, 0) {
                Ok(ms) => Ok(MappedModel::Record(ms)),
                Err(e) => Err(e),
            },
            _ => Err(mismatch(v, sc)),
        },
    }
}

/// The bytes of a hex array, as integer values.
pub open spec fn bytes_as_ints(bs: Seq<u8>) -> Seq<ValueModel> {
    Seq::new(bs.len(), |k: int| ValueModel::Int(bs[k] as int))
}

/// The elements of `vs` from index `k`, each mapped onto the element schema
/// of the list schema `sc`; the first failure wins.
pub open spec fn map_items(vs: Seq<ValueModel>, sc: Schema, k: int) -> Result<Seq<MappedModel>, MapErrorModel>
    decreases sc, 1int, vs.len() - k,
{
    match sc {
        Schema::List(inner) => if k < 0 || k >= vs.len() {
            Ok(Seq::empty())
        } else {
            match map_model(vs[k], *inner) {
                Err(e) => Err(e),
                Ok(m) => match map_items(vs, sc, k + 1) {
                    Ok(ms) => Ok(seq![m] + ms),
                    Err(e) => Err(e),
                },
            }
        },
        _ => Ok(Seq::empty()),
    }
}

/// The fields of the record schema `sc` from index `k`, read from the entries
/// `es` by key: a present key maps its value, an absent one fails only where
/// the field is required; the first failure wins.
pub open spec fn map_fields(es: Entries, sc: Schema, k: int) -> Result<Seq<(Seq<char>, MappedModel)>, MapErrorModel>
    decreases sc, 1int, (match sc { Schema::Record(fs) => fs.len() as int, _ => 0int }) - k,
{
    match sc {
        Schema::Record(fs) => if k < 0 || k >= fs.len() {
            Ok(Seq::empty())
        } else {
            let f = fs[k];
            let x = key_index(es, f.key@);
            if x >= 0 {
                match map_model(es[x].1, f.schema) {
                    Err(e) => Err(e),
                    Ok(m) => match map_fields(es, sc, k + 1) {
                        Ok(ms) => Ok(seq![(f.name@, m)] + ms),
                        Err(e) => Err(e),
                    },
                }
            } else if f.required {
                Err(MapErrorModel::MissingField(f.key@))
            } else {
                map_fields(es, sc, k + 1)
            }
        },
        _ => Ok(Seq::empty()),
    }
}

pub open spec fn map_result(r: Result<Mapped, MapError>) -> Result<MappedModel, MapErrorModel> {
    match r {
        Ok(m) => Ok(m@),
        Err(e) => Err(e@),
    }
}

fn value_shape_of(v: &KV3Value) -> (r: Shape)
    ensures
        r == value_shape(v@),
{
    match v {
        KV3Value::Bool(_) => Shape::Bool,
        KV3Value::Int(_) => Shape::Int,
        KV3Value::Double(_) => Shape::Float,
        KV3Value::String(_) => Shape::Str,
        KV3Value::Array(_) => Shape::Sequence,
        KV3Value::HexArray(_) => Shape::Sequence,
        KV3Value::Object(_) => Shape::Mapping,
        KV3Value::Null => Shape::Null,
    }
}

fn schema_shape_of(sc: &Schema) -> (r: Shape)
    ensures
        r == schema_shape(*sc),
{
    match sc {
        Schema::Any => Shape::Any,
        Schema::Bool => Shape::Bool,
        Schema::Int { .. } => Shape::Int,
        Schema::Float => Shape::Float,
        Schema::Str => Shape::Str,
        Schema::Unit => Shape::Null,
        Schema::List(_) => Shape::Sequence,
        Schema::Record(_) => Shape::Mapping,
    }
}

fn mismatch_error(v: &KV3Value, sc: &Schema) -> (r: MapError)
    ensures
        r@ == mismatch(v@, *sc),
{
    MapError::TypeMismatch { expected: schema_shape_of(sc), found: value_shape_of(v) }
}

/// Appends the decimal digits of `n`.
fn push_nat_text(out: &mut String, n: u64)
    ensures
        final(out)@ == old(out)@ + nat_text(n as nat),
    decreases n,
{
    if n >= 10 {
        push_nat_text(out, n / 10);
    }
    let c = char_of_digit((n % 10) as u32);
    push_char(out, c);
    assert(nat_text(n as nat) == (if n < 10 { seq![c] } else { nat_text((n / 10) as nat).push(c) }));
    if n >= 10 {
        assert(old(out)@ + nat_text((n / 10) as nat) + seq![c] =~= old(out)@ + nat_text(n as nat));
    } else {
        assert(old(out)@.push(c) =~= old(out)@ + nat_text(n as nat));
    }
}

fn char_of_digit(d: u32) -> (c: char)
    requires
        d < 10,
    ensures
        c == (d + '0' as nat) as char,
{
    if d == 0 { '0' } else if d == 1 { '1' } else if d == 2 { '2' } else if d == 3 { '3' }
    else if d == 4 { '4' } else if d == 5 { '5' } else if d == 6 { '6' } else if d == 7 { '7' }
    else if d == 8 { '8' } else { '9' }
}

/// The decimal literal of `v`; see `int_text`.
pub fn int_to_text(v: i64) -> (r: String)
    ensures
        r@ == int_text(v as int),
{
    let mut out = String::new();
    if v < 0 {
        push_char(&mut out, '-');
        let m: u64 = (-(v as i128)) as u64;
        push_nat_text(&mut out, m);
        assert(out@ =~= seq!['-'] + nat_text(m as nat));
    } else {
        push_nat_text(&mut out, v as u64);
        assert(out@ =~= nat_text(v as nat));
    }
    out
}

pub open spec fn prepend_mapped(ms: Seq<MappedModel>, r: Result<Seq<MappedModel>, MapErrorModel>) -> Result<Seq<MappedModel>, MapErrorModel> {
    match r {
        Ok(ns) => Ok(ms + ns),
        Err(e) => Err(e),
    }
}

pub open spec fn prepend_fields(ms: Seq<(Seq<char>, MappedModel)>, r: Result<Seq<(Seq<char>, MappedModel)>, MapErrorModel>) -> Result<Seq<(Seq<char>, MappedModel)>, MapErrorModel> {
    match r {
        Ok(ns) => Ok(ms + ns),
        Err(e) => Err(e),
    }
}

proof fn lemma_mapped_views_push(s: Seq<Mapped>, m: Mapped)
    ensures
        mapped_views(s.push(m)) == mapped_views(s).push(m@),
{
    assert(s.push(m).drop_last() =~= s);
}

proof fn lemma_mapped_fields_push(s: Seq<(String, Mapped)>, f: (String, Mapped))
    ensures
        mapped_fields(s.push(f)) == mapped_fields(s).push((f.0@, f.1@)),
{
    assert(s.push(f).drop_last() =~= s);
}

/// Maps the value `v` onto the schema `sc`; see `map_model`.
pub fn map_value(v: &KV3Value, sc: &Schema) -> (r: Result<Mapped, MapError>)
    ensures
        map_result(r) == map_model(v@, *sc),
    decreases sc,
{
    match sc {
        Schema::Any => Ok(Mapped::Tree(v.deep_clone())),
        Schema::Bool => match v {
            KV3Value::Bool(b) => Ok(Mapped::Bool(*b)),
            _ => Err(mismatch_error(v, sc)),
        },
        Schema::Int { min, max } => match v {
            KV3Value::Int(i) => if *min <= *i && *i <= *max {
                Ok(Mapped::Int(*i))
            } else {
                Err(MapError::OutOfRange(*i))
            },
            _ => Err(mismatch_error(v, sc)),
        },
        Schema::Float => match v {
            KV3Value::Double(t) => Ok(Mapped::Float(t.clone())),
            KV3Value::Int(i) => Ok(Mapped::Float(int_to_text(*i))),
            _ => Err(mismatch_error(v, sc)),
        },
        Schema::Str => match v {
            KV3Value::String(t) => Ok(Mapped::Str(t.clone())),
            _ => Err(mismatch_error(v, sc)),
        },
        Schema::Unit => match v {
            KV3Value::Null => Ok(Mapped::Unit),
            _ => Err(mismatch_error(v, sc)),
        },
        Schema::List(inner) => match v {
            KV3Value::Array(items) => {
                let ghost vs = views_of(items@);
                proof { lemma_views_of(items@); }
                let mut out: Vec<Mapped> = Vec::new();
                let mut k: usize = 0;
                assert(mapped_views(out@) + map_items(vs, *sc, 0)->Ok_0 =~= map_items(vs, *sc, 0)->Ok_0);
                while k < items.len()
                    invariant
                        *sc == Schema::List(*inner),
                        *v == KV3Value::Array(*items),
                        k <= items@.len(),
                        vs == views_of(items@),
                        vs.len() == items@.len(),
                        forall|m: int| 0 <= m < items@.len() ==> #[trigger] vs[m] == items@[m].view(),
                        map_items(vs, *sc, 0) == prepend_mapped(mapped_views(out@), map_items(vs, *sc, k as int)),
                    decreases items@.len() - k,
                {
                    proof {
                        assert((*sc)->List_0 == *inner);
                        assert(decreases_to!(*sc => (*sc)->List_0));
                    }
                    match map_value(&items[k], &**inner) {
                        Err(e) => { return Err(e); },
                        Ok(m) => {
                            proof {
                                lemma_mapped_views_push(out@, m);
                                if let Ok(ns) = map_items(vs, *sc, k + 1) {
                                    assert(mapped_views(out@) + (seq![m@] + ns) =~= mapped_views(out@).push(m@) + ns);
                                }
                            }
                            out.push(m);
                        },
                    }
                    k += 1;
                }
                assert(mapped_views(out@) + Seq::empty() =~= mapped_views(out@));
                Ok(Mapped::List(out))
            },
            KV3Value::HexArray(bs) => {
                let ghost vs = bytes_as_ints(bs@);
                let mut out: Vec<Mapped> = Vec::new();
                let mut k: usize = 0;
                assert(mapped_views(out@) + map_items(vs, *sc, 0)->Ok_0 =~= map_items(vs, *sc, 0)->Ok_0);
                while k < bs.len()
                    invariant
                        *sc == Schema::List(*inner),
                        *v == KV3Value::HexArray(*bs),
                        k <= bs@.len(),
                        vs == bytes_as_ints(bs@),
                        map_items(vs, *sc, 0) == prepend_mapped(mapped_views(out@), map_items(vs, *sc, k as int)),
                    decreases bs@.len() - k,
                {
                    proof {
                        assert((*sc)->List_0 == *inner);
                        assert(decreases_to!(*sc => (*sc)->List_0));
                    }
                    let x = KV3Value::Int(bs[k] as i64);
                    assert(x@ == vs[k as int]);
                    match map_value(&x, &**inner) {
                        Err(e) => { return Err(e); },
                        Ok(m) => {
                            proof {
                                lemma_mapped_views_push(out@, m);
                                if let Ok(ns) = map_items(vs, *sc, k + 1) {
                                    assert(mapped_views(out@) + (seq![m@] + ns) =~= mapped_views(out@).push(m@) + ns);
                                }
                            }
                            out.push(m);
                        },
                    }
                    k += 1;
                }
                assert(mapped_views(out@) + Seq::empty() =~= mapped_views(out@));
                Ok(Mapped::List(out))
            },
            _ => Err(mismatch_error(v, sc)),
        },
        Schema::Record(fs) => match v {
            KV3Value::Object(o) => {
                let ghost es = entries_of(o.fields@);
                proof { lemma_entries_of(o.fields@); }
                let mut out: Vec<(String, Mapped)> = Vec::new();
                let mut k: usize = 0;
                assert(mapped_fields(out@) + map_fields(es, *sc, 0)->Ok_0 =~= map_fields(es, *sc, 0)->Ok_0);
                while k < fs.len()
                    invariant
                        *sc == Schema::Record(*fs),
                        *v == KV3Value::Object(*o),
                        k <= fs@.len(),
                        es == entries_of(o.fields@),
                        es.len() == o.fields@.len(),
                        forall|m: int| 0 <= m < o.fields@.len() ==> #[trigger] es[m] == (o.fields@[m].0@, o.fields@[m].1.view()),
                        map_fields(es, *sc, 0) == prepend_fields(mapped_fields(out@), map_fields(es, *sc, k as int)),
                    decreases fs@.len() - k,
                {
                    proof {
                        assert((*sc)->Record_0 == *fs);
                        assert(decreases_to!(*sc => (*sc)->Record_0));
                        assert(decreases_to!(*fs => fs[k as int]));
                        assert(decreases_to!(fs[k as int] => fs[k as int].schema));
                    }
                    let f = &fs[k];
                    match find_key(&o.fields, &f.key) {
                        Some(x) => {
                            proof { lemma_key_index(es, f.key@); }
                            match map_value(&o.fields[x].1, &f.schema) {
                                Err(e) => { return Err(e); },
                                Ok(m) => {
                                    let name = f.name.clone();
                                    proof {
                                        lemma_mapped_fields_push(out@, (name, m));
                                        if let Ok(ns) = map_fields(es, *sc, k + 1) {
                                            assert(mapped_fields(out@) + (seq![(name@, m@)] + ns) =~= mapped_fields(out@).push((name@, m@)) + ns);
                                        }
                                    }
                                    out.push((name, m));
                                },
                            }
                        },
                        None => {
                            if f.required {
                                return Err(MapError::MissingField(f.key.clone()));
                            }
                        },
                    }
                    k += 1;
                }
                assert(mapped_fields(out@) + Seq::empty() =~= mapped_fields(out@));
                Ok(Mapped::Record(out))
            },
            _ => Err(mismatch_error(v, sc)),
        },
    }
}

/// A record schema with a required field whose key the object lacks never
/// maps; where that field comes first in the schema, the failure names its key.
pub proof fn lemma_missing_required_field(es: Entries, sc: Schema, x: int)
    requires
        sc matches Schema::Record(fs) && 0 <= x < fs.len() && fs[x].required
            && key_index(es, fs[x].key@) == -1,
    ensures
        map_model(ValueModel::Object(es), sc) is Err,
        x == 0 ==> map_model(ValueModel::Object(es), sc) == Err::<MappedModel, MapErrorModel>(
            MapErrorModel::MissingField(sc->Record_0[0].key@),
        ),
{
    lemma_map_fields_fails(es, sc, x, 0);
}

proof fn lemma_map_fields_fails(es: Entries, sc: Schema, x: int, k: int)
    requires
        sc matches Schema::Record(fs) && 0 <= x < fs.len() && fs[x].required
            && key_index(es, fs[x].key@) == -1,
        0 <= k <= x,
    ensures
        map_fields(es, sc, k) is Err,
    decreases x - k,
{
    if k < x {
        lemma_map_fields_fails(es, sc, x, k + 1);
    }
}

/// A failure of `map_kv3`: in the text, or in the mapping.
#[derive(Debug)]
pub enum Kv3Error {
    Parse(ParseError),
    Mapping(MapError),
}

/// Parses a KV3 document and maps its root object onto `schema`. Text after
/// the root object is left unread.
pub fn map_kv3(input: &str, schema: &Schema) -> (r: Result<Mapped, Kv3Error>)
    ensures
        match document(input@, DEFAULT_MAX_DEPTH as nat) {
            Err(x) => r matches Err(Kv3Error::Parse(y)) && y == x,
            Ok((es, f)) => match map_model(ValueModel::Object(es), *schema) {
                Ok(m) => r matches Ok(mm) && mm@ == m,
                Err(e) => r matches Err(Kv3Error::Mapping(me)) && me@ == e,
            },
        },
{
    match parse_kv3(input) {
        Err(x) => Err(Kv3Error::Parse(x)),
        Ok((_rest, o)) => {
            let root = KV3Value::Object(o);
            match map_value(&root, schema) {
                Ok(m) => Ok(m),
                Err(e) => Err(Kv3Error::Mapping(e)),
            }
        },
    }
}

} // verus!
