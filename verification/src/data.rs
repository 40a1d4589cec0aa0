//! The structured output of an extraction: a tagged tree of dictionaries,
//! lists and string leaves, with a mathematical model (`DataModel`) that the
//! contracts of every operation are stated over.

use vstd::prelude::*;

use crate::errors::ErrModel;
use crate::errors::TransformError;
use crate::text::spec_split_char;
use crate::text::spec_trim_char;
use crate::text::split_char;
use crate::text::trim_char;

verus! {

broadcast use vstd::std_specs::vec::group_vec_axioms;

/// A dictionary: insertion-ordered key/value entries. The first entry with a
/// given key is the authoritative one; trees built through the operations of
/// this module never hold a key twice.
pub type DataMap = Vec<(String, TransformedData)>;

/// An ordered sequence of nodes.
pub type DataVec = Vec<TransformedData>;

/// One node of the structured output tree.
#[derive(Debug, PartialEq, Eq)]
pub enum TransformedData {
    Dict(DataMap),
    List(DataVec),
    Value(String),
}

/// The mathematical model of a `TransformedData` tree.
pub enum DataModel {
    Dict(Seq<(Seq<char>, DataModel)>),
    List(Seq<DataModel>),
    Value(Seq<char>),
}

impl TransformedData {
    /// The model of this node: the same tree over `Seq` and `Seq<char>`.
    pub open spec fn dmodel(self) -> DataModel
        decreases self,
    {
        proof {
            if self is Dict {
                let m = self->Dict_0;
                assert(decreases_to!(m => m@));
            }
            if self is List {
                let l = self->List_0;
                assert(decreases_to!(l => l@));
            }
        }
        match self {
            TransformedData::Dict(m) => DataModel::Dict(dmodel_entries(m@)),
            TransformedData::List(l) => DataModel::List(dmodel_elems(l@)),
            TransformedData::Value(s) => DataModel::Value(s@),
        }
    }
}

impl View for TransformedData {
    type V = DataModel;

    open spec fn view(&self) -> DataModel {
        self.dmodel()
    }
}

/// The model of a dictionary node is `Dict` of its entry models.
pub broadcast proof fn lemma_model_dict(d: TransformedData)
    requires
        d is Dict,
    ensures
        #[trigger] d.dmodel() == DataModel::Dict(dmodel_entries(d->Dict_0@)),
{
}

/// The model of a list node is `List` of its element models.
pub broadcast proof fn lemma_model_list(d: TransformedData)
    requires
        d is List,
    ensures
        #[trigger] d.dmodel() == DataModel::List(dmodel_elems(d->List_0@)),
{
}

/// The value of the first entry with key `key`, if any.
pub open spec fn dict_get(es: Seq<(Seq<char>, DataModel)>, key: Seq<char>) -> Option<DataModel>
    decreases es.len(),
{
    if es.len() == 0 {
        None
    } else if es[0].0 == key {
        Some(es[0].1)
    } else {
        dict_get(es.skip(1), key)
    }
}

/// The entries with the first entry keyed `key` replaced by `(key, v)`, or
/// with `(key, v)` appended when no entry has that key.
pub open spec fn dict_set(
    es: Seq<(Seq<char>, DataModel)>,
    key: Seq<char>,
    v: DataModel,
) -> Seq<(Seq<char>, DataModel)>
    decreases es.len(),
{
    if es.len() == 0 {
        seq![(key, v)]
    } else if es[0].0 == key {
        seq![(key, v)].add(es.skip(1))
    } else {
        seq![es[0]].add(dict_set(es.skip(1), key, v))
    }
}

/// What `push_value` does: insert `(key, v)` into a dictionary (an empty key
/// is a malformed path), append `v` to a list, and fail fast on a leaf.
pub open spec fn spec_push_value(d: DataModel, key: Seq<char>, v: DataModel) -> Result<
    DataModel,
    ErrModel,
> {
    match d {
        DataModel::Dict(es) => if key.len() == 0 {
            Err(ErrModel::InvalidPath)
        } else {
            Ok(DataModel::Dict(dict_set(es, key, v)))
        },
        DataModel::List(l) => Ok(DataModel::List(l.push(v))),
        DataModel::Value(_) => Err(ErrModel::UnsupportedTarget),
    }
}

impl TransformedData {
    /// An empty dictionary's entries.
    pub fn create_data_map() -> (r: DataMap)
        ensures
            r@.len() == 0,
    {
        Vec::new()
    }

    /// An empty list's elements.
    pub fn create_data_vec() -> (r: DataVec)
        ensures
            r@.len() == 0,
    {
        Vec::new()
    }

    /// An empty dictionary node.
    pub fn create_dict() -> (r: Self)
        ensures
            r@ == DataModel::Dict(Seq::<(Seq<char>, DataModel)>::empty()),
    {
        let r = TransformedData::Dict(Vec::new());
        proof {
            assert(r@ matches DataModel::Dict(es) && es =~= Seq::<(Seq<char>, DataModel)>::empty());
        }
        r
    }

    /// An empty list node.
    pub fn create_list() -> (r: Self)
        ensures
            r@ == DataModel::List(Seq::<DataModel>::empty()),
    {
        let r = TransformedData::List(Vec::new());
        proof {
            assert(r@ matches DataModel::List(l) && l =~= Seq::<DataModel>::empty());
        }
        r
    }

    /// Whether the node holds nothing: an empty dictionary, list or string.
    pub fn is_empty(&self) -> (r: bool)
        ensures
            r == match self@ {
                DataModel::Dict(es) => es.len() == 0,
                DataModel::List(l) => l.len() == 0,
                DataModel::Value(s) => s.len() == 0,
            },
    {
        match self {
            TransformedData::Dict(m) => m.len() == 0,
            TransformedData::List(l) => l.len() == 0,
            TransformedData::Value(s) => s.unicode_len() == 0,
        }
    }

    /// Insert `value` under `key` (dictionary) or append it (list).
    /// Fails exactly as `spec_push_value` says: an empty key into a
    /// dictionary is `InvalidPath`, and a leaf target is `UnsupportedTarget`;
    /// on failure the node is unchanged.
    pub fn push_value(&mut self, key: &str, value: TransformedData) -> (r: Result<
        (),
        TransformError,
    >)
        ensures
            match spec_push_value(old(self)@, key@, value@) {
                Ok(d) => r is Ok && final(self)@ == d,
                Err(e) => (r matches Err(x) && x@ == e) && final(self)@ == old(self)@,
            },
    {
        let mut tmp = TransformedData::Value(String::new());
        core::mem::swap(self, &mut tmp);
        match tmp.with_value(key, value) {
            Ok(d) => {
                *self = d;
                Ok(())
            },
            Err((d, e)) => {
                *self = d;
                Err(e)
            },
        }
    }

    /// The owned form of `push_value`: returns the updated tree, or the tree
    /// unchanged beside the error.
    #[verifier::loop_isolation(false)]
    fn with_value(self, key: &str, value: TransformedData) -> (r: Result<
        TransformedData,
        (TransformedData, TransformError),
    >)
        ensures
            match spec_push_value(self@, key@, value@) {
                Ok(d) => r matches Ok(out) && out@ == d,
                Err(e) => r matches Err(p) && p.0 == self && (p.1)@ == e,
            },
    {
        proof {
            if self is Dict {
                lemma_model_dict(self);
            }
            if self is List {
                lemma_model_list(self);
            }
        }
        match self {
            TransformedData::Dict(mut m) => {
                proof {
                    assert(self == TransformedData::Dict(m));
                    assert(self->Dict_0@ == m@);
                }
                if key.unicode_len() == 0 {
                    proof {
                        lemma_model_dict(TransformedData::Dict(m));
                    }
                    return Err((TransformedData::Dict(m), TransformError::InvalidPath));
                }
                let key_s = String::from_str(key);
                let ghost es0 = m@;
                let mut j: usize = 0;
                while j < m.len() && !(m[j].0 == key_s)
                    invariant
                        j <= m@.len(),
                        forall|k: int| 0 <= k < j ==> (#[trigger] es0[k].0)@ != key@,
                    decreases m@.len() - j,
                {
                    j = j + 1;
                }
                if j < m.len() {
                    let _ = m.remove(j);
                    m.insert(j, (key_s, value));
                    proof {
                        lemma_entries_model(es0);
                        lemma_entries_model(m@);
                        assert(m@ =~= es0.update(j as int, (key_s, value)));
                        lemma_dict_set_found(dmodel_entries(es0), key@, value@, j as int);
                        assert(dmodel_entries(m@) =~= dict_set(dmodel_entries(es0), key@, value@));
                        lemma_model_dict(TransformedData::Dict(m));
                    }
                    return Ok(TransformedData::Dict(m));
                }
                m.push((key_s, value));
                proof {
                    lemma_entries_model(es0);
                    lemma_entries_model(m@);
                    lemma_dict_set_missing(dmodel_entries(es0), key@, value@);
                    assert(dmodel_entries(m@) =~= dict_set(dmodel_entries(es0), key@, value@));
                    lemma_model_dict(TransformedData::Dict(m));
                }
                Ok(TransformedData::Dict(m))
            },
            TransformedData::List(mut l) => {
                let ghost l0 = l@;
                l.push(value);
                proof {
                    lemma_elems_model(l0);
                    lemma_elems_model(l@);
                    assert(dmodel_elems(l@) =~= dmodel_elems(l0).push(value@));
                    lemma_model_list(TransformedData::List(l));
                }
                Ok(TransformedData::List(l))
            },
            TransformedData::Value(s) => Err(
                (TransformedData::Value(s), TransformError::UnsupportedTarget),
            ),
        }
    }
}

/// The model of a dictionary's entry vector.
pub open spec fn dmodel_entries(es: Seq<(String, TransformedData)>) -> Seq<(Seq<char>, DataModel)>
    decreases es,
{
    proof {
        if es.len() > 0 {
            assert(decreases_to!(es => es[0]));
            assert(decreases_to!(es => es.skip(1)));
        }
    }
    if es.len() == 0 {
        Seq::empty()
    } else {
        seq![((es[0].0)@, es[0].1.dmodel())].add(dmodel_entries(es.skip(1)))
    }
}

/// The model of a list's element vector.
pub open spec fn dmodel_elems(l: Seq<TransformedData>) -> Seq<DataModel>
    decreases l,
{
    proof {
        if l.len() > 0 {
            assert(decreases_to!(l => l[0]));
            assert(decreases_to!(l => l.skip(1)));
        }
    }
    if l.len() == 0 {
        Seq::empty()
    } else {
        seq![l[0].dmodel()].add(dmodel_elems(l.skip(1)))
    }
}

impl TransformedData {
    /// The owned form of `push_value_path`, over already-split segments,
    /// starting at segment `i`. On failure the returned tree models the
    /// input unchanged.
    #[verifier::loop_isolation(false)]
    fn with_segs(self, segs: &Vec<String>, i: usize, value: TransformedData) -> (r: Result<
        TransformedData,
        (TransformedData, TransformError),
    >)
        requires
            i < segs@.len(),
        ensures
            match spec_push_segs(self@, segs_model(segs@).skip(i as int), value@) {
                Ok(d) => r matches Ok(out) && out@ == d,
                Err(e) => r matches Err(p) && p.0@ == self@ && (p.1)@ == e,
            },
        decreases segs@.len() - i,
    {
        let ghost gsegs = segs_model(segs@).skip(i as int);
        if i == segs.len() - 1 {
            proof {
                assert(gsegs.len() == 1);
                assert(gsegs[0] == (segs@[i as int])@);
            }
            return match self.with_value(segs[i].as_str(), value) {
                Ok(out) => Ok(out),
                Err(p) => Err(p),
            };
        }
        proof {
            assert(gsegs.len() >= 2);
            assert(gsegs[0] == (segs@[i as int])@);
            assert(gsegs.skip(1) =~= segs_model(segs@).skip(i + 1));
        }
        match self {
            TransformedData::Value(s) => Err(
                (TransformedData::Value(s), TransformError::UnsupportedTarget),
            ),
            TransformedData::List(mut l) => {
                proof {
                    lemma_model_list(TransformedData::List(l));
                }
                let ghost l0 = l@;
                let fresh = TransformedData::create_dict();
                match fresh.with_segs(segs, i + 1, value) {
                    Ok(child) => {
                        l.push(child);
                        proof {
                            lemma_elems_model(l0);
                            lemma_elems_model(l@);
                            assert(dmodel_elems(l@) =~= dmodel_elems(l0).push(child@));
                            lemma_model_list(TransformedData::List(l));
                        }
                        Ok(TransformedData::List(l))
                    },
                    Err((_, e)) => Err((TransformedData::List(l), e)),
                }
            },
            TransformedData::Dict(mut m) => {
                proof {
                    lemma_model_dict(TransformedData::Dict(m));
                }
                let ghost es0 = m@;
                if segs[i].as_str().unicode_len() == 0 {
                    return Err((TransformedData::Dict(m), TransformError::InvalidPath));
                }
                let mut j: usize = 0;
                while j < m.len() && !(m[j].0 == segs[i])
                    invariant
                        j <= m@.len(),
                        forall|k: int| 0 <= k < j ==> (#[trigger] es0[k].0)@ != (segs@[i as int])@,
                    decreases m@.len() - j,
                {
                    j = j + 1;
                }
                let ghost key = (segs@[i as int])@;
                proof {
                    lemma_entries_model(es0);
                }
                if j < m.len() {
                    let (k_s, child) = m.remove(j);
                    proof {
                        assert((dmodel_entries(es0)[j as int]).0 == key);
                        assert(forall|k: int|
                            0 <= k < j ==> (#[trigger] dmodel_entries(es0)[k]).0 != key);
                        lemma_dict_get_found(dmodel_entries(es0), key, j as int);
                        assert(child@ == dmodel_entries(es0)[j as int].1);
                    }
                    match child.with_segs(segs, i + 1, value) {
                        Ok(ch) => {
                            m.insert(j, (k_s, ch));
                            proof {
                                assert(m@ =~= es0.update(j as int, (k_s, ch)));
                                lemma_dict_set_found(dmodel_entries(es0), key, ch@, j as int);
                                lemma_entries_model(m@);
                                assert(dmodel_entries(m@) =~= dict_set(
                                    dmodel_entries(es0),
                                    key,
                                    ch@,
                                ));
                                lemma_model_dict(TransformedData::Dict(m));
                            }
                            Ok(TransformedData::Dict(m))
                        },
                        Err((child_back, e)) => {
                            m.insert(j, (k_s, child_back));
                            proof {
                                assert(m@ =~= es0.update(j as int, (k_s, child_back)));
                                lemma_entries_model(m@);
                                assert(dmodel_entries(m@) =~= dmodel_entries(es0));
                                lemma_model_dict(TransformedData::Dict(m));
                            }
                            Err((TransformedData::Dict(m), e))
                        },
                    }
                } else {
                    proof {
                        assert(forall|k: int|
                            0 <= k < es0.len() ==> (#[trigger] dmodel_entries(es0)[k]).0 != key);
                        lemma_dict_get_missing(dmodel_entries(es0), key);
                    }
                    let key_s = String::from_str(segs[i].as_str());
                    let fresh = TransformedData::create_dict();
                    match fresh.with_segs(segs, i + 1, value) {
                        Ok(ch) => {
                            m.push((key_s, ch));
                            proof {
                                lemma_dict_set_missing(dmodel_entries(es0), key, ch@);
                                lemma_entries_model(m@);
                                assert(dmodel_entries(m@) =~= dict_set(
                                    dmodel_entries(es0),
                                    key,
                                    ch@,
                                ));
                                lemma_model_dict(TransformedData::Dict(m));
                            }
                            Ok(TransformedData::Dict(m))
                        },
                        Err((_, e)) => Err((TransformedData::Dict(m), e)),
                    }
                }
            },
        }
    }

    /// Append `value` to a list node, as `push_value` with an empty key.
    pub fn push_value_to_list(&mut self, value: TransformedData) -> (r: Result<
        (),
        TransformError,
    >)
        ensures
            match spec_push_value(old(self)@, Seq::empty(), value@) {
                Ok(d) => r is Ok && final(self)@ == d,
                Err(e) => (r matches Err(x) && x@ == e) && final(self)@ == old(self)@,
            },
    {
        proof {
            reveal_strlit("");
            assert(""@ =~= Seq::<char>::empty());
        }
        self.push_value("", value)
    }

    /// Write `value` at the dot-separated `path`, creating intermediate
    /// dictionaries, per `spec_push_path`; on failure the tree is unchanged.
    pub fn push_value_path(&mut self, path: &str, value: TransformedData) -> (r: Result<
        (),
        TransformError,
    >)
        ensures
            match spec_push_path(old(self)@, path@, value@) {
                Ok(d) => r is Ok && final(self)@ == d,
                Err(e) => (r matches Err(x) && x@ == e) && final(self)@ == old(self)@,
            },
    {
        let trimmed = trim_char(path, '.');
        let mut segs: Vec<String>;
        if trimmed.as_str().unicode_len() == 0 && path.unicode_len() > 0 {
            segs = Vec::new();
            segs.push(String::from_str(path));
            proof {
                assert(segs_model(segs@) =~= seq![path@]);
                assert(segs_model(segs@) =~= spec_effective_segments(path@));
            }
        } else {
            segs = split_char(trimmed.as_str(), '.');
            proof {
                assert(segs_model(segs@) =~= spec_split_char(spec_trim_char(path@, '.'), '.'));
                assert(segs_model(segs@) =~= spec_effective_segments(path@));
            }
        }
        proof {
            assert(segs_model(segs@).skip(0) =~= spec_effective_segments(path@));
        }
        let mut tmp = TransformedData::Value(String::new());
        core::mem::swap(self, &mut tmp);
        match tmp.with_segs(&segs, 0, value) {
            Ok(d) => {
                *self = d;
                Ok(())
            },
            Err((d, e)) => {
                *self = d;
                Err(e)
            },
        }
    }

    /// The value under `key` in a dictionary node; `None` on a missing key
    /// or a non-dictionary node.
    #[verifier::loop_isolation(false)]
    pub fn get<'a>(&'a self, key: &str) -> (r: Option<&'a TransformedData>)
        ensures
            match self@ {
                DataModel::Dict(es) => match r {
                    Some(v) => dict_get(es, key@) == Some(v@),
                    None => dict_get(es, key@) is None,
                },
                _ => r is None,
            },
    {
        match self {
            TransformedData::Dict(m) => {
                proof {
                    lemma_model_dict(*self);
                    lemma_entries_model(m@);
                }
                let key_s = String::from_str(key);
                let mut j: usize = 0;
                while j < m.len() && !(m[j].0 == key_s)
                    invariant
                        j <= m@.len(),
                        forall|k: int| 0 <= k < j ==> (#[trigger] m@[k].0)@ != key@,
                    decreases m@.len() - j,
                {
                    j = j + 1;
                }
                if j < m.len() {
                    proof {
                        assert((dmodel_entries(m@)[j as int]).0 == key@);
                        assert(forall|k: int|
                            0 <= k < j ==> (#[trigger] dmodel_entries(m@)[k]).0 != key@);
                        lemma_dict_get_found(dmodel_entries(m@), key@, j as int);
                    }
                    Some(&m[j].1)
                } else {
                    proof {
                        assert(forall|k: int|
                            0 <= k < m@.len() ==> (#[trigger] dmodel_entries(m@)[k]).0 != key@);
                        lemma_dict_get_missing(dmodel_entries(m@), key@);
                    }
                    None
                }
            },
            TransformedData::List(_) => None,
            TransformedData::Value(_) => None,
        }
    }

    /// Whether the node is a list.
    pub fn is_list(&self) -> (r: bool)
        ensures
            r == (self@ is List),
    {
        match self {
            TransformedData::List(_) => true,
            TransformedData::Dict(_) => false,
            TransformedData::Value(_) => false,
        }
    }

    /// Whether the node is a dictionary.
    pub fn is_dict(&self) -> (r: bool)
        ensures
            r == (self@ is Dict),
    {
        match self {
            TransformedData::Dict(_) => true,
            TransformedData::List(_) => false,
            TransformedData::Value(_) => false,
        }
    }

    /// The entries of a dictionary node.
    pub fn exract_dict(&self) -> (r: &DataMap)
        requires
            self@ is Dict,
        ensures
            dmodel_entries(r@) == self@->Dict_0,
    {
        proof {
            lemma_model_dict(*self);
        }
        match self {
            TransformedData::Dict(m) => m,
            TransformedData::List(_) => vstd::pervasive::unreached(),
            TransformedData::Value(_) => vstd::pervasive::unreached(),
        }
    }

    /// The elements of a list node.
    pub fn exract_list(&self) -> (r: &DataVec)
        requires
            self@ is List,
        ensures
            dmodel_elems(r@) == self@->List_0,
    {
        proof {
            lemma_model_list(*self);
        }
        match self {
            TransformedData::List(l) => l,
            TransformedData::Dict(_) => vstd::pervasive::unreached(),
            TransformedData::Value(_) => vstd::pervasive::unreached(),
        }
    }

    /// The string of a leaf node.
    pub fn exract_value(&self) -> (r: &String)
        requires
            self@ is Value,
        ensures
            r@ == self@->Value_0,
    {
        match self {
            TransformedData::Value(s) => s,
            TransformedData::Dict(_) => vstd::pervasive::unreached(),
            TransformedData::List(_) => vstd::pervasive::unreached(),
        }
    }
}

/// What `as_group_list_wrapper` does: append `entry` to the list found at
/// `key` (a fresh list replaces a missing or non-list value), or directly to
/// a list node; a leaf target fails fast.
pub open spec fn spec_push_group(d: DataModel, key: Seq<char>, entry: DataModel) -> Result<
    DataModel,
    ErrModel,
> {
    match d {
        DataModel::Value(_) => Err(ErrModel::UnsupportedTarget),
        DataModel::List(l) => Ok(DataModel::List(l.push(entry))),
        DataModel::Dict(es) => if key.len() == 0 {
            Err(ErrModel::InvalidPath)
        } else {
            let lst = match dict_get(es, key) {
                Some(DataModel::List(l)) => l,
                _ => Seq::<DataModel>::empty(),
            };
            Ok(DataModel::Dict(dict_set(es, key, DataModel::List(lst.push(entry)))))
        },
    }
}

impl TransformedData {
    /// The entries of a dictionary node, mutably. The final node is the
    /// dictionary of whatever the caller leaves in the entries.
    pub fn exract_dict_mut(&mut self) -> (r: &mut DataMap)
        requires
            old(self)@ is Dict,
        ensures
            dmodel_entries((*r)@) == old(self)@->Dict_0,
            *final(self) == TransformedData::Dict(*final(r)),
    {
        proof {
            lemma_model_dict(*old(self));
        }
        match self {
            TransformedData::Dict(m) => m,
            TransformedData::List(_) => vstd::pervasive::unreached(),
            TransformedData::Value(_) => vstd::pervasive::unreached(),
        }
    }

    /// The elements of a list node, mutably.
    pub fn exract_list_mut(&mut self) -> (r: &mut DataVec)
        requires
            old(self)@ is List,
        ensures
            dmodel_elems((*r)@) == old(self)@->List_0,
            *final(self) == TransformedData::List(*final(r)),
    {
        proof {
            lemma_model_list(*old(self));
        }
        match self {
            TransformedData::List(l) => l,
            TransformedData::Dict(_) => vstd::pervasive::unreached(),
            TransformedData::Value(_) => vstd::pervasive::unreached(),
        }
    }

    /// The entries of a dictionary node, mutably; `prepare_dict` is the
    /// name the write path of the transform engine historically used.
    pub fn prepare_dict(&mut self) -> (r: &mut DataMap)
        requires
            old(self)@ is Dict,
        ensures
            dmodel_entries((*r)@) == old(self)@->Dict_0,
            *final(self) == TransformedData::Dict(*final(r)),
    {
        self.exract_dict_mut()
    }

    /// Make the node able to take keyed writes: a dictionary is left alone,
    /// a list gets a fresh dictionary appended, and a leaf fails fast.
    pub fn as_map_wrapper(&mut self) -> (r: Result<(), TransformError>)
        ensures
            match old(self)@ {
                DataModel::Dict(_) => r is Ok && final(self)@ == old(self)@,
                DataModel::List(l) => r is Ok && final(self)@ == DataModel::List(
                    l.push(DataModel::Dict(Seq::empty())),
                ),
                DataModel::Value(_) => (r matches Err(x) && x@ == ErrModel::UnsupportedTarget)
                    && final(self)@ == old(self)@,
            },
    {
        proof {
            if *old(self) is Dict {
                lemma_model_dict(*old(self));
            }
            if *old(self) is List {
                lemma_model_list(*old(self));
            }
        }
        let mut tmp = TransformedData::Value(String::new());
        core::mem::swap(self, &mut tmp);
        match tmp {
            TransformedData::Dict(m) => {
                *self = TransformedData::Dict(m);
                proof {
                    lemma_model_dict(*self);
                }
                Ok(())
            },
            TransformedData::List(mut l) => {
                let ghost l0 = l@;
                l.push(TransformedData::Dict(Vec::new()));
                proof {
                    lemma_elems_model(l0);
                    lemma_elems_model(l@);
                    assert(dmodel_elems(l@) =~= dmodel_elems(l0).push(
                        DataModel::Dict(Seq::empty()),
                    ));
                    lemma_model_list(TransformedData::List(l));
                }
                *self = TransformedData::List(l);
                Ok(())
            },
            TransformedData::Value(s) => {
                *self = TransformedData::Value(s);
                Err(TransformError::UnsupportedTarget)
            },
        }
    }

    /// Open a group: append `entry` to the list found or created at
    /// `grouping_key`, per `spec_push_group`. On failure the node is
    /// unchanged.
    #[verifier::loop_isolation(false)]
    pub fn as_group_list_wrapper(&mut self, grouping_key: &str, entry: TransformedData) -> (r:
        Result<(), TransformError>)
        ensures
            match spec_push_group(old(self)@, grouping_key@, entry@) {
                Ok(d) => r is Ok && final(self)@ == d,
                Err(e) => (r matches Err(x) && x@ == e) && final(self)@ == old(self)@,
            },
    {
        proof {
            if *old(self) is Dict {
                lemma_model_dict(*old(self));
            }
            if *old(self) is List {
                lemma_model_list(*old(self));
            }
        }
        let mut tmp = TransformedData::Value(String::new());
        core::mem::swap(self, &mut tmp);
        match tmp {
            TransformedData::Value(s) => {
                *self = TransformedData::Value(s);
                Err(TransformError::UnsupportedTarget)
            },
            TransformedData::List(mut l) => {
                let ghost l0 = l@;
                l.push(entry);
                proof {
                    lemma_elems_model(l0);
                    lemma_elems_model(l@);
                    assert(dmodel_elems(l@) =~= dmodel_elems(l0).push(entry@));
                    lemma_model_list(TransformedData::List(l));
                }
                *self = TransformedData::List(l);
                Ok(())
            },
            TransformedData::Dict(mut m) => {
                proof {
                    lemma_model_dict(TransformedData::Dict(m));
                    lemma_entries_model(m@);
                }
                let ghost es0 = m@;
                let ghost key = grouping_key@;
                if grouping_key.unicode_len() == 0 {
                    *self = TransformedData::Dict(m);
                    return Err(TransformError::InvalidPath);
                }
                let key_s = String::from_str(grouping_key);
                let mut j: usize = 0;
                while j < m.len() && !(m[j].0 == key_s)
                    invariant
                        j <= m@.len(),
                        key_s@ == key,
                        forall|k: int| 0 <= k < j ==> (#[trigger] es0[k].0)@ != key,
                    decreases m@.len() - j,
                {
                    j = j + 1;
                }
                if j < m.len() {
                    proof {
                        assert((dmodel_entries(es0)[j as int]).0 == key);
                        assert(forall|k: int|
                            0 <= k < j ==> (#[trigger] dmodel_entries(es0)[k]).0 != key);
                        lemma_dict_get_found(dmodel_entries(es0), key, j as int);
                    }
                    let (k_s, child) = m.remove(j);
                    let mut lst: DataVec = match child {
                        TransformedData::List(l) => l,
                        TransformedData::Dict(_) => Vec::new(),
                        TransformedData::Value(_) => Vec::new(),
                    };
                    let ghost lst0 = lst@;
                    proof {
                        if child is List {
                            lemma_model_list(child);
                        } else {
                            assert(dmodel_elems(lst0) =~= Seq::<DataModel>::empty());
                        }
                    }
                    lst.push(entry);
                    proof {
                        lemma_elems_model(lst0);
                        lemma_elems_model(lst@);
                        assert(dmodel_elems(lst@) =~= dmodel_elems(lst0).push(entry@));
                    }
                    m.insert(j, (k_s, TransformedData::List(lst)));
                    proof {
                        lemma_model_list(TransformedData::List(lst));
                        assert(m@ =~= es0.update(j as int, (k_s, TransformedData::List(lst))));
                        lemma_dict_set_found(
                            dmodel_entries(es0),
                            key,
                            TransformedData::List(lst)@,
                            j as int,
                        );
                        lemma_entries_model(m@);
                        assert(dmodel_entries(m@) =~= dict_set(
                            dmodel_entries(es0),
                            key,
                            TransformedData::List(lst)@,
                        ));
                        lemma_model_dict(TransformedData::Dict(m));
                    }
                    *self = TransformedData::Dict(m);
                    Ok(())
                } else {
                    proof {
                        assert(forall|k: int|
                            0 <= k < es0.len() ==> (#[trigger] dmodel_entries(es0)[k]).0 != key);
                        lemma_dict_get_missing(dmodel_entries(es0), key);
                    }
                    let mut lst: DataVec = Vec::new();
                    let ghost lst0 = lst@;
                    lst.push(entry);
                    proof {
                        lemma_elems_model(lst0);
                        lemma_elems_model(lst@);
                        assert(dmodel_elems(lst@) =~= Seq::<DataModel>::empty().push(entry@));
                    }
                    m.push((key_s, TransformedData::List(lst)));
                    proof {
                        lemma_model_list(TransformedData::List(lst));
                        lemma_dict_set_missing(dmodel_entries(es0), key, TransformedData::List(lst)@);
                        lemma_entries_model(m@);
                        assert(dmodel_entries(m@) =~= dict_set(
                            dmodel_entries(es0),
                            key,
                            TransformedData::List(lst)@,
                        ));
                        lemma_model_dict(TransformedData::Dict(m));
                    }
                    *self = TransformedData::Dict(m);
                    Ok(())
                }
            },
        }
    }

    /// Put a list where keyed group writes will land: a list node is left
    /// alone; a dictionary gets a fresh empty list at `key` unless a list
    /// already sits there; a leaf fails fast.
    pub fn as_list_wrapper(&mut self, key: &str) -> (r: Result<(), TransformError>)
        ensures
            match old(self)@ {
                DataModel::Value(_) => (r matches Err(x) && x@ == ErrModel::UnsupportedTarget)
                    && final(self)@ == old(self)@,
                DataModel::List(_) => r is Ok && final(self)@ == old(self)@,
                DataModel::Dict(es) => if key@.len() == 0 {
                    (r matches Err(x) && x@ == ErrModel::InvalidPath) && final(self)@
                        == old(self)@
                } else {
                    r is Ok && final(self)@ == DataModel::Dict(
                        dict_set(
                            es,
                            key@,
                            match dict_get(es, key@) {
                                Some(DataModel::List(l)) => DataModel::List(l),
                                _ => DataModel::List(Seq::empty()),
                            },
                        ),
                    )
                },
            },
    {
        proof {
            if *old(self) is Dict {
                lemma_model_dict(*old(self));
            }
        }
        match self {
            TransformedData::Value(_) => Err(TransformError::UnsupportedTarget),
            TransformedData::List(_) => Ok(()),
            TransformedData::Dict(_) => {
                let ghost es = old(self)@->Dict_0;
                let mut tmp = TransformedData::Value(String::new());
                core::mem::swap(self, &mut tmp);
                let ghost target = match dict_get(es, key@) {
                    Some(DataModel::List(l)) => DataModel::List(l),
                    _ => DataModel::List(Seq::<DataModel>::empty()),
                };
                match tmp.ensure_list_at(key) {
                    Ok(d) => {
                        *self = d;
                        Ok(())
                    },
                    Err((d, e)) => {
                        *self = d;
                        Err(e)
                    },
                }
            },
        }
    }

    /// The owned worker of `as_list_wrapper` for dictionary nodes.
    #[verifier::loop_isolation(false)]
    fn ensure_list_at(self, key: &str) -> (r: Result<
        TransformedData,
        (TransformedData, TransformError),
    >)
        requires
            self@ is Dict,
        ensures
            ({
                let es = self@->Dict_0;
                if key@.len() == 0 {
                    r matches Err(p) && p.0@ == self@ && (p.1)@ == ErrModel::InvalidPath
                } else {
                    r matches Ok(out) && out@ == DataModel::Dict(
                        dict_set(
                            es,
                            key@,
                            match dict_get(es, key@) {
                                Some(DataModel::List(l)) => DataModel::List(l),
                                _ => DataModel::List(Seq::empty()),
                            },
                        ),
                    )
                }
            }),
    {
        proof {
            lemma_model_dict(self);
        }
        match self {
            TransformedData::Dict(mut m) => {
                proof {
                    lemma_entries_model(m@);
                }
                let ghost es0 = m@;
                let ghost key_g = key@;
                if key.unicode_len() == 0 {
                    return Err((TransformedData::Dict(m), TransformError::InvalidPath));
                }
                let key_s = String::from_str(key);
                let mut j: usize = 0;
                while j < m.len() && !(m[j].0 == key_s)
                    invariant
                        j <= m@.len(),
                        key_s@ == key_g,
                        forall|k: int| 0 <= k < j ==> (#[trigger] es0[k].0)@ != key_g,
                    decreases m@.len() - j,
                {
                    j = j + 1;
                }
                if j < m.len() {
                    proof {
                        assert((dmodel_entries(es0)[j as int]).0 == key_g);
                        assert(forall|k: int|
                            0 <= k < j ==> (#[trigger] dmodel_entries(es0)[k]).0 != key_g);
                        lemma_dict_get_found(dmodel_entries(es0), key_g, j as int);
                    }
                    let (k_s, child) = m.remove(j);
                    let lst: DataVec = match child {
                        TransformedData::List(l) => l,
                        TransformedData::Dict(_) => Vec::new(),
                        TransformedData::Value(_) => Vec::new(),
                    };
                    proof {
                        if child is List {
                            lemma_model_list(child);
                        } else {
                            assert(dmodel_elems(lst@) =~= Seq::<DataModel>::empty());
                        }
                    }
                    m.insert(j, (k_s, TransformedData::List(lst)));
                    proof {
                        lemma_model_list(TransformedData::List(lst));
                        assert(m@ =~= es0.update(j as int, (k_s, TransformedData::List(lst))));
                        lemma_dict_set_found(
                            dmodel_entries(es0),
                            key_g,
                            TransformedData::List(lst)@,
                            j as int,
                        );
                        lemma_entries_model(m@);
                        assert(dmodel_entries(m@) =~= dict_set(
                            dmodel_entries(es0),
                            key_g,
                            TransformedData::List(lst)@,
                        ));
                        lemma_model_dict(TransformedData::Dict(m));
                    }
                    Ok(TransformedData::Dict(m))
                } else {
                    proof {
                        assert(forall|k: int|
                            0 <= k < es0.len() ==> (#[trigger] dmodel_entries(es0)[k]).0 != key_g);
                        lemma_dict_get_missing(dmodel_entries(es0), key_g);
                    }
                    let lst: DataVec = Vec::new();
                    m.push((key_s, TransformedData::List(lst)));
                    proof {
                        assert(dmodel_elems(Seq::<TransformedData>::empty()) =~= Seq::<
                            DataModel,
                        >::empty());
                        lemma_dict_set_missing(
                            dmodel_entries(es0),
                            key_g,
                            DataModel::List(Seq::empty()),
                        );
                        lemma_entries_model(m@);
                        assert(dmodel_entries(m@) =~= dict_set(
                            dmodel_entries(es0),
                            key_g,
                            DataModel::List(Seq::empty()),
                        ));
                        lemma_model_dict(TransformedData::Dict(m));
                    }
                    Ok(TransformedData::Dict(m))
                }
            },
            TransformedData::List(_) => vstd::pervasive::unreached(),
            TransformedData::Value(_) => vstd::pervasive::unreached(),
        }
    }
}

/// Pointwise description of `dmodel_entries`.
pub proof fn lemma_entries_model(es: Seq<(String, TransformedData)>)
    ensures
        dmodel_entries(es).len() == es.len(),
        forall|i: int|
            0 <= i < es.len() ==> #[trigger] dmodel_entries(es)[i] == (
                (es[i].0)@,
                es[i].1.dmodel(),
            ),
    decreases es.len(),
{
    if es.len() > 0 {
        lemma_entries_model(es.skip(1));
    }
}

/// Pointwise description of `dmodel_elems`.
pub proof fn lemma_elems_model(l: Seq<TransformedData>)
    ensures
        dmodel_elems(l).len() == l.len(),
        forall|i: int| 0 <= i < l.len() ==> #[trigger] dmodel_elems(l)[i] == l[i].dmodel(),
    decreases l.len(),
{
    if l.len() > 0 {
        lemma_elems_model(l.skip(1));
    }
}

/// The model of a vector of key segments.
pub open spec fn segs_model(ss: Seq<String>) -> Seq<Seq<char>> {
    Seq::new(ss.len(), |i: int| (ss[i])@)
}

/// The key segments a path denotes: the path is stripped of leading and
/// trailing dots and split at dots; a path of dots alone degrades to one
/// literal key equal to the whole original path.
pub open spec fn spec_effective_segments(path: Seq<char>) -> Seq<Seq<char>> {
    let t = spec_trim_char(path, '.');
    if t.len() == 0 && path.len() > 0 {
        seq![path]
    } else {
        spec_split_char(t, '.')
    }
}

/// What `push_value_path` does, on segments: the last segment is written
/// with `spec_push_value`; an earlier segment walks into an existing entry
/// of a dictionary (creating a fresh dictionary when the key is absent), and
/// appends a fresh dictionary to a list; empty keys and leaf targets fail.
pub open spec fn spec_push_segs(d: DataModel, segs: Seq<Seq<char>>, v: DataModel) -> Result<
    DataModel,
    ErrModel,
>
    decreases segs.len(),
{
    if segs.len() == 0 {
        Err(ErrModel::InvalidPath)
    } else if segs.len() == 1 {
        spec_push_value(d, segs[0], v)
    } else {
        match d {
            DataModel::Value(_) => Err(ErrModel::UnsupportedTarget),
            DataModel::List(l) => match spec_push_segs(
                DataModel::Dict(Seq::empty()),
                segs.skip(1),
                v,
            ) {
                Ok(child) => Ok(DataModel::List(l.push(child))),
                Err(e) => Err(e),
            },
            DataModel::Dict(es) => if segs[0].len() == 0 {
                Err(ErrModel::InvalidPath)
            } else {
                let child0 = match dict_get(es, segs[0]) {
                    Some(ch) => ch,
                    None => DataModel::Dict(Seq::empty()),
                };
                match spec_push_segs(child0, segs.skip(1), v) {
                    Ok(ch) => Ok(DataModel::Dict(dict_set(es, segs[0], ch))),
                    Err(e) => Err(e),
                }
            },
        }
    }
}

/// What `push_value_path` does, on the path text.
pub open spec fn spec_push_path(d: DataModel, path: Seq<char>, v: DataModel) -> Result<
    DataModel,
    ErrModel,
> {
    spec_push_segs(d, spec_effective_segments(path), v)
}

/// `dict_get` finds the value at the first index holding the key.
pub proof fn lemma_dict_get_found(es: Seq<(Seq<char>, DataModel)>, key: Seq<char>, j: int)
    requires
        0 <= j < es.len(),
        es[j].0 == key,
        forall|k: int| 0 <= k < j ==> (#[trigger] es[k]).0 != key,
    ensures
        dict_get(es, key) == Some(es[j].1),
    decreases es.len(),
{
    if j > 0 {
        lemma_dict_get_found(es.skip(1), key, j - 1);
    }
}

/// `dict_get` misses exactly when no entry holds the key.
pub proof fn lemma_dict_get_missing(es: Seq<(Seq<char>, DataModel)>, key: Seq<char>)
    requires
        forall|k: int| 0 <= k < es.len() ==> (#[trigger] es[k]).0 != key,
    ensures
        dict_get(es, key) is None,
    decreases es.len(),
{
    if es.len() > 0 {
        lemma_dict_get_missing(es.skip(1), key);
    }
}

/// Reading through nested dictionaries, one key per segment.
pub open spec fn spec_get_path(d: DataModel, segs: Seq<Seq<char>>) -> Option<DataModel>
    decreases segs.len(),
{
    if segs.len() == 0 {
        Some(d)
    } else {
        match d {
            DataModel::Dict(es) => match dict_get(es, segs[0]) {
                Some(ch) => spec_get_path(ch, segs.skip(1)),
                None => None,
            },
            _ => None,
        }
    }
}

/// Whether a write along `segs` meets only dictionaries in `d`: every node
/// that already exists on the path is a dictionary.
pub open spec fn dict_path_ok(d: DataModel, segs: Seq<Seq<char>>) -> bool
    decreases segs.len(),
{
    if segs.len() == 0 {
        true
    } else {
        match d {
            DataModel::Dict(es) => match dict_get(es, segs[0]) {
                Some(ch) => dict_path_ok(ch, segs.skip(1)),
                None => true,
            },
            _ => false,
        }
    }
}

/// Whether every segment is a non-empty key.
pub open spec fn all_nonempty(segs: Seq<Seq<char>>) -> bool {
    forall|k: int| 0 <= k < segs.len() ==> (#[trigger] segs[k]).len() > 0
}

/// After `dict_set`, the written key reads back the written value.
proof fn lemma_dict_get_set_same(es: Seq<(Seq<char>, DataModel)>, k: Seq<char>, v: DataModel)
    ensures
        dict_get(dict_set(es, k, v), k) == Some(v),
    decreases es.len(),
{
    if es.len() > 0 && es[0].0 != k {
        lemma_dict_get_set_same(es.skip(1), k, v);
        assert(dict_set(es, k, v).skip(1) =~= dict_set(es.skip(1), k, v));
    } else if es.len() > 0 {
        assert(dict_set(es, k, v)[0] == (k, v));
    }
}

/// `dict_set` of one key leaves every other key's value alone.
proof fn lemma_dict_get_set_other(
    es: Seq<(Seq<char>, DataModel)>,
    k1: Seq<char>,
    k2: Seq<char>,
    v: DataModel,
)
    requires
        k1 != k2,
    ensures
        dict_get(dict_set(es, k2, v), k1) == dict_get(es, k1),
    decreases es.len(),
{
    if es.len() == 0 {
        assert(dict_set(es, k2, v)[0] == (k2, v));
        assert(dict_set(es, k2, v).skip(1) =~= es);
    } else if es[0].0 == k2 {
        assert(dict_set(es, k2, v)[0] == (k2, v));
        assert(dict_set(es, k2, v).skip(1) =~= es.skip(1));
    } else {
        lemma_dict_get_set_other(es.skip(1), k1, k2, v);
        assert(dict_set(es, k2, v)[0] == es[0]);
        assert(dict_set(es, k2, v).skip(1) =~= dict_set(es.skip(1), k2, v));
    }
}

/// Law: writing a value down a path of non-empty keys that meets only
/// dictionaries succeeds, and reading the same path afterwards yields
/// exactly the written value.
pub proof fn lemma_push_then_get(d: DataModel, segs: Seq<Seq<char>>, v: DataModel)
    requires
        segs.len() >= 1,
        all_nonempty(segs),
        dict_path_ok(d, segs),
    ensures
        spec_push_segs(d, segs, v) matches Ok(d2) && spec_get_path(d2, segs) == Some(v),
    decreases segs.len(),
{
    let es = d->Dict_0;
    let k = segs[0];
    assert(segs[0].len() > 0);
    if segs.len() == 1 {
        lemma_dict_get_set_same(es, k, v);
        assert(segs.skip(1).len() == 0);
        assert(spec_get_path(v, segs.skip(1)) == Some(v));
        assert(spec_get_path(DataModel::Dict(dict_set(es, k, v)), segs) == Some(v));
    } else {
        assert(all_nonempty(segs.skip(1))) by {
            assert forall|q: int| 0 <= q < segs.skip(1).len() implies (#[trigger] segs.skip(1)[q]).len()
                > 0 by {
                assert(segs.skip(1)[q] == segs[q + 1]);
            }
        }
        match dict_get(es, k) {
            Some(ch) => {
                lemma_push_then_get(ch, segs.skip(1), v);
                let ch2 = match spec_push_segs(ch, segs.skip(1), v) {
                    Ok(c) => c,
                    Err(_) => ch,
                };
                lemma_dict_get_set_same(es, k, ch2);
            },
            None => {
                lemma_push_then_get(DataModel::Dict(Seq::empty()), segs.skip(1), v);
                let ch2 = match spec_push_segs(DataModel::Dict(Seq::empty()), segs.skip(1), v) {
                    Ok(c) => c,
                    Err(_) => DataModel::Dict(Seq::empty()),
                };
                lemma_dict_get_set_same(es, k, ch2);
            },
        }
    }
}

/// Law (sibling independence): a later write whose path shares the prefix
/// but ends in a different key leaves an earlier written path readable,
/// with its value unchanged.
pub proof fn lemma_push_sibling_keeps(
    d: DataModel,
    pre: Seq<Seq<char>>,
    c: Seq<char>,
    e: Seq<char>,
    v: DataModel,
    w: DataModel,
)
    requires
        c != e,
        spec_get_path(d, pre.push(c)) == Some(v),
    ensures
        spec_push_segs(d, pre.push(e), w) matches Ok(d3) ==> spec_get_path(d3, pre.push(c))
            == Some(v),
    decreases pre.len(),
{
    let segs = pre.push(e);
    if spec_push_segs(d, segs, w) matches Ok(d3) {
        let es = d->Dict_0;
        if pre.len() == 0 {
            assert(segs[0] == e);
            assert(pre.push(c)[0] == c);
            lemma_dict_get_set_other(es, c, e, w);
            assert(pre.push(c).skip(1) =~= Seq::<Seq<char>>::empty());
        } else {
            let k = segs[0];
            assert(k == pre[0]);
            assert(pre.push(c)[0] == pre[0]);
            assert(pre.push(c).skip(1) =~= pre.skip(1).push(c));
            assert(segs.skip(1) =~= pre.skip(1).push(e));
            match dict_get(es, k) {
                Some(ch) => {
                    lemma_push_sibling_keeps(ch, pre.skip(1), c, e, v, w);
                    match spec_push_segs(ch, pre.skip(1).push(e), w) {
                        Ok(ch2) => {
                            lemma_dict_get_set_same(es, k, ch2);
                        },
                        Err(_) => {},
                    }
                },
                None => {
                    // the read path went through the child at `k`, so it exists
                    assert(false);
                },
            }
        }
    }
}

/// `spec_effective_segments` always yields at least one segment.
pub proof fn lemma_effective_segments_len(path: Seq<char>)
    ensures
        spec_effective_segments(path).len() >= 1,
{
    lemma_split_char_len(spec_trim_char(path, '.'));
}

/// `spec_split_char` always yields at least one piece.
proof fn lemma_split_char_len(s: Seq<char>)
    ensures
        spec_split_char(s, '.').len() >= 1,
    decreases s.len(),
{
    crate::text::lemma_find_char(s, '.');
}

/// Law: a write through a path into a list node ignores the path's key
/// semantics and appends exactly one element; the elements already there
/// stay as they were.
pub proof fn lemma_push_path_list_appends(l: Seq<DataModel>, path: Seq<char>, v: DataModel)
    requires
        forall|k: int|
            1 <= k < spec_effective_segments(path).len() ==> (#[trigger] spec_effective_segments(
                path,
            )[k]).len() > 0,
    ensures
        spec_push_path(DataModel::List(l), path, v) matches Ok(out) && out is List
            && out->List_0.len() == l.len() + 1 && out->List_0.subrange(0, l.len() as int) == l,
        spec_effective_segments(path).len() == 1 ==> (spec_push_path(DataModel::List(l), path, v)
            matches Ok(out) && out->List_0.last() == v),
{
    lemma_effective_segments_len(path);
    let segs = spec_effective_segments(path);
    if segs.len() == 1 {
        assert(l.push(v).subrange(0, l.len() as int) =~= l);
    } else {
        match spec_push_segs(DataModel::Dict(Seq::empty()), segs.skip(1), v) {
            Ok(child) => {
                assert(l.push(child).subrange(0, l.len() as int) =~= l);
            },
            Err(e) => {
                assert forall|q: int|
                    0 <= q < segs.skip(1).len() implies (#[trigger] segs.skip(1)[q]).len() > 0 by {
                    assert(segs.skip(1)[q] == segs[q + 1]);
                }
                lemma_push_segs_on_dict_ok(segs.skip(1), v);
            },
        }
    }
}

/// A walk that starts on a fresh dictionary only fails on an empty key.
proof fn lemma_push_segs_on_dict_ok(segs: Seq<Seq<char>>, v: DataModel)
    requires
        segs.len() >= 1,
        forall|k: int| 0 <= k < segs.len() ==> (#[trigger] segs[k]).len() > 0,
    ensures
        spec_push_segs(DataModel::Dict(Seq::empty()), segs, v) is Ok,
    decreases segs.len(),
{
    if segs.len() > 1 {
        lemma_push_segs_on_dict_ok(segs.skip(1), v);
    }
}

/// `dict_set` on entries without the key appends the new entry.
pub proof fn lemma_dict_set_missing(es: Seq<(Seq<char>, DataModel)>, key: Seq<char>, v: DataModel)
    requires
        forall|k: int| 0 <= k < es.len() ==> (#[trigger] es[k]).0 != key,
    ensures
        dict_set(es, key, v) =~= es.push((key, v)),
    decreases es.len(),
{
    if es.len() == 0 {
    } else {
        lemma_dict_set_missing(es.skip(1), key, v);
    }
}

/// `dict_set` on entries whose first match is at `j` replaces that entry.
pub proof fn lemma_dict_set_found(
    es: Seq<(Seq<char>, DataModel)>,
    key: Seq<char>,
    v: DataModel,
    j: int,
)
    requires
        0 <= j < es.len(),
        es[j].0 == key,
        forall|k: int| 0 <= k < j ==> (#[trigger] es[k]).0 != key,
    ensures
        dict_set(es, key, v) =~= es.update(j, (key, v)),
    decreases es.len(),
{
    if j == 0 {
    } else {
        lemma_dict_set_found(es.skip(1), key, v, j - 1);
    }
}

} // verus!
