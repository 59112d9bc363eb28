//! Value models: a MessagePack-shaped value type, a JSON-shaped value type,
//! and an insertion-ordered string-keyed object map.
//!
//! Floats are carried as raw IEEE-754 bit patterns (`F32`/`F64`), so the
//! verified logic never performs floating-point arithmetic; the embedding
//! application materialises them only at its own edge.

use vstd::prelude::*;

verus! {

/// Mathematical model of a MessagePack value. Signed and unsigned integers
/// are merged into one mathematical integer.
pub enum MModel {
    Null,
    Bool(bool),
    Int(int),
    F32(u32),
    F64(u64),
    Str(Seq<char>),
    Bin(Seq<u8>),
    Arr(Seq<MModel>),
    MapM(Seq<(MModel, MModel)>),
    Ext(int, Seq<u8>),
}

/// A MessagePack value: what the wire protocol carries inside the
/// AES-encrypted frames.
#[derive(Debug, PartialEq)]
pub enum MsgVal {
    Null,
    Bool(bool),
    Int(i64),
    UInt(u64),
    F32(u32),
    F64(u64),
    Str(String),
    Bin(Vec<u8>),
    Arr(Vec<MsgVal>),
    MapV(Vec<(MsgVal, MsgVal)>),
    Ext(i8, Vec<u8>),
}

impl MsgVal {
    /// The mathematical value this node denotes.
    pub open spec fn model(self) -> MModel
        decreases self,
        via Self::model_dec
    {
        match self {
            MsgVal::Null => MModel::Null,
            MsgVal::Bool(b) => MModel::Bool(b),
            MsgVal::Int(n) => MModel::Int(n as int),
            MsgVal::UInt(n) => MModel::Int(n as int),
            MsgVal::F32(b) => MModel::F32(b),
            MsgVal::F64(b) => MModel::F64(b),
            MsgVal::Str(s) => MModel::Str(s@),
            MsgVal::Bin(b) => MModel::Bin(b@),
            MsgVal::Arr(items) => MModel::Arr(
                Seq::new(
                    items@.len(),
                    |i: int| if 0 <= i < items@.len() {
                        items@[i].model()
                    } else {
                        MModel::Null
                    },
                ),
            ),
            MsgVal::MapV(pairs) => MModel::MapM(
                Seq::new(
                    pairs@.len(),
                    |i: int| if 0 <= i < pairs@.len() {
                        (pairs@[i].0.model(), pairs@[i].1.model())
                    } else {
                        (MModel::Null, MModel::Null)
                    },
                ),
            ),
            MsgVal::Ext(tag, data) => MModel::Ext(tag as int, data@),
        }
    }

    #[via_fn]
    proof fn model_dec(self) {
        match self {
            MsgVal::Arr(items) => {
                assert forall|i: int| 0 <= i < items@.len() implies decreases_to!(
                    self => items@[i]
                ) by {
                    assert(decreases_to!(self => items));
                    assert(decreases_to!(items => items@));
                    assert(decreases_to!(items@ => items@[i]));
                }
            }
            MsgVal::MapV(pairs) => {
                assert forall|i: int| 0 <= i < pairs@.len() implies decreases_to!(
                    self => pairs@[i].0
                ) && decreases_to!(self => pairs@[i].1) by {
                    assert(decreases_to!(self => pairs));
                    assert(decreases_to!(pairs => pairs@));
                    assert(decreases_to!(pairs@ => pairs@[i]));
                    assert(decreases_to!(pairs@[i] => pairs@[i].0));
                    assert(decreases_to!(pairs@[i] => pairs@[i].1));
                }
            }
            _ => {}
        }
    }
}

impl View for MsgVal {
    type V = MModel;

    open spec fn view(&self) -> MModel {
        self.model()
    }
}

/// Mathematical model of a JSON value whose objects remember insertion
/// order: an object is a sequence of key/value pairs.
pub enum JModel {
    Null,
    Bool(bool),
    Int(int),
    F32(u32),
    F64(u64),
    Str(Seq<char>),
    Arr(Seq<JModel>),
    Obj(Seq<(Seq<char>, JModel)>),
}

/// A JSON-shaped value with insertion-ordered objects: the decoded form of
/// every upstream payload, and the shape written to master-data files.
#[derive(Debug, PartialEq)]
pub enum JsonVal {
    Null,
    Bool(bool),
    Int(i64),
    UInt(u64),
    F32(u32),
    F64(u64),
    Str(String),
    Arr(Vec<JsonVal>),
    Obj(JsonMap),
}

/// An insertion-ordered string-keyed map of JSON values. Keys are unique;
/// inserting an existing key replaces the value but keeps its position.
#[derive(Debug, PartialEq)]
pub struct JsonMap {
    pub entries: Vec<(String, JsonVal)>,
}

impl JsonVal {
    /// The mathematical value this node denotes.
    pub open spec fn model(self) -> JModel
        decreases self,
        via Self::model_dec
    {
        match self {
            JsonVal::Null => JModel::Null,
            JsonVal::Bool(b) => JModel::Bool(b),
            JsonVal::Int(n) => JModel::Int(n as int),
            JsonVal::UInt(n) => JModel::Int(n as int),
            JsonVal::F32(b) => JModel::F32(b),
            JsonVal::F64(b) => JModel::F64(b),
            JsonVal::Str(s) => JModel::Str(s@),
            JsonVal::Arr(items) => JModel::Arr(
                Seq::new(
                    items@.len(),
                    |i: int| if 0 <= i < items@.len() {
                        items@[i].model()
                    } else {
                        JModel::Null
                    },
                ),
            ),
            JsonVal::Obj(m) => JModel::Obj(map_model(m)),
        }
    }

    #[via_fn]
    proof fn model_dec(self) {
        match self {
            JsonVal::Arr(items) => {
                assert forall|i: int| 0 <= i < items@.len() implies decreases_to!(
                    self => items@[i]
                ) by {
                    assert(decreases_to!(self => items));
                    assert(decreases_to!(items => items@));
                    assert(decreases_to!(items@ => items@[i]));
                }
            }
            JsonVal::Obj(m) => {
                assert(decreases_to!(self => m));
            }
            _ => {}
        }
    }
}

/// The model of an ordered map: the sequence of its key/value pairs, keys
/// as character sequences, values as their models.
pub open spec fn map_model(m: JsonMap) -> Seq<(Seq<char>, JModel)>
    decreases m,
    via map_model_dec
{
    Seq::new(
        m.entries@.len(),
        |i: int| if 0 <= i < m.entries@.len() {
            (m.entries@[i].0@, m.entries@[i].1.model())
        } else {
            (Seq::<char>::empty(), JModel::Null)
        },
    )
}

#[via_fn]
proof fn map_model_dec(m: JsonMap) {
    assert forall|i: int| 0 <= i < m.entries@.len() implies decreases_to!(
        m => m.entries@[i].1
    ) by {
        assert(decreases_to!(m => m.entries));
        assert(decreases_to!(m.entries => m.entries@));
        assert(decreases_to!(m.entries@ => m.entries@[i]));
        assert(decreases_to!(m.entries@[i] => m.entries@[i].1));
    }
}

impl View for JsonVal {
    type V = JModel;

    open spec fn view(&self) -> JModel {
        self.model()
    }
}

impl View for JsonMap {
    type V = Seq<(Seq<char>, JModel)>;

    open spec fn view(&self) -> Seq<(Seq<char>, JModel)> {
        map_model(*self)
    }
}

/// The models of a vector of JSON values, element-wise.
pub open spec fn models_of_jvals(s: Seq<JsonVal>) -> Seq<JModel> {
    Seq::new(
        s.len(),
        |i: int| if 0 <= i < s.len() {
            s[i].model()
        } else {
            JModel::Null
        },
    )
}

impl JsonVal {
    /// Whether this value is JSON null.
    pub fn is_null(&self) -> (r: bool)
        ensures
            r == (self@ is Null),
    {
        matches!(self, JsonVal::Null)
    }

    /// The string payload, when this value is a string.
    pub fn as_str(&self) -> (r: Option<&String>)
        ensures
            match r {
                Some(s) => self@ == JModel::Str(s@),
                None => !(self@ is Str),
            },
    {
        match self {
            JsonVal::Str(s) => Some(s),
            _ => None,
        }
    }

    /// The elements, when this value is an array.
    pub fn as_array(&self) -> (r: Option<&Vec<JsonVal>>)
        ensures
            match r {
                Some(v) => self@ == JModel::Arr(models_of_jvals(v@)),
                None => !(self@ is Arr),
            },
    {
        match self {
            JsonVal::Arr(items) => {
                proof {
                    assert(self@->Arr_0 =~= models_of_jvals(items@));
                }
                Some(items)
            }
            _ => None,
        }
    }

    /// The map, when this value is an object.
    pub fn as_object(&self) -> (r: Option<&JsonMap>)
        ensures
            match r {
                Some(m) => self@ == JModel::Obj(m@),
                None => !(self@ is Obj),
            },
    {
        match self {
            JsonVal::Obj(m) => Some(m),
            _ => None,
        }
    }

    /// The value as a signed 64-bit integer, when it is an integer in
    /// signed range.
    pub fn as_i64(&self) -> (r: Option<i64>)
        ensures
            match r {
                Some(n) => self@ == JModel::Int(n as int),
                None => self@ matches JModel::Int(k) ==> k > i64::MAX as int,
            },
    {
        match self {
            JsonVal::Int(n) => Some(*n),
            JsonVal::UInt(n) => {
                if *n <= i64::MAX as u64 {
                    Some(*n as i64)
                } else {
                    None
                }
            }
            _ => None,
        }
    }

    /// The value as an unsigned 64-bit integer, when it is a non-negative
    /// integer.
    pub fn as_u64(&self) -> (r: Option<u64>)
        ensures
            match r {
                Some(n) => self@ == JModel::Int(n as int),
                None => self@ matches JModel::Int(k) ==> k < 0,
            },
    {
        match self {
            JsonVal::UInt(n) => Some(*n),
            JsonVal::Int(n) => {
                if *n >= 0 {
                    Some(*n as u64)
                } else {
                    None
                }
            }
            _ => None,
        }
    }

    /// A deep copy whose model is the same.
    pub fn dup(&self) -> (r: JsonVal)
        ensures
            r@ == self@,
        decreases self,
    {
        match self {
            JsonVal::Null => JsonVal::Null,
            JsonVal::Bool(b) => JsonVal::Bool(*b),
            JsonVal::Int(n) => JsonVal::Int(*n),
            JsonVal::UInt(n) => JsonVal::UInt(*n),
            JsonVal::F32(b) => JsonVal::F32(*b),
            JsonVal::F64(b) => JsonVal::F64(*b),
            JsonVal::Str(s) => JsonVal::Str(s.clone()),
            JsonVal::Arr(items) => {
                let mut out: Vec<JsonVal> = Vec::new();
                let n = items.len();
                let mut j: usize = 0;
                proof {
                    assert(*self == JsonVal::Arr(*items));
                }
                while j < n
                    invariant
                        j <= n,
                        n == items@.len(),
                        *self == JsonVal::Arr(*items),
                        out@.len() == j,
                        forall|i: int| 0 <= i < j ==> out@[i].model() == items@[i].model(),
                    decreases n - j,
                {
                    proof {
                        assert(decreases_to!(*self => (*self)->Arr_0));
                        assert((*self)->Arr_0 == *items);
                        assert(decreases_to!(*items => items@));
                        assert(decreases_to!(items@ => items@[j as int]));
                    }
                    let d = items[j].dup();
                    out.push(d);
                    j += 1;
                }
                let res = JsonVal::Arr(out);
                proof {
                    assert(res@->Arr_0 =~= self@->Arr_0);
                    assert(res@ == self@);
                }
                res
            }
            JsonVal::Obj(m) => {
                proof {
                    assert(*self == JsonVal::Obj(*m));
                    assert(decreases_to!(*self => (*self)->Obj_0));
                    assert((*self)->Obj_0 == *m);
                }
                let res = JsonVal::Obj(m.dup());
                proof {
                    assert(res@ == self@);
                }
                res
            }
        }
    }
}

impl JsonMap {
    /// A deep copy whose model is the same.
    pub fn dup(&self) -> (r: JsonMap)
        ensures
            r@ == self@,
        decreases self,
    {
        let mut out: Vec<(String, JsonVal)> = Vec::new();
        let n = self.entries.len();
        let mut j: usize = 0;
        while j < n
            invariant
                j <= n,
                n == self.entries@.len(),
                out@.len() == j,
                forall|i: int|
                    0 <= i < j ==> out@[i].0@ == self.entries@[i].0@ && out@[i].1.model()
                        == self.entries@[i].1.model(),
            decreases n - j,
        {
            proof {
                assert(decreases_to!(*self => self.entries));
                assert(decreases_to!(self.entries => self.entries@));
                assert(decreases_to!(self.entries@ => self.entries@[j as int]));
                assert(decreases_to!(self.entries@[j as int] => self.entries@[j as int].1));
            }
            let k = self.entries[j].0.clone();
            let d = self.entries[j].1.dup();
            out.push((k, d));
            j += 1;
        }
        let res = JsonMap { entries: out };
        proof {
            assert(res@ =~= self@);
        }
        res
    }
}

/// Index of the first pair in `s` whose key is `key`, or `-1` if none.
pub open spec fn obj_index_of(s: Seq<(Seq<char>, JModel)>, key: Seq<char>) -> int
    decreases s.len(),
{
    if s.len() == 0 {
        -1
    } else if s[0].0 == key {
        0
    } else {
        let r = obj_index_of(s.skip(1), key);
        if r < 0 {
            -1
        } else {
            r + 1
        }
    }
}

/// Whether `s` holds a pair keyed `key`.
pub open spec fn obj_contains(s: Seq<(Seq<char>, JModel)>, key: Seq<char>) -> bool {
    obj_index_of(s, key) >= 0
}

/// The value of the first pair keyed `key`, if any.
pub open spec fn obj_get(s: Seq<(Seq<char>, JModel)>, key: Seq<char>) -> Option<JModel> {
    if obj_contains(s, key) {
        Some(s[obj_index_of(s, key)].1)
    } else {
        None
    }
}

/// Ordered-map insertion: replace in place if the key is present, else
/// append at the end.
pub open spec fn obj_insert(
    s: Seq<(Seq<char>, JModel)>,
    key: Seq<char>,
    v: JModel,
) -> Seq<(Seq<char>, JModel)> {
    if obj_contains(s, key) {
        s.update(obj_index_of(s, key), (key, v))
    } else {
        s.push((key, v))
    }
}

/// `obj_index_of` finds the first matching index: in bounds, keyed `key`,
/// with no earlier pair keyed `key`; `-1` means no pair matches at all.
pub proof fn lemma_obj_index_of(s: Seq<(Seq<char>, JModel)>, key: Seq<char>)
    ensures
        obj_index_of(s, key) >= 0 ==> {
            &&& obj_index_of(s, key) < s.len()
            &&& s[obj_index_of(s, key)].0 == key
            &&& forall|j: int| 0 <= j < obj_index_of(s, key) ==> s[j].0 != key
        },
        obj_index_of(s, key) == -1 ==> forall|j: int| 0 <= j < s.len() ==> s[j].0 != key,
        obj_index_of(s, key) >= -1,
    decreases s.len(),
{
    if s.len() > 0 && s[0].0 != key {
        lemma_obj_index_of(s.skip(1), key);
        assert forall|j: int| 0 <= j < s.len() && s[j].0 == key implies obj_index_of(s, key)
            >= 0 by {
            if j > 0 {
                assert(s.skip(1)[j - 1] == s[j]);
            }
        }
        assert forall|j: int| 0 <= j < obj_index_of(s, key) implies s[j].0 != key by {
            if j > 0 {
                assert(s.skip(1)[j - 1] == s[j]);
            }
        }
    }
}

/// `obj_index_of` is pinned down by the first-occurrence property.
pub proof fn lemma_obj_index_unique(s: Seq<(Seq<char>, JModel)>, key: Seq<char>, i: int)
    requires
        0 <= i < s.len(),
        s[i].0 == key,
        forall|j: int| 0 <= j < i ==> s[j].0 != key,
    ensures
        obj_index_of(s, key) == i,
{
    lemma_obj_index_of(s, key);
    let r = obj_index_of(s, key);
    if r == -1 {
        assert(s[i].0 != key);
    } else if r < i {
        assert(s[r].0 != key);
    } else if r > i {
        assert(s[i].0 != key);
    }
}

/// Inserting `k` makes exactly the keys `k` and those already present
/// contained.
pub proof fn lemma_obj_insert_contains(
    s: Seq<(Seq<char>, JModel)>,
    k: Seq<char>,
    v: JModel,
    k2: Seq<char>,
)
    ensures
        obj_contains(obj_insert(s, k, v), k2) == (k2 == k || obj_contains(s, k2)),
{
    lemma_obj_insert_get(s, k, v, k2);
    lemma_obj_index_of(s, k2);
    lemma_obj_index_of(obj_insert(s, k, v), k2);
}

/// Looking a key up after an insert: the inserted key maps to the new
/// value, every other key is untouched.
pub proof fn lemma_obj_insert_get(
    s: Seq<(Seq<char>, JModel)>,
    k: Seq<char>,
    v: JModel,
    k2: Seq<char>,
)
    ensures
        obj_get(obj_insert(s, k, v), k2) == if k2 == k {
            Some(v)
        } else {
            obj_get(s, k2)
        },
{
    lemma_obj_index_of(s, k);
    lemma_obj_index_of(s, k2);
    let t = obj_insert(s, k, v);
    if obj_contains(s, k) {
        let u = obj_index_of(s, k);
        assert(t == s.update(u, (k, v)));
        if k2 == k {
            assert(t[u] == (k, v));
            assert(forall|j: int| 0 <= j < u ==> t[j].0 != k);
            lemma_obj_index_unique(t, k, u);
        } else {
            if obj_contains(s, k2) {
                let w = obj_index_of(s, k2);
                assert(w != u);
                assert(t[w] == s[w]);
                assert(forall|j: int| 0 <= j < w ==> t[j].0 != k2) by {
                    assert(forall|j: int| 0 <= j < w && j != u ==> t[j] == s[j]);
                    assert(u < w ==> t[u].0 == k);
                }
                lemma_obj_index_unique(t, k2, w);
            } else {
                lemma_obj_index_of(t, k2);
                assert forall|j: int| 0 <= j < t.len() implies t[j].0 != k2 by {
                    if j != u {
                        assert(t[j] == s[j]);
                    } else {
                        assert(t[j].0 == k);
                    }
                }
                if obj_contains(t, k2) {
                    assert(t[obj_index_of(t, k2)].0 == k2);
                }
            }
        }
    } else {
        assert(t == s.push((k, v)));
        if k2 == k {
            assert(t[s.len() as int] == (k, v));
            assert(forall|j: int| 0 <= j < s.len() ==> t[j] == s[j]);
            lemma_obj_index_unique(t, k, s.len() as int);
        } else {
            if obj_contains(s, k2) {
                let w = obj_index_of(s, k2);
                assert(t[w] == s[w]);
                assert(forall|j: int| 0 <= j < w ==> t[j] == s[j]);
                lemma_obj_index_unique(t, k2, w);
            } else {
                lemma_obj_index_of(t, k2);
                assert forall|j: int| 0 <= j < t.len() implies t[j].0 != k2 by {
                    if j < s.len() {
                        assert(t[j] == s[j]);
                    } else {
                        assert(t[j].0 == k);
                    }
                }
                if obj_contains(t, k2) {
                    assert(t[obj_index_of(t, k2)].0 == k2);
                }
            }
        }
    }
}

impl JsonMap {
    /// An empty map.
    pub fn new() -> (r: JsonMap)
        ensures
            r@ =~= Seq::<(Seq<char>, JModel)>::empty(),
    {
        JsonMap { entries: Vec::new() }
    }

    /// Number of entries.
    pub fn len(&self) -> (r: usize)
        ensures
            r == self@.len(),
    {
        self.entries.len()
    }

    /// Index of the first entry keyed `key`, if any.
    pub fn index_of(&self, key: &str) -> (r: Option<usize>)
        ensures
            match r {
                Some(i) => obj_index_of(self@, key@) == i as int,
                None => obj_index_of(self@, key@) == -1,
            },
    {
        proof {
            lemma_obj_index_of(self@, key@);
            assert(self@.len() == self.entries@.len());
            assert(forall|j: int|
                0 <= j < self.entries@.len() ==> self@[j] == (
                    self.entries@[j].0@,
                    self.entries@[j].1.model(),
                ));
        }
        let owned = key.to_owned();
        let n = self.entries.len();
        let mut i: usize = 0;
        while i < n
            invariant
                i <= n,
                n == self@.len(),
                n == self.entries@.len(),
                owned@ == key@,
                forall|j: int|
                    0 <= j < self.entries@.len() ==> self@[j] == (
                        self.entries@[j].0@,
                        self.entries@[j].1.model(),
                    ),
                forall|j: int| 0 <= j < i ==> self@[j].0 != key@,
                obj_index_of(self@, key@) >= 0 ==> self@[obj_index_of(self@, key@)].0 == key@,
                obj_index_of(self@, key@) >= 0 ==> obj_index_of(self@, key@) < self@.len(),
                obj_index_of(self@, key@) >= 0 ==> forall|j: int|
                    0 <= j < obj_index_of(self@, key@) ==> self@[j].0 != key@,
                obj_index_of(self@, key@) == -1 ==> forall|j: int|
                    0 <= j < self@.len() ==> self@[j].0 != key@,
                obj_index_of(self@, key@) >= -1,
            decreases n - i,
        {
            if self.entries[i].0.eq(&owned) {
                proof {
                    assert(self@[i as int].0 == key@);
                }
                return Some(i);
            }
            proof {
                assert(self@[i as int].0 != key@);
            }
            i += 1;
        }
        None
    }

    /// Look a key up; `None` exactly when the key is absent.
    pub fn get(&self, key: &str) -> (r: Option<&JsonVal>)
        ensures
            match r {
                Some(v) => obj_get(self@, key@) == Some(v@),
                None => obj_get(self@, key@) is None,
            },
    {
        proof {
            lemma_obj_index_of(self@, key@);
        }
        match self.index_of(key) {
            Some(i) => Some(&self.entries[i].1),
            None => None,
        }
    }

    /// Whether the key is present.
    pub fn contains_key(&self, key: &str) -> (r: bool)
        ensures
            r == obj_contains(self@, key@),
    {
        self.index_of(key).is_some()
    }

    /// Insert with ordered-map semantics: an existing key keeps its
    /// position and gets the new value; a new key is appended.
    pub fn insert(&mut self, key: String, v: JsonVal)
        ensures
            final(self)@ =~= obj_insert(old(self)@, key@, v@),
    {
        proof {
            lemma_obj_index_of(self@, key@);
        }
        match self.index_of(key.as_str()) {
            Some(i) => {
                self.entries[i] = (key, v);
            }
            None => {
                self.entries.push((key, v));
            }
        }
    }

    /// The entry at position `i` (insertion order).
    pub fn entry_at(&self, i: usize) -> (r: (&String, &JsonVal))
        requires
            i < self@.len(),
        ensures
            r.0@ == self@[i as int].0,
            r.1@ == self@[i as int].1,
    {
        let pair = &self.entries[i];
        (&pair.0, &pair.1)
    }
}

} // verus!
