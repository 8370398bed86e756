//! JSON values and their conversion to property values.

use vstd::prelude::*;

use crate::storage::value::{
    is_finite, lemma_list_view, list_view, pair_map, sorted, PropertyMap, Value, ValueView,
};
use crate::text::{copy_str, same_text};

verus! {

/// A JSON value. Numbers are of type `N`: what a reader found out about them, or how a writer
/// is to write them. The fields of an object stand in the order in which they were read.
#[derive(Debug)]
pub enum Json<N> {
    /// Null.
    Null,
    /// Boolean.
    Bool(bool),
    /// Number.
    Number(N),
    /// Text.
    String(String),
    /// List.
    Array(Vec<Json<N>>),
    /// Fields.
    Object(Vec<(String, Json<N>)>),
}

/// What a reader found out about a number.
#[derive(Debug, Clone, Copy, PartialEq, Eq, Structural)]
pub struct NumberReading {
    /// The number as an integer of 64 bits, if it is one.
    pub int: Option<i64>,
    /// The number as a floating-point number of 64 bits, by its bits.
    pub double: Option<u64>,
    /// That number narrowed to 32 bits, by its bits.
    pub single: u32,
}

/// How a number is to be written.
#[derive(Debug, Clone, Copy, PartialEq, Eq, Structural)]
pub enum NumberForm {
    /// As an integer.
    Int(i64),
    /// As a floating-point number of 64 bits, by its bits.
    Double(u64),
    /// As a floating-point number of 32 bits, widened, by its bits.
    Single(u32),
}

/// A JSON value as a sequence type.
pub enum JsonView<N> {
    /// Null.
    Null,
    /// Boolean.
    Bool(bool),
    /// Number.
    Number(N),
    /// Text.
    Text(Seq<char>),
    /// List.
    Array(Seq<JsonView<N>>),
    /// Fields.
    Object(Seq<(Seq<char>, JsonView<N>)>),
}

/// The view of a JSON value.
pub open spec fn json_view<N>(j: Json<N>) -> JsonView<N>
    decreases j,
{
    match j {
        Json::Null => JsonView::Null,
        Json::Bool(b) => JsonView::Bool(b),
        Json::Number(n) => JsonView::Number(n),
        Json::String(s) => JsonView::Text(s@),
        Json::Array(a) => JsonView::Array(json_list_view(a@)),
        Json::Object(f) => JsonView::Object(json_fields_view(f@)),
    }
}

/// The views of some JSON values.
pub open spec fn json_list_view<N>(s: Seq<Json<N>>) -> Seq<JsonView<N>>
    decreases s,
{
    if s.len() == 0 {
        Seq::empty()
    } else {
        json_list_view(s.drop_last()).push(json_view(s.last()))
    }
}

/// The views of some fields.
pub open spec fn json_fields_view<N>(s: Seq<(String, Json<N>)>) -> Seq<(Seq<char>, JsonView<N>)>
    decreases s,
{
    if s.len() == 0 {
        Seq::empty()
    } else {
        json_fields_view(s.drop_last()).push((s.last().0@, json_view(s.last().1)))
    }
}

/// The view of a list holds the views of its elements.
pub proof fn lemma_json_list_view<N>(s: Seq<Json<N>>)
    ensures
        json_list_view(s).len() == s.len(),
        forall|i: int| 0 <= i < s.len() ==> #[trigger] json_list_view(s)[i] == json_view(s[i]),
    decreases s,
{
    if s.len() > 0 {
        lemma_json_list_view(s.drop_last());
    }
}

/// The view of fields holds the views of the names and values.
pub proof fn lemma_json_fields_view<N>(s: Seq<(String, Json<N>)>)
    ensures
        json_fields_view(s).len() == s.len(),
        forall|i: int|
            0 <= i < s.len() ==> #[trigger] json_fields_view(s)[i] == (s[i].0@, json_view(s[i].1)),
    decreases s,
{
    if s.len() > 0 {
        lemma_json_fields_view(s.drop_last());
    }
}

impl<N> View for Json<N> {
    type V = JsonView<N>;

    open spec fn view(&self) -> JsonView<N> {
        json_view(*self)
    }
}

/// Why JSON is no property value.
#[derive(Debug, Clone, Copy, PartialEq, Eq, Structural)]
pub enum JsonError {
    /// A number is neither an integer nor a floating-point number.
    InvalidNumber,
    /// An embedding holds something other than numbers.
    VectorElement,
}

impl JsonError {
    /// The message of the error.
    pub open spec fn text(&self) -> Seq<char> {
        match *self {
            JsonError::InvalidNumber => "Invalid number"@,
            JsonError::VectorElement => "Vector must contain numbers"@,
        }
    }

    /// The message of the error.
    pub fn message(&self) -> (s: String)
        ensures
            s@ == self.text(),
    {
        match *self {
            JsonError::InvalidNumber => copy_str("Invalid number"),
            JsonError::VectorElement => copy_str("Vector must contain numbers"),
        }
    }
}

/// The elements of an embedding: an object whose only field is `$vector`, with a list.
pub open spec fn vector_elements(fields: Seq<(Seq<char>, JsonView<NumberReading>)>) -> Option<
    Seq<JsonView<NumberReading>>,
> {
    if fields.len() == 1 && fields[0].0 == "$vector"@ {
        match fields[0].1 {
            JsonView::Array(a) => Some(a),
            _ => None,
        }
    } else {
        None
    }
}

/// The components of an embedding.
pub open spec fn components(a: Seq<JsonView<NumberReading>>) -> Result<Seq<u32>, JsonError>
    decreases a.len(),
{
    if a.len() == 0 {
        Ok(Seq::empty())
    } else {
        match components(a.drop_last()) {
            Err(e) => Err(e),
            Ok(head) => match a.last() {
                JsonView::Number(n) => if n.double is Some {
                    Ok(head.push(n.single))
                } else {
                    Err(JsonError::VectorElement)
                },
                _ => Err(JsonError::VectorElement),
            },
        }
    }
}

/// The property value of JSON. The first thing that is wrong decides the error.
pub open spec fn from_json(j: JsonView<NumberReading>) -> Result<ValueView, JsonError>
    decreases j, 0nat,
{
    match j {
        JsonView::Null => Ok(ValueView::Null),
        JsonView::Bool(b) => Ok(ValueView::Bool(b)),
        JsonView::Number(n) => if n.int is Some {
            Ok(ValueView::Int(n.int->0))
        } else if n.double is Some {
            Ok(ValueView::Float(n.double->0))
        } else {
            Err(JsonError::InvalidNumber)
        },
        JsonView::Text(s) => Ok(ValueView::Text(s)),
        JsonView::Array(a) => match list_from_json(a) {
            Ok(l) => Ok(ValueView::Array(l)),
            Err(e) => Err(e),
        },
        JsonView::Object(f) => match vector_elements(f) {
            Some(a) => match components(a) {
                Ok(x) => Ok(ValueView::Vector(x)),
                Err(e) => Err(e),
            },
            None => match fields_from_json(f) {
                Ok(m) => Ok(ValueView::Object(sorted_entries(m))),
                Err(e) => Err(e),
            },
        },
    }
}

/// The property values of a list.
pub open spec fn list_from_json(a: Seq<JsonView<NumberReading>>) -> Result<
    Seq<ValueView>,
    JsonError,
>
    decreases a, 1nat,
{
    if a.len() == 0 {
        Ok(Seq::empty())
    } else {
        match list_from_json(a.drop_last()) {
            Err(e) => Err(e),
            Ok(head) => match from_json(a.last()) {
                Ok(v) => Ok(head.push(v)),
                Err(e) => Err(e),
            },
        }
    }
}

/// The property values of fields; of fields with one name the last counts.
pub open spec fn fields_from_json(f: Seq<(Seq<char>, JsonView<NumberReading>)>) -> Result<
    Map<Seq<char>, ValueView>,
    JsonError,
>
    decreases f, 1nat,
{
    if f.len() == 0 {
        Ok(Map::empty())
    } else {
        match fields_from_json(f.drop_last()) {
            Err(e) => Err(e),
            Ok(head) => match from_json(f.last().1) {
                Ok(v) => Ok(head.insert(f.last().0, v)),
                Err(e) => Err(e),
            },
        }
    }
}

/// The entries of a map in ascending order of the keys.
pub open spec fn sorted_entries(m: Map<Seq<char>, ValueView>) -> Seq<(Seq<char>, ValueView)> {
    choose|p: Seq<(Seq<char>, ValueView)>| sorted(p) && #[trigger] pair_map(p) == m
}

proof fn lemma_sorted_entries(p: Seq<(Seq<char>, ValueView)>)
    requires
        sorted(p),
    ensures
        sorted_entries(pair_map(p)) == p,
{
    let q = sorted_entries(pair_map(p));
    assert(sorted(p) && pair_map(p) == pair_map(p));
    crate::storage::value::lemma_sorted_entries_unique(p, q);
}

/// A result with the value by its view.
pub open spec fn value_outcome(r: Result<Value, JsonError>) -> Result<ValueView, JsonError> {
    match r {
        Ok(v) => Ok(v@),
        Err(e) => Err(e),
    }
}

impl Value {
    /// The property value of JSON.
    pub fn from_json(j: &Json<NumberReading>) -> (r: Result<Value, JsonError>)
        ensures
            value_outcome(r) == from_json(j@),
        decreases j,
    {
        match j {
            Json::Null => Ok(Value::Null),
            Json::Bool(b) => Ok(Value::Bool(*b)),
            Json::Number(n) => {
                match n.int {
                    Some(i) => Ok(Value::Int(i)),
                    None => match n.double {
                        Some(f) => Ok(Value::Float(f)),
                        None => Err(JsonError::InvalidNumber),
                    },
                }
            },
            Json::String(s) => Ok(Value::String(copy_str(s.as_str()))),
            Json::Array(a) => {
                let mut out: Vec<Value> = Vec::new();
                let n: usize = a.len();
                let mut i: usize = 0;
                let ghost l = json_list_view(a@);
                proof {
                    lemma_json_list_view(a@);
                    assert(l.take(0) =~= Seq::<JsonView<NumberReading>>::empty());
                }
                while i < n
                    invariant
                        i <= n,
                        n == a@.len(),
                        *j == Json::Array(*a),
                        l == json_list_view(a@),
                        l.len() == n,
                        forall|k: int| 0 <= k < n ==> #[trigger] l[k] == a@[k]@,
                        list_from_json(l.take(i as int)) == Ok::<Seq<ValueView>, JsonError>(
                            list_view(out@),
                        ),
                    decreases n - i,
                {
                    assert(decreases_to!(*j => j->Array_0));
                    assert(decreases_to!(j->Array_0 => j->Array_0@));
                    assert(decreases_to!(a@ => a@[i as int]));
                    proof {
                        assert(l.take(i + 1).drop_last() =~= l.take(i as int));
                        assert(l.take(i + 1).last() == l[i as int]);
                    }
                    match Value::from_json(&a[i]) {
                        Ok(v) => {
                            let ghost had = out@;
                            out.push(v);
                            assert(out@.drop_last() =~= had);
                        },
                        Err(e) => {
                            proof {
                                lemma_list_error(l, i + 1, e);
                            }
                            return Err(e);
                        },
                    }
                    i = i + 1;
                }
                assert(l.take(i as int) =~= l);
                Ok(Value::Array(out))
            },
            Json::Object(f) => {
                let ghost fv = json_fields_view(f@);
                proof {
                    lemma_json_fields_view(f@);
                }
                if f.len() == 1 && same_text(f[0].0.as_str(), "$vector") {
                    assert(fv[0].0 == "$vector"@);
                    match &f[0].1 {
                        Json::Array(a) => {
                            assert(vector_elements(fv) == Some(json_list_view(a@)));
                            return match read_components(a) {
                                Ok(x) => Ok(Value::Vector(x)),
                                Err(e) => Err(e),
                            };
                        },
                        _ => {},
                    }
                }
                assert(vector_elements(fv) is None);
                let mut out = PropertyMap::new();
                let n: usize = f.len();
                let mut i: usize = 0;
                proof {
                    assert(fv.take(0) =~= Seq::<(Seq<char>, JsonView<NumberReading>)>::empty());
                    assert(sorted(out@));
                }
                while i < n
                    invariant
                        i <= n,
                        n == f@.len(),
                        *j == Json::Object(*f),
                        fv == json_fields_view(f@),
                        fv.len() == n,
                        vector_elements(fv) is None,
                        forall|k: int| 0 <= k < n ==> #[trigger] fv[k] == (f@[k].0@, f@[k].1@),
                        sorted(out@),
                        fields_from_json(fv.take(i as int)) == Ok::<
                            Map<Seq<char>, ValueView>,
                            JsonError,
                        >(out.map()),
                    decreases n - i,
                {
                    assert(decreases_to!(*j => j->Object_0));
                    assert(decreases_to!(j->Object_0 => j->Object_0@));
                    assert(decreases_to!(f@ => f@[i as int]));
                    assert(decreases_to!(f@[i as int] => f@[i as int].1));
                    proof {
                        assert(fv.take(i + 1).drop_last() =~= fv.take(i as int));
                        assert(fv.take(i + 1).last() == fv[i as int]);
                    }
                    match Value::from_json(&f[i].1) {
                        Ok(v) => {
                            out.insert(f[i].0.as_str(), v);
                        },
                        Err(e) => {
                            proof {
                                lemma_fields_error(fv, i + 1, e);
                            }
                            return Err(e);
                        },
                    }
                    i = i + 1;
                }
                proof {
                    assert(fv.take(i as int) =~= fv);
                    lemma_sorted_entries(out@);
                }
                Ok(Value::Object(out))
            },
        }
    }

    /// The value as JSON. A number that is not finite becomes null, bytes become base64 text,
    /// and an embedding becomes an object with the field `$vector`.
    pub fn to_json(&self) -> (r: Json<NumberForm>)
        ensures
            r@ == to_json(self@),
        decreases self,
    {
        match self {
            Value::Null => Json::Null,
            Value::Bool(b) => Json::Bool(*b),
            Value::Int(i) => Json::Number(NumberForm::Int(*i)),
            Value::Float(f) => {
                if (*f / 0x10_0000_0000_0000) % 0x800 != 0x7ff {
                    Json::Number(NumberForm::Double(*f))
                } else {
                    Json::Null
                }
            },
            Value::String(s) => Json::String(copy_str(s.as_str())),
            Value::Bytes(b) => Json::String(encode(b.as_slice())),
            Value::Vector(v) => {
                let mut list: Vec<Json<NumberForm>> = Vec::new();
                let mut i: usize = 0;
                while i < v.len()
                    invariant
                        i <= v@.len(),
                        list@.len() == i,
                        forall|k: int|
                            0 <= k < i ==> (#[trigger] list@[k])@ == component_to_json(v@[k]),
                    decreases v@.len() - i,
                {
                    let c: u32 = v[i];
                    let one: Json<NumberForm> = if (c / 0x80_0000) % 0x100 != 0xff {
                        Json::Number(NumberForm::Single(c))
                    } else {
                        Json::Null
                    };
                    list.push(one);
                    i = i + 1;
                }
                let mut fields: Vec<(String, Json<NumberForm>)> = Vec::new();
                let ghost lv = list@;
                fields.push((copy_str("$vector"), Json::Array(list)));
                proof {
                    lemma_json_list_view(lv);
                    lemma_json_fields_view(fields@);
                    assert(json_list_view(lv) =~= v@.map_values(|c: u32| component_to_json(c)));
                    assert(json_fields_view(fields@) =~= seq![
                        (
                            "$vector"@,
                            JsonView::Array(v@.map_values(|c: u32| component_to_json(c))),
                        ),
                    ]);
                }
                Json::Object(fields)
            },
            Value::Array(a) => {
                let mut out: Vec<Json<NumberForm>> = Vec::new();
                let n: usize = a.len();
                let mut i: usize = 0;
                let ghost l = list_view(a@);
                proof {
                    lemma_list_view(a@);
                }
                while i < n
                    invariant
                        i <= n,
                        n == a@.len(),
                        *self == Value::Array(*a),
                        l == list_view(a@),
                        l.len() == n,
                        forall|k: int| 0 <= k < n ==> #[trigger] l[k] == a@[k]@,
                        out@.len() == i,
                        forall|k: int| 0 <= k < i ==> (#[trigger] out@[k])@ == to_json(l[k]),
                    decreases n - i,
                {
                    assert(decreases_to!(*self => self->Array_0));
                    assert(decreases_to!(self->Array_0 => self->Array_0@));
                    assert(decreases_to!(a@ => a@[i as int]));
                    out.push(a[i].to_json());
                    i = i + 1;
                }
                proof {
                    lemma_json_list_view(out@);
                    lemma_list_to_json(l);
                    assert(json_list_view(out@) =~= list_to_json(l));
                }
                Json::Array(out)
            },
            Value::Object(m) => Json::Object(m.to_json_fields()),
        }
    }
}

impl PropertyMap {
    /// The entries as JSON fields.
    pub fn to_json_fields(&self) -> (r: Vec<(String, Json<NumberForm>)>)
        ensures
            json_fields_view(r@) == entries_to_json(self@),
        decreases self,
    {
        let mut out: Vec<(String, Json<NumberForm>)> = Vec::new();
        let n: usize = self.len();
        let mut i: usize = 0;
        while i < n
            invariant
                i <= n,
                n == self@.len(),
                out@.len() == i,
                forall|k: int|
                    0 <= k < i ==> (#[trigger] out@[k]).0@ == self@[k].0 && out@[k].1@ == to_json(
                        self@[k].1,
                    ),
            decreases n - i,
        {
            let v = self.value_below(i);
            out.push((copy_str(self.key_at(i)), v.to_json()));
            i = i + 1;
        }
        proof {
            lemma_json_fields_view(out@);
            lemma_entries_to_json(self@);
            assert(json_fields_view(out@) =~= entries_to_json(self@));
        }
        out
    }
}

fn read_components(a: &Vec<Json<NumberReading>>) -> (r: Result<Vec<u32>, JsonError>)
    ensures
        match r {
            Ok(x) => components(json_list_view(a@)) == Ok::<Seq<u32>, JsonError>(x@),
            Err(e) => components(json_list_view(a@)) == Err::<Seq<u32>, JsonError>(e),
        },
{
    let mut out: Vec<u32> = Vec::new();
    let mut i: usize = 0;
    let ghost l = json_list_view(a@);
    proof {
        lemma_json_list_view(a@);
        assert(l.take(0) =~= Seq::<JsonView<NumberReading>>::empty());
    }
    while i < a.len()
        invariant
            i <= a@.len(),
            l == json_list_view(a@),
            l.len() == a@.len(),
            forall|k: int| 0 <= k < a@.len() ==> #[trigger] l[k] == a@[k]@,
            components(l.take(i as int)) == Ok::<Seq<u32>, JsonError>(out@),
        decreases a@.len() - i,
    {
        proof {
            assert(l.take(i + 1).drop_last() =~= l.take(i as int));
            assert(l.take(i + 1).last() == l[i as int]);
        }
        let single: Option<u32> = match &a[i] {
            Json::Number(n) => match n.double {
                Some(_) => Some(n.single),
                None => None,
            },
            _ => None,
        };
        match single {
            Some(c) => out.push(c),
            None => {
                proof {
                    lemma_components_error(l, i + 1);
                }
                return Err(JsonError::VectorElement);
            },
        }
        i = i + 1;
    }
    assert(l.take(i as int) =~= l);
    Ok(out)
}

proof fn lemma_components_error(l: Seq<JsonView<NumberReading>>, k: int)
    requires
        0 < k <= l.len(),
        components(l.take(k)) == Err::<Seq<u32>, JsonError>(JsonError::VectorElement),
    ensures
        components(l) == Err::<Seq<u32>, JsonError>(JsonError::VectorElement),
    decreases l.len(),
{
    if k == l.len() {
        assert(l.take(k) =~= l);
    } else {
        assert(l.drop_last().take(k) =~= l.take(k));
        lemma_components_error(l.drop_last(), k);
    }
}

proof fn lemma_list_error(l: Seq<JsonView<NumberReading>>, k: int, e: JsonError)
    requires
        0 < k <= l.len(),
        list_from_json(l.take(k)) == Err::<Seq<ValueView>, JsonError>(e),
    ensures
        list_from_json(l) == Err::<Seq<ValueView>, JsonError>(e),
    decreases l.len(),
{
    if k == l.len() {
        assert(l.take(k) =~= l);
    } else {
        assert(l.drop_last().take(k) =~= l.take(k));
        lemma_list_error(l.drop_last(), k, e);
    }
}

proof fn lemma_fields_error(f: Seq<(Seq<char>, JsonView<NumberReading>)>, k: int, e: JsonError)
    requires
        0 < k <= f.len(),
        fields_from_json(f.take(k)) == Err::<Map<Seq<char>, ValueView>, JsonError>(e),
    ensures
        fields_from_json(f) == Err::<Map<Seq<char>, ValueView>, JsonError>(e),
    decreases f.len(),
{
    if k == f.len() {
        assert(f.take(k) =~= f);
    } else {
        assert(f.drop_last().take(k) =~= f.take(k));
        lemma_fields_error(f.drop_last(), k, e);
    }
}

/// A 32-bit floating-point number that is neither infinite nor undefined.
pub open spec fn is_finite32(bits: u32) -> bool {
    (bits as int / 0x80_0000) % 0x100 != 0xff
}

/// A component of an embedding as JSON.
pub open spec fn component_to_json(c: u32) -> JsonView<NumberForm> {
    if is_finite32(c) {
        JsonView::Number(NumberForm::Single(c))
    } else {
        JsonView::Null
    }
}

/// A property value as JSON.
pub open spec fn to_json(v: ValueView) -> JsonView<NumberForm>
    decreases v,
{
    match v {
        ValueView::Null => JsonView::Null,
        ValueView::Bool(b) => JsonView::Bool(b),
        ValueView::Int(i) => JsonView::Number(NumberForm::Int(i)),
        ValueView::Float(f) => if is_finite(f) {
            JsonView::Number(NumberForm::Double(f))
        } else {
            JsonView::Null
        },
        ValueView::Text(s) => JsonView::Text(s),
        ValueView::Bytes(b) => JsonView::Text(base64(b)),
        ValueView::Vector(x) => JsonView::Object(
            seq![("$vector"@, JsonView::Array(x.map_values(|c: u32| component_to_json(c))))],
        ),
        ValueView::Array(a) => JsonView::Array(list_to_json(a)),
        ValueView::Object(p) => JsonView::Object(entries_to_json(p)),
    }
}

/// Property values as JSON.
pub open spec fn list_to_json(a: Seq<ValueView>) -> Seq<JsonView<NumberForm>>
    decreases a,
{
    if a.len() == 0 {
        Seq::empty()
    } else {
        list_to_json(a.drop_last()).push(to_json(a.last()))
    }
}

/// Entries as JSON fields.
pub open spec fn entries_to_json(p: Seq<(Seq<char>, ValueView)>) -> Seq<
    (Seq<char>, JsonView<NumberForm>),
>
    decreases p,
{
    if p.len() == 0 {
        Seq::empty()
    } else {
        entries_to_json(p.drop_last()).push((p.last().0, to_json(p.last().1)))
    }
}

proof fn lemma_list_to_json(a: Seq<ValueView>)
    ensures
        list_to_json(a).len() == a.len(),
        forall|i: int| 0 <= i < a.len() ==> #[trigger] list_to_json(a)[i] == to_json(a[i]),
    decreases a.len(),
{
    if a.len() > 0 {
        lemma_list_to_json(a.drop_last());
    }
}

proof fn lemma_entries_to_json(p: Seq<(Seq<char>, ValueView)>)
    ensures
        entries_to_json(p).len() == p.len(),
        forall|i: int|
            0 <= i < p.len() ==> #[trigger] entries_to_json(p)[i] == (p[i].0, to_json(p[i].1)),
    decreases p.len(),
{
    if p.len() > 0 {
        lemma_entries_to_json(p.drop_last());
    }
}

/// The base64 character of a number below 64.
pub open spec fn base64_char(n: int) -> char {
    if n < 26 {
        (('A' as u32) + n) as char
    } else if n < 52 {
        (('a' as u32) + (n - 26)) as char
    } else if n < 62 {
        (('0' as u32) + (n - 52)) as char
    } else if n == 62 {
        '+'
    } else {
        '/'
    }
}

/// The base64 text of bytes: four characters for every three bytes, the last group filled up
/// with equals signs.
pub open spec fn base64(b: Seq<u8>) -> Seq<char>
    decreases b.len(),
{
    if b.len() == 0 {
        Seq::empty()
    } else if b.len() == 1 {
        seq![base64_char(b[0] as int / 4), base64_char((b[0] as int % 4) * 16), '=', '=']
    } else if b.len() == 2 {
        seq![
            base64_char(b[0] as int / 4),
            base64_char((b[0] as int % 4) * 16 + b[1] as int / 16),
            base64_char((b[1] as int % 16) * 4),
            '=',
        ]
    } else {
        seq![
            base64_char(b[0] as int / 4),
            base64_char((b[0] as int % 4) * 16 + b[1] as int / 16),
            base64_char((b[1] as int % 16) * 4 + b[2] as int / 64),
            base64_char(b[2] as int % 64),
        ] + base64(b.skip(3))
    }
}

fn alphabet(n: u8) -> (c: char)
    requires
        n < 64,
    ensures
        c == base64_char(n as int),
{
    if n < 26 {
        (65 + n) as char
    } else if n < 52 {
        (97 + (n - 26)) as char
    } else if n < 62 {
        (48 + (n - 52)) as char
    } else if n == 62 {
        '+'
    } else {
        '/'
    }
}

/// Encodes bytes as base64 text.
pub fn encode(data: &[u8]) -> (r: String)
    ensures
        r@ == base64(data@),
{
    let mut out = String::new();
    let mut i: usize = 0;
    let ghost want = base64(data@);
    proof {
        assert(data@.skip(0) =~= data@);
        assert(out@ + want =~= want);
    }
    while i < data.len()
        invariant
            i <= data@.len(),
            out@ + base64(data@.skip(i as int)) == want,
        decreases data@.len() - i,
    {
        let left: usize = data.len() - i;
        let b0: u8 = data[i];
        let b1: u8 = if left > 1 {
            data[i + 1]
        } else {
            0
        };
        let b2: u8 = if left > 2 {
            data[i + 2]
        } else {
            0
        };
        let ghost head = out@;
        let ghost rest = data@.skip(i as int);
        out.push(alphabet(b0 / 4));
        out.push(alphabet((b0 % 4) * 16 + b1 / 16));
        if left > 1 {
            out.push(alphabet((b1 % 16) * 4 + b2 / 64));
        } else {
            out.push('=');
        }
        if left > 2 {
            out.push(alphabet(b2 % 64));
        } else {
            out.push('=');
        }
        let step: usize = if left > 2 {
            3
        } else {
            left
        };
        proof {
            let group = out@.skip(head.len() as int);
            assert(out@ =~= head + group);
            let more = base64(data@.skip(i + step));
            if left > 2 {
                assert(rest.skip(3) =~= data@.skip(i + 3));
            } else {
                assert(data@.skip(i + step) =~= Seq::<u8>::empty());
            }
            assert(base64(rest) =~= group + more);
            assert(head + (group + more) =~= out@ + more);
        }
        i = i + step;
    }
    assert(out@ + base64(data@.skip(i as int)) =~= out@);
    out
}

/// JSON as it is read back when its numbers read as `read` says.
pub open spec fn read_back(
    read: spec_fn(NumberForm) -> NumberReading,
    j: JsonView<NumberForm>,
) -> JsonView<NumberReading>
    decreases j,
{
    match j {
        JsonView::Null => JsonView::Null,
        JsonView::Bool(b) => JsonView::Bool(b),
        JsonView::Number(n) => JsonView::Number(read(n)),
        JsonView::Text(s) => JsonView::Text(s),
        JsonView::Array(a) => JsonView::Array(read_back_list(read, a)),
        JsonView::Object(f) => JsonView::Object(read_back_fields(read, f)),
    }
}

/// A list as it is read back.
pub open spec fn read_back_list(
    read: spec_fn(NumberForm) -> NumberReading,
    a: Seq<JsonView<NumberForm>>,
) -> Seq<JsonView<NumberReading>>
    decreases a,
{
    if a.len() == 0 {
        Seq::empty()
    } else {
        read_back_list(read, a.drop_last()).push(read_back(read, a.last()))
    }
}

/// Fields as they are read back.
pub open spec fn read_back_fields(
    read: spec_fn(NumberForm) -> NumberReading,
    f: Seq<(Seq<char>, JsonView<NumberForm>)>,
) -> Seq<(Seq<char>, JsonView<NumberReading>)>
    decreases f,
{
    if f.len() == 0 {
        Seq::empty()
    } else {
        read_back_fields(read, f.drop_last()).push((f.last().0, read_back(read, f.last().1)))
    }
}

/// Numbers read back as they were written.
pub open spec fn faithful(read: spec_fn(NumberForm) -> NumberReading) -> bool {
    &&& forall|i: i64| (#[trigger] read(NumberForm::Int(i))).int == Some(i)
    &&& forall|b: u64|
        (#[trigger] read(NumberForm::Double(b))).int is None && read(NumberForm::Double(b)).double
            == Some(b)
    &&& forall|c: u32|
        (#[trigger] read(NumberForm::Single(c))).double is Some && read(NumberForm::Single(c)).single
            == c
}

/// A value that JSON can hold as it is: no bytes, finite numbers, keys in order, and no
/// object that looks like an embedding.
pub open spec fn json_like(v: ValueView) -> bool
    decreases v,
{
    match v {
        ValueView::Float(f) => is_finite(f),
        ValueView::Bytes(_) => false,
        ValueView::Vector(x) => forall|i: int| 0 <= i < x.len() ==> is_finite32(#[trigger] x[i]),
        ValueView::Array(a) => json_like_list(a),
        ValueView::Object(p) => sorted(p) && json_like_entries(p) && !(p.len() == 1 && p[0].0
            == "$vector"@ && p[0].1 is Array),
        _ => true,
    }
}

/// Values that JSON can hold as they are.
pub open spec fn json_like_list(a: Seq<ValueView>) -> bool
    decreases a,
{
    a.len() == 0 || (json_like_list(a.drop_last()) && json_like(a.last()))
}

/// Entries that JSON can hold as they are.
pub open spec fn json_like_entries(p: Seq<(Seq<char>, ValueView)>) -> bool
    decreases p,
{
    p.len() == 0 || (json_like_entries(p.drop_last()) && json_like(p.last().1))
}

/// A value that JSON can hold as it is reads back from its JSON unchanged, embeddings
/// included.
pub proof fn law_json_round_trip(read: spec_fn(NumberForm) -> NumberReading, v: ValueView)
    requires
        faithful(read),
        json_like(v),
    ensures
        from_json(read_back(read, to_json(v))) == Ok::<ValueView, JsonError>(v),
    decreases v, 1nat,
{
    match v {
        ValueView::Vector(x) => {
            let a = x.map_values(|c: u32| component_to_json(c));
            let f = seq![("$vector"@, JsonView::Array(a))];
            let g = read_back_fields(read, f);
            assert(f.drop_last() =~= Seq::<(Seq<char>, JsonView<NumberForm>)>::empty());
            reveal_with_fuel(read_back_fields, 2);
            assert(g =~= seq![("$vector"@, JsonView::Array(read_back_list(read, a)))]);
            lemma_components_round_trip(read, x);
        },
        ValueView::Array(a) => {
            lemma_list_round_trip(read, a);
        },
        ValueView::Object(p) => {
            lemma_entries_round_trip(read, p);
            let g = read_back_fields(read, entries_to_json(p));
            lemma_entries_to_json(p);
            lemma_read_back_fields(read, entries_to_json(p));
            if p.len() == 1 && p[0].0 == "$vector"@ {
                assert(g[0] == (p[0].0, read_back(read, to_json(p[0].1))));
                reveal_with_fuel(json_like_entries, 2);
                assert(p.last() == p[0]);
                match p[0].1 {
                    ValueView::Vector(_) => {},
                    _ => {},
                }
                assert(!(g[0].1 is Array));
            }
            assert(vector_elements(g) is None);
            lemma_sorted_entries(p);
        },
        _ => {},
    }
}

proof fn lemma_read_back_fields(
    read: spec_fn(NumberForm) -> NumberReading,
    f: Seq<(Seq<char>, JsonView<NumberForm>)>,
)
    ensures
        read_back_fields(read, f).len() == f.len(),
        forall|i: int|
            0 <= i < f.len() ==> #[trigger] read_back_fields(read, f)[i] == (
                f[i].0,
                read_back(read, f[i].1),
            ),
    decreases f.len(),
{
    if f.len() > 0 {
        lemma_read_back_fields(read, f.drop_last());
    }
}

proof fn lemma_components_round_trip(read: spec_fn(NumberForm) -> NumberReading, x: Seq<u32>)
    requires
        faithful(read),
        forall|i: int| 0 <= i < x.len() ==> is_finite32(#[trigger] x[i]),
    ensures
        components(read_back_list(read, x.map_values(|c: u32| component_to_json(c)))) == Ok::<
            Seq<u32>,
            JsonError,
        >(x),
    decreases x.len(),
{
    let a = x.map_values(|c: u32| component_to_json(c));
    if x.len() > 0 {
        let y = x.drop_last();
        lemma_components_round_trip(read, y);
        assert(a.drop_last() =~= y.map_values(|c: u32| component_to_json(c)));
        let r = read_back_list(read, a);
        assert(r.drop_last() =~= read_back_list(read, a.drop_last()));
        assert(is_finite32(x[x.len() - 1]));
        assert(a.last() == JsonView::Number(NumberForm::Single(x.last())));
        assert(read_back(read, a.last()) == JsonView::Number(read(NumberForm::Single(x.last()))));
        assert(r.last() == read_back(read, a.last()));
        assert(y.push(x.last()) =~= x);
    } else {
        assert(a =~= Seq::<JsonView<NumberForm>>::empty());
        assert(x =~= Seq::<u32>::empty());
    }
}

proof fn lemma_list_round_trip(read: spec_fn(NumberForm) -> NumberReading, a: Seq<ValueView>)
    requires
        faithful(read),
        json_like_list(a),
    ensures
        list_from_json(read_back_list(read, list_to_json(a))) == Ok::<Seq<ValueView>, JsonError>(a),
    decreases a, 0nat,
{
    if a.len() > 0 {
        lemma_list_round_trip(read, a.drop_last());
        law_json_round_trip(read, a.last());
        let j = list_to_json(a);
        assert(j.drop_last() =~= list_to_json(a.drop_last()));
        let r = read_back_list(read, j);
        assert(r.drop_last() =~= read_back_list(read, j.drop_last()));
        assert(a.drop_last().push(a.last()) =~= a);
    } else {
        assert(a =~= Seq::<ValueView>::empty());
    }
}

proof fn lemma_entries_round_trip(
    read: spec_fn(NumberForm) -> NumberReading,
    p: Seq<(Seq<char>, ValueView)>,
)
    requires
        faithful(read),
        sorted(p),
        json_like_entries(p),
    ensures
        fields_from_json(read_back_fields(read, entries_to_json(p))) == Ok::<
            Map<Seq<char>, ValueView>,
            JsonError,
        >(pair_map(p)),
    decreases p, 0nat,
{
    if p.len() > 0 {
        let head = p.drop_last();
        assert(sorted(head)) by {
            assert forall|i: int, j: int| 0 <= i < j < head.len() implies crate::text::before(
                (#[trigger] head[i]).0,
                (#[trigger] head[j]).0,
            ) by {
                assert(crate::text::before(p[i].0, p[j].0));
            }
        }
        lemma_entries_round_trip(read, head);
        law_json_round_trip(read, p.last().1);
        let j = entries_to_json(p);
        assert(j.drop_last() =~= entries_to_json(head));
        let r = read_back_fields(read, j);
        assert(r.drop_last() =~= read_back_fields(read, j.drop_last()));
        crate::storage::value::lemma_pair_map_drop_last(p);
        crate::storage::value::lemma_pair_map_at(p, p.len() - 1);
        assert(pair_map(head).insert(p.last().0, p.last().1) =~= pair_map(p));
    } else {
        assert(pair_map(p) =~= Map::<Seq<char>, ValueView>::empty());
    }
}

/// Number that a base64 character stands for.
pub open spec fn base64_value(c: char) -> int {
    if 'A' <= c && c <= 'Z' {
        c as int - 'A' as int
    } else if 'a' <= c && c <= 'z' {
        c as int - 'a' as int + 26
    } else if '0' <= c && c <= '9' {
        c as int - '0' as int + 52
    } else if c == '+' {
        62
    } else if c == '/' {
        63
    } else {
        -1
    }
}

/// A base64 character stands for the number that it was made of.
proof fn lemma_base64_char(n: int)
    requires
        0 <= n < 64,
    ensures
        base64_value(base64_char(n)) == n,
{
}

/// Every three bytes have the same 24 bits as the four characters in their place; of a last
/// group of one or two bytes, what is missing counts as zero and is shown by equals signs.
pub proof fn law_base64(b: Seq<u8>, i: int)
    requires
        0 <= i,
    ensures
        base64(b).len() == 4 * ((b.len() + 2) / 3),
        3 * i + 2 < b.len() ==> ({
            let r = base64(b);
            b[3 * i] * 65536 + b[3 * i + 1] * 256 + b[3 * i + 2] == base64_value(r[4 * i]) * 262144
                + base64_value(r[4 * i + 1]) * 4096 + base64_value(r[4 * i + 2]) * 64
                + base64_value(r[4 * i + 3])
        }),
        3 * i + 2 == b.len() ==> ({
            let r = base64(b);
            &&& b[3 * i] * 65536 + b[3 * i + 1] * 256 == base64_value(r[4 * i]) * 262144
                + base64_value(r[4 * i + 1]) * 4096 + base64_value(r[4 * i + 2]) * 64
            &&& r[4 * i + 3] == '='
        }),
        3 * i + 1 == b.len() ==> ({
            let r = base64(b);
            &&& b[3 * i] * 65536 == base64_value(r[4 * i]) * 262144 + base64_value(r[4 * i + 1])
                * 4096
            &&& r[4 * i + 2] == '='
            &&& r[4 * i + 3] == '='
        }),
    decreases b.len(),
{
    if b.len() > 0 {
        lemma_base64_char(b[0] as int / 4);
        if b.len() == 1 {
            lemma_base64_char((b[0] as int % 4) * 16);
        } else if b.len() == 2 {
            lemma_base64_char((b[0] as int % 4) * 16 + b[1] as int / 16);
            lemma_base64_char((b[1] as int % 16) * 4);
        } else {
            lemma_base64_char((b[0] as int % 4) * 16 + b[1] as int / 16);
            lemma_base64_char((b[1] as int % 16) * 4 + b[2] as int / 64);
            lemma_base64_char(b[2] as int % 64);
            let rest = b.skip(3);
            if i == 0 {
                law_base64(rest, 0);
            } else {
                law_base64(rest, i - 1);
                let r = base64(b);
                let t = base64(rest);
                assert(3 * i < b.len() ==> b[3 * i] == rest[3 * (i - 1)]);
                assert(3 * i + 1 < b.len() ==> b[3 * i + 1] == rest[3 * (i - 1) + 1]);
                assert(3 * i + 2 < b.len() ==> b[3 * i + 2] == rest[3 * (i - 1) + 2]);
                if 3 * i < b.len() {
                    assert(r[4 * i] == t[4 * (i - 1)]);
                    assert(r[4 * i + 1] == t[4 * (i - 1) + 1]);
                    assert(r[4 * i + 2] == t[4 * (i - 1) + 2]);
                    assert(r[4 * i + 3] == t[4 * (i - 1) + 3]);
                }
            }
        }
    }
}

} // verus!
