//! Secondary indexes on property values.
//!
//! An index on a field of a type has the registry key "type NUL field". A node with a value
//! in that field is listed under the key "type NUL field NUL value".

use vstd::prelude::*;
use vstd::utf8::encode_utf8;

use super::local::{present, LocalStorage};
use super::node::NodeId;
use super::tables::{lemma_run_push, run, TableOp, Tables};
use super::value::{PropertyMap, Value, ValueView};
use crate::codec::{bytes_begin_with, copy_bytes, has_prefix};
use crate::text::{
    begins_with, copy_str, from_chars, lemma_encode_concat, lemma_encode_injective,
    lemma_encode_prefix, push_signed, push_str, signed_decimal,
    starts_with, to_chars,
};

verus! {

broadcast use lemma_run_push;

/// The text that a value's key needs and that is written outside the library.
#[derive(Debug, Clone, Copy, PartialEq, Eq, Structural)]
pub enum Rendering {
    /// None.
    Plain,
    /// A floating-point number, given by its bits, with ten decimal places.
    TenPlaces(u64),
    /// The value as JSON.
    Json,
}

/// Which text the key of a value needs.
pub open spec fn rendering_of(v: ValueView) -> Rendering {
    match v {
        ValueView::Float(bits) => Rendering::TenPlaces(bits),
        ValueView::Bytes(_) | ValueView::Vector(_) | ValueView::Array(_) | ValueView::Object(_) =>
            Rendering::Json,
        _ => Rendering::Plain,
    }
}

/// The text of a value in a key: a letter for its kind, a colon and the value.
pub open spec fn value_text(v: ValueView, rendered: Seq<char>) -> Seq<char> {
    match v {
        ValueView::Text(s) => "s:"@ + s,
        ValueView::Int(i) => "i:"@ + signed_decimal(i as int),
        ValueView::Float(_) => "f:"@ + rendered,
        ValueView::Bool(b) => "b:"@ + (if b {
            "true"@
        } else {
            "false"@
        }),
        ValueView::Null => "n:"@,
        _ => "j:"@ + rendered,
    }
}

/// The letter that stands for the kind of a value.
pub open spec fn kind_letter(v: ValueView) -> char {
    match v {
        ValueView::Text(_) => 's',
        ValueView::Int(_) => 'i',
        ValueView::Float(_) => 'f',
        ValueView::Bool(_) => 'b',
        ValueView::Null => 'n',
        _ => 'j',
    }
}

/// The registry key of an index.
pub open spec fn registry_key(node_type: Seq<char>, field: Seq<char>) -> Seq<char> {
    node_type.push('\0') + field
}

/// The key of a text under an index.
pub open spec fn scoped_key(node_type: Seq<char>, field: Seq<char>, text: Seq<char>) -> Seq<u8> {
    encode_utf8(registry_key(node_type, field).push('\0') + text)
}

/// Which text the key of a value needs.
pub fn rendering(value: &Value) -> (r: Rendering)
    ensures
        r == rendering_of(value@),
{
    match value {
        Value::Float(bits) => Rendering::TenPlaces(*bits),
        Value::Bytes(_) => Rendering::Json,
        Value::Vector(_) => Rendering::Json,
        Value::Array(_) => Rendering::Json,
        Value::Object(_) => Rendering::Json,
        _ => Rendering::Plain,
    }
}

/// The registry key of an index.
pub fn make_registry_key(node_type: &str, field: &str) -> (r: String)
    ensures
        r@ == registry_key(node_type@, field@),
{
    let mut key = copy_str(node_type);
    key.push('\0');
    push_str(&mut key, field);
    key
}

/// The key of a text under an index.
pub(crate) fn make_scoped_key(node_type: &str, field: &str, text: &str) -> (r: Vec<u8>)
    ensures
        r@ == scoped_key(node_type@, field@, text@),
{
    let mut key = make_registry_key(node_type, field);
    key.push('\0');
    push_str(&mut key, text);
    copy_bytes(key.as_str().as_bytes())
}

/// The key of a value under an index. `rendered` is the text that [`rendering`] asks for.
pub fn make_property_index_key(
    node_type: &str,
    field: &str,
    value: &Value,
    rendered: &str,
) -> (r: Vec<u8>)
    ensures
        r@ == scoped_key(node_type@, field@, value_text(value@, rendered@)),
{
    let text = match value {
        Value::String(s) => {
            let mut m = copy_str("s:");
            push_str(&mut m, s.as_str());
            m
        },
        Value::Int(i) => {
            let mut m = copy_str("i:");
            push_signed(&mut m, *i);
            m
        },
        Value::Float(_) => {
            let mut m = copy_str("f:");
            push_str(&mut m, rendered);
            m
        },
        Value::Bool(b) => {
            let mut m = copy_str("b:");
            if *b {
                push_str(&mut m, "true");
            } else {
                push_str(&mut m, "false");
            }
            m
        },
        Value::Null => copy_str("n:"),
        _ => {
            let mut m = copy_str("j:");
            push_str(&mut m, rendered);
            m
        },
    };
    assert(text@ =~= value_text(value@, rendered@));
    make_scoped_key(node_type, field, text.as_str())
}

/// A node of a type as an index is built: whether it has an index record, its properties
/// where its payload is stored, and the text that its field's value needs.
#[derive(Debug)]
pub struct ScannedNode {
    /// Identifier of the node.
    pub id: NodeId,
    /// Whether the node has an index record.
    pub indexed: bool,
    /// The properties, where the payload is stored.
    pub properties: Option<PropertyMap>,
    /// The text that the field's value needs.
    pub rendered: String,
}

impl ScannedNode {
    /// The value of a field, where the node is to be indexed.
    pub open spec fn value(&self, field: Seq<char>) -> Option<ValueView> {
        match self.properties {
            Some(p) => if self.indexed && p.map().dom().contains(field) {
                Some(p.map()[field])
            } else {
                None
            },
            None => None,
        }
    }

    /// The key and identifier that an index enters for the node.
    pub open spec fn entry(&self, node_type: Seq<char>, field: Seq<char>) -> Option<
        (Seq<u8>, Seq<u8>),
    > {
        match self.value(field) {
            Some(v) => Some(
                (scoped_key(node_type, field, value_text(v, self.rendered@)), self.id@),
            ),
            None => None,
        }
    }
}

/// The entries that an index makes for some nodes.
pub open spec fn index_entries(
    nodes: Seq<ScannedNode>,
    node_type: Seq<char>,
    field: Seq<char>,
) -> Seq<(Seq<u8>, Seq<u8>)> {
    present(nodes.map_values(|n: ScannedNode| n.entry(node_type, field)))
}

/// The entries that the properties of one node make under some indexed fields.
pub open spec fn property_entries(
    fields: Seq<String>,
    rendered: Seq<String>,
    node_type: Seq<char>,
    properties: Map<Seq<char>, ValueView>,
    id: Seq<u8>,
) -> Set<(Seq<u8>, Seq<u8>)> {
    Set::new(
        |p: (Seq<u8>, Seq<u8>)|
            p.1 == id && exists|i: int|
                0 <= i < fields.len() && properties.dom().contains((#[trigger] fields[i])@)
                    && p.0 == scoped_key(
                    node_type,
                    fields[i]@,
                    value_text(properties[fields[i]@], rendered[i]@),
                ),
    )
}

/// Whether reads gave every property key.
pub open spec fn keys_read_as(t: Tables, keys: Seq<Vec<u8>>) -> bool {
    forall|p: (Seq<u8>, Seq<u8>)| #[trigger]
        t.properties.contains(p) ==> exists|i: int| 0 <= i < keys.len() && (#[trigger] keys[i])@
            == p.0
}

/// The fields of a type among some registry keys.
pub open spec fn fields_of(keys: Seq<String>, node_type: Seq<char>) -> Seq<Seq<char>>
    decreases keys.len(),
{
    if keys.len() == 0 {
        Seq::empty()
    } else {
        let head = fields_of(keys.drop_last(), node_type);
        let key = keys.last()@;
        let prefix = node_type.push('\0');
        if begins_with(key, prefix) {
            head.push(key.skip(prefix.len() as int))
        } else {
            head
        }
    }
}

/// Position of the first NUL, or the length where there is none.
pub open spec fn first_nul(s: Seq<char>, i: int) -> int
    decreases s.len() - i,
{
    if i >= s.len() || s[i] == '\0' {
        i
    } else {
        first_nul(s, i + 1)
    }
}

/// A registry key taken apart at its first NUL, if it has one.
pub open spec fn split_key(key: Seq<char>) -> Option<(Seq<char>, Seq<char>)> {
    let n = first_nul(key, 0);
    if n < key.len() {
        Some((key.take(n), key.skip(n + 1)))
    } else {
        None
    }
}

/// Types and fields, as sequences.
pub open spec fn pair_views(v: Seq<(String, String)>) -> Seq<(Seq<char>, Seq<char>)> {
    v.map_values(|p: (String, String)| (p.0@, p.1@))
}

/// The types and fields of some registry keys, leaving out keys without a NUL.
pub open spec fn split_keys(keys: Seq<String>) -> Seq<(Seq<char>, Seq<char>)> {
    present(keys.map_values(|k: String| split_key(k@)))
}

impl LocalStorage {
    /// Builds an index on a field from the nodes of the type, unless it is registered
    /// already. Returns how many nodes were entered.
    pub fn create_property_index(
        registered: bool,
        node_type: &str,
        field: &str,
        nodes: &[ScannedNode],
    ) -> (r: (u64, Vec<TableOp>))
        ensures
            registered ==> r.0 == 0 && r.1@.len() == 0,
            !registered ==> r.0 == index_entries(nodes@, node_type@, field@).len() && forall|
                t: Tables,
            | #[trigger]
                run(t, r.1@) == (Tables {
                    properties: t.properties.union(
                        index_entries(nodes@, node_type@, field@).to_set(),
                    ),
                    property_registry: t.property_registry.insert(
                        registry_key(node_type@, field@),
                    ),
                    ..t
                }),
    {
        let mut ops: Vec<TableOp> = Vec::new();
        if registered {
            return (0, ops);
        }
        let ghost entry = |n: ScannedNode| n.entry(node_type@, field@);
        let ghost all = nodes@.map_values(entry);
        let mut count: u64 = 0;
        let mut i: usize = 0;
        assert(present(all.take(0)) =~= Seq::empty());
        proof {
            assert forall|t: Tables| #[trigger] run(t, ops@) == with_entries(
                t,
                present(all.take(0)),
            ) by {
                assert(t.properties.union(present(all.take(0)).to_set()) =~= t.properties);
            }
        }
        while i < nodes.len()
            invariant
                i <= nodes@.len(),
                all == nodes@.map_values(|n: ScannedNode| n.entry(node_type@, field@)),
                count == present(all.take(i as int)).len(),
                count <= i,
                forall|t: Tables| #[trigger]
                    run(t, ops@) == with_entries(t, present(all.take(i as int))),
            decreases nodes@.len() - i,
        {
            let node = &nodes[i];
            let ghost before = ops@;
            let ghost done = present(all.take(i as int));
            proof {
                assert(all.take(i + 1).drop_last() =~= all.take(i as int));
                assert(all.take(i + 1).last() == node.entry(node_type@, field@));
            }
            if node.indexed {
                if let Some(properties) = &node.properties {
                    if let Some(value) = properties.get(field) {
                        let key = make_property_index_key(
                            node_type,
                            field,
                            value,
                            node.rendered.as_str(),
                        );
                        let ghost pair = (key@, node.id@);
                        ops.push(TableOp::LinkProperty(key, node.id));
                        count = count + 1;
                        proof {
                            assert(node.entry(node_type@, field@) == Some(pair));
                            assert forall|t: Tables| #[trigger] run(t, ops@) == with_entries(
                                t,
                                done.push(pair),
                            ) by {
                                assert(run(t, before) == with_entries(t, done));
                                lemma_entries_push(t.properties, done, pair);
                            }
                        }
                    }
                }
            }
            i = i + 1;
        }
        assert(all.take(i as int) =~= all);
        ops.push(TableOp::RegisterProperty(make_registry_key(node_type, field)));
        (count, ops)
    }

    /// Takes an index off the registry and all keys of its values out of the table.
    pub fn drop_property_index(node_type: &str, field: &str, keys: &[Vec<u8>]) -> (r: Vec<TableOp>)
        ensures
            forall|t: Tables|
                keys_read_as(t, keys@) ==> #[trigger] run(t, r@) == index_dropped(
                    t,
                    node_type@,
                    field@,
                ),
    {
        let prefix = make_scoped_key(node_type, field, "");
        let ghost none = ""@;
        proof {
            reveal_strlit("");
            assert(registry_key(node_type@, field@).push('\0') + none =~= registry_key(
                node_type@,
                field@,
            ).push('\0'));
        }
        let mut ops: Vec<TableOp> = Vec::new();
        ops.push(TableOp::UnregisterProperty(make_registry_key(node_type, field)));
        let mut i: usize = 0;
        proof {
            assert forall|t: Tables| #[trigger] run(t, ops@) == keys_cut(
                t,
                node_type@,
                field@,
                keys@.take(0),
            ) by {
                assert(keys_cut(t, node_type@, field@, keys@.take(0)).properties =~= t.properties);
            }
        }
        while i < keys.len()
            invariant
                i <= keys@.len(),
                prefix@ == index_prefix(node_type@, field@),
                forall|t: Tables| #[trigger]
                    run(t, ops@) == keys_cut(t, node_type@, field@, keys@.take(i as int)),
            decreases keys@.len() - i,
        {
            let ghost before = ops@;
            let key = &keys[i];
            let ghost done = keys@.take(i as int);
            let ghost more = keys@.take(i + 1);
            proof {
                assert(more =~= done.push(*key));
            }
            if has_prefix(key.as_slice(), prefix.as_slice()) {
                ops.push(TableOp::UnlinkProperty(copy_bytes(key.as_slice())));
            }
            proof {
                assert forall|t: Tables| #[trigger] run(t, ops@) == keys_cut(
                    t,
                    node_type@,
                    field@,
                    more,
                ) by {
                    assert(run(t, before) == keys_cut(t, node_type@, field@, done));
                    lemma_keys_cut_push(t, node_type@, field@, done, *key);
                }
            }
            i = i + 1;
        }
        assert(keys@.take(i as int) =~= keys@);
        proof {
            assert forall|t: Tables| keys_read_as(t, keys@) implies #[trigger] run(t, ops@)
                == index_dropped(t, node_type@, field@) by {
                lemma_keys_cut_all(t, node_type@, field@, keys@);
            }
        }
        ops
    }

    /// The nodes that an index lists under a key, or `None` where the field has no index.
    pub fn index_lookup(registered: bool, listed: Vec<NodeId>) -> (r: Option<Vec<NodeId>>)
        ensures
            r == (if registered {
                Some(listed)
            } else {
                None
            }),
    {
        if registered {
            Some(listed)
        } else {
            None
        }
    }

    /// The fields of a type that have an index, from the registry keys.
    pub fn get_indexed_fields_for_type(keys: &[String], node_type: &str) -> (r: Vec<String>)
        ensures
            crate::text::texts(r@) == fields_of(keys@, node_type@),
    {
        let mut prefix = copy_str(node_type);
        prefix.push('\0');
        let skip: usize = prefix.as_str().unicode_len();
        let mut out: Vec<String> = Vec::new();
        let mut i: usize = 0;
        assert(crate::text::texts(out@) =~= fields_of(keys@.take(0), node_type@));
        while i < keys.len()
            invariant
                i <= keys@.len(),
                prefix@ == node_type@.push('\0'),
                skip == prefix@.len(),
                crate::text::texts(out@) == fields_of(keys@.take(i as int), node_type@),
            decreases keys@.len() - i,
        {
            proof {
                assert(keys@.take(i + 1).drop_last() =~= keys@.take(i as int));
                assert(keys@.take(i + 1).last() == keys@[i as int]);
            }
            let chars = to_chars(keys[i].as_str());
            let ghost was = out@;
            if starts_with(chars.as_slice(), prefix.as_str()) {
                let rest = from_chars(chars.as_slice(), skip, chars.len());
                assert(rest@ =~= chars@.skip(skip as int));
                out.push(rest);
                assert(crate::text::texts(out@) =~= crate::text::texts(was).push(rest@));
            }
            i = i + 1;
        }
        assert(keys@.take(i as int) =~= keys@);
        out
    }

    /// Enters a node under the values of its indexed fields.
    pub fn update_property_indexes(
        id: NodeId,
        node_type: &str,
        fields: &[String],
        rendered: &[String],
        properties: &PropertyMap,
    ) -> (r: Vec<TableOp>)
        requires
            rendered@.len() == fields@.len(),
        ensures
            forall|t: Tables| #[trigger]
                run(t, r@) == (Tables {
                    properties: t.properties.union(
                        property_entries(fields@, rendered@, node_type@, properties.map(), id@),
                    ),
                    ..t
                }),
    {
        let mut ops: Vec<TableOp> = Vec::new();
        let ghost m = properties.map();
        let mut i: usize = 0;
        proof {
            assert forall|t: Tables| #[trigger] run(t, ops@) == with_properties(
                t,
                property_entries(fields@.take(0), rendered@, node_type@, m, id@),
            ) by {
                assert(t.properties.union(
                    property_entries(fields@.take(0), rendered@, node_type@, m, id@),
                ) =~= t.properties);
            }
        }
        while i < fields.len()
            invariant
                i <= fields@.len(),
                rendered@.len() == fields@.len(),
                m == properties.map(),
                forall|t: Tables| #[trigger]
                    run(t, ops@) == with_properties(
                        t,
                        property_entries(
                            fields@.take(i as int),
                            rendered@,
                            node_type@,
                            m,
                            id@,
                        ),
                    ),
            decreases fields@.len() - i,
        {
            let ghost before = ops@;
            let field = fields[i].as_str();
            let ghost done = fields@.take(i as int);
            let ghost more = fields@.take(i + 1);
            let ghost mut pair: Option<(Seq<u8>, Seq<u8>)> = None;
            if let Some(value) = properties.get(field) {
                let key = make_property_index_key(
                    node_type,
                    field,
                    value,
                    rendered[i].as_str(),
                );
                proof {
                    pair = Some((key@, id@));
                }
                ops.push(TableOp::LinkProperty(key, id));
            }
            proof {
                let small = property_entries(done, rendered@, node_type@, m, id@);
                let large = property_entries(more, rendered@, node_type@, m, id@);
                lemma_property_entries_push(fields@, i as int, rendered@, node_type@, m, id@, pair);
                assert forall|t: Tables| #[trigger] run(t, ops@) == with_properties(t, large) by {
                    assert(run(t, before) == with_properties(t, small));
                    if let Some(p) = pair {
                        assert(t.properties.union(small).insert(p) =~= t.properties.union(large));
                    }
                }
            }
            i = i + 1;
        }
        assert(fields@.take(i as int) =~= fields@);
        ops
    }

    /// Takes a node out from under the values that its indexed fields had.
    pub fn clear_property_indexes(
        id: NodeId,
        node_type: &str,
        fields: &[String],
        rendered: &[String],
        properties: &PropertyMap,
    ) -> (r: Vec<TableOp>)
        requires
            rendered@.len() == fields@.len(),
        ensures
            forall|t: Tables| #[trigger]
                run(t, r@) == (Tables {
                    properties: t.properties.difference(
                        property_entries(fields@, rendered@, node_type@, properties.map(), id@),
                    ),
                    ..t
                }),
    {
        let mut ops: Vec<TableOp> = Vec::new();
        let ghost m = properties.map();
        let mut i: usize = 0;
        proof {
            assert forall|t: Tables| #[trigger] run(t, ops@) == without_properties(
                t,
                property_entries(fields@.take(0), rendered@, node_type@, m, id@),
            ) by {
                assert(t.properties.difference(
                    property_entries(fields@.take(0), rendered@, node_type@, m, id@),
                ) =~= t.properties);
            }
        }
        while i < fields.len()
            invariant
                i <= fields@.len(),
                rendered@.len() == fields@.len(),
                m == properties.map(),
                forall|t: Tables| #[trigger]
                    run(t, ops@) == without_properties(
                        t,
                        property_entries(
                            fields@.take(i as int),
                            rendered@,
                            node_type@,
                            m,
                            id@,
                        ),
                    ),
            decreases fields@.len() - i,
        {
            let ghost before = ops@;
            let field = fields[i].as_str();
            let ghost done = fields@.take(i as int);
            let ghost more = fields@.take(i + 1);
            let ghost mut pair: Option<(Seq<u8>, Seq<u8>)> = None;
            if let Some(value) = properties.get(field) {
                let key = make_property_index_key(
                    node_type,
                    field,
                    value,
                    rendered[i].as_str(),
                );
                proof {
                    pair = Some((key@, id@));
                }
                ops.push(TableOp::UnlinkPropertyOf(key, id));
            }
            proof {
                let small = property_entries(done, rendered@, node_type@, m, id@);
                let large = property_entries(more, rendered@, node_type@, m, id@);
                lemma_property_entries_push(fields@, i as int, rendered@, node_type@, m, id@, pair);
                assert forall|t: Tables| #[trigger] run(t, ops@) == without_properties(t, large) by {
                    assert(run(t, before) == without_properties(t, small));
                    if let Some(p) = pair {
                        assert(t.properties.difference(small).remove(p) =~= t.properties.difference(
                            large,
                        ));
                    }
                }
            }
            i = i + 1;
        }
        assert(fields@.take(i as int) =~= fields@);
        ops
    }

    /// The types and fields of the registered indexes.
    pub fn list_indexes(keys: &[String]) -> (r: Vec<(String, String)>)
        ensures
            pair_views(r@) == split_keys(keys@),
    {
        let ghost all = keys@.map_values(|k: String| split_key(k@));
        let mut out: Vec<(String, String)> = Vec::new();
        let mut i: usize = 0;
        assert(pair_views(out@) =~= present(all.take(0)));
        while i < keys.len()
            invariant
                i <= keys@.len(),
                all == keys@.map_values(|k: String| split_key(k@)),
                pair_views(out@) == present(all.take(i as int)),
            decreases keys@.len() - i,
        {
            proof {
                assert(all.take(i + 1).drop_last() =~= all.take(i as int));
                assert(all.take(i + 1).last() == split_key(keys@[i as int]@));
            }
            let chars = to_chars(keys[i].as_str());
            let n: usize = find_nul(chars.as_slice());
            let ghost was = out@;
            if n < chars.len() {
                let head = from_chars(chars.as_slice(), 0, n);
                let tail = from_chars(chars.as_slice(), n + 1, chars.len());
                assert(head@ =~= chars@.take(n as int));
                assert(tail@ =~= chars@.skip(n + 1));
                out.push((head, tail));
                assert(pair_views(out@) =~= pair_views(was).push((head@, tail@)));
            }
            i = i + 1;
        }
        assert(all.take(i as int) =~= all);
        out
    }
}

fn find_nul(s: &[char]) -> (r: usize)
    ensures
        r == first_nul(s@, 0),
        r <= s@.len(),
{
    let mut i: usize = 0;
    while i < s.len() && s[i] != '\0'
        invariant
            i <= s@.len(),
            first_nul(s@, 0) == first_nul(s@, i as int),
        decreases s@.len() - i,
    {
        i = i + 1;
    }
    i
}

/// The prefix that all keys of an index share.
pub open spec fn index_prefix(node_type: Seq<char>, field: Seq<char>) -> Seq<u8> {
    encode_utf8(registry_key(node_type, field).push('\0'))
}

/// The tables without an index: it is not registered, and no node is listed under a key with
/// its prefix.
pub open spec fn index_dropped(t: Tables, node_type: Seq<char>, field: Seq<char>) -> Tables {
    Tables {
        properties: t.properties.filter(
            |p: (Seq<u8>, Seq<u8>)| !bytes_begin_with(p.0, index_prefix(node_type, field)),
        ),
        property_registry: t.property_registry.remove(registry_key(node_type, field)),
        ..t
    }
}

spec fn with_entries(t: Tables, entries: Seq<(Seq<u8>, Seq<u8>)>) -> Tables {
    Tables { properties: t.properties.union(entries.to_set()), ..t }
}

spec fn with_properties(t: Tables, entries: Set<(Seq<u8>, Seq<u8>)>) -> Tables {
    Tables { properties: t.properties.union(entries), ..t }
}

spec fn without_properties(t: Tables, entries: Set<(Seq<u8>, Seq<u8>)>) -> Tables {
    Tables { properties: t.properties.difference(entries), ..t }
}

proof fn lemma_entries_push<A>(s: Set<A>, done: Seq<A>, e: A)
    ensures
        s.union(done.push(e).to_set()) == s.union(done.to_set()).insert(e),
{
    let a = s.union(done.push(e).to_set());
    let b = s.union(done.to_set()).insert(e);
    assert forall|x: A| a.contains(x) <==> b.contains(x) by {
        if done.push(e).contains(x) && x != e {
            let i = choose|i: int| 0 <= i < done.push(e).len() && done.push(e)[i] == x;
            assert(done[i] == x);
        }
        if done.contains(x) {
            let i = choose|i: int| 0 <= i < done.len() && done[i] == x;
            assert(done.push(e)[i] == x);
        }
        assert(done.push(e)[done.len() as int] == e);
    }
    assert(a =~= b);
}

proof fn lemma_property_entries_push(
    fields: Seq<String>,
    i: int,
    rendered: Seq<String>,
    node_type: Seq<char>,
    m: Map<Seq<char>, ValueView>,
    id: Seq<u8>,
    pair: Option<(Seq<u8>, Seq<u8>)>,
)
    requires
        0 <= i < fields.len(),
        pair == (if m.dom().contains(fields[i]@) {
            Some(
                (
                    scoped_key(
                        node_type,
                        fields[i]@,
                        value_text(m[fields[i]@], rendered[i]@),
                    ),
                    id,
                ),
            )
        } else {
            None
        }),
    ensures
        ({
            let small = property_entries(fields.take(i), rendered, node_type, m, id);
            let large = property_entries(fields.take(i + 1), rendered, node_type, m, id);
            large == (match pair {
                Some(p) => small.insert(p),
                None => small,
            })
        }),
{
    let done = fields.take(i);
    let more = fields.take(i + 1);
    let small = property_entries(done, rendered, node_type, m, id);
    let large = property_entries(more, rendered, node_type, m, id);
    let want = match pair {
        Some(p) => small.insert(p),
        None => small,
    };
    assert(more[i] == fields[i]);
    assert forall|p: (Seq<u8>, Seq<u8>)| large.contains(p) <==> want.contains(p) by {
        if large.contains(p) {
            let k = choose|k: int|
                0 <= k < more.len() && m.dom().contains((#[trigger] more[k])@) && p.0
                    == scoped_key(
                    node_type,
                    more[k]@,
                    value_text(m[more[k]@], rendered[k]@),
                );
            if k < i {
                assert(done[k] == more[k]);
            }
        }
        if small.contains(p) {
            let k = choose|k: int|
                0 <= k < done.len() && m.dom().contains((#[trigger] done[k])@) && p.0
                    == scoped_key(
                    node_type,
                    done[k]@,
                    value_text(m[done[k]@], rendered[k]@),
                );
            assert(more[k] == done[k]);
        }
    }
    assert(large =~= want);
}

/// The tables without the index in the registry and without those of some keys that have the
/// prefix of the index.
spec fn keys_cut(
    t: Tables,
    node_type: Seq<char>,
    field: Seq<char>,
    keys: Seq<Vec<u8>>,
) -> Tables {
    Tables {
        properties: t.properties.filter(
            |p: (Seq<u8>, Seq<u8>)|
                !(bytes_begin_with(p.0, index_prefix(node_type, field)) && exists|i: int|
                    0 <= i < keys.len() && (#[trigger] keys[i])@ == p.0),
        ),
        property_registry: t.property_registry.remove(registry_key(node_type, field)),
        ..t
    }
}

proof fn lemma_keys_cut_push(
    t: Tables,
    node_type: Seq<char>,
    field: Seq<char>,
    done: Seq<Vec<u8>>,
    key: Vec<u8>,
)
    ensures
        ({
            let u = keys_cut(t, node_type, field, done);
            keys_cut(t, node_type, field, done.push(key)) == (if bytes_begin_with(
                key@,
                index_prefix(node_type, field),
            ) {
                Tables {
                    properties: u.properties.filter(|p: (Seq<u8>, Seq<u8>)| p.0 != key@),
                    ..u
                }
            } else {
                u
            })
        }),
{
    let u = keys_cut(t, node_type, field, done);
    let w = keys_cut(t, node_type, field, done.push(key));
    let cut = bytes_begin_with(key@, index_prefix(node_type, field));
    let want = if cut {
        u.properties.filter(|p: (Seq<u8>, Seq<u8>)| p.0 != key@)
    } else {
        u.properties
    };
    assert(done.push(key)[done.len() as int] == key);
    assert forall|p: (Seq<u8>, Seq<u8>)| w.properties.contains(p) <==> want.contains(p) by {
        if exists|i: int| 0 <= i < done.len() && (#[trigger] done[i])@ == p.0 {
            let i = choose|i: int| 0 <= i < done.len() && (#[trigger] done[i])@ == p.0;
            assert(done.push(key)[i]@ == p.0);
        }
        if exists|i: int| 0 <= i < done.push(key).len() && (#[trigger] done.push(key)[i])@ == p.0 {
            let i = choose|i: int|
                0 <= i < done.push(key).len() && (#[trigger] done.push(key)[i])@ == p.0;
            if i < done.len() {
                assert(done[i]@ == p.0);
            }
        }
    }
    assert(w.properties =~= want);
}

proof fn lemma_keys_cut_all(
    t: Tables,
    node_type: Seq<char>,
    field: Seq<char>,
    keys: Seq<Vec<u8>>,
)
    requires
        keys_read_as(t, keys),
    ensures
        keys_cut(t, node_type, field, keys) == index_dropped(t, node_type, field),
{
    let u = keys_cut(t, node_type, field, keys);
    let w = index_dropped(t, node_type, field);
    assert forall|p: (Seq<u8>, Seq<u8>)| u.properties.contains(p) <==> w.properties.contains(p) by {
        if t.properties.contains(p) {
            let i = choose|i: int| 0 <= i < keys.len() && (#[trigger] keys[i])@ == p.0;
        }
    }
    assert(u.properties =~= w.properties);
}

/// What stands before and behind a NUL is determined, where no NUL stands before it.
proof fn lemma_split_at_nul(a: Seq<char>, x: Seq<char>, b: Seq<char>, y: Seq<char>)
    requires
        !a.contains('\0'),
        !b.contains('\0'),
        a.push('\0') + x == b.push('\0') + y,
    ensures
        a == b,
        x == y,
{
    let s = a.push('\0') + x;
    let u = b.push('\0') + y;
    if a.len() < b.len() {
        assert(s[a.len() as int] == '\0');
        assert(u[a.len() as int] == b[a.len() as int]);
        assert(b.contains('\0'));
    }
    if b.len() < a.len() {
        assert(u[b.len() as int] == '\0');
        assert(s[b.len() as int] == a[b.len() as int]);
        assert(a.contains('\0'));
    }
    assert(a =~= s.take(a.len() as int));
    assert(b =~= u.take(b.len() as int));
    assert(x =~= s.skip(a.len() as int + 1));
    assert(y =~= u.skip(b.len() as int + 1));
}

/// Keys tell types, fields and texts apart, where types and fields hold no NUL.
pub proof fn law_keys_are_distinct(
    type1: Seq<char>,
    field1: Seq<char>,
    text1: Seq<char>,
    type2: Seq<char>,
    field2: Seq<char>,
    text2: Seq<char>,
)
    requires
        !type1.contains('\0'),
        !type2.contains('\0'),
        !field1.contains('\0'),
        !field2.contains('\0'),
        scoped_key(type1, field1, text1) == scoped_key(type2, field2, text2),
    ensures
        type1 == type2,
        field1 == field2,
        text1 == text2,
{
    let s1 = registry_key(type1, field1).push('\0') + text1;
    let s2 = registry_key(type2, field2).push('\0') + text2;
    lemma_encode_injective(s1, s2);
    assert(s1 =~= type1.push('\0') + (field1.push('\0') + text1));
    assert(s2 =~= type2.push('\0') + (field2.push('\0') + text2));
    lemma_split_at_nul(type1, field1.push('\0') + text1, type2, field2.push('\0') + text2);
    lemma_split_at_nul(field1, text1, field2, text2);
}

/// Values of different kinds never share a text, and neither do different strings.
pub proof fn law_value_texts_are_distinct(
    v: ValueView,
    w: ValueView,
    rendered1: Seq<char>,
    rendered2: Seq<char>,
)
    requires
        value_text(v, rendered1) == value_text(w, rendered2),
    ensures
        v is Text == w is Text,
        v is Int == w is Int,
        v is Float == w is Float,
        v is Bool == w is Bool,
        v is Null == w is Null,
        v is Text ==> v == w,
        v is Bool ==> v == w,
{
    reveal_strlit("s:");
    reveal_strlit("i:");
    reveal_strlit("f:");
    reveal_strlit("b:");
    reveal_strlit("n:");
    reveal_strlit("j:");
    reveal_strlit("true");
    reveal_strlit("false");
    assert(value_text(v, rendered1)[0] == kind_letter(v));
    assert(value_text(w, rendered2)[0] == kind_letter(w));
    if v is Text {
        assert(v->Text_0 =~= value_text(v, rendered1).skip(2));
        assert(w->Text_0 =~= value_text(w, rendered2).skip(2));
    }
    if v is Bool {
        assert("true"@.len() == 4 && "false"@.len() == 5);
        assert(value_text(v, rendered1).len() == 2 + (if v->Bool_0 {
            4nat
        } else {
            5nat
        }));
        assert(value_text(w, rendered2).len() == 2 + (if w->Bool_0 {
            4nat
        } else {
            5nat
        }));
    }
}

/// A node is listed under the value of each of its indexed fields.
pub proof fn law_indexed_value_is_found(
    t: Tables,
    fields: Seq<String>,
    rendered: Seq<String>,
    node_type: Seq<char>,
    properties: Map<Seq<char>, ValueView>,
    id: Seq<u8>,
    i: int,
)
    requires
        0 <= i < fields.len(),
        properties.dom().contains(fields[i]@),
    ensures
        t.properties.union(
            property_entries(fields, rendered, node_type, properties, id),
        ).contains(
            (
                scoped_key(
                    node_type,
                    fields[i]@,
                    value_text(properties[fields[i]@], rendered[i]@),
                ),
                id,
            ),
        ),
{
}

/// A field is among the indexed fields of its type exactly where its key is registered.
pub proof fn law_registered_fields_are_listed(
    keys: Seq<String>,
    node_type: Seq<char>,
    field: Seq<char>,
)
    ensures
        fields_of(keys, node_type).contains(field) <==> exists|i: int|
            0 <= i < keys.len() && (#[trigger] keys[i])@ == registry_key(node_type, field),
    decreases keys.len(),
{
    if keys.len() > 0 {
        let head = keys.drop_last();
        law_registered_fields_are_listed(head, node_type, field);
        let key = keys.last()@;
        let prefix = node_type.push('\0');
        let f = fields_of(keys, node_type);
        let g = fields_of(head, node_type);
        if begins_with(key, prefix) {
            assert(key =~= key.take(prefix.len() as int) + key.skip(prefix.len() as int));
            assert(f[g.len() as int] == key.skip(prefix.len() as int));
            if f.contains(field) && !g.contains(field) {
                let k = choose|k: int| 0 <= k < f.len() && f[k] == field;
                if k < g.len() {
                    assert(g[k] == field);
                }
                assert(keys[keys.len() - 1]@ == registry_key(node_type, field));
            }
        }
        if key == registry_key(node_type, field) {
            assert(key.take(prefix.len() as int) =~= prefix);
            assert(key.skip(prefix.len() as int) =~= field);
        }
        if g.contains(field) {
            let k = choose|k: int| 0 <= k < g.len() && g[k] == field;
            assert(f[k] == field);
            let i = choose|i: int|
                0 <= i < head.len() && (#[trigger] head[i])@ == registry_key(node_type, field);
            assert(keys[i]@ == registry_key(node_type, field));
        }
        if exists|i: int|
            0 <= i < keys.len() && (#[trigger] keys[i])@ == registry_key(node_type, field) {
            let i = choose|i: int|
                0 <= i < keys.len() && (#[trigger] keys[i])@ == registry_key(node_type, field);
            if i < head.len() {
                assert(head[i]@ == registry_key(node_type, field));
            }
        }
    }
}

/// A registry key reads back as its type and field, where the type holds no NUL.
pub proof fn law_registry_key_splits(node_type: Seq<char>, field: Seq<char>)
    requires
        !node_type.contains('\0'),
    ensures
        split_key(registry_key(node_type, field)) == Some((node_type, field)),
{
    let key = registry_key(node_type, field);
    let n = node_type.len() as int;
    lemma_first_nul(key, 0, n);
    assert(key.take(n) =~= node_type);
    assert(key.skip(n + 1) =~= field);
}

proof fn lemma_first_nul(s: Seq<char>, i: int, n: int)
    requires
        0 <= i <= n < s.len(),
        s[n] == '\0',
        forall|k: int| i <= k < n ==> s[k] != '\0',
    ensures
        first_nul(s, i) == n,
    decreases n - i,
{
    if i < n {
        lemma_first_nul(s, i + 1, n);
    }
}

/// A dropped index is not registered and lists nothing; an index on another type or field
/// keeps its entries, where types and fields hold no NUL.
pub proof fn law_dropped_index_is_empty(
    t: Tables,
    node_type: Seq<char>,
    field: Seq<char>,
    other_type: Seq<char>,
    other_field: Seq<char>,
    text: Seq<char>,
    id: Seq<u8>,
)
    requires
        !node_type.contains('\0'),
        !field.contains('\0'),
        !other_type.contains('\0'),
        !other_field.contains('\0'),
        other_type != node_type || other_field != field,
    ensures
        ({
            let u = index_dropped(t, node_type, field);
            &&& !u.property_registry.contains(registry_key(node_type, field))
            &&& !u.properties.contains((scoped_key(node_type, field, text), id))
            &&& u.properties.contains((scoped_key(other_type, other_field, text), id))
                == t.properties.contains((scoped_key(other_type, other_field, text), id))
        }),
{
    let p = registry_key(node_type, field).push('\0');
    let mine = p + text;
    lemma_encode_concat(p, text);
    let prefix = index_prefix(node_type, field);
    assert(encode_utf8(mine).take(prefix.len() as int) =~= prefix);
    let q = registry_key(other_type, other_field).push('\0') + text;
    if bytes_begin_with(encode_utf8(q), prefix) {
        lemma_encode_prefix(q, p);
        let rest = q.skip(p.len() as int);
        assert(q =~= q.take(p.len() as int) + rest);
        assert(q == p + rest);
        assert(scoped_key(node_type, field, rest) == encode_utf8(q));
        law_keys_are_distinct(node_type, field, rest, other_type, other_field, text);
    }
}

/// Whole numbers have different texts in keys where they differ, so that a number is found only
/// under itself.
pub proof fn law_number_texts_are_distinct(a: i64, b: i64, rendered: Seq<char>)
    ensures
        value_text(ValueView::Int(a), rendered) == value_text(ValueView::Int(b), rendered) ==> a
            == b,
{
    reveal_strlit("i:");
    let x = value_text(ValueView::Int(a), rendered);
    let y = value_text(ValueView::Int(b), rendered);
    if x == y {
        assert(x.skip(2) =~= signed_decimal(a as int));
        assert(y.skip(2) =~= signed_decimal(b as int));
        let m = if a < 0 {
            -a as nat
        } else {
            a as nat
        };
        let n = if b < 0 {
            -b as nat
        } else {
            b as nat
        };
        crate::text::law_decimal(m);
        crate::text::law_decimal(n);
        assert(crate::text::decimal(m)[0] != '-' && crate::text::decimal(n)[0] != '-');
        if a < 0 {
            assert(signed_decimal(a as int)[0] == '-');
            assert(signed_decimal(a as int).skip(1) =~= crate::text::decimal(m));
        }
        if b < 0 {
            assert(signed_decimal(b as int)[0] == '-');
            assert(signed_decimal(b as int).skip(1) =~= crate::text::decimal(n));
        }
    }
}

/// An index that is built from nodes has an entry for each of them that is to be indexed and has
/// the field, under the text of its value, and no others.
pub proof fn law_index_entries(
    nodes: Seq<ScannedNode>,
    node_type: Seq<char>,
    field: Seq<char>,
    e: (Seq<u8>, Seq<u8>),
)
    ensures
        index_entries(nodes, node_type, field).contains(e) <==> exists|i: int|
            0 <= i < nodes.len() && (#[trigger] nodes[i]).indexed && nodes[i].properties is Some
                && nodes[i].properties->0.map().dom().contains(field) && e == (
                scoped_key(
                    node_type,
                    field,
                    value_text(nodes[i].properties->0.map()[field], nodes[i].rendered@),
                ),
                nodes[i].id@,
            ),
{
    let found = nodes.map_values(|n: ScannedNode| n.entry(node_type, field));
    let r = index_entries(nodes, node_type, field);
    let at = crate::storage::local::law_present(found);
    if r.contains(e) {
        let k = choose|k: int| 0 <= k < r.len() && r[k] == e;
        assert(found[at[k]] == Some(r[k]));
        assert(nodes[at[k]].entry(node_type, field) == Some(e));
    }
    if exists|i: int|
        0 <= i < nodes.len() && (#[trigger] nodes[i]).indexed && nodes[i].properties is Some
            && nodes[i].properties->0.map().dom().contains(field) && e == (
            scoped_key(
                node_type,
                field,
                value_text(nodes[i].properties->0.map()[field], nodes[i].rendered@),
            ),
            nodes[i].id@,
        ) {
        let i = choose|i: int|
            0 <= i < nodes.len() && (#[trigger] nodes[i]).indexed && nodes[i].properties is Some
                && nodes[i].properties->0.map().dom().contains(field) && e == (
                scoped_key(
                    node_type,
                    field,
                    value_text(nodes[i].properties->0.map()[field], nodes[i].rendered@),
                ),
                nodes[i].id@,
            );
        assert(found[i] == Some(e));
        assert(at.contains(i));
        let k = choose|k: int| 0 <= k < at.len() && at[k] == i;
        assert(r[k] == e);
    }
}

} // verus!
