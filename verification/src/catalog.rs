//! Catalogs of registered permissions: reading them from a JSON document,
//! and comparing them with what a scan found.
use vstd::prelude::*;

use crate::pattern::{results_view, ScanResult, ScanResultModel};
use crate::text::{contains_string, make_key, permission_key, strings_view};

verus! {

/// A JSON document, as its parser hands it over.
///
/// Numbers keep their textual form. An object lists its members once each.
#[derive(Debug)]
pub enum JsonValue {
    Null,
    Bool(bool),
    Number(String),
    Text(String),
    Array(Vec<JsonValue>),
    Object(Vec<(String, JsonValue)>),
}

/// The mathematical value of a [`JsonValue`]: the same tree with its
/// strings as character sequences.
pub enum JsonModel {
    Null,
    Bool(bool),
    Number(Seq<char>),
    Text(Seq<char>),
    Array(Seq<JsonModel>),
    Object(Seq<(Seq<char>, JsonModel)>),
}

/// The mathematical value of a JSON document.
pub open spec fn json_view(v: JsonValue) -> JsonModel
    decreases v,
{
    match v {
        JsonValue::Null => JsonModel::Null,
        JsonValue::Bool(b) => JsonModel::Bool(b),
        JsonValue::Number(n) => JsonModel::Number(n@),
        JsonValue::Text(t) => JsonModel::Text(t@),
        JsonValue::Array(items) => JsonModel::Array(items_view(items@)),
        JsonValue::Object(members) => JsonModel::Object(members_view(members@)),
    }
}

/// The mathematical values of the items of an array.
pub open spec fn items_view(items: Seq<JsonValue>) -> Seq<JsonModel>
    decreases items,
{
    if items.len() == 0 {
        seq![]
    } else {
        items_view(items.drop_last()).push(json_view(items.last()))
    }
}

/// The mathematical values of the members of an object.
pub open spec fn members_view(members: Seq<(String, JsonValue)>) -> Seq<(Seq<char>, JsonModel)>
    decreases members,
{
    if members.len() == 0 {
        seq![]
    } else {
        members_view(members.drop_last()).push((members.last().0@, json_view(members.last().1)))
    }
}

/// Item `i` of an array's view is the view of item `i`.
pub proof fn lemma_items_view(items: Seq<JsonValue>)
    ensures
        items_view(items).len() == items.len(),
        forall|i: int| 0 <= i < items.len() ==> #[trigger] items_view(items)[i] == json_view(items[i]),
    decreases items.len(),
{
    if items.len() > 0 {
        lemma_items_view(items.drop_last());
        assert forall|i: int| 0 <= i < items.len() implies #[trigger] items_view(items)[i] == json_view(items[i]) by {
            if i < items.len() - 1 {
                assert(items.drop_last()[i] == items[i]);
            }
        }
    }
}

/// Member `i` of an object's view is the view of member `i`.
pub proof fn lemma_members_view(members: Seq<(String, JsonValue)>)
    ensures
        members_view(members).len() == members.len(),
        forall|i: int|
            0 <= i < members.len() ==> #[trigger] members_view(members)[i] == (
                members[i].0@,
                json_view(members[i].1),
            ),
    decreases members.len(),
{
    if members.len() > 0 {
        lemma_members_view(members.drop_last());
        assert forall|i: int| 0 <= i < members.len() implies #[trigger] members_view(members)[i] == (
            members[i].0@,
            json_view(members[i].1),
        ) by {
            if i < members.len() - 1 {
                assert(members.drop_last()[i] == members[i]);
            }
        }
    }
}

#[verifier::external_type_specification]
#[verifier::external_body]
pub struct ExJsonValue(serde_json::Value);

/// The document that `serde_json::from_str::<serde_json::Value>` reads from
/// `text`, as a mathematical value (numbers in their textual form, object
/// members in the order of `serde_json`'s map); `None` where `text` is not
/// JSON.
pub uninterp spec fn json_document(text: Seq<char>) -> Option<JsonModel>;

/// The library's model of a `serde_json` value: each variant carried over,
/// numbers as `serde_json::Number::to_string`, object members in map order.
#[verifier::external_body]
fn json_model(v: &serde_json::Value) -> JsonValue {
    match v {
        serde_json::Value::Null => JsonValue::Null,
        serde_json::Value::Bool(b) => JsonValue::Bool(*b),
        serde_json::Value::Number(n) => JsonValue::Number(n.to_string()),
        serde_json::Value::String(t) => JsonValue::Text(t.clone()),
        serde_json::Value::Array(items) => JsonValue::Array(items.iter().map(json_model).collect()),
        serde_json::Value::Object(m) => JsonValue::Object(m.iter().map(|(k, x)| (k.clone(), json_model(x))).collect()),
    }
}

/// The text that `serde_json::to_string_pretty` gives for the document
/// `doc` taken as a `serde_json::Value`; `None` where it fails.
pub uninterp spec fn json_pretty_text(doc: JsonModel) -> Option<Seq<char>>;

/// The `serde_json` value of a document of the library's model: each
/// variant carried over, numbers read back from their text (`Null` where
/// that text is not a number), members collected into `serde_json`'s map.
#[verifier::external_body]
fn json_value_of(v: &JsonValue) -> serde_json::Value {
    match v {
        JsonValue::Null => serde_json::Value::Null,
        JsonValue::Bool(b) => serde_json::Value::Bool(*b),
        JsonValue::Number(n) => serde_json::from_str(n).unwrap_or(serde_json::Value::Null),
        JsonValue::Text(t) => serde_json::Value::String(t.clone()),
        JsonValue::Array(items) => serde_json::Value::Array(items.iter().map(json_value_of).collect()),
        JsonValue::Object(m) => serde_json::Value::Object(m.iter().map(|(k, x)| (k.clone(), json_value_of(x))).collect()),
    }
}

/// Renders `doc` with `serde_json::to_string_pretty`.
///
/// Trusted: the result is `json_pretty_text` of the document's value.
#[verifier::external_body]
pub(crate) fn render_json_pretty(doc: &JsonValue) -> (r: Option<String>)
    ensures
        opt_text(r) == json_pretty_text(json_view(*doc)),
{
    serde_json::to_string_pretty(&json_value_of(doc)).ok()
}

/// The view of an optional string.
pub open spec fn opt_text(o: Option<String>) -> Option<Seq<char>> {
    match o {
        Some(s) => Some(s@),
        None => None,
    }
}

/// Parses `text` with `serde_json::from_str::<serde_json::Value>`.
///
/// Trusted: the result is `Ok` exactly when `json_document(text)` is
/// `Some`, and then holds that document; an error carries `serde_json`'s
/// message, of which nothing is stated.
#[verifier::external_body]
pub(crate) fn parse_json(text: &str) -> (r: Result<JsonValue, String>)
    ensures
        r is Ok <==> json_document(text@) is Some,
        r matches Ok(d) ==> json_document(text@) == Some(json_view(d)),
{
    match serde_json::from_str::<serde_json::Value>(text) {
        Ok(v) => Ok(json_model(&v)),
        Err(e) => Err(e.to_string()),
    }
}

/// The value of the first member named `key`.
pub open spec fn member_lookup(entries: Seq<(Seq<char>, JsonModel)>, key: Seq<char>) -> Option<JsonModel>
    decreases entries.len(),
{
    if entries.len() == 0 {
        None
    } else if entries[0].0 == key {
        Some(entries[0].1)
    } else {
        member_lookup(entries.drop_first(), key)
    }
}

/// `value[key]` where `value` is an object; `None` otherwise.
pub open spec fn json_get(value: JsonModel, key: Seq<char>) -> Option<JsonModel> {
    match value {
        JsonModel::Object(entries) => member_lookup(entries, key),
        _ => None,
    }
}

/// The text of a JSON string; `None` for anything else.
pub open spec fn json_text(value: Option<JsonModel>) -> Option<Seq<char>> {
    match value {
        Some(JsonModel::Text(s)) => Some(s),
        _ => None,
    }
}

/// The permission list of a catalog document: `permissions`, or where the
/// document has no such member, `data.permissions`; it must be an array.
pub open spec fn catalog_items(doc: JsonModel) -> Option<Seq<JsonModel>> {
    let list = match json_get(doc, "permissions"@) {
        Some(p) => Some(p),
        None => match json_get(doc, "data"@) {
            Some(d) => json_get(d, "permissions"@),
            None => None,
        },
    };
    match list {
        Some(JsonModel::Array(items)) => Some(items),
        _ => None,
    }
}

/// The text of member `a`, or where it is absent, of member `b`.
pub open spec fn field_text(item: JsonModel, a: Seq<char>, b: Seq<char>) -> Option<Seq<char>> {
    match json_get(item, a) {
        Some(v) => json_text(Some(v)),
        None => json_text(json_get(item, b)),
    }
}

/// The key of one catalog entry: its `key` string, or else the key built
/// from its level, resource and action strings (snake or camel case names).
pub open spec fn item_key(item: JsonModel) -> Option<Seq<char>> {
    match json_text(json_get(item, "key"@)) {
        Some(k) => Some(k),
        None => {
            let l = field_text(item, "level_key"@, "levelKey"@);
            let r = field_text(item, "resource_key"@, "resourceKey"@);
            let a = field_text(item, "action_key"@, "actionKey"@);
            if l is Some && r is Some && a is Some {
                Some(permission_key(l->0, r->0, a->0))
            } else {
                None
            }
        },
    }
}

/// The keys of the entries that have one, in order.
pub open spec fn item_keys(items: Seq<JsonModel>) -> Seq<Seq<char>>
    decreases items.len(),
{
    if items.len() == 0 {
        seq![]
    } else {
        let rest = item_keys(items.drop_last());
        match item_key(items.last()) {
            Some(k) => rest.push(k),
            None => rest,
        }
    }
}

/// `keys` with each repeated key dropped after its first occurrence.
pub open spec fn dedup(keys: Seq<Seq<char>>) -> Seq<Seq<char>>
    decreases keys.len(),
{
    if keys.len() == 0 {
        seq![]
    } else {
        let rest = dedup(keys.drop_last());
        if rest.contains(keys.last()) {
            rest
        } else {
            rest.push(keys.last())
        }
    }
}

/// The key `level:resource:action` of a scan result.
pub open spec fn result_key_of(r: ScanResultModel) -> Seq<char> {
    permission_key(r.level, r.resource, r.action)
}

/// The results whose key the catalog does not hold, in order.
pub open spec fn unregistered_of(results: Seq<ScanResultModel>, registered: Seq<Seq<char>>) -> Seq<ScanResultModel>
    decreases results.len(),
{
    if results.len() == 0 {
        seq![]
    } else {
        let rest = unregistered_of(results.drop_last(), registered);
        if registered.contains(result_key_of(results.last())) {
            rest
        } else {
            rest.push(results.last())
        }
    }
}

/// The keys of the results, in order.
pub open spec fn result_keys(results: Seq<ScanResultModel>) -> Seq<Seq<char>> {
    results.map_values(|r: ScanResultModel| result_key_of(r))
}

/// The catalog keys that no result has, in catalog order.
pub open spec fn removed_of(registered: Seq<Seq<char>>, found: Seq<Seq<char>>) -> Seq<Seq<char>>
    decreases registered.len(),
{
    if registered.len() == 0 {
        seq![]
    } else {
        let rest = removed_of(registered.drop_last(), found);
        if found.contains(registered.last()) {
            rest
        } else {
            rest.push(registered.last())
        }
    }
}

/// The unregistered results are exactly the scan results whose key the
/// catalog lacks: each of them is a scan result with an unregistered key,
/// and each scan result with an unregistered key is among them. So there
/// are none exactly when every key found is registered.
pub proof fn lemma_unregistered_exact(results: Seq<ScanResultModel>, registered: Seq<Seq<char>>)
    ensures
        forall|i: int|
            0 <= i < unregistered_of(results, registered).len() ==> {
                &&& !registered.contains(result_key_of(#[trigger] unregistered_of(results, registered)[i]))
                &&& results.contains(unregistered_of(results, registered)[i])
            },
        forall|i: int|
            0 <= i < results.len() && !registered.contains(result_key_of(#[trigger] results[i]))
                ==> unregistered_of(results, registered).contains(results[i]),
        (unregistered_of(results, registered).len() == 0) <==> (forall|i: int|
            0 <= i < results.len() ==> registered.contains(result_key_of(#[trigger] results[i]))),
    decreases results.len(),
{
    if results.len() > 0 {
        let prev = results.drop_last();
        let last = results.last();
        lemma_unregistered_exact(prev, registered);
        let up = unregistered_of(prev, registered);
        let u = unregistered_of(results, registered);
        assert forall|i: int| 0 <= i < u.len() implies {
            &&& !registered.contains(result_key_of(#[trigger] u[i]))
            &&& results.contains(u[i])
        } by {
            if i < up.len() {
                assert(u[i] == up[i]);
                let j = choose|j: int| 0 <= j < prev.len() && prev[j] == up[i];
                assert(results[j] == prev[j]);
            } else {
                assert(u[i] == last);
                assert(results[results.len() - 1] == last);
            }
        }
        assert forall|i: int|
            0 <= i < results.len() && !registered.contains(result_key_of(#[trigger] results[i])) implies u.contains(
            results[i],
        ) by {
            if i < prev.len() {
                assert(prev[i] == results[i]);
                let j = choose|j: int| 0 <= j < up.len() && up[j] == prev[i];
                assert(u[j] == up[j]);
            } else {
                assert(results[i] == last);
                assert(u[u.len() - 1] == last);
            }
        }
        if u.len() == 0 {
            assert forall|i: int| 0 <= i < results.len() implies registered.contains(
                result_key_of(#[trigger] results[i]),
            ) by {
                if !registered.contains(result_key_of(results[i])) {
                    assert(u.contains(results[i]));
                }
            }
        }
        if forall|i: int| 0 <= i < results.len() ==> registered.contains(result_key_of(#[trigger] results[i])) {
            assert forall|i: int| 0 <= i < prev.len() implies registered.contains(
                result_key_of(#[trigger] prev[i]),
            ) by {
                assert(prev[i] == results[i]);
            }
            assert(registered.contains(result_key_of(results[results.len() - 1])));
        }
    }
}

/// A larger catalog leaves fewer unregistered results: where every key of
/// `smaller` is in `larger`, the unregistered results against `larger` are
/// those against `smaller` with the newly registered ones taken out (so, a
/// subsequence of them). Against an empty catalog every result is
/// unregistered.
pub proof fn lemma_unregistered_monotone(
    results: Seq<ScanResultModel>,
    smaller: Seq<Seq<char>>,
    larger: Seq<Seq<char>>,
)
    requires
        forall|k: Seq<char>| smaller.contains(k) ==> larger.contains(k),
    ensures
        unregistered_of(unregistered_of(results, smaller), larger) == unregistered_of(results, larger),
        unregistered_of(results, Seq::<Seq<char>>::empty()) == results,
    decreases results.len(),
{
    if results.len() > 0 {
        let prev = results.drop_last();
        let last = results.last();
        lemma_unregistered_monotone(prev, smaller, larger);
        let u1 = unregistered_of(prev, smaller);
        if !smaller.contains(result_key_of(last)) {
            assert(u1.push(last).drop_last() =~= u1);
        }
        assert(prev.push(last) =~= results);
    }
}

/// The removed keys are exactly the catalog keys that no scan result has:
/// each is registered and unused, and each registered unused key is
/// among them.
pub proof fn lemma_removed_exact(registered: Seq<Seq<char>>, found: Seq<Seq<char>>)
    ensures
        forall|i: int|
            0 <= i < removed_of(registered, found).len() ==> {
                &&& registered.contains(#[trigger] removed_of(registered, found)[i])
                &&& !found.contains(removed_of(registered, found)[i])
            },
        forall|i: int|
            0 <= i < registered.len() && !found.contains(#[trigger] registered[i]) ==> removed_of(
                registered,
                found,
            ).contains(registered[i]),
    decreases registered.len(),
{
    if registered.len() > 0 {
        let prev = registered.drop_last();
        let last = registered.last();
        lemma_removed_exact(prev, found);
        let rp = removed_of(prev, found);
        let r = removed_of(registered, found);
        assert forall|i: int| 0 <= i < r.len() implies {
            &&& registered.contains(#[trigger] r[i])
            &&& !found.contains(r[i])
        } by {
            if i < rp.len() {
                assert(r[i] == rp[i]);
                let j = choose|j: int| 0 <= j < prev.len() && prev[j] == rp[i];
                assert(registered[j] == prev[j]);
            } else {
                assert(r[i] == last);
                assert(registered[registered.len() - 1] == last);
            }
        }
        assert forall|i: int| 0 <= i < registered.len() && !found.contains(#[trigger] registered[i]) implies r.contains(
            registered[i],
        ) by {
            if i < prev.len() {
                assert(prev[i] == registered[i]);
                let j = choose|j: int| 0 <= j < rp.len() && rp[j] == prev[i];
                assert(r[j] == rp[j]);
            } else {
                assert(r[r.len() - 1] == last);
            }
        }
    }
}

/// `s` without its trailing `/` characters.
pub open spec fn trim_trailing_slashes(s: Seq<char>) -> Seq<char>
    decreases s.len(),
{
    if s.len() > 0 && s.last() == '/' {
        trim_trailing_slashes(s.drop_last())
    } else {
        s
    }
}

/// A set of registered permission keys, in the order they were added.
#[derive(Debug)]
pub struct Catalog {
    keys: Vec<String>,
}

impl Catalog {
    #[verifier::type_invariant]
    spec fn distinct_keys(self) -> bool {
        strings_view(self.keys@).no_duplicates()
    }

    /// The keys, in the order they were added; no key occurs twice.
    pub closed spec fn entries(&self) -> Seq<Seq<char>> {
        strings_view(self.keys@)
    }

    /// An empty catalog.
    pub fn new() -> (r: Catalog)
        ensures
            r.entries() == Seq::<Seq<char>>::empty(),
    {
        let c = Catalog { keys: Vec::new() };
        assert(c.entries() =~= Seq::<Seq<char>>::empty());
        c
    }

    /// Adds `key`; returns whether it was not there yet.
    pub fn insert(&mut self, key: String) -> (r: bool)
        ensures
            r == !old(self).entries().contains(key@),
            final(self).entries() == (if r {
                old(self).entries().push(key@)
            } else {
                old(self).entries()
            }),
    {
        proof {
            use_type_invariant(&*self);
        }
        if contains_string(&self.keys, &key) {
            false
        } else {
            let ghost k = key@;
            let ghost before = strings_view(self.keys@);
            let mut keys: Vec<String> = Vec::new();
            std::mem::swap(&mut keys, &mut self.keys);
            keys.push(key);
            proof {
                assert(strings_view(keys@) =~= before.push(k));
                assert forall|i: int, j: int|
                    0 <= i < j < before.push(k).len() implies before.push(k)[i] != before.push(k)[j] by {
                    if j == before.len() {
                        assert(before.contains(before[i]));
                    }
                }
            }
            self.keys = keys;
            true
        }
    }

    /// Whether the catalog holds `key`.
    pub fn contains(&self, key: &str) -> (r: bool)
        ensures
            r == self.entries().contains(key@),
    {
        let k = String::from_str(key);
        contains_string(&self.keys, &k)
    }

    /// The number of keys.
    pub fn len(&self) -> (r: usize)
        ensures
            r == self.entries().len(),
            self.entries().no_duplicates(),
    {
        proof {
            use_type_invariant(self);
        }
        self.keys.len()
    }

    /// Whether the catalog holds no key.
    pub fn is_empty(&self) -> (r: bool)
        ensures
            r == (self.entries().len() == 0),
    {
        self.keys.len() == 0
    }

    /// The key at `i` in insertion order.
    pub fn key_at(&self, i: usize) -> (r: &String)
        requires
            i < self.entries().len(),
        ensures
            r@ == self.entries()[i as int],
    {
        &self.keys[i]
    }
}

/// The key `level:resource:action` of a scan result.
pub fn result_key(r: &ScanResult) -> (k: String)
    ensures
        k@ == result_key_of(r@),
{
    make_key(r.level.as_str(), r.resource.as_str(), r.action.as_str())
}

/// The value of the first member named `key` of an object; `None` for
/// anything else.
pub fn json_member<'a>(value: &'a JsonValue, key: &str) -> (r: Option<&'a JsonValue>)
    ensures
        r matches Some(v) ==> json_get(json_view(*value), key@) == Some(json_view(*v)),
        r is None ==> json_get(json_view(*value), key@) is None,
{
    match value {
        JsonValue::Object(entries) => {
            let k = String::from_str(key);
            let ghost mv = members_view(entries@);
            proof {
                lemma_members_view(entries@);
            }
            let mut i: usize = 0;
            assert(mv.skip(0) =~= mv);
            while i < entries.len()
                invariant
                    i <= entries@.len(),
                    k@ == key@,
                    mv == members_view(entries@),
                    mv.len() == entries@.len(),
                    forall|j: int| 0 <= j < entries@.len() ==> #[trigger] mv[j] == (entries@[j].0@, json_view(entries@[j].1)),
                    json_get(json_view(*value), key@) == member_lookup(mv, key@),
                    member_lookup(mv, key@) == member_lookup(mv.skip(i as int), key@),
                decreases entries@.len() - i,
            {
                assert(mv.skip(i as int)[0] == mv[i as int]);
                assert(mv.skip(i as int).drop_first() =~= mv.skip(i + 1));
                assert(member_lookup(mv.skip(i as int), key@) == if mv[i as int].0 == key@ {
                    Some(mv[i as int].1)
                } else {
                    member_lookup(mv.skip(i + 1), key@)
                });
                if entries[i].0 == k {
                    return Some(&entries[i].1);
                }
                i = i + 1;
            }
            None
        },
        _ => None,
    }
}

/// The value behind an optional reference.
pub open spec fn deref_value(value: Option<&JsonValue>) -> Option<JsonModel> {
    match value {
        Some(v) => Some(json_view(*v)),
        None => None,
    }
}

/// The text of a JSON string; `None` for anything else.
fn as_text(value: Option<&JsonValue>) -> (r: Option<String>)
    ensures
        r matches Some(s) ==> json_text(deref_value(value)) == Some(s@),
        r is None ==> json_text(deref_value(value)) is None,
{
    match value {
        Some(JsonValue::Text(s)) => Some(s.clone()),
        _ => None,
    }
}

/// The text of member `a` of `item`, or where it is absent, of member `b`.
fn field_of(item: &JsonValue, a: &str, b: &str) -> (r: Option<String>)
    ensures
        r matches Some(s) ==> field_text(json_view(*item), a@, b@) == Some(s@),
        r is None ==> field_text(json_view(*item), a@, b@) is None,
{
    match json_member(item, a) {
        Some(v) => as_text(Some(v)),
        None => as_text(json_member(item, b)),
    }
}

/// The key of one catalog entry, where it has one.
pub fn entry_key(item: &JsonValue) -> (r: Option<String>)
    ensures
        r matches Some(s) ==> item_key(json_view(*item)) == Some(s@),
        r is None ==> item_key(json_view(*item)) is None,
{
    match as_text(json_member(item, "key")) {
        Some(k) => Some(k),
        None => {
            let l = field_of(item, "level_key", "levelKey");
            let r = field_of(item, "resource_key", "resourceKey");
            let a = field_of(item, "action_key", "actionKey");
            match (l, r, a) {
                (Some(l), Some(r), Some(a)) => Some(make_key(l.as_str(), r.as_str(), a.as_str())),
                _ => None,
            }
        },
    }
}

/// Reads the registered keys of a catalog document.
///
/// The document lists its entries under `permissions`, or under
/// `data.permissions` where it has no `permissions` member; `None` where
/// that list is missing or not an array. Each entry gives its key as `key`,
/// or as level, resource and action (`level_key`/`levelKey`,
/// `resource_key`/`resourceKey`, `action_key`/`actionKey`); entries with
/// neither are skipped.
pub fn parse_catalog(value: &JsonValue) -> (r: Option<Catalog>)
    ensures
        r is None <==> catalog_items(json_view(*value)) is None,
        r matches Some(c) ==> c.entries() == dedup(item_keys(catalog_items(json_view(*value))->0)),
{
    let list = match json_member(value, "permissions") {
        Some(p) => Some(p),
        None => match json_member(value, "data") {
            Some(d) => json_member(d, "permissions"),
            None => None,
        },
    };
    let items = match list {
        Some(JsonValue::Array(items)) => items,
        _ => {
            return None;
        },
    };
    let ghost iv = items_view(items@);
    proof {
        lemma_items_view(items@);
    }
    let mut catalog = Catalog::new();
    let mut i: usize = 0;
    while i < items.len()
        invariant
            i <= items@.len(),
            iv == items_view(items@),
            iv.len() == items@.len(),
            forall|j: int| 0 <= j < items@.len() ==> #[trigger] iv[j] == json_view(items@[j]),
            catalog_items(json_view(*value)) == Some(iv),
            catalog.entries() == dedup(item_keys(iv.take(i as int))),
        decreases items@.len() - i,
    {
        proof {
            assert(iv.take(i + 1).drop_last() =~= iv.take(i as int));
            assert(iv.take(i + 1).last() == iv[i as int]);
        }
        let ghost prev_keys = item_keys(iv.take(i as int));
        match entry_key(&items[i]) {
            Some(k) => {
                let ghost kv = k@;
                catalog.insert(k);
                proof {
                    assert(item_keys(iv.take(i + 1)) == prev_keys.push(kv));
                    assert(prev_keys.push(kv).drop_last() =~= prev_keys);
                }
            },
            None => {
                assert(item_keys(iv.take(i + 1)) == prev_keys);
            },
        }
        i = i + 1;
    }
    assert(iv.take(items@.len() as int) =~= iv);
    Some(catalog)
}

/// Why a catalog text could not be read.
#[derive(Clone, Debug, PartialEq, Eq)]
pub enum CatalogTextError {
    /// The text is not JSON; the parser's message.
    NotJson(String),
    /// The document has neither a `permissions` nor a `data.permissions` array.
    UnknownSchema,
}

/// Reads the registered keys from the text of a catalog document (see
/// [`parse_catalog`]).
pub fn catalog_from_text(text: &str) -> (r: Result<Catalog, CatalogTextError>)
    ensures
        json_document(text@) is None <==> r matches Err(CatalogTextError::NotJson(_)),
        json_document(text@) matches Some(d) ==> (catalog_items(d) is None <==> r matches Err(
            CatalogTextError::UnknownSchema,
        )),
        json_document(text@) matches Some(d) ==> (r matches Ok(c) ==> c.entries() == dedup(
            item_keys(catalog_items(d)->0),
        )),
{
    match parse_json(text) {
        Err(message) => Err(CatalogTextError::NotJson(message)),
        Ok(doc) => match parse_catalog(&doc) {
            Some(c) => Ok(c),
            None => Err(CatalogTextError::UnknownSchema),
        },
    }
}

/// The message for a baseline file at `path` that could not be read as a
/// catalog.
pub fn baseline_error_message(path: &str, error: &CatalogTextError) -> (r: String)
    ensures
        error matches CatalogTextError::NotJson(m) ==> r@ == "Failed to parse baseline JSON '"@ + path@
            + "': "@ + m@,
        error is UnknownSchema ==> r@ == "Unrecognized baseline schema in '"@ + path@
            + "': expected 'permissions' or 'data.permissions'"@,
{
    match error {
        CatalogTextError::NotJson(m) => {
            let mut s = String::from_str("Failed to parse baseline JSON '");
            s.append(path);
            s.append("': ");
            s.append(m.as_str());
            s
        },
        CatalogTextError::UnknownSchema => {
            let mut s = String::from_str("Unrecognized baseline schema in '");
            s.append(path);
            s.append("': expected 'permissions' or 'data.permissions'");
            s
        },
    }
}

/// The message for an API response that could not be read as a catalog.
pub fn api_error_message(error: &CatalogTextError) -> (r: String)
    ensures
        error matches CatalogTextError::NotJson(m) ==> r@ == "Failed to parse catalog response: "@ + m@,
        error is UnknownSchema ==> r@
            == "Unrecognized catalog schema from API: expected 'data.permissions' or 'permissions'"@,
{
    match error {
        CatalogTextError::NotJson(m) => {
            let mut s = String::from_str("Failed to parse catalog response: ");
            s.append(m.as_str());
            s
        },
        CatalogTextError::UnknownSchema => String::from_str(
            "Unrecognized catalog schema from API: expected 'data.permissions' or 'permissions'",
        ),
    }
}

/// The results whose permission key the catalog does not hold, in order.
pub fn unregistered(results: &[ScanResult], registered: &Catalog) -> (r: Vec<ScanResult>)
    ensures
        results_view(r@) == unregistered_of(results_view(results@), registered.entries()),
{
    let mut out: Vec<ScanResult> = Vec::new();
    let mut i: usize = 0;
    while i < results.len()
        invariant
            i <= results@.len(),
            results_view(out@) == unregistered_of(results_view(results@).take(i as int), registered.entries()),
        decreases results@.len() - i,
    {
        let ghost before = out@;
        let key = result_key(&results[i]);
        if !registered.contains(key.as_str()) {
            out.push(results[i].duplicate());
        }
        proof {
            let rv = results_view(results@);
            assert(rv.take(i + 1).drop_last() =~= rv.take(i as int));
            assert(rv.take(i + 1).last() == results@[i as int]@);
            assert(results_view(before.push(results@[i as int])) =~= results_view(before).push(results@[i as int]@));
        }
        i = i + 1;
    }
    assert(results_view(results@).take(results@.len() as int) =~= results_view(results@));
    out
}

/// The catalog keys that none of the results has, in catalog order.
pub fn removed(results: &[ScanResult], registered: &Catalog) -> (r: Vec<String>)
    ensures
        strings_view(r@) == removed_of(registered.entries(), result_keys(results_view(results@))),
{
    let mut found: Vec<String> = Vec::new();
    let mut i: usize = 0;
    while i < results.len()
        invariant
            i <= results@.len(),
            strings_view(found@) == result_keys(results_view(results@)).take(i as int),
        decreases results@.len() - i,
    {
        let ghost prev = found@;
        let k = result_key(&results[i]);
        found.push(k);
        proof {
            assert(strings_view(found@) =~= strings_view(prev).push(k@));
            assert(result_keys(results_view(results@)).take(i + 1) =~= result_keys(results_view(results@)).take(
                i as int,
            ).push(result_key_of(results@[i as int]@)));
        }
        i = i + 1;
    }
    let ghost fv = result_keys(results_view(results@));
    assert(strings_view(found@) =~= fv);
    let mut out: Vec<String> = Vec::new();
    let n = registered.len();
    let mut j: usize = 0;
    while j < n
        invariant
            j <= n,
            n == registered.entries().len(),
            strings_view(found@) == fv,
            strings_view(out@) == removed_of(registered.entries().take(j as int), fv),
        decreases n - j,
    {
        let key = registered.key_at(j);
        let ghost before = out@;
        if !contains_string(&found, key) {
            out.push(key.clone());
        }
        proof {
            let e = registered.entries();
            assert(e.take(j + 1).drop_last() =~= e.take(j as int));
            assert(e.take(j + 1).last() == e[j as int]);
            assert(strings_view(out@) =~= removed_of(e.take(j + 1), fv));
        }
        j = j + 1;
    }
    assert(registered.entries().take(n as int) =~= registered.entries());
    out
}

/// The catalog endpoint of an authorization API at `api_url`: the URL
/// without trailing slashes, then `/api/v1/rbac/catalog`.
pub fn catalog_url(api_url: &str) -> (r: String)
    ensures
        r@ == trim_trailing_slashes(api_url@) + "/api/v1/rbac/catalog"@,
{
    let n = api_url.unicode_len();
    let mut j: usize = n;
    assert(api_url@.take(n as int) =~= api_url@);
    while j > 0 && api_url.get_char(j - 1) == '/'
        invariant
            j <= n,
            n == api_url@.len(),
            trim_trailing_slashes(api_url@) == trim_trailing_slashes(api_url@.take(j as int)),
        decreases j,
    {
        assert(api_url@.take(j as int).drop_last() =~= api_url@.take(j - 1));
        j = j - 1;
    }
    let mut s = String::from_str(api_url.substring_char(0, j));
    s.append("/api/v1/rbac/catalog");
    proof {
        assert(api_url@.subrange(0, j as int) =~= api_url@.take(j as int));
    }
    s
}

} // verus!
