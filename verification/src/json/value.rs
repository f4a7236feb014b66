//! JSON values whose numbers are kept as the text they were written with,
//! and edits of arrays and objects by index, key and path.
use vstd::prelude::*;
use vstd::pervasive::VecAdditionalExecFns;
use crate::text::same_text;

verus! {

/// A JSON value. A number is kept as its text, as the parser read it.
#[derive(Debug, PartialEq)]
pub enum JsonNode {
    Null,
    Bool(bool),
    Number(String),
    String(String),
    Array(Vec<JsonNode>),
    Object(Vec<(String, JsonNode)>),
}

/// A JSON value, as values: members of an object keep their order.
pub enum JsonModel {
    Null,
    Bool(bool),
    Number(Seq<char>),
    Str(Seq<char>),
    Array(Seq<JsonModel>),
    Object(Seq<(Seq<char>, JsonModel)>),
}

/// The value a node holds.
pub open spec fn node_model(n: JsonNode) -> JsonModel
    decreases n,
{
    match n {
        JsonNode::Null => JsonModel::Null,
        JsonNode::Bool(b) => JsonModel::Bool(b),
        JsonNode::Number(t) => JsonModel::Number(t@),
        JsonNode::String(t) => JsonModel::Str(t@),
        JsonNode::Array(v) => JsonModel::Array(
            Seq::new(v@.len(), |i: int| if 0 <= i < v@.len() { node_model(v@[i]) } else { JsonModel::Null }),
        ),
        JsonNode::Object(v) => JsonModel::Object(
            Seq::new(
                v@.len(),
                |i: int| if 0 <= i < v@.len() { (v@[i].0@, node_model(v@[i].1)) } else { (Seq::empty(), JsonModel::Null) },
            ),
        ),
    }
}

/// The values a sequence of nodes holds.
pub open spec fn nodes_model(v: Seq<JsonNode>) -> Seq<JsonModel> {
    Seq::new(v.len(), |i: int| node_model(v[i]))
}

/// The members a sequence of object entries holds.
pub open spec fn members_model(v: Seq<(String, JsonNode)>) -> Seq<(Seq<char>, JsonModel)> {
    Seq::new(v.len(), |i: int| (v[i].0@, node_model(v[i].1)))
}

impl View for JsonNode {
    type V = JsonModel;

    open spec fn view(&self) -> JsonModel {
        node_model(*self)
    }
}

/// An array node holds the values of its items.
pub proof fn lemma_array_model(n: JsonNode)
    requires
        n is Array,
    ensures
        node_model(n) == JsonModel::Array(nodes_model(n->Array_0@)),
{
    let v = n->Array_0@;
    assert(node_model(n)->Array_0 =~= nodes_model(v));
}

/// An object node holds the members of its entries.
pub proof fn lemma_object_model(n: JsonNode)
    requires
        n is Object,
    ensures
        node_model(n) == JsonModel::Object(members_model(n->Object_0@)),
{
    let v = n->Object_0@;
    assert(node_model(n)->Object_0 =~= members_model(v));
}

/// A step of a path into a value: a member by key, or an item by index.
#[derive(Debug, PartialEq, Eq, Clone, Copy)]
pub enum JsonPathSegment<'a> {
    Key(&'a str),
    Index(usize),
}

/// Why an edit does not apply to a value.
#[derive(Debug, PartialEq, Eq)]
pub enum JsonEditError {
    NotArray,
    NotObject,
}

/// The first member at or after `from` whose key is `key`, or the number of
/// members.
pub open spec fn member_index(ms: Seq<(Seq<char>, JsonModel)>, key: Seq<char>, from: int) -> int
    decreases ms.len() - from,
{
    if from < 0 || from >= ms.len() {
        ms.len() as int
    } else if ms[from].0 == key {
        from
    } else {
        member_index(ms, key, from + 1)
    }
}

/// A search for a key does not go back, nor past the end.
pub proof fn lemma_member_index(ms: Seq<(Seq<char>, JsonModel)>, key: Seq<char>, from: int)
    requires
        0 <= from <= ms.len(),
    ensures
        from <= member_index(ms, key, from) <= ms.len(),
        member_index(ms, key, from) < ms.len() ==> ms[member_index(ms, key, from)].0 == key,
        forall|i: int| from <= i < member_index(ms, key, from) ==> ms[i].0 != key,
    decreases ms.len() - from,
{
    if from < ms.len() && ms[from].0 != key {
        lemma_member_index(ms, key, from + 1);
    }
}

/// The value that the steps `path[k..]` lead to inside `m`.
pub open spec fn target_from(m: JsonModel, path: Seq<JsonPathSegment>, k: int) -> Option<JsonModel>
    decreases path.len() - k,
{
    if k < 0 {
        None
    } else if k >= path.len() {
        Some(m)
    } else {
        match path[k] {
            JsonPathSegment::Index(i) => match m {
                JsonModel::Array(items) => if i < items.len() {
                    target_from(items[i as int], path, k + 1)
                } else {
                    None
                },
                _ => None,
            },
            JsonPathSegment::Key(key) => match m {
                JsonModel::Object(ms) => {
                    let j = member_index(ms, key@, 0);
                    if 0 <= j < ms.len() {
                        target_from(ms[j].1, path, k + 1)
                    } else {
                        None
                    }
                },
                _ => None,
            },
        }
    }
}

/// The positions that the steps `path[k..]` take inside `m`: an index into
/// an array, or the place of the first member with the key in an object.
pub open spec fn steps_from(m: JsonModel, path: Seq<JsonPathSegment>, k: int) -> Option<Seq<usize>>
    decreases path.len() - k,
{
    if k < 0 {
        None
    } else if k >= path.len() {
        Some(Seq::empty())
    } else {
        match path[k] {
            JsonPathSegment::Index(i) => match m {
                JsonModel::Array(items) => if i < items.len() {
                    after_step(i, steps_from(items[i as int], path, k + 1))
                } else {
                    None
                },
                _ => None,
            },
            JsonPathSegment::Key(key) => match m {
                JsonModel::Object(ms) => {
                    let j = member_index(ms, key@, 0);
                    if 0 <= j < ms.len() {
                        after_step(j as usize, steps_from(ms[j].1, path, k + 1))
                    } else {
                        None
                    }
                },
                _ => None,
            },
        }
    }
}

/// A path takes positions exactly where it leads somewhere.
pub proof fn lemma_steps_reach(m: JsonModel, path: Seq<JsonPathSegment>, k: int)
    ensures
        (steps_from(m, path, k) is Some) == (target_from(m, path, k) is Some),
    decreases path.len() - k,
{
    if 0 <= k < path.len() {
        match path[k] {
            JsonPathSegment::Index(i) => match m {
                JsonModel::Array(items) => if i < items.len() {
                    lemma_steps_reach(items[i as int], path, k + 1);
                },
                _ => {},
            },
            JsonPathSegment::Key(key) => match m {
                JsonModel::Object(ms) => {
                    let j = member_index(ms, key@, 0);
                    if 0 <= j < ms.len() {
                        lemma_steps_reach(ms[j].1, path, k + 1);
                    }
                },
                _ => {},
            },
        }
    }
}

/// The positions `rest` with `p` taken first.
pub open spec fn after_step(p: usize, rest: Option<Seq<usize>>) -> Option<Seq<usize>> {
    match rest {
        Some(r) => Some(seq![p] + r),
        None => None,
    }
}

/// The positions `rest` with `done` taken first.
pub open spec fn after_steps(done: Seq<usize>, rest: Option<Seq<usize>>) -> Option<Seq<usize>> {
    match rest {
        Some(r) => Some(done + r),
        None => None,
    }
}

/// `m` with the value that `path[k..]` leads to replaced by `v`, and the
/// value replaced; `None` where the path leads nowhere.
pub open spec fn replaced_from(m: JsonModel, path: Seq<JsonPathSegment>, k: int, v: JsonModel) -> Option<(JsonModel, JsonModel)>
    decreases path.len() - k,
{
    if k < 0 {
        None
    } else if k >= path.len() {
        Some((v, m))
    } else {
        match path[k] {
            JsonPathSegment::Index(i) => match m {
                JsonModel::Array(items) => if i < items.len() {
                    match replaced_from(items[i as int], path, k + 1, v) {
                        Some((t, old)) => Some((JsonModel::Array(items.update(i as int, t)), old)),
                        None => None,
                    }
                } else {
                    None
                },
                _ => None,
            },
            JsonPathSegment::Key(key) => match m {
                JsonModel::Object(ms) => {
                    let j = member_index(ms, key@, 0);
                    if 0 <= j < ms.len() {
                        match replaced_from(ms[j].1, path, k + 1, v) {
                            Some((t, old)) => Some((JsonModel::Object(ms.update(j, (ms[j].0, t))), old)),
                            None => None,
                        }
                    } else {
                        None
                    }
                },
                _ => None,
            },
        }
    }
}

/// The first member with a key is found where it is.
proof fn lemma_member_index_at(ms: Seq<(Seq<char>, JsonModel)>, key: Seq<char>, from: int, j: int)
    requires
        0 <= from <= j < ms.len(),
        ms[j].0 == key,
        forall|i: int| from <= i < j ==> ms[i].0 != key,
    ensures
        member_index(ms, key, from) == j,
    decreases j - from,
{
    if from < j {
        lemma_member_index_at(ms, key, from + 1, j);
    }
}

/// Replacing along a path leads where reading along it leads: the value
/// replaced is the value read, and reading afterwards gives the new value.
proof fn lemma_replace_then_read(m: JsonModel, path: Seq<JsonPathSegment>, k: int, v: JsonModel)
    requires
        0 <= k <= path.len(),
    ensures
        (replaced_from(m, path, k, v) is Some) == (target_from(m, path, k) is Some),
        replaced_from(m, path, k, v) matches Some((t, o)) ==> target_from(m, path, k) == Some(o) && target_from(t, path, k) == Some(v),
    decreases path.len() - k,
{
    if k < path.len() {
        match path[k] {
            JsonPathSegment::Index(i) => match m {
                JsonModel::Array(items) => {
                    if i < items.len() {
                        lemma_replace_then_read(items[i as int], path, k + 1, v);
                    }
                },
                _ => {},
            },
            JsonPathSegment::Key(key) => match m {
                JsonModel::Object(ms) => {
                    lemma_member_index(ms, key@, 0);
                    let j = member_index(ms, key@, 0);
                    if 0 <= j < ms.len() {
                        lemma_replace_then_read(ms[j].1, path, k + 1, v);
                        match replaced_from(ms[j].1, path, k + 1, v) {
                            Some((t, o)) => {
                                let ms2 = ms.update(j, (ms[j].0, t));
                                lemma_member_index_at(ms2, key@, 0, j);
                            },
                            None => {},
                        }
                    }
                },
                _ => {},
            },
        }
    }
}

/// A path leads to a value to replace exactly where it leads to a value to
/// read; replacing gives back the value that reading gave before, and
/// reading along the path afterwards gives the new value.
pub proof fn law_read_back_replace(m: JsonModel, path: Seq<JsonPathSegment>, v: JsonModel)
    ensures
        (replaced_from(m, path, 0, v) is Some) == (target_from(m, path, 0) is Some),
        replaced_from(m, path, 0, v) matches Some((t, o)) ==> target_from(m, path, 0) == Some(o) && target_from(t, path, 0) == Some(v),
{
    lemma_replace_then_read(m, path, 0, v);
}

/// What setting a member leaves, as `insert_object_member` states it.
pub open spec fn member_set(ms: Seq<(Seq<char>, JsonModel)>, key: Seq<char>, v: JsonModel) -> Seq<(Seq<char>, JsonModel)> {
    let j = member_index(ms, key, 0);
    if j < ms.len() {
        ms.update(j, (key, v))
    } else {
        ms.push((key, v))
    }
}

/// Reading a member by its key after setting it gives the value set.
pub proof fn law_read_back_insert(ms: Seq<(Seq<char>, JsonModel)>, key: &str, v: JsonModel)
    ensures
        target_from(JsonModel::Object(member_set(ms, key@, v)), seq![JsonPathSegment::Key(key)], 0) == Some(v),
{
    lemma_member_index(ms, key@, 0);
    let j = member_index(ms, key@, 0);
    let after = member_set(ms, key@, v);
    lemma_member_index_at(after, key@, 0, j);
    let path = seq![JsonPathSegment::Key(key)];
    assert(target_from(v, path, 1) == Some(v));
}

/// Finds the first entry whose key is `key`.
fn find_member(entries: &Vec<(String, JsonNode)>, key: &str) -> (r: usize)
    ensures
        r as int == member_index(members_model(entries@), key@, 0),
        r <= entries@.len(),
{
    let ghost ms = members_model(entries@);
    proof {
        lemma_member_index(ms, key@, 0);
    }
    let mut i: usize = 0;
    while i < entries.len()
        invariant
            ms == members_model(entries@),
            i <= entries@.len(),
            member_index(ms, key@, 0) == member_index(ms, key@, i as int),
        decreases entries@.len() - i,
    {
        if same_text(entries[i].0.as_str(), key) {
            return i;
        }
        i += 1;
    }
    i
}

impl JsonNode {
    /// Appends an item to an array.
    pub fn append_array(&mut self, value: JsonNode) -> (r: Result<(), JsonEditError>)
        ensures
            match old(self)@ {
                JsonModel::Array(items) => r is Ok && final(self)@ == JsonModel::Array(items.push(value@)),
                _ => r == Err::<(), JsonEditError>(JsonEditError::NotArray) && final(self)@ == old(self)@,
            },
    {
        proof {
            if *self is Array {
                lemma_array_model(*self);
            }
        }
        match self {
            JsonNode::Array(values) => {
                let ghost before = values@;
                let ghost m = node_model(value);
                values.push(value);
                proof {
                    assert(nodes_model(values@) =~= nodes_model(before).push(m));
                }
            },
            _ => {
                return Err(JsonEditError::NotArray);
            },
        }
        proof {
            lemma_array_model(*self);
        }
        Ok(())
    }

    /// Sets the member `key` of an object: the first member with that key
    /// gets the value and its old value is returned; with none, the member
    /// is added at the end.
    pub fn insert_object_member(&mut self, key: String, value: JsonNode) -> (r: Result<Option<JsonNode>, JsonEditError>)
        ensures
            match old(self)@ {
                JsonModel::Object(ms) => {
                    let j = member_index(ms, key@, 0);
                    &&& final(self)@ == JsonModel::Object(member_set(ms, key@, value@))
                    &&& if j < ms.len() {
                        r matches Ok(Some(o)) && o@ == ms[j].1 && final(self)@ == JsonModel::Object(ms.update(j, (key@, value@)))
                    } else {
                        r matches Ok(None) && final(self)@ == JsonModel::Object(ms.push((key@, value@)))
                    }
                },
                _ => r == Err::<Option<JsonNode>, JsonEditError>(JsonEditError::NotObject) && final(self)@ == old(self)@,
            },
    {
        proof {
            if *self is Object {
                lemma_object_model(*self);
            }
        }
        let old_value = match self {
            JsonNode::Object(entries) => {
                let ghost before = entries@;
                let ghost ms = members_model(before);
                let ghost m = (key@, node_model(value));
                let j = find_member(entries, key.as_str());
                proof {
                    lemma_member_index(ms, key@, 0);
                }
                if j < entries.len() {
                    let mut entry = (key, value);
                    entries.set_and_swap(j, &mut entry);
                    proof {
                        assert(members_model(entries@) =~= ms.update(j as int, m));
                    }
                    Some(entry.1)
                } else {
                    entries.push((key, value));
                    proof {
                        assert(members_model(entries@) =~= ms.push(m));
                    }
                    None
                }
            },
            _ => {
                return Err(JsonEditError::NotObject);
            },
        };
        proof {
            lemma_object_model(*self);
        }
        Ok(old_value)
    }

    /// Removes the item at `index` of an array and returns it, or nothing
    /// where the array is shorter.
    pub fn detach_array_item(&mut self, index: usize) -> (r: Result<Option<JsonNode>, JsonEditError>)
        ensures
            match old(self)@ {
                JsonModel::Array(items) => if index < items.len() {
                    r matches Ok(Some(o)) && o@ == items[index as int] && final(self)@ == JsonModel::Array(items.remove(index as int))
                } else {
                    r matches Ok(None) && final(self)@ == old(self)@
                },
                _ => r == Err::<Option<JsonNode>, JsonEditError>(JsonEditError::NotArray) && final(self)@ == old(self)@,
            },
    {
        proof {
            if *self is Array {
                lemma_array_model(*self);
            }
        }
        let item = match self {
            JsonNode::Array(values) => {
                let ghost before = values@;
                if index < values.len() {
                    let item = values.remove(index);
                    proof {
                        assert(nodes_model(values@) =~= nodes_model(before).remove(index as int));
                    }
                    Some(item)
                } else {
                    None
                }
            },
            _ => {
                return Err(JsonEditError::NotArray);
            },
        };
        proof {
            lemma_array_model(*self);
        }
        Ok(item)
    }

    /// Removes the first member `key` of an object and returns its value,
    /// or nothing where there is none.
    pub fn detach_object_member(&mut self, key: &str) -> (r: Result<Option<JsonNode>, JsonEditError>)
        ensures
            match old(self)@ {
                JsonModel::Object(ms) => {
                    let j = member_index(ms, key@, 0);
                    if j < ms.len() {
                        r matches Ok(Some(o)) && o@ == ms[j].1 && final(self)@ == JsonModel::Object(ms.remove(j))
                    } else {
                        r matches Ok(None) && final(self)@ == old(self)@
                    }
                },
                _ => r == Err::<Option<JsonNode>, JsonEditError>(JsonEditError::NotObject) && final(self)@ == old(self)@,
            },
    {
        proof {
            if *self is Object {
                lemma_object_model(*self);
            }
        }
        let detached = match self {
            JsonNode::Object(entries) => {
                let ghost before = entries@;
                let ghost ms = members_model(before);
                let j = find_member(entries, key);
                if j < entries.len() {
                    let (_, value) = entries.remove(j);
                    proof {
                        assert(members_model(entries@) =~= ms.remove(j as int));
                    }
                    Some(value)
                } else {
                    None
                }
            },
            _ => {
                return Err(JsonEditError::NotObject);
            },
        };
        proof {
            lemma_object_model(*self);
        }
        Ok(detached)
    }

    /// The value that a path of keys and indices leads to.
    pub fn get_path<'a>(&'a self, path: &[JsonPathSegment<'_>]) -> (r: Option<&'a JsonNode>)
        ensures
            match target_from(self@, path@, 0) {
                Some(m) => (r matches Some(n) && n@ == m),
                None => r is None,
            },
    {
        let mut current: &JsonNode = self;
        let mut k: usize = 0;
        while k < path.len()
            invariant
                k <= path@.len(),
                target_from(self@, path@, 0) == target_from(current@, path@, k as int),
            decreases path@.len() - k,
        {
            match path[k] {
                JsonPathSegment::Index(i) => match current {
                    JsonNode::Array(values) => {
                        proof {
                            lemma_array_model(*current);
                        }
                        if i < values.len() {
                            current = &values[i];
                        } else {
                            return None;
                        }
                    },
                    _ => {
                        return None;
                    },
                },
                JsonPathSegment::Key(key) => match current {
                    JsonNode::Object(entries) => {
                        proof {
                            lemma_object_model(*current);
                        }
                        let j = find_member(entries, key);
                        if j < entries.len() {
                            current = &entries[j].1;
                        } else {
                            return None;
                        }
                    },
                    _ => {
                        return None;
                    },
                },
            }
            k += 1;
        }
        Some(current)
    }

    /// The positions that a path of keys and indices takes, one per step:
    /// the index into an array, or the place of the member with the key in
    /// an object; `None` where the path leads nowhere.
    pub fn path_steps(&self, path: &[JsonPathSegment<'_>]) -> (r: Option<Vec<usize>>)
        ensures
            match steps_from(self@, path@, 0) {
                Some(v) => (r matches Some(x) && x@ == v),
                None => r is None,
            },
    {
        let mut current: &JsonNode = self;
        let mut done: Vec<usize> = Vec::new();
        let mut k: usize = 0;
        while k < path.len()
            invariant
                k <= path@.len(),
                steps_from(self@, path@, 0) == after_steps(done@, steps_from(current@, path@, k as int)),
            decreases path@.len() - k,
        {
            let ghost before = done@;
            match path[k] {
                JsonPathSegment::Index(i) => match current {
                    JsonNode::Array(values) => {
                        proof {
                            lemma_array_model(*current);
                        }
                        if i < values.len() {
                            current = &values[i];
                            done.push(i);
                        } else {
                            return None;
                        }
                    },
                    _ => {
                        return None;
                    },
                },
                JsonPathSegment::Key(key) => match current {
                    JsonNode::Object(entries) => {
                        proof {
                            lemma_object_model(*current);
                        }
                        let j = find_member(entries, key);
                        if j < entries.len() {
                            current = &entries[j].1;
                            done.push(j);
                        } else {
                            return None;
                        }
                    },
                    _ => {
                        return None;
                    },
                },
            }
            proof {
                let rest = steps_from(current@, path@, k + 1);
                if rest is Some {
                    assert(before + (seq![done@.last()] + rest->Some_0) =~= done@ + rest->Some_0);
                }
            }
            k += 1;
        }
        assert(done@ + Seq::<usize>::empty() =~= done@);
        Some(done)
    }

    /// Replaces the value that a path leads to and returns the value it
    /// held; where the path leads nowhere, nothing changes.
    pub fn replace_at_path(&mut self, path: &[JsonPathSegment<'_>], value: JsonNode) -> (r: Option<JsonNode>)
        ensures
            match replaced_from(old(self)@, path@, 0, value@) {
                Some((t, o)) => (r matches Some(n) && n@ == o) && final(self)@ == t,
                None => r is None && final(self)@ == old(self)@,
            },
    {
        replace_from(self, path, 0, value)
    }

    /// The value that a path of keys and indices leads to, to change in
    /// place.
    pub fn get_path_mut<'a>(&'a mut self, path: &[JsonPathSegment<'_>]) -> (r: Option<&'a mut JsonNode>)
        ensures
            match target_from(old(self)@, path@, 0) {
                Some(m) => (r matches Some(n) && (*n)@ == m),
                None => r is None,
            },
    {
        get_from_mut(self, path, 0)
    }
}

/// The value that `path[k..]` leads to inside `node`, to change in place.
fn get_from_mut<'a>(node: &'a mut JsonNode, path: &[JsonPathSegment<'_>], k: usize) -> (r: Option<&'a mut JsonNode>)
    requires
        k <= path@.len(),
    ensures
        match target_from(old(node)@, path@, k as int) {
            Some(m) => (r matches Some(n) && (*n)@ == m),
            None => r is None,
        },
    decreases path@.len() - k,
{
    if k == path.len() {
        return Some(node);
    }
    proof {
        if *node is Array {
            lemma_array_model(*node);
        }
        if *node is Object {
            lemma_object_model(*node);
        }
    }
    match path[k] {
        JsonPathSegment::Index(i) => match node {
            JsonNode::Array(values) => {
                if i < values.len() {
                    get_from_mut(&mut values[i], path, k + 1)
                } else {
                    None
                }
            },
            _ => None,
        },
        JsonPathSegment::Key(key) => match node {
            JsonNode::Object(entries) => {
                let j = find_member(entries, key);
                if j < entries.len() {
                    get_from_mut(&mut entries[j].1, path, k + 1)
                } else {
                    None
                }
            },
            _ => None,
        },
    }
}

/// Replaces the value that `path[k..]` leads to inside `node`.
fn replace_from(node: &mut JsonNode, path: &[JsonPathSegment<'_>], k: usize, value: JsonNode) -> (r: Option<JsonNode>)
    requires
        k <= path@.len(),
    ensures
        match replaced_from(old(node)@, path@, k as int, value@) {
            Some((t, o)) => (r matches Some(n) && n@ == o) && final(node)@ == t,
            None => r is None && final(node)@ == old(node)@,
        },
    decreases path@.len() - k,
{
    if k == path.len() {
        let mut v = value;
        std::mem::swap(node, &mut v);
        return Some(v);
    }
    proof {
        if *node is Array {
            lemma_array_model(*node);
        }
        if *node is Object {
            lemma_object_model(*node);
        }
    }
    let r = match path[k] {
        JsonPathSegment::Index(i) => match node {
            JsonNode::Array(values) => {
                if i < values.len() {
                    let ghost before = values@;
                    let mut child = JsonNode::Null;
                    values.set_and_swap(i, &mut child);
                    let r = replace_from(&mut child, path, k + 1, value);
                    values.set_and_swap(i, &mut child);
                    proof {
                        if r is Some {
                            assert(nodes_model(values@) =~= nodes_model(before).update(i as int, node_model(values@[i as int])));
                        } else {
                            assert(nodes_model(values@) =~= nodes_model(before));
                        }
                    }
                    r
                } else {
                    None
                }
            },
            _ => None,
        },
        JsonPathSegment::Key(key) => match node {
            JsonNode::Object(entries) => {
                let ghost before = entries@;
                let ghost ms = members_model(before);
                let j = find_member(entries, key);
                proof {
                    lemma_member_index(ms, key@, 0);
                }
                if j < entries.len() {
                    let mut entry = (String::new(), JsonNode::Null);
                    entries.set_and_swap(j, &mut entry);
                    let r = replace_from(&mut entry.1, path, k + 1, value);
                    entries.set_and_swap(j, &mut entry);
                    proof {
                        if r is Some {
                            assert(members_model(entries@) =~= ms.update(j as int, (ms[j as int].0, node_model(entries@[j as int].1))));
                        } else {
                            assert(members_model(entries@) =~= ms);
                        }
                    }
                    r
                } else {
                    None
                }
            },
            _ => None,
        },
    };
    proof {
        if *node is Array {
            lemma_array_model(*node);
        }
        if *node is Object {
            lemma_object_model(*node);
        }
    }
    r
}

} // verus!
