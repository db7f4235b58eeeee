//! What the script library functions do to the data: `get`, `set`, `unset`, and
//! the choices made for each visited key.
use vstd::prelude::*;
use crate::model::{
    Data, Step, lookup, at, child, add_at, upsert, replace_first, read, set_at, access, removable, remove_at,
};
use crate::path::{
    PathEntry, steps, copy_path, decode, decode_spec, encode_spec, plain_path,
    law_decode_encode,
};
use crate::value::{Value, view_owned, find_key, upsert_entries, data_entries, lemma_lookup_first, lemma_lookup_absent, lemma_entries_update};
use crate::common::{regex_test, regex_compiles, regex_finds};
use crate::text::{decimal_string, decimal};

verus! {

// ---------------------------------------------------------------------------
// get

/// The text of the key that `get` reads: the first argument, or, during traversal
/// and without arguments, the visited key.
pub open spec fn get_key_text(key_encoded: Seq<char>, once: bool, args: Seq<Seq<char>>) -> Seq<char> {
    if once || args.len() > 0 {
        args[0]
    } else {
        key_encoded
    }
}

/// What `get` reads: while the script runs once and without arguments, the whole
/// tree; otherwise the node at the path of the key text, or nothing when the text
/// is no valid path or the path leads nowhere.
pub open spec fn get_spec(root: Data, key_encoded: Seq<char>, once: bool, args: Seq<Seq<char>>) -> Option<Data> {
    if once && args.len() == 0 {
        Some(root)
    } else {
        match decode_spec(get_key_text(key_encoded, once, args)) {
            Some(p) => read(root, p),
            None => None,
        }
    }
}

/// The views of a list of texts.
pub open spec fn texts(a: Seq<String>) -> Seq<Seq<char>> {
    a.map_values(|s: String| s@)
}

/// Reads a node for a script: while the script runs once and without arguments,
/// the whole tree; otherwise the node at the first argument's path, or during
/// traversal (and without arguments) the node at the visited key. An invalid path,
/// or one that leads nowhere, gives `Err(None)`.
pub fn get_internal(value: &Value, key_encoded: &str, script_once_mode: bool, args: Option<&[String]>) -> (r:
    Result<Option<Value>, Option<String>>)
    ensures
        match get_spec(value@, key_encoded@, script_once_mode, texts(args.unwrap_or(&[])@)) {
            Some(x) => r matches Ok(Some(v)) && v@ == x,
            None => r matches Err(None),
        },
{
    let empty: &[String] = &[];
    let args: &[String] = match args {
        Some(a) => a,
        None => empty,
    };
    let argsc = args.len();
    let ghost a = texts(args@);
    if script_once_mode && argsc == 0 {
        return Ok(Some(value.clone()));
    }
    let key: &str = if script_once_mode {
        args[0].as_str()
    } else if argsc == 0 {
        key_encoded
    } else {
        args[0].as_str()
    };
    assert(key@ == get_key_text(key_encoded@, script_once_mode, a));
    let key = match decode(key) {
        Some(key) => key,
        None => {
            return Err(None);
        },
    };
    match value.get(key.as_slice()) {
        Some(v) => Ok(Some(v.clone())),
        None => Err(None),
    }
}

/// The script library's `get`: the node that `get_internal` reads with the optional
/// argument, or nothing.
pub fn get(value: &Value, key_encoded: &str, script_once_mode: bool, param: Option<String>) -> (r:
    Option<Value>)
    ensures
        view_owned(r) == get_spec(
            value@,
            key_encoded@,
            script_once_mode,
            match param {
                Some(p) => seq![p@],
                None => Seq::<Seq<char>>::empty(),
            },
        ),
{
    let mut args: Vec<String> = Vec::new();
    match param {
        Some(p) => args.push(p),
        None => {},
    }
    assert(texts(args@) =~= match param {
        Some(p) => seq![p@],
        None => Seq::<Seq<char>>::empty(),
    });
    match get_internal(value, key_encoded, script_once_mode, Some(args.as_slice())) {
        Ok(Some(v)) => Some(v),
        _ => None,
    }
}

/// During a traversal, `get` without an argument reads the visited node: the text
/// form of the visited key leads back to that same path, so `get` gives what `read`
/// gives there.
pub proof fn law_get_reads_visited(root: Data, p: Seq<Step>)
    requires
        plain_path(p),
    ensures
        get_spec(root, encode_spec(p), false, Seq::empty()) == read(root, p),
{
    law_decode_encode(p);
}

// ---------------------------------------------------------------------------
// set

/// The `force` option of `set`: an options object gives its boolean `force` entry
/// (`false` when missing or not a boolean); anything else gives no options.
pub open spec fn set_options(d: Data) -> Option<bool> {
    match d {
        Data::Object(e) => match lookup(e, "force"@) {
            Some(Data::Bool(b)) => Some(b),
            _ => Some(false),
        },
        _ => None,
    }
}

/// Reads the options argument of `set`.
pub fn parse_set_options(value: &Value) -> (r: Option<bool>)
    ensures
        r == set_options(value@),
{
    match value {
        Value::Object(e) => {
            let key = "force".to_string();
            match find_key(e, &key) {
                Some(j) => {
                    proof {
                        lemma_lookup_first(data_entries(e@), key@, j as int);
                    }
                    match &e[j].1 {
                        Value::Bool(b) => Some(*b),
                        _ => Some(false),
                    }
                },
                None => {
                    proof {
                        lemma_lookup_absent(data_entries(e@), key@);
                    }
                    Some(false)
                },
            }
        },
        _ => None,
    }
}

/// The tree with missing parent objects created along `p`: where a field before the
/// last is missing from an object and is followed by another field, an empty
/// object is written there.
pub open spec fn with_parents(d: Data, p: Seq<Step>) -> Data
    decreases p.len(),
{
    if p.len() < 2 {
        d
    } else {
        match (d, p[0]) {
            (Data::Object(e), Step::Field(k)) => match lookup(e, k) {
                Some(c) => Data::Object(replace_first(e, k, with_parents(c, p.drop_first()))),
                None => if p[1] is Field {
                    Data::Object(upsert(e, k, with_parents(Data::Object(Seq::empty()), p.drop_first())))
                } else {
                    d
                },
            },
            (Data::List(l), Step::Index(i)) => if 0 <= i < l.len() {
                Data::List(l.update(i, with_parents(l[i], p.drop_first())))
            } else {
                d
            },
            _ => d,
        }
    }
}

impl Value {
    /// Creates the missing parent objects along `path[i..]` (see `with_parents`).
    fn create_parents(&mut self, path: &[PathEntry], i: usize)
        requires
            i <= path@.len(),
        ensures
            final(self)@ == with_parents(old(self)@, steps(path@).skip(i as int)),
        decreases path@.len() - i,
    {
        let ghost p = steps(path@).skip(i as int);
        if path.len() - i < 2 {
            return ;
        }
        assert(p[0] == path@[i as int]@);
        assert(p[1] == path@[i + 1]@);
        assert(p.drop_first() =~= steps(path@).skip(i + 1));
        match self {
            Value::Object(e) => match &path[i] {
                PathEntry::Field(k) => {
                    match find_key(e, k) {
                        Some(j) => {
                            let ghost old_e = e@;
                            proof {
                                lemma_lookup_first(data_entries(e@), k@, j as int);
                            }
                            let entry = &mut e[j];
                            proof {
                                lemma_entries_update(old_e, j as int, *final(entry));
                            }
                            entry.1.create_parents(path, i + 1);
                        },
                        None => {
                            proof {
                                lemma_lookup_absent(data_entries(e@), k@);
                            }
                            match &path[i + 1] {
                                PathEntry::Field(_) => {
                                    let mut sub = Value::Object(Vec::new());
                                    assert(data_entries(Seq::<(String, Value)>::empty()) =~= Seq::<
                                        (Seq<char>, Data),
                                    >::empty());
                                    sub.create_parents(path, i + 1);
                                    upsert_entries(e, k.clone(), sub);
                                },
                                _ => {},
                            }
                        },
                    }
                },
                _ => {},
            },
            Value::List(l) => match &path[i] {
                PathEntry::Index(idx) => {
                    if *idx < l.len() {
                        let ghost old_l = l@;
                        let c = &mut l[*idx];
                        proof {
                            crate::value::lemma_list_update(old_l, *idx as int, *final(c));
                        }
                        c.create_parents(path, i + 1);
                    }
                },
                _ => {},
            },
            _ => {},
        }
    }
}

/// How `set` reads its arguments: `(key, value, force)`, the key being absent for a
/// single argument; nothing when there is no argument or the key is no string.
pub open spec fn set_arguments(params: Seq<Data>) -> Option<(Option<Seq<char>>, Data, bool)> {
    if params.len() == 0 {
        None
    } else if params.len() == 1 {
        Some((None, params[0], false))
    } else {
        match params[0] {
            Data::Str(k) => Some(
                (
                    Some(k),
                    params[1],
                    if params.len() >= 3 {
                        match set_options(params[2]) {
                            Some(f) => f,
                            None => false,
                        }
                    } else {
                        false
                    },
                ),
            ),
            _ => None,
        }
    }
}

/// The views of a list of nodes.
pub open spec fn datas(a: Seq<Value>) -> Seq<Data> {
    a.map_values(|v: Value| v@)
}

/// The path that `set` writes: the key's path, or the visited key without one.
pub open spec fn set_target(current: Seq<Step>, key: Option<Seq<char>>) -> Option<Seq<Step>> {
    match key {
        None => Some(current),
        Some(k) => decode_spec(k),
    }
}

/// What `set` does to the tree: writes the value at the target path through the
/// access that `change` gives, after creating missing parent objects when forced.
pub open spec fn set_spec(root: Data, current: Seq<Step>, params: Seq<Data>) -> Data {
    match set_arguments(params) {
        None => root,
        Some((key, v, force)) => match set_target(current, key) {
            None => root,
            Some(p) => {
                let r = if force {
                    with_parents(root, p)
                } else {
                    root
                };
                match access(r, p) {
                    Some((m, q)) => set_at(m, q, v),
                    None => r,
                }
            },
        },
    }
}

/// The script library's `set`: `set(value)` writes the visited key, `set(key,
/// value)` the key's path and `set(key, value, {force = true})` creates missing
/// parent objects first. A key that is no string, or no valid path, changes nothing.
pub fn set(value: &mut Value, current_key: &[PathEntry], params: &[Value])
    ensures
        final(value)@ == set_spec(old(value)@, steps(current_key@), datas(params@)),
        old(value).wf() && (forall|i: int| 0 <= i < params@.len() ==> #[trigger] params@[i].wf())
            ==> final(value).wf(),
{
    let len = params.len();
    let ghost pd = datas(params@);
    if len == 0 {
        return ;
    }
    assert(pd[0] == params@[0]@);
    if len >= 2 {
        assert(pd[1] == params@[1]@);
    }
    if len >= 3 {
        assert(pd[2] == params@[2]@);
    }
    let (key, new_value, force): (Option<&String>, &Value, bool) = if len == 1 {
        (None, &params[0], false)
    } else if len == 2 {
        if let Value::String(key) = &params[0] {
            (Some(key), &params[1], false)
        } else {
            return ;
        }
    } else {
        let force = if let Some(force) = parse_set_options(&params[2]) {
            force
        } else {
            false
        };
        if let Value::String(key) = &params[0] {
            (Some(key), &params[1], force)
        } else {
            return ;
        }
    };
    let target: Vec<PathEntry> = match key {
        None => copy_path(current_key),
        Some(k) => match decode(k.as_str()) {
            Some(p) => p,
            None => {
                return ;
            },
        },
    };
    proof {
        if crate::model::wf(value@) {
            crate::laws::lemma_with_parents_wf(value@, steps(target@));
        }
    }
    if force {
        assert(steps(target@).skip(0) =~= steps(target@));
        value.create_parents(target.as_slice(), 0);
    }
    let ghost written = new_value@;
    proof {
        if len == 1 {
            assert(params@[0].wf() ==> crate::model::wf(written));
        } else {
            assert(params@[1].wf() ==> crate::model::wf(written));
        }
    }
    match value.change(target.as_slice()) {
        Some(slot) => {
            *slot = new_value.clone();
        },
        None => {},
    }
}

/// A path of fields only.
pub open spec fn all_fields(p: Seq<Step>) -> bool {
    forall|i: int| 0 <= i < p.len() ==> #[trigger] p[i] is Field
}

/// Every node that exists at a proper prefix of `p` (the root included) is an object.
pub open spec fn parents_are_objects(d: Data, p: Seq<Step>) -> bool {
    forall|j: int|
        0 <= j < p.len() ==> at(d, #[trigger] p.take(j)) is None || at(d, p.take(j)) matches Some(
            Data::Object(_),
        )
}

/// Following the first step of `p` from an object whose child there is `c`.
proof fn lemma_at_take_first(d: Data, c: Data, p: Seq<Step>, j: int)
    requires
        p.len() > 0,
        1 <= j <= p.len(),
        child(d, p[0]) == Some(c),
    ensures
        at(d, p.take(j)) == at(c, p.drop_first().take(j - 1)),
{
    assert(p.take(j)[0] == p[0]);
    assert(p.take(j).drop_first() =~= p.drop_first().take(j - 1));
}

/// Creating missing parents along a path of fields, where every existing node along
/// the way is an object, leaves an object at every proper prefix of the path.
proof fn lemma_parents_created(d: Data, p: Seq<Step>)
    requires
        p.len() >= 1,
        all_fields(p),
        parents_are_objects(d, p),
    ensures
        forall|j: int|
            0 <= j < p.len() ==> at(with_parents(d, p), #[trigger] p.take(j)) matches Some(Data::Object(_)),
    decreases p.len(),
{
    assert(p.take(0) =~= Seq::<Step>::empty());
    assert(at(d, p.take(0)) == Some(d));
    if p.len() >= 2 {
        let e = d->Object_0;
        let k = p[0]->Field_0;
        let q = p.drop_first();
        assert(all_fields(q)) by {
            assert forall|i: int| 0 <= i < q.len() implies #[trigger] q[i] is Field by {
                assert(q[i] == p[i + 1]);
            }
        }
        let (c, y) = match lookup(e, k) {
            Some(c) => (c, with_parents(c, q)),
            None => (Data::Object(Seq::empty()), with_parents(Data::Object(Seq::empty()), q)),
        };
        assert(parents_are_objects(c, q)) by {
            assert forall|j: int| 0 <= j < q.len() implies at(c, #[trigger] q.take(j)) is None || at(
                c,
                q.take(j),
            ) matches Some(Data::Object(_)) by {
                if lookup(e, k) is Some {
                    lemma_at_take_first(d, c, p, j + 1);
                    assert(at(d, p.take(j + 1)) is None || at(d, p.take(j + 1)) matches Some(
                        Data::Object(_),
                    ));
                } else if j > 0 {
                    assert(q.take(j)[0] == q[0]);
                }
            }
        }
        lemma_parents_created(c, q);
        let r = with_parents(d, p);
        if lookup(e, k) is Some {
            assert(r == crate::model::put_child(d, p[0], y));
            crate::value::lemma_child_put(d, p[0], y);
        } else {
            assert(q[0] is Field);
            assert(r == Data::Object(upsert(e, k, y)));
            crate::value::lemma_add_reads_back(d, seq![p[0]], y);
            assert(seq![p[0]].drop_first() =~= Seq::<Step>::empty());
            assert(seq![p[0]][0] == p[0]);
            assert(add_at(d, seq![p[0]], y) == Some((r, seq![p[0]])));
            assert(at(r, seq![p[0]]) == Some(y));
            match child(r, p[0]) {
                Some(c2) => {
                    assert(at(c2, Seq::<Step>::empty()) == Some(c2));
                },
                None => {},
            }
        }
        assert(child(r, p[0]) == Some(y));
        assert forall|j: int| 0 <= j < p.len() implies at(r, #[trigger] p.take(j)) matches Some(
            Data::Object(_),
        ) by {
            if j >= 1 {
                lemma_at_take_first(r, y, p, j);
                assert(at(y, q.take(j - 1)) matches Some(Data::Object(_)));
            }
        }
    }
}

/// Adding at a path whose parent is an object writes at that same path.
proof fn lemma_add_under_object(d: Data, p: Seq<Step>, x: Data)
    requires
        p.len() >= 1,
        p.last() is Field,
        at(d, p.drop_last()) matches Some(Data::Object(_)),
    ensures
        add_at(d, p, x) matches Some((_, q)) && q == p,
    decreases p.len(),
{
    if p.len() == 1 {
        assert(p.drop_last() =~= Seq::<Step>::empty());
    } else {
        let q = p.drop_first();
        assert(p.drop_last()[0] == p[0]);
        assert(p.drop_last().drop_first() =~= q.drop_last());
        let c = child(d, p[0]).unwrap();
        assert(q.last() == p.last());
        lemma_add_under_object(c, q, x);
        assert(seq![p[0]] + q =~= p);
    }
}

/// `set(key, value, {force = true})` with a key that is a path of fields writes the
/// value there whenever every node that exists along the key's proper prefixes is
/// an object: the missing parent objects are created at any depth, below existing
/// objects too, and reading the key gives the value.
pub proof fn law_force_set_reads_back(root: Data, current: Seq<Step>, params: Seq<Data>)
    requires
        set_arguments(params) matches Some((Some(k), _, true)) && decode_spec(k) matches Some(p)
            && all_fields(p) && parents_are_objects(root, p),
    ensures
        set_arguments(params) matches Some((Some(k), v, _)) && decode_spec(k) matches Some(p) && read(
            set_spec(root, current, params),
            p,
        ) == Some(v),
{
    let (key, v, force) = set_arguments(params).unwrap();
    let k = key.unwrap();
    let p = decode_spec(k).unwrap();
    crate::path::lemma_decode_nonempty(k);
    lemma_parents_created(root, p);
    let w = with_parents(root, p);
    let n = p.len() - 1;
    assert(p.take(n) =~= p.drop_last());
    assert(at(w, p.take(n)) matches Some(Data::Object(_)));
    assert(p[n] is Field);
    lemma_add_under_object(w, p, Data::Null);
    crate::value::lemma_add_reads_back(w, p, Data::Null);
    let (m, q) = access(w, p).unwrap();
    assert(q == p);
    assert(at(m, p) is Some);
    crate::laws::lemma_at_set(m, p, v);
    assert(set_spec(root, current, params) == set_at(m, p, v));
}

// ---------------------------------------------------------------------------
// unset

/// The path that `unset` removes: the key's path, or the visited key without one.
pub open spec fn unset_target(current: Seq<Step>, key: Option<Seq<char>>) -> Option<Seq<Step>> {
    set_target(current, key)
}

/// The script library's `unset`: removes the node at the key's path, or at the
/// visited key without a key. An invalid path, and a node that cannot be removed
/// (see `removable`), change nothing. Gives whether a node was removed.
pub fn unset(value: &mut Value, current_key: &[PathEntry], delete_key: Option<&str>) -> (r: bool)
    ensures
        match unset_target(
            steps(current_key@),
            match delete_key {
                Some(k) => Some(k@),
                None => None,
            },
        ) {
            Some(p) => {
                &&& r == removable(old(value)@, p)
                &&& final(value)@ == if r {
                    remove_at(old(value)@, p)
                } else {
                    old(value)@
                }
            },
            None => !r && final(value)@ == old(value)@,
        },
        old(value).wf() ==> final(value).wf(),
{
    let target: Vec<PathEntry> = match delete_key {
        None => copy_path(current_key),
        Some(k) => match decode(k) {
            Some(p) => p,
            None => {
                return false;
            },
        },
    };
    let r = value.can_remove(target.as_slice());
    value.remove(target.as_slice());
    r
}

// ---------------------------------------------------------------------------
// Traversal choices.

/// The name that scripts see for the visited key: the last field name, or the last
/// index in decimal.
pub open spec fn field_name_spec(key: Seq<Step>) -> Option<Seq<char>> {
    if key.len() == 0 {
        None
    } else {
        match key.last() {
            Step::Field(f) => Some(f),
            Step::Index(i) => Some(decimal(i as nat)),
            Step::Append => None,
        }
    }
}

/// The name of the visited key (its last entry); the key does not end with `[]`.
pub fn field_name(key: &[PathEntry]) -> (r: Option<String>)
    requires
        key@.len() > 0 ==> !(key@.last() is IndexNew),
    ensures
        match field_name_spec(steps(key@)) {
            Some(n) => r matches Some(s) && s@ == n,
            None => r is None,
        },
{
    let n = key.len();
    if n == 0 {
        return None;
    }
    assert(steps(key@).last() == key@[n - 1]@);
    match &key[n - 1] {
        PathEntry::Field(f) => Some(f.clone()),
        PathEntry::Index(i) => Some(decimal_string(*i as u64)),
        PathEntry::IndexNew => None,
    }
}

/// Whether the script runs for a visited key: the key must match the regular
/// expression filter (when given) and equal the key filter (when given).
pub fn key_selected(key_encoded: &str, key_filter_regex: Option<&str>, key_filter_equal: Option<&str>) -> (r:
    bool)
    ensures
        r == ((match key_filter_regex {
            Some(re) => regex_compiles(re@) && regex_finds(re@, key_encoded@),
            None => true,
        }) && (match key_filter_equal {
            Some(k) => k@ == key_encoded@,
            None => true,
        })),
{
    if let Some(re) = key_filter_regex {
        if !regex_test(re, key_encoded) {
            return false;
        }
    }
    if let Some(k) = key_filter_equal {
        let a = k.to_string();
        let b = key_encoded.to_string();
        if !(a == b) {
            return false;
        }
    }
    true
}

} // verus!
