//! What the output formats require of a tree before it is written.
use vstd::prelude::*;
use crate::model::{Data, Step};
use crate::path::{PathEntry, steps, copy_path};
use crate::value::{Value, data_list, data_entries};
use crate::model::key_lt;
use crate::text::key_less;
use crate::laws::{lemma_key_lt_transitive, lemma_key_lt_total, lemma_key_lt_asymmetric, lemma_key_lt_irreflexive};

verus! {

/// Why a tree cannot be written in a format.
#[derive(Debug)]
pub enum ToStrError {
    /// The format's writer refused the tree, with its message.
    ParseError(String),
    /// A node of a kind the format cannot hold (its kind name), and its path.
    UnsupportedType((String, Vec<PathEntry>)),
}

/// The JSON format.
pub struct Json {}

/// The TOML format.
pub struct Toml {}

/// The YAML format.
pub struct Yaml {}

/// The first key of an object entry whose value is `null`.
pub open spec fn first_null(e: Seq<(Seq<char>, Data)>) -> Option<Seq<char>>
    decreases e.len(),
{
    if e.len() == 0 {
        None
    } else if e[0].1 is Null {
        Some(e[0].0)
    } else {
        first_null(e.drop_first())
    }
}

/// The tree that TOML is given: `null` cannot be written (an error with its path),
/// nor can an object with a `null` field; inside an object, a value that cannot be
/// written is replaced by the string `"null"`; a list fails at its first element that
/// cannot be written.
pub open spec fn toml_tree(d: Data, path: Seq<Step>) -> Result<Data, Seq<Step>>
    decreases d, 2int,
{
    match d {
        Data::Null => Err(path),
        Data::List(l) => match toml_list(l, path) {
            Ok(r) => Ok(Data::List(r)),
            Err(p) => Err(p),
        },
        Data::Object(e) => match first_null(e) {
            Some(k) => Err(path.push(Step::Field(k))),
            None => Ok(Data::Object(toml_entries(e, path))),
        },
        _ => Ok(d),
    }
}

/// The elements of a list as TOML is given them (see `toml_tree`).
pub open spec fn toml_list(l: Seq<Data>, path: Seq<Step>) -> Result<Seq<Data>, Seq<Step>>
    decreases l, 1int,
{
    if l.len() == 0 {
        Ok(Seq::empty())
    } else {
        match toml_list(l.drop_last(), path) {
            Err(p) => Err(p),
            Ok(r) => match toml_tree(l.last(), path.push(Step::Index(l.len() - 1))) {
                Ok(x) => Ok(r.push(x)),
                Err(p) => Err(p),
            },
        }
    }
}

/// The entries of an object as TOML is given them (see `toml_tree`).
pub open spec fn toml_entries(e: Seq<(Seq<char>, Data)>, path: Seq<Step>) -> Seq<(Seq<char>, Data)>
    decreases e, 1int,
{
    if e.len() == 0 {
        Seq::empty()
    } else {
        toml_entries(e.drop_last(), path).push(
            (
                e.last().0,
                match toml_tree(e.last().1, path.push(Step::Field(e.last().0))) {
                    Ok(x) => x,
                    Err(_) => Data::Str("null"@),
                },
            ),
        )
    }
}

/// The path of a node below `path`.
fn child_path(path: &Vec<PathEntry>, s: PathEntry) -> (r: Vec<PathEntry>)
    ensures
        steps(r@) == steps(path@).push(s@),
{
    let mut r = copy_path(path.as_slice());
    r.push(s);
    assert(steps(r@) =~= steps(path@).push(s@));
    r
}

fn toml_value(value: &Value, path: &Vec<PathEntry>) -> (r: Result<Value, Vec<PathEntry>>)
    ensures
        match toml_tree(value@, steps(path@)) {
            Ok(x) => r matches Ok(v) && v@ == x,
            Err(p) => r matches Err(q) && steps(q@) == p,
        },
    decreases value,
{
    match value {
        Value::Null => Err(copy_path(path.as_slice())),
        Value::List(l) => {
            let mut out: Vec<Value> = Vec::new();
            let n = l.len();
            let ghost dl = data_list(l@);
            assert(dl.take(0) =~= Seq::<Data>::empty());
            assert(data_list(out@) =~= Seq::<Data>::empty());
            for i in 0..n
                invariant
                    n == l@.len(),
                    *value is List,
                    value->List_0 == *l,
                    dl == data_list(l@),
                    toml_list(dl.take(i as int), steps(path@)) == Ok::<Seq<Data>, Seq<Step>>(
                        data_list(out@),
                    ),
            {
                proof {
                    crate::value::lemma_list_child_decreases(*value, i as int);
                }
                assert(dl.take(i + 1).drop_last() =~= dl.take(i as int));
                assert(dl.take(i + 1).last() == l@[i as int]@);
                let sub = child_path(path, PathEntry::Index(i));
                match toml_value(&l[i], &sub) {
                    Ok(x) => {
                        let ghost before = out@;
                        out.push(x);
                        assert(data_list(out@) =~= data_list(before).push(out@.last()@));
                    },
                    Err(q) => {
                        proof {
                            lemma_toml_list_err(dl, steps(path@), (i + 1) as int);
                        }
                        assert(dl.take(n as int) =~= dl);
                        return Err(q);
                    },
                }
            }
            assert(dl.take(n as int) =~= dl);
            Ok(Value::List(out))
        },
        Value::Object(e) => {
            let n = e.len();
            let ghost de = data_entries(e@);
            assert(value@ == Data::Object(de));
            assert(de.skip(0) =~= de);
            for j in 0..n
                invariant
                    n == e@.len(),
                    de == data_entries(e@),
                    value@ == Data::Object(de),
                    first_null(de) == first_null(de.skip(j as int)),
            {
                assert(de.skip(j as int)[0] == de[j as int]);
                assert(de.skip(j as int).drop_first() =~= de.skip(j + 1));
                if let Value::Null = &e[j].1 {
                    assert(de[j as int].1 is Null);
                    assert(first_null(de.skip(j as int)) == Some(e@[j as int].0@));
                    let sub = child_path(path, PathEntry::Field(e[j].0.clone()));
                    return Err(sub);
                }
            }
            assert(de.skip(n as int) =~= Seq::<(Seq<char>, Data)>::empty());
            let mut out: Vec<(String, Value)> = Vec::new();
            assert(de.take(0) =~= Seq::<(Seq<char>, Data)>::empty());
            assert(data_entries(out@) =~= Seq::<(Seq<char>, Data)>::empty());
            for i in 0..n
                invariant
                    n == e@.len(),
                    *value is Object,
                    value->Object_0 == *e,
                    de == data_entries(e@),
                    toml_entries(de.take(i as int), steps(path@)) == data_entries(out@),
            {
                proof {
                    crate::value::lemma_entry_child_decreases(*value, i as int);
                }
                assert(de.take(i + 1).drop_last() =~= de.take(i as int));
                assert(de.take(i + 1).last() == (e@[i as int].0@, e@[i as int].1@));
                let sub = child_path(path, PathEntry::Field(e[i].0.clone()));
                let x = match toml_value(&e[i].1, &sub) {
                    Ok(x) => x,
                    Err(_) => Value::String("null".to_string()),
                };
                let ghost before = out@;
                out.push((e[i].0.clone(), x));
                assert(data_entries(out@) =~= data_entries(before).push(
                    (out@.last().0@, out@.last().1@),
                ));
            }
            assert(de.take(n as int) =~= de);
            Ok(Value::Object(out))
        },
        Value::String(s) => Ok(Value::String(s.clone())),
        Value::Int(i) => Ok(Value::Int(*i)),
        Value::Float(b) => Ok(Value::Float(*b)),
        Value::Bool(b) => Ok(Value::Bool(*b)),
    }
}

/// Once a list element fails, the whole list fails there.
proof fn lemma_toml_list_err(l: Seq<Data>, path: Seq<Step>, k: int)
    requires
        0 <= k <= l.len(),
        toml_list(l.take(k), path) is Err,
    ensures
        toml_list(l, path) == toml_list(l.take(k), path),
    decreases l.len() - k,
{
    if k < l.len() {
        assert(l.take(k + 1).drop_last() =~= l.take(k));
        lemma_toml_list_err(l, path, k + 1);
    } else {
        assert(l.take(k) =~= l);
    }
}

/// No node of the tree is `null`.
pub open spec fn no_null(d: Data) -> bool
    decreases d, 1int,
{
    match d {
        Data::Null => false,
        Data::List(l) => no_null_list(l),
        Data::Object(e) => no_null_entries(e),
        _ => true,
    }
}

/// No node of the sequence holds a `null`.
pub open spec fn no_null_list(l: Seq<Data>) -> bool
    decreases l, 0int,
{
    if l.len() == 0 {
        true
    } else {
        no_null_list(l.drop_last()) && no_null(l.last())
    }
}

/// No value of the entries holds a `null`.
pub open spec fn no_null_entries(e: Seq<(Seq<char>, Data)>) -> bool
    decreases e, 0int,
{
    if e.len() == 0 {
        true
    } else {
        no_null_entries(e.drop_last()) && no_null(e.last().1)
    }
}

proof fn lemma_no_null_values(e: Seq<(Seq<char>, Data)>)
    requires
        no_null_entries(e),
    ensures
        forall|i: int| 0 <= i < e.len() ==> !(#[trigger] e[i].1 is Null),
    decreases e.len(),
{
    if e.len() > 0 {
        lemma_no_null_values(e.drop_last());
        assert forall|i: int| 0 <= i < e.len() implies !(#[trigger] e[i].1 is Null) by {
            if i < e.len() - 1 {
                assert(e[i] == e.drop_last()[i]);
            } else {
                assert(no_null(e.last().1));
            }
        }
    }
}

proof fn lemma_first_null_none(e: Seq<(Seq<char>, Data)>)
    requires
        forall|i: int| 0 <= i < e.len() ==> !(#[trigger] e[i].1 is Null),
    ensures
        first_null(e) is None,
    decreases e.len(),
{
    if e.len() > 0 {
        assert forall|i: int| 0 <= i < e.drop_first().len() implies !(#[trigger] e.drop_first()[i].1 is Null) by {
            assert(e.drop_first()[i] == e[i + 1]);
        }
        lemma_first_null_none(e.drop_first());
    }
}

proof fn lemma_toml_same(d: Data, path: Seq<Step>)
    requires
        no_null(d),
    ensures
        toml_tree(d, path) == Ok::<Data, Seq<Step>>(d),
    decreases d, 2int,
{
    match d {
        Data::List(l) => {
            lemma_toml_list_same(l, path);
        },
        Data::Object(e) => {
            lemma_no_null_values(e);
            lemma_first_null_none(e);
            lemma_toml_entries_same(e, path);
        },
        _ => {},
    }
}

proof fn lemma_toml_list_same(l: Seq<Data>, path: Seq<Step>)
    requires
        no_null_list(l),
    ensures
        toml_list(l, path) == Ok::<Seq<Data>, Seq<Step>>(l),
    decreases l, 1int,
{
    if l.len() > 0 {
        lemma_toml_list_same(l.drop_last(), path);
        lemma_toml_same(l.last(), path.push(Step::Index(l.len() - 1)));
        assert(l.drop_last().push(l.last()) =~= l);
        assert(toml_list(l, path) == Ok::<Seq<Data>, Seq<Step>>(l.drop_last().push(l.last())));
    } else {
        assert(l =~= Seq::<Data>::empty());
    }
}

proof fn lemma_toml_entries_same(e: Seq<(Seq<char>, Data)>, path: Seq<Step>)
    requires
        no_null_entries(e),
    ensures
        toml_entries(e, path) == e,
    decreases e, 1int,
{
    if e.len() > 0 {
        lemma_toml_entries_same(e.drop_last(), path);
        lemma_toml_same(e.last().1, path.push(Step::Field(e.last().0)));
        assert(e.drop_last().push((e.last().0, e.last().1)) =~= e);
    }
}

/// A tree without `null` is given to TOML as it is: every node, every key and the
/// order of the entries of every object stay the same.
pub proof fn law_toml_keeps_null_free(d: Data)
    requires
        no_null(d),
    ensures
        toml_tree(d, Seq::empty()) == Ok::<Data, Seq<Step>>(d),
{
    lemma_toml_same(d, Seq::empty());
}

/// The entries of an object as TOML is given them have the object's keys, in the
/// same order.
pub proof fn law_toml_entries_keep_keys(e: Seq<(Seq<char>, Data)>, path: Seq<Step>)
    ensures
        toml_entries(e, path).len() == e.len(),
        forall|i: int| 0 <= i < e.len() ==> (#[trigger] toml_entries(e, path)[i]).0 == e[i].0,
    decreases e.len(),
{
    if e.len() > 0 {
        law_toml_entries_keep_keys(e.drop_last(), path);
        assert forall|i: int| 0 <= i < e.len() implies (#[trigger] toml_entries(e, path)[i]).0 == e[i].0 by {
            if i < e.len() - 1 {
                assert(toml_entries(e, path)[i] == toml_entries(e.drop_last(), path)[i]);
                assert(e.drop_last()[i] == e[i]);
            }
        }
    }
}

/// The first entry whose value is `null` gives `first_null` its key.
proof fn lemma_first_null_entry(e: Seq<(Seq<char>, Data)>) -> (i: int)
    requires
        first_null(e) is Some,
    ensures
        0 <= i < e.len(),
        e[i].0 == first_null(e).unwrap(),
        e[i].1 is Null,
        forall|j: int| 0 <= j < i ==> (#[trigger] e[j]).0 != e[i].0 || !(e[j].1 is Null),
    decreases e.len(),
{
    if e[0].1 is Null {
        0
    } else {
        let t = e.drop_first();
        let i = lemma_first_null_entry(t);
        assert forall|j: int| 0 <= j < i + 1 implies (#[trigger] e[j]).0 != e[i + 1].0 || !(e[j].1 is Null) by {
            if j > 0 {
                assert(e[j] == t[j - 1]);
            }
        }
        i + 1
    }
}

/// Looking a key up gives the first entry with that key.
proof fn lemma_lookup_first_at(e: Seq<(Seq<char>, Data)>, i: int)
    requires
        0 <= i < e.len(),
        forall|j: int| 0 <= j < i ==> (#[trigger] e[j]).0 != e[i].0,
    ensures
        crate::model::lookup(e, e[i].0) == Some(e[i].1),
    decreases i,
{
    if i > 0 {
        let t = e.drop_first();
        assert forall|j: int| 0 <= j < i - 1 implies (#[trigger] t[j]).0 != t[i - 1].0 by {
            assert(t[j] == e[j + 1]);
        }
        lemma_a_first_at_drop(e, i);
        lemma_lookup_first_at(t, i - 1);
    }
}

proof fn lemma_a_first_at_drop(e: Seq<(Seq<char>, Data)>, i: int)
    requires
        0 < i < e.len(),
        forall|j: int| 0 <= j < i ==> (#[trigger] e[j]).0 != e[i].0,
    ensures
        e.drop_first()[i - 1] == e[i],
        e[0].0 != e[i].0,
{
}

/// Where TOML is refused, the reported path, below `path`, leads to a `null`.
proof fn lemma_toml_err_null(d: Data, path: Seq<Step>)
    requires
        crate::model::wf(d),
    ensures
        toml_tree(d, path) matches Err(q) ==> q.len() >= path.len() && q.take(path.len() as int) == path
            && crate::model::at(d, q.skip(path.len() as int)) == Some(Data::Null),
    decreases d, 2int,
{
    match d {
        Data::Null => {
            assert(path.skip(path.len() as int) =~= Seq::<Step>::empty());
            assert(path.take(path.len() as int) =~= path);
        },
        Data::List(l) => {
            lemma_toml_list_err_null(l, path);
            if let Err(q) = toml_list(l, path) {
                let i = choose|i: int|
                    0 <= i < l.len() && q.len() > path.len() && q.take(path.len() as int + 1) == path.push(
                        Step::Index(i),
                    ) && crate::model::at(l[i], #[trigger] q.skip(path.len() as int + 1)) == Some(Data::Null);
                let r = q.skip(path.len() as int);
                assert(q.take(path.len() as int) =~= q.take(path.len() as int + 1).take(path.len() as int));
                assert(q.take(path.len() as int) =~= path);
                assert(r[0] == q.take(path.len() as int + 1)[path.len() as int]);
                assert(r[0] == Step::Index(i));
                assert(r.drop_first() =~= q.skip(path.len() as int + 1));
                assert(crate::model::child(d, r[0]) == Some(l[i]));
                assert(crate::model::at(d, r) == crate::model::at(l[i], r.drop_first()));
                assert(toml_tree(d, path) == Err::<Data, Seq<Step>>(q));
            }
        },
        Data::Object(e) => {
            if let Some(k) = first_null(e) {
                let i = lemma_first_null_entry(e);
                assert forall|j: int| 0 <= j < i implies (#[trigger] e[j]).0 != e[i].0 by {
                    assert(crate::model::key_lt(e[j].0, e[i].0));
                    lemma_key_lt_irreflexive(e[j].0);
                }
                lemma_lookup_first_at(e, i);
                let q = path.push(Step::Field(k));
                assert(q.take(path.len() as int) =~= path);
                let r = q.skip(path.len() as int);
                assert(r =~= seq![Step::Field(k)]);
                assert(r.drop_first() =~= Seq::<Step>::empty());
                assert(e[i].0 == k);
                assert(crate::model::child(d, r[0]) == Some(Data::Null));
                assert(crate::model::at(Data::Null, r.drop_first()) == Some(Data::Null));
                assert(crate::model::at(d, r) == Some(Data::Null));
                assert(toml_tree(d, path) == Err::<Data, Seq<Step>>(q));
            }
        },
        _ => {},
    }
}

proof fn lemma_toml_list_err_null(l: Seq<Data>, path: Seq<Step>)
    requires
        crate::model::wf_list(l),
    ensures
        toml_list(l, path) matches Err(q) ==> exists|i: int|
            0 <= i < l.len() && q.len() > path.len() && q.take(path.len() as int + 1) == path.push(Step::Index(i))
                && crate::model::at(l[i], #[trigger] q.skip(path.len() as int + 1)) == Some(Data::Null),
    decreases l, 1int,
{
    if l.len() > 0 {
        lemma_toml_list_err_null(l.drop_last(), path);
        let n = l.len() - 1;
        let pn = path.push(Step::Index(n));
        lemma_toml_err_null(l.last(), pn);
        match toml_list(l.drop_last(), path) {
            Err(q) => {
                let i = choose|i: int|
                    0 <= i < l.drop_last().len() && q.len() > path.len() && q.take(path.len() as int + 1)
                        == path.push(Step::Index(i)) && crate::model::at(
                        l.drop_last()[i],
                        #[trigger] q.skip(path.len() as int + 1),
                    ) == Some(Data::Null);
                assert(l.drop_last()[i] == l[i]);
            },
            Ok(_) => {
                if let Err(q) = toml_tree(l.last(), pn) {
                    assert(q.take(path.len() as int + 1) =~= q.take(pn.len() as int));
                    assert(l[n] == l.last());
                }
            },
        }
    }
}

/// Where TOML refuses a well-formed tree, the reported path leads to a `null`.
pub proof fn law_toml_refuses_at_null(d: Data)
    requires
        crate::model::wf(d),
    ensures
        toml_tree(d, Seq::empty()) matches Err(q) ==> crate::model::at(d, q) == Some(Data::Null),
{
    lemma_toml_err_null(d, Seq::empty());
    if let Err(q) = toml_tree(d, Seq::empty()) {
        assert(q.skip(0) =~= q);
    }
}

impl Toml {
    /// The tree as TOML is given it (see `toml_tree`); a node that cannot be
    /// written is reported with its kind name and path.
    pub fn to_toml_value(&self, value: &Value) -> (r: Result<Value, ToStrError>)
        ensures
            match toml_tree(value@, Seq::empty()) {
                Ok(x) => r matches Ok(v) && v@ == x,
                Err(p) => r matches Err(ToStrError::UnsupportedType((t, q))) && t@ == "null"@
                    && steps(q@) == p,
            },
    {
        let root: Vec<PathEntry> = Vec::new();
        assert(steps(root@) =~= Seq::<Step>::empty());
        match toml_value(value, &root) {
            Ok(v) => Ok(v),
            Err(q) => Err(ToStrError::UnsupportedType(("null".to_string(), q))),
        }
    }
}

// ---------------------------------------------------------------------------
// YAML key order.

/// The YAML text of a string scalar (`serde_yaml::to_string`), if it can be written.
pub uninterp spec fn yaml_string_text(s: Seq<char>) -> Option<Seq<char>>;

/// Writes a string as a YAML document with `serde_yaml::to_string`.
#[verifier::external_body]
fn yaml_text(key: &String) -> (r: Option<String>)
    ensures
        match r {
            Some(t) => yaml_string_text(key@) == Some(t@),
            None => yaml_string_text(key@) is None,
        },
{
    serde_yaml::to_string(key).ok()
}

/// `ord` lists each index below `n` once.
pub open spec fn is_permutation(ord: Seq<usize>, n: nat) -> bool {
    &&& ord.len() == n
    &&& forall|i: int| 0 <= i < ord.len() ==> #[trigger] ord[i] < n
    &&& forall|i: int, j: int| 0 <= i < j < ord.len() ==> #[trigger] ord[i] != #[trigger] ord[j]
}

/// `ord` lists the texts in order, and equal texts in the order of their indices.
pub open spec fn stably_sorted(ord: Seq<usize>, t: Seq<Seq<char>>) -> bool {
    forall|i: int, j: int|
        0 <= i < j < ord.len() ==> !key_lt(t[#[trigger] ord[j] as int], t[#[trigger] ord[i] as int])
            && (t[ord[i] as int] == t[ord[j] as int] ==> ord[i] < ord[j])
}

/// The YAML texts of the keys of the entries.
pub open spec fn yaml_key_texts(e: Seq<(String, Value)>) -> Seq<Seq<char>> {
    e.map_values(|x: (String, Value)| yaml_string_text(x.0@).unwrap())
}

impl Yaml {
    /// The order in which an object's entries are written: by the YAML text of
    /// their keys, entries with equal texts keeping their order. `None` when a key
    /// cannot be written.
    pub fn key_order(&self, entries: &Vec<(String, Value)>) -> (r: Option<Vec<usize>>)
        ensures
            match r {
                Some(ord) => {
                    &&& forall|i: int| 0 <= i < entries@.len() ==> (#[trigger] yaml_string_text(entries@[i].0@)) is Some
                    &&& is_permutation(ord@, entries@.len())
                    &&& stably_sorted(ord@, yaml_key_texts(entries@))
                },
                None => exists|i: int| 0 <= i < entries@.len() && (#[trigger] yaml_string_text(entries@[i].0@)) is None,
            },
    {
        let n = entries.len();
        let mut texts: Vec<String> = Vec::new();
        for k in 0..n
            invariant
                n == entries@.len(),
                texts@.len() == k,
                forall|i: int| 0 <= i < k ==> yaml_string_text(entries@[i].0@) == Some(#[trigger] texts@[i]@),
        {
            match yaml_text(&entries[k].0) {
                Some(t) => texts.push(t),
                None => {
                    assert(yaml_string_text(entries@[k as int].0@) is None);
                    return None;
                },
            }
        }
        let ghost t = yaml_key_texts(entries@);
        assert forall|i: int| 0 <= i < n implies #[trigger] t[i] == texts@[i]@ by {
            assert(yaml_string_text(entries@[i].0@) == Some(texts@[i]@));
        }
        let mut ord: Vec<usize> = Vec::new();
        for k in 0..n
            invariant
                n == entries@.len(),
                n == texts@.len(),
                t.len() == n,
                t == yaml_key_texts(entries@),
                forall|i: int| 0 <= i < n ==> #[trigger] t[i] == texts@[i]@,
                forall|i: int| 0 <= i < n ==> yaml_string_text(entries@[i].0@) == Some(#[trigger] texts@[i]@),
                is_permutation(ord@, k as nat),
                stably_sorted(ord@, t),
        {
            let mut pos: usize = 0;
            while pos < ord.len() && !key_less(texts[k].as_str(), texts[ord[pos]].as_str())
                invariant
                    pos <= ord@.len(),
                    k < n,
                    n == texts@.len(),
                    is_permutation(ord@, k as nat),
                    forall|i: int| 0 <= i < n ==> #[trigger] t[i] == texts@[i]@,
                    forall|i: int| 0 <= i < pos ==> !key_lt(t[k as int], t[#[trigger] ord@[i] as int]),
                decreases ord@.len() - pos,
            {
                pos = pos + 1;
            }
            let ghost old_ord = ord@;
            proof {
                lemma_insert_sorted(old_ord, t, k as int, pos as int);
            }
            ord.insert(pos, k);
        }
        assert forall|i: int| 0 <= i < entries@.len() implies (#[trigger] yaml_string_text(
            entries@[i].0@,
        )) is Some by {
            assert(yaml_string_text(entries@[i].0@) == Some(texts@[i]@));
        }
        Some(ord)
    }
}

proof fn lemma_insert_sorted(ord: Seq<usize>, t: Seq<Seq<char>>, k: int, pos: int)
    requires
        0 <= pos <= ord.len(),
        0 <= k < t.len(),
        k <= usize::MAX,
        is_permutation(ord, k as nat),
        stably_sorted(ord, t),
        forall|i: int| 0 <= i < pos ==> !key_lt(t[k], t[#[trigger] ord[i] as int]),
        pos < ord.len() ==> key_lt(t[k], t[ord[pos] as int]),
    ensures
        is_permutation(ord.insert(pos, k as usize), (k + 1) as nat),
        stably_sorted(ord.insert(pos, k as usize), t),
{
    let o = ord.insert(pos, k as usize);
    assert forall|i: int| 0 <= i < o.len() implies #[trigger] o[i] < k + 1 by {
        if i < pos {
            assert(o[i] == ord[i]);
        } else if i > pos {
            assert(o[i] == ord[i - 1]);
        }
    }
    assert forall|i: int, j: int| 0 <= i < j < o.len() implies #[trigger] o[i] != #[trigger] o[j] by {
        if i != pos && j != pos {
            let i2 = if i < pos { i } else { i - 1 };
            let j2 = if j < pos { j } else { j - 1 };
            assert(o[i] == ord[i2]);
            assert(o[j] == ord[j2]);
        } else if i == pos {
            assert(o[j] == ord[j - 1]);
        } else {
            assert(o[i] == ord[i]);
        }
    }
    assert forall|i: int, j: int| 0 <= i < j < o.len() implies !key_lt(
        t[#[trigger] o[j] as int],
        t[#[trigger] o[i] as int],
    ) && (t[o[i] as int] == t[o[j] as int] ==> o[i] < o[j]) by {
        if i != pos && j != pos {
            let i2 = if i < pos { i } else { i - 1 };
            let j2 = if j < pos { j } else { j - 1 };
            assert(o[i] == ord[i2]);
            assert(o[j] == ord[j2]);
        } else if j == pos {
            assert(o[i] == ord[i]);
            assert(o[j] == k);
            assert(!key_lt(t[k], t[ord[i] as int]));
        } else {
            // i == pos < j: the new text comes before every later one.
            assert(o[i] == k);
            assert(o[j] == ord[j - 1]);
            let a = t[k];
            let b = t[ord[pos] as int];
            let c = t[ord[j - 1] as int];
            assert(key_lt(a, b));
            if j - 1 > pos {
                assert(!key_lt(c, b));
                if b != c {
                    lemma_key_lt_total(b, c);
                    lemma_key_lt_transitive(a, b, c);
                }
            }
            lemma_key_lt_asymmetric(a, c);
            lemma_key_lt_irreflexive(a);
        }
    }
}

} // verus!
