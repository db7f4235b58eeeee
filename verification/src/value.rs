//! Data trees and their structural operations: reading, adding, accessing for
//! writing and removing along a path.
use vstd::prelude::*;
use crate::model::{
    Data, Step, lookup, upsert, replace_first, remove_key, child, at, read, put_child, set_at,
    add_at, access, remove_child, child_removable, removable, remove_at, kind_name, key_lt,
};
use crate::path::{PathEntry, steps, copy_path};
use crate::text::{key_less, int_string, int_text};

verus! {

/// A node of a data tree. An object holds its entries ordered by key (see
/// `Value::wf`); `Float` holds the IEEE-754 bit pattern of the number.
#[derive(Debug, PartialEq)]
pub enum Value {
    String(String),
    Int(i64),
    Float(u64),
    Bool(bool),
    List(Vec<Value>),
    Object(Vec<(String, Value)>),
    Null,
}

/// The model of a node.
pub open spec fn data_of(v: Value) -> Data
    decreases v,
{
    match v {
        Value::String(s) => Data::Str(s@),
        Value::Int(i) => Data::Int(i as int),
        Value::Float(b) => Data::Float(b),
        Value::Bool(b) => Data::Bool(b),
        Value::List(l) => Data::List(data_list(l@)),
        Value::Object(e) => Data::Object(data_entries(e@)),
        Value::Null => Data::Null,
    }
}

/// The model of a sequence of nodes.
pub open spec fn data_list(s: Seq<Value>) -> Seq<Data>
    decreases s,
{
    Seq::new(
        s.len(),
        |i: int|
            if 0 <= i < s.len() {
                data_of(s[i])
            } else {
                Data::Null
            },
    )
}

/// The model of a sequence of object entries.
pub open spec fn data_entries(s: Seq<(String, Value)>) -> Seq<(Seq<char>, Data)>
    decreases s,
{
    Seq::new(
        s.len(),
        |i: int|
            if 0 <= i < s.len() {
                (s[i].0@, data_of(s[i].1))
            } else {
                (Seq::empty(), Data::Null)
            },
    )
}

impl View for Value {
    type V = Data;

    open spec fn view(&self) -> Data {
        data_of(*self)
    }
}

/// The model of an optional node.
pub open spec fn view_opt(o: Option<&Value>) -> Option<Data> {
    match o {
        Some(v) => Some(v@),
        None => None,
    }
}

/// The model of an optional owned node.
pub open spec fn view_owned(o: Option<Value>) -> Option<Data> {
    match o {
        Some(v) => Some(v@),
        None => None,
    }
}

// ---------------------------------------------------------------------------
// Facts about the models of sequences.

pub(crate) proof fn lemma_list_update(s: Seq<Value>, i: int, v: Value)
    requires
        0 <= i < s.len(),
    ensures
        data_list(s.update(i, v)) == data_list(s).update(i, data_of(v)),
{
    assert(data_list(s.update(i, v)) =~= data_list(s).update(i, data_of(v)));
}

proof fn lemma_list_push(s: Seq<Value>, v: Value)
    ensures
        data_list(s.push(v)) == data_list(s).push(data_of(v)),
{
    assert(data_list(s.push(v)) =~= data_list(s).push(data_of(v)));
}

proof fn lemma_list_remove(s: Seq<Value>, i: int)
    requires
        0 <= i < s.len(),
    ensures
        data_list(s.remove(i)) == data_list(s).remove(i),
{
    assert(data_list(s.remove(i)) =~= data_list(s).remove(i));
}

pub(crate) proof fn lemma_entries_update(s: Seq<(String, Value)>, i: int, e: (String, Value))
    requires
        0 <= i < s.len(),
    ensures
        data_entries(s.update(i, e)) == data_entries(s).update(i, (e.0@, data_of(e.1))),
{
    assert(data_entries(s.update(i, e)) =~= data_entries(s).update(i, (e.0@, data_of(e.1))));
}

proof fn lemma_entries_insert(s: Seq<(String, Value)>, i: int, e: (String, Value))
    requires
        0 <= i <= s.len(),
    ensures
        data_entries(s.insert(i, e)) == data_entries(s).insert(i, (e.0@, data_of(e.1))),
{
    assert(data_entries(s.insert(i, e)) =~= data_entries(s).insert(i, (e.0@, data_of(e.1))));
}

proof fn lemma_entries_remove(s: Seq<(String, Value)>, i: int)
    requires
        0 <= i < s.len(),
    ensures
        data_entries(s.remove(i)) == data_entries(s).remove(i),
{
    assert(data_entries(s.remove(i)) =~= data_entries(s).remove(i));
}

/// The entries before `j` do not have key `k`.
pub open spec fn key_absent_before(e: Seq<(Seq<char>, Data)>, k: Seq<char>, j: int) -> bool {
    forall|i: int| 0 <= i < j ==> #[trigger] e[i].0 != k
}

pub(crate) proof fn lemma_lookup_first(e: Seq<(Seq<char>, Data)>, k: Seq<char>, j: int)
    requires
        0 <= j < e.len(),
        e[j].0 == k,
        key_absent_before(e, k, j),
    ensures
        lookup(e, k) == Some(e[j].1),
        replace_first(e, k, e[j].1) == e,
        forall|x: Data| #[trigger] replace_first(e, k, x) == e.update(j, (k, x)),
        remove_key(e, k) == e.remove(j),
    decreases j,
{
    if j > 0 {
        assert(e[0].0 != k);
        lemma_lookup_first(e.drop_first(), k, j - 1);
        assert(e.drop_first()[j - 1] == e[j]);
        assert(seq![e[0]] + e.drop_first() =~= e);
        assert forall|x: Data| #[trigger] replace_first(e, k, x) == e.update(j, (k, x)) by {
            assert(replace_first(e, k, x) == seq![e[0]] + replace_first(e.drop_first(), k, x));
            assert(replace_first(e.drop_first(), k, x) == e.drop_first().update(j - 1, (k, x)));
            assert(seq![e[0]] + e.drop_first().update(j - 1, (k, x)) =~= e.update(j, (k, x)));
        }
        assert(seq![e[0]] + e.drop_first().remove(j - 1) =~= e.remove(j));
    } else {
        assert(e.update(0, (k, e[0].1)) =~= e);
        assert(e.drop_first() =~= e.remove(0));
    }
}

pub(crate) proof fn lemma_lookup_absent(e: Seq<(Seq<char>, Data)>, k: Seq<char>)
    requires
        key_absent_before(e, k, e.len() as int),
    ensures
        lookup(e, k) is None,
        remove_key(e, k) == e,
        forall|x: Data| #[trigger] replace_first(e, k, x) == e,
    decreases e.len(),
{
    if e.len() > 0 {
        assert(e[0].0 != k);
        assert forall|i: int| 0 <= i < e.len() - 1 implies #[trigger] e.drop_first()[i].0 != k by {
            assert(e.drop_first()[i] == e[i + 1]);
        }
        lemma_lookup_absent(e.drop_first(), k);
        assert(seq![e[0]] + e.drop_first() =~= e);
        assert forall|x: Data| #[trigger] replace_first(e, k, x) == e by {
            assert(replace_first(e, k, x) == seq![e[0]] + replace_first(e.drop_first(), k, x));
            assert(replace_first(e.drop_first(), k, x) == e.drop_first());
        }
    }
}

/// Writing back the child that is already there changes nothing.
pub proof fn lemma_put_child_same(d: Data, s: Step)
    requires
        child(d, s) is Some,
    ensures
        put_child(d, s, child(d, s).unwrap()) == d,
{
    match (d, s) {
        (Data::List(l), Step::Index(i)) => {
            assert(l.update(i, l[i]) =~= l);
        },
        (Data::Object(e), Step::Field(k)) => {
            lemma_replace_existing(e, k);
        },
        _ => {},
    }
}

proof fn lemma_replace_existing(e: Seq<(Seq<char>, Data)>, k: Seq<char>)
    requires
        lookup(e, k) is Some,
    ensures
        replace_first(e, k, lookup(e, k).unwrap()) == e,
    decreases e.len(),
{
    if e.len() > 0 {
        if e[0].0 == k {
            assert(e.update(0, (k, e[0].1)) =~= e);
        } else {
            lemma_replace_existing(e.drop_first(), k);
            assert(seq![e[0]] + e.drop_first() =~= e);
        }
    }
}

// ---------------------------------------------------------------------------
// Entry search and update.

/// Finds the first entry with key `k`.
pub(crate) fn find_key(e: &Vec<(String, Value)>, k: &String) -> (r: Option<usize>)
    ensures
        match r {
            Some(j) => {
                &&& j < e@.len()
                &&& e@[j as int].0@ == k@
                &&& key_absent_before(data_entries(e@), k@, j as int)
            },
            None => key_absent_before(data_entries(e@), k@, e@.len() as int),
        },
{
    let n = e.len();
    for j in 0..n
        invariant
            n == e@.len(),
            key_absent_before(data_entries(e@), k@, j as int),
    {
        if e[j].0 == *k {
            return Some(j);
        }
    }
    None
}

/// Writes `k: x` into the entries as `upsert` does.
pub(crate) fn upsert_entries(e: &mut Vec<(String, Value)>, k: String, x: Value)
    ensures
        data_entries(final(e)@) == upsert(data_entries(old(e)@), k@, data_of(x)),
{
    let n = e.len();
    let ghost de = data_entries(e@);
    let mut j: usize = 0;
    assert(de.skip(0) =~= de);
    while j < n
        invariant
            n == e@.len(),
            j <= n,
            e@ == old(e)@,
            de == data_entries(e@),
            upsert(de, k@, data_of(x)) == de.take(j as int) + upsert(de.skip(j as int), k@, data_of(x)),
        decreases n - j,
    {
        let ghost rest = de.skip(j as int);
        assert(rest[0] == de[j as int]);
        if e[j].0 == k {
            proof {
                lemma_entries_update(e@, j as int, (k, x));
                assert(de.take(j as int) + rest.update(0, (k@, data_of(x))) =~= de.update(
                    j as int,
                    (k@, data_of(x)),
                ));
            }
            e.set(j, (k, x));
            return ;
        }
        if key_less(k.as_str(), e[j].0.as_str()) {
            proof {
                lemma_entries_insert(e@, j as int, (k, x));
                assert(de.take(j as int) + (seq![(k@, data_of(x))] + rest) =~= de.insert(
                    j as int,
                    (k@, data_of(x)),
                ));
            }
            e.insert(j, (k, x));
            return ;
        }
        proof {
            assert(rest.drop_first() =~= de.skip(j + 1));
            assert(de.take(j as int) + (seq![rest[0]] + upsert(rest.drop_first(), k@, data_of(x)))
                =~= de.take(j + 1) + upsert(de.skip(j + 1), k@, data_of(x)));
        }
        j = j + 1;
    }
    proof {
        lemma_entries_insert(e@, n as int, (k, x));
        assert(de.skip(n as int) =~= Seq::<(Seq<char>, Data)>::empty());
        assert(de.take(n as int) + seq![(k@, data_of(x))] =~= de.insert(n as int, (k@, data_of(x))));
    }
    e.insert(n, (k, x));
}

pub(crate) proof fn lemma_list_child_decreases(v: Value, i: int)
    requires
        v is List,
        0 <= i < v->List_0@.len(),
    ensures
        decreases_to!(v => v->List_0@[i]),
{
    assert(decreases_to!(v => v->List_0));
    assert(decreases_to!(v->List_0 => v->List_0@));
    assert(decreases_to!(v->List_0@ => v->List_0@[i]));
}

pub(crate) proof fn lemma_entry_child_decreases(v: Value, i: int)
    requires
        v is Object,
        0 <= i < v->Object_0@.len(),
    ensures
        decreases_to!(v => v->Object_0@[i].1),
{
    assert(decreases_to!(v => v->Object_0));
    assert(decreases_to!(v->Object_0 => v->Object_0@));
    assert(decreases_to!(v->Object_0@ => v->Object_0@[i]));
    assert(decreases_to!(v->Object_0@[i] => v->Object_0@[i].1));
}

// ---------------------------------------------------------------------------
// Operations.

impl Clone for Value {
    fn clone(&self) -> (r: Self)
        ensures
            r@ == self@,
    {
        self.deep_copy()
    }
}

impl Value {
    /// A copy of the whole tree.
    pub fn deep_copy(&self) -> (r: Value)
        ensures
            r@ == self@,
        decreases self,
    {
        match self {
            Value::String(s) => Value::String(s.clone()),
            Value::Int(i) => Value::Int(*i),
            Value::Float(b) => Value::Float(*b),
            Value::Bool(b) => Value::Bool(*b),
            Value::Null => Value::Null,
            Value::List(l) => {
                let mut r: Vec<Value> = Vec::new();
                let n = l.len();
                for i in 0..n
                    invariant
                        n == l@.len(),
                        *self is List,
                        self->List_0 == *l,
                        r@.len() == i,
                        forall|j: int| #![trigger r@[j]] 0 <= j < i ==> data_of(r@[j]) == data_of(l@[j]),
                {
                    proof {
                        lemma_list_child_decreases(*self, i as int);
                    }
                    r.push(l[i].deep_copy());
                }
                assert forall|j: int| 0 <= j < n implies data_list(r@)[j] == data_list(l@)[j] by {
                    assert(data_of(r@[j]) == data_of(l@[j]));
                }
                assert(data_list(r@) =~= data_list(l@));
                Value::List(r)
            },
            Value::Object(e) => {
                let mut r: Vec<(String, Value)> = Vec::new();
                let n = e.len();
                for i in 0..n
                    invariant
                        n == e@.len(),
                        *self is Object,
                        self->Object_0 == *e,
                        r@.len() == i,
                        forall|j: int|
                            #![trigger r@[j]]
                            0 <= j < i ==> r@[j].0@ == e@[j].0@ && data_of(r@[j].1) == data_of(
                                e@[j].1,
                            ),
                {
                    proof {
                        lemma_entry_child_decreases(*self, i as int);
                    }
                    let k = e[i].0.clone();
                    let v = e[i].1.deep_copy();
                    r.push((k, v));
                }
                assert forall|j: int| 0 <= j < n implies data_entries(r@)[j] == data_entries(e@)[j] by {
                    assert(r@[j].0@ == e@[j].0@ && data_of(r@[j].1) == data_of(e@[j].1));
                }
                assert(data_entries(r@) =~= data_entries(e@));
                Value::Object(r)
            },
        }
    }

    /// A well-formed tree: every object keeps its entries strictly ordered by key.
    pub open spec fn wf(&self) -> bool {
        crate::model::wf(self@)
    }

    /// The child reached by one step.
    fn child_ref(&self, s: &PathEntry) -> (r: Option<&Value>)
        ensures
            view_opt(r) == child(self@, s@),
    {
        match (self, s) {
            (Value::List(l), PathEntry::Index(i)) => {
                if *i < l.len() {
                    Some(&l[*i])
                } else {
                    None
                }
            },
            (Value::Object(e), PathEntry::Field(k)) => {
                match find_key(e, k) {
                    Some(j) => {
                        proof {
                            lemma_lookup_first(data_entries(e@), k@, j as int);
                        }
                        Some(&e[j].1)
                    },
                    None => {
                        proof {
                            lemma_lookup_absent(data_entries(e@), k@);
                        }
                        None
                    },
                }
            },
            _ => None,
        }
    }

    /// The node reached along `path[i..]`.
    fn at_ref(&self, path: &[PathEntry], i: usize) -> (r: Option<&Value>)
        requires
            i <= path@.len(),
        ensures
            view_opt(r) == at(self@, steps(path@).skip(i as int)),
        decreases path@.len() - i,
    {
        let ghost p = steps(path@).skip(i as int);
        if i == path.len() {
            assert(p.len() == 0);
            return Some(self);
        }
        assert(p[0] == path@[i as int]@);
        assert(p.drop_first() =~= steps(path@).skip(i + 1));
        match self.child_ref(&path[i]) {
            Some(c) => c.at_ref(path, i + 1),
            None => None,
        }
    }

    /// The child reached by one step, for writing.
    fn child_mut(&mut self, s: &PathEntry) -> (r: Option<&mut Value>)
        ensures
            match r {
                Some(c) => {
                    &&& child(old(self)@, s@) == Some(c@)
                    &&& final(self)@ == put_child(old(self)@, s@, final(c)@)
                },
                None => {
                    &&& child(old(self)@, s@) is None
                    &&& final(self)@ == old(self)@
                },
            },
    {
        match self {
            Value::List(l) => match s {
                PathEntry::Index(i) => {
                    if *i < l.len() {
                        let ghost old_l = l@;
                        let c = &mut l[*i];
                        proof {
                            lemma_list_update(old_l, *i as int, *final(c));
                        }
                        Some(c)
                    } else {
                        None
                    }
                },
                _ => None,
            },
            Value::Object(e) => match s {
                PathEntry::Field(k) => {
                    match find_key(e, k) {
                        Some(j) => {
                            let ghost old_e = e@;
                            proof {
                                lemma_lookup_first(data_entries(e@), k@, j as int);
                            }
                            let entry = &mut e[j];
                            proof {
                                lemma_entries_update(old_e, j as int, *final(entry));
                            }
                            let c = &mut entry.1;
                            Some(c)
                        },
                        None => {
                            proof {
                                lemma_lookup_absent(data_entries(e@), k@);
                            }
                            None
                        },
                    }
                },
                _ => None,
            },
            _ => None,
        }
    }

    /// The node reached along `path[i..]`, for writing.
    fn at_mut(&mut self, path: &[PathEntry], i: usize) -> (r: Option<&mut Value>)
        requires
            i <= path@.len(),
        ensures
            match r {
                Some(v) => {
                    &&& at(old(self)@, steps(path@).skip(i as int)) == Some(v@)
                    &&& final(self)@ == set_at(old(self)@, steps(path@).skip(i as int), final(v)@)
                },
                None => {
                    &&& at(old(self)@, steps(path@).skip(i as int)) is None
                    &&& final(self)@ == old(self)@
                },
            },
        decreases path@.len() - i,
    {
        let ghost p = steps(path@).skip(i as int);
        if i == path.len() {
            assert(p.len() == 0);
            return Some(self);
        }
        assert(p[0] == path@[i as int]@);
        assert(p.drop_first() =~= steps(path@).skip(i + 1));
        let ghost d = self@;
        match self.child_mut(&path[i]) {
            Some(c) => {
                let ghost c0 = c@;
                let r = c.at_mut(path, i + 1);
                proof {
                    if r is None {
                        lemma_put_child_same(d, p[0]);
                    }
                }
                r
            },
            None => None,
        }
    }

    /// Whether a read at `path` finds a node.
    pub fn has(&self, path: &[PathEntry]) -> (r: bool)
        ensures
            r == (read(self@, steps(path@)) is Some),
    {
        self.get(path).is_some()
    }

    /// The node at `path`; nothing for the empty path or when the path leads nowhere.
    pub fn get(&self, path: &[PathEntry]) -> (r: Option<&Value>)
        ensures
            view_opt(r) == read(self@, steps(path@)),
    {
        if path.len() == 0 {
            return None;
        }
        assert(steps(path@).skip(0) =~= steps(path@));
        self.at_ref(path, 0)
    }

    /// Writes `x` at the end of `path[i..]`, as `add_at` does; gives the last entry
    /// of the path at which `x` now stands.
    fn add_rec(&mut self, path: &[PathEntry], i: usize, x: &Value) -> (r: Option<PathEntry>)
        requires
            i < path@.len(),
        ensures
            match r {
                Some(last) => add_at(old(self)@, steps(path@).skip(i as int), x@) == Some(
                    (final(self)@, steps(path@).skip(i as int).drop_last().push(last@)),
                ),
                None => {
                    &&& add_at(old(self)@, steps(path@).skip(i as int), x@) is None
                    &&& final(self)@ == old(self)@
                },
            },
        decreases path@.len() - i,
    {
        let ghost p = steps(path@).skip(i as int);
        assert(p[0] == path@[i as int]@);
        if i == path.len() - 1 {
            assert(p =~= seq![p[0]]);
            assert(p.drop_last() =~= Seq::<Step>::empty());
            match self {
                Value::Object(e) => match &path[i] {
                    PathEntry::Field(k) => {
                        upsert_entries(e, k.clone(), x.clone());
                        Some(PathEntry::Field(k.clone()))
                    },
                    _ => None,
                },
                Value::List(l) => match &path[i] {
                    PathEntry::IndexNew => {
                        let ghost old_l = l@;
                        l.push(x.clone());
                        proof {
                            lemma_list_push(old_l, l@.last());
                        }
                        Some(PathEntry::Index(l.len() - 1))
                    },
                    _ => None,
                },
                _ => None,
            }
        } else {
            assert(p.drop_first() =~= steps(path@).skip(i + 1));
            let ghost d = self@;
            match self.child_mut(&path[i]) {
                Some(c) => {
                    let r = c.add_rec(path, i + 1, x);
                    proof {
                        if r is None {
                            lemma_put_child_same(d, p[0]);
                        } else {
                            let q = p.drop_first().drop_last().push(r->0@);
                            assert(seq![p[0]] + q =~= p.drop_last().push(r->0@));
                        }
                    }
                    r
                },
                None => None,
            }
        }
    }

    /// Writes a copy of `new_value` at `path`: as an object field (replacing any
    /// value there), or appended to a list when the path ends with `[]`. Every entry
    /// before the last must lead to an existing node. Gives the path at which the
    /// value now stands (`[]` resolved to the new index), or `None` when nothing was
    /// written.
    pub fn add(&mut self, path: &[PathEntry], new_value: &Value) -> (r: Option<Vec<PathEntry>>)
        ensures
            match r {
                Some(q) => add_at(old(self)@, steps(path@), new_value@) == Some(
                    (final(self)@, steps(q@)),
                ),
                None => {
                    &&& add_at(old(self)@, steps(path@), new_value@) is None
                    &&& final(self)@ == old(self)@
                },
            },
            old(self).wf() && new_value.wf() ==> final(self).wf(),
    {
        proof {
            if crate::model::wf(self@) && crate::model::wf(new_value@) {
                crate::laws::law_add_keeps_wf(self@, steps(path@), new_value@);
            }
        }
        let n = path.len();
        if n == 0 {
            return None;
        }
        assert(steps(path@).skip(0) =~= steps(path@));
        match self.add_rec(path, 0, new_value) {
            None => None,
            Some(last) => {
                let mut q: Vec<PathEntry> = Vec::new();
                let m = n - 1;
                for j in 0..m
                    invariant
                        m + 1 == n,
                        n == path@.len(),
                        n == path.len(),
                        q@ == path@.take(j as int),
                {
                    q.push(path[j].clone());
                    assert(q@ =~= path@.take(j + 1));
                }
                let ghost lv = last@;
                q.push(last);
                assert(steps(q@) =~= steps(path@).drop_last().push(lv));
                Some(q)
            },
        }
    }

    /// Access for writing at `path`. An existing node is given as it is; for a
    /// missing one, `Null` is first written there as `add` does (the path's `[]`
    /// resolved to the new index). `None` when the path can be neither read nor
    /// written.
    pub fn change(&mut self, path: &[PathEntry]) -> (r: Option<&mut Value>)
        ensures
            match r {
                Some(v) => access(old(self)@, steps(path@)) matches Some((m, q)) && at(m, q)
                    == Some(v@) && final(self)@ == set_at(m, q, final(v)@),
                None => {
                    &&& access(old(self)@, steps(path@)) is None
                    &&& final(self)@ == old(self)@
                },
            },
            old(self).wf() && (r matches Some(v) ==> final(v).wf()) ==> final(self).wf(),
    {
        proof {
            if crate::model::wf(self@) {
                crate::laws::lemma_access_keeps_wf(self@, steps(path@));
            }
        }
        let resolved: Vec<PathEntry> = if self.has(path) {
            copy_path(path)
        } else {
            match self.add(path, &Value::Null) {
                None => {
                    return None;
                },
                Some(q) => q,
            }
        };
        proof {
            lemma_add_reads_back(old(self)@, steps(path@), Data::Null);
        }
        assert(steps(resolved@).skip(0) =~= steps(resolved@));
        self.at_mut(&resolved, 0)
    }

    /// Removes the child named by one step.
    fn remove_child(&mut self, s: &PathEntry)
        requires
            child_removable(old(self)@, s@),
        ensures
            final(self)@ == remove_child(old(self)@, s@),
    {
        match self {
            Value::List(l) => match s {
                PathEntry::Index(i) => {
                    proof {
                        lemma_list_remove(l@, *i as int);
                    }
                    l.remove(*i);
                },
                _ => {},
            },
            Value::Object(e) => match s {
                PathEntry::Field(k) => {
                    match find_key(e, k) {
                        Some(j) => {
                            proof {
                                lemma_lookup_first(data_entries(e@), k@, j as int);
                                lemma_entries_remove(e@, j as int);
                            }
                            e.remove(j);
                        },
                        None => {
                            proof {
                                lemma_lookup_absent(data_entries(e@), k@);
                            }
                        },
                    }
                },
                _ => {},
            },
            _ => {},
        }
    }

    /// Whether the node at `path` can be removed (see `removable`): the parent can be
    /// reached for writing, and an index to remove from a list lies inside it.
    pub fn can_remove(&self, path: &[PathEntry]) -> (r: bool)
        ensures
            r == removable(self@, steps(path@)),
    {
        let n = path.len();
        if n == 0 {
            return true;
        }
        if n == 1 {
            return self.child_removable_exec(&path[0]);
        }
        let mut prefix: Vec<PathEntry> = Vec::new();
        let m = n - 1;
        for j in 0..m
            invariant
                m + 1 == n,
                n == path@.len(),
                n == path.len(),
                prefix@ == path@.take(j as int),
        {
            prefix.push(path[j].clone());
            assert(prefix@ =~= path@.take(j + 1));
        }
        assert(steps(prefix@) =~= steps(path@).drop_last());
        assert(path@[m as int]@ == steps(path@).last());
        let mut probe = self.clone();
        match probe.change(&prefix) {
            Some(parent) => parent.child_removable_exec(&path[m]),
            None => false,
        }
    }

    /// Whether the child named by one step can be removed.
    fn child_removable_exec(&self, s: &PathEntry) -> (r: bool)
        ensures
            r == child_removable(self@, s@),
    {
        match (self, s) {
            (Value::List(l), PathEntry::Index(i)) => *i < l.len(),
            _ => true,
        }
    }

    /// Removes the node at `path`: the parent is first reached for writing as
    /// `change` does, then the list element or object entry is removed from it. When
    /// the node cannot be removed (see `removable`), nothing changes.
    pub fn remove(&mut self, path: &[PathEntry])
        ensures
            final(self)@ == if removable(old(self)@, steps(path@)) {
                remove_at(old(self)@, steps(path@))
            } else {
                old(self)@
            },
            old(self).wf() ==> final(self).wf(),
    {
        proof {
            if crate::model::wf(self@) && removable(self@, steps(path@)) {
                crate::laws::law_remove_keeps_wf(self@, steps(path@));
            }
        }
        if !self.can_remove(path) {
            return ;
        }
        let n = path.len();
        if n == 0 {
            return ;
        }
        if n == 1 {
            self.remove_child(&path[0]);
            return ;
        }
        let mut prefix: Vec<PathEntry> = Vec::new();
        let m = n - 1;
        for j in 0..m
            invariant
                m + 1 == n,
                n == path@.len(),
                n == path.len(),
                prefix@ == path@.take(j as int),
        {
            prefix.push(path[j].clone());
            assert(prefix@ =~= path@.take(j + 1));
        }
        assert(steps(prefix@) =~= steps(path@).drop_last());
        match self.change(&prefix) {
            Some(parent) => {
                parent.remove_child(&path[n - 1]);
            },
            None => {},
        }
    }

    /// The node as text: a string as it is, a number in decimal, `true`/`false`,
    /// `null`; a list, an object or a non-integer number as `format` renders it.
    pub fn to_string<F: Fn(&Value, bool) -> Option<String>>(&self, format: F, pretty: bool) -> (r:
        String)
        requires
            (self@ is List || self@ is Object || self@ is Float) ==> {
                &&& call_requires(format, (self, pretty))
                &&& forall|o: Option<String>| call_ensures(format, (self, pretty), o) ==> o is Some
            },
        ensures
            match self@ {
                Data::Str(s) => r@ == s,
                Data::Int(i) => r@ == int_text(i),
                Data::Bool(b) => r@ == (if b {
                    "true"@
                } else {
                    "false"@
                }),
                Data::Null => r@ == "null"@,
                _ => call_ensures(format, (self, pretty), Some(r)),
            },
    {
        match self {
            Value::String(s) => s.clone(),
            Value::Bool(b) => {
                if *b {
                    "true".to_string()
                } else {
                    "false".to_string()
                }
            },
            Value::Int(i) => int_string(*i),
            Value::Null => "null".to_string(),
            _ => {
                let o = format(self, pretty);
                match o {
                    Some(t) => t,
                    None => {
                        assert(false);
                        String::new()
                    },
                }
            },
        }
    }

    /// The name of the node's kind: `string`, `int`, `float`, `bool`, `object`,
    /// `list` or `null`.
    pub fn type_encoded(&self) -> (r: String)
        ensures
            r@ == kind_name(self@),
    {
        let name: &str = match self {
            Value::String(_) => "string",
            Value::Int(_) => "int",
            Value::Float(_) => "float",
            Value::Bool(_) => "bool",
            Value::Object(_) => "object",
            Value::List(_) => "list",
            Value::Null => "null",
        };
        name.to_string()
    }
}

/// After a successful write, the written value is found at the path given back.
pub proof fn lemma_add_reads_back(d: Data, p: Seq<Step>, x: Data)
    ensures
        add_at(d, p, x) matches Some((d2, q)) ==> q.len() > 0 && at(d2, q) == Some(x),
    decreases p.len(),
{
    if p.len() > 1 {
        if let Some(c) = child(d, p[0]) {
            lemma_add_reads_back(c, p.drop_first(), x);
            if let Some((c2, q)) = add_at(c, p.drop_first(), x) {
                lemma_child_put(d, p[0], c2);
                let q2 = seq![p[0]] + q;
                assert(q2.drop_first() =~= q);
                assert(q2[0] == p[0]);
                assert(at(put_child(d, p[0], c2), q2) == at(c2, q));
            }
        }
    } else if p.len() == 1 {
        match (d, p[0]) {
            (Data::Object(e), Step::Field(k)) => {
                lemma_lookup_upsert(e, k, x);
                assert(p.drop_first() =~= Seq::<Step>::empty());
                assert(at(Data::Object(upsert(e, k, x)), p) == at(x, p.drop_first()));
            },
            (Data::List(l), Step::Append) => {
                let q = seq![Step::Index(l.len() as int)];
                assert(q.drop_first() =~= Seq::<Step>::empty());
                assert(child(Data::List(l.push(x)), q[0]) == Some(x));
                assert(at(Data::List(l.push(x)), q) == at(x, q.drop_first()));
            },
            _ => {},
        }
    }
}

/// After writing a child, that child is found again.
pub proof fn lemma_child_put(d: Data, s: Step, x: Data)
    requires
        child(d, s) is Some,
    ensures
        child(put_child(d, s, x), s) == Some(x),
{
    match (d, s) {
        (Data::Object(e), Step::Field(k)) => {
            lemma_lookup_replace(e, k, x);
        },
        _ => {},
    }
}

proof fn lemma_lookup_replace(e: Seq<(Seq<char>, Data)>, k: Seq<char>, x: Data)
    requires
        lookup(e, k) is Some,
    ensures
        lookup(replace_first(e, k, x), k) == Some(x),
    decreases e.len(),
{
    if e[0].0 != k {
        lemma_lookup_replace(e.drop_first(), k, x);
        assert((seq![e[0]] + replace_first(e.drop_first(), k, x)).drop_first() =~= replace_first(
            e.drop_first(),
            k,
            x,
        ));
    }
}

proof fn lemma_lookup_upsert(e: Seq<(Seq<char>, Data)>, k: Seq<char>, x: Data)
    ensures
        lookup(upsert(e, k, x), k) == Some(x),
    decreases e.len(),
{
    if e.len() > 0 && e[0].0 != k && !key_lt(k, e[0].0) {
        lemma_lookup_upsert(e.drop_first(), k, x);
        assert((seq![e[0]] + upsert(e.drop_first(), k, x)).drop_first() =~= upsert(
            e.drop_first(),
            k,
            x,
        ));
    }
}

} // verus!
