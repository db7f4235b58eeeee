//! Mathematical model of data trees and paths, and the meaning of each structural
//! operation on them.
use vstd::prelude::*;

verus! {

/// One step of a path, as a mathematical value.
pub enum Step {
    Field(Seq<char>),
    Index(int),
    Append,
}

/// A data tree, as a mathematical value. An object is the sequence of its
/// entries; a well-formed object keeps them strictly ordered by key.
pub enum Data {
    Str(Seq<char>),
    Int(int),
    Float(u64),
    Bool(bool),
    List(Seq<Data>),
    Object(Seq<(Seq<char>, Data)>),
    Null,
}

/// Strict lexicographic order on keys, comparing characters by code point.
pub open spec fn key_lt(a: Seq<char>, b: Seq<char>) -> bool
    decreases a.len(),
{
    if b.len() == 0 {
        false
    } else if a.len() == 0 {
        true
    } else if (a[0] as u32) < (b[0] as u32) {
        true
    } else if a[0] == b[0] {
        key_lt(a.drop_first(), b.drop_first())
    } else {
        false
    }
}

/// Entries strictly ordered by key (hence no key occurs twice).
pub open spec fn sorted_entries(e: Seq<(Seq<char>, Data)>) -> bool {
    forall|i: int, j: int| 0 <= i < j < e.len() ==> key_lt(#[trigger] e[i].0, #[trigger] e[j].0)
}

/// A well-formed tree: every object keeps its entries strictly ordered by key.
pub open spec fn wf(d: Data) -> bool
    decreases d, 1int,
{
    match d {
        Data::List(l) => wf_list(l),
        Data::Object(e) => sorted_entries(e) && wf_entries(e),
        _ => true,
    }
}

/// Every node of the sequence is well-formed.
pub open spec fn wf_list(l: Seq<Data>) -> bool
    decreases l, 0int,
{
    if l.len() == 0 {
        true
    } else {
        wf_list(l.drop_last()) && wf(l.last())
    }
}

/// Every value of the entries is well-formed.
pub open spec fn wf_entries(e: Seq<(Seq<char>, Data)>) -> bool
    decreases e, 0int,
{
    if e.len() == 0 {
        true
    } else {
        wf_entries(e.drop_last()) && wf(e.last().1)
    }
}

/// Looks a key up among the entries of an object (first match).
pub open spec fn lookup(e: Seq<(Seq<char>, Data)>, k: Seq<char>) -> Option<Data>
    decreases e.len(),
{
    if e.len() == 0 {
        None
    } else if e[0].0 == k {
        Some(e[0].1)
    } else {
        lookup(e.drop_first(), k)
    }
}

/// Writes `k: x` into the entries: replaces the first entry with key `k`, or else
/// inserts a new entry before the first entry whose key is greater.
pub open spec fn upsert(e: Seq<(Seq<char>, Data)>, k: Seq<char>, x: Data) -> Seq<(Seq<char>, Data)>
    decreases e.len(),
{
    if e.len() == 0 {
        seq![(k, x)]
    } else if e[0].0 == k {
        e.update(0, (k, x))
    } else if key_lt(k, e[0].0) {
        seq![(k, x)] + e
    } else {
        seq![e[0]] + upsert(e.drop_first(), k, x)
    }
}

/// Gives the first entry with key `k`, if any, the value `x`.
pub open spec fn replace_first(e: Seq<(Seq<char>, Data)>, k: Seq<char>, x: Data) -> Seq<(Seq<char>, Data)>
    decreases e.len(),
{
    if e.len() == 0 {
        e
    } else if e[0].0 == k {
        e.update(0, (k, x))
    } else {
        seq![e[0]] + replace_first(e.drop_first(), k, x)
    }
}

/// Drops the first entry with key `k`, if any.
pub open spec fn remove_key(e: Seq<(Seq<char>, Data)>, k: Seq<char>) -> Seq<(Seq<char>, Data)>
    decreases e.len(),
{
    if e.len() == 0 {
        e
    } else if e[0].0 == k {
        e.drop_first()
    } else {
        seq![e[0]] + remove_key(e.drop_first(), k)
    }
}

/// The child of a node reached by one step, if any.
pub open spec fn child(d: Data, s: Step) -> Option<Data> {
    match (d, s) {
        (Data::List(l), Step::Index(i)) => if 0 <= i < l.len() {
            Some(l[i])
        } else {
            None
        },
        (Data::Object(e), Step::Field(k)) => lookup(e, k),
        _ => None,
    }
}

/// The node reached from `d` along `p` (the empty path reaches `d` itself).
pub open spec fn at(d: Data, p: Seq<Step>) -> Option<Data>
    decreases p.len(),
{
    if p.len() == 0 {
        Some(d)
    } else {
        match child(d, p[0]) {
            Some(c) => at(c, p.drop_first()),
            None => None,
        }
    }
}

/// What a read at a path gives: nothing for the empty path, else the node reached.
pub open spec fn read(d: Data, p: Seq<Step>) -> Option<Data> {
    if p.len() == 0 {
        None
    } else {
        at(d, p)
    }
}

/// Replaces the child reached by one step (which exists) with `x`.
pub open spec fn put_child(d: Data, s: Step, x: Data) -> Data {
    match (d, s) {
        (Data::List(l), Step::Index(i)) => Data::List(l.update(i, x)),
        (Data::Object(e), Step::Field(k)) => Data::Object(replace_first(e, k, x)),
        _ => d,
    }
}

/// Replaces the node reached along `p` (which exists) with `x`.
pub open spec fn set_at(d: Data, p: Seq<Step>, x: Data) -> Data
    decreases p.len(),
{
    if p.len() == 0 {
        x
    } else {
        match child(d, p[0]) {
            Some(c) => put_child(d, p[0], set_at(c, p.drop_first(), x)),
            None => d,
        }
    }
}

/// Writing `x` at the end of a non-empty path whose parent exists: into an object
/// field, or appended to a list (`Append`). Gives the new tree and the path at which
/// `x` now stands; nothing when the path cannot be written.
pub open spec fn add_at(d: Data, p: Seq<Step>, x: Data) -> Option<(Data, Seq<Step>)>
    decreases p.len(),
{
    if p.len() == 0 {
        None
    } else if p.len() == 1 {
        match (d, p[0]) {
            (Data::Object(e), Step::Field(k)) => Some((Data::Object(upsert(e, k, x)), p)),
            (Data::List(l), Step::Append) => Some(
                (Data::List(l.push(x)), seq![Step::Index(l.len() as int)]),
            ),
            _ => None,
        }
    } else {
        match child(d, p[0]) {
            Some(c) => match add_at(c, p.drop_first(), x) {
                Some((c2, q)) => Some((put_child(d, p[0], c2), seq![p[0]] + q)),
                None => None,
            },
            None => None,
        }
    }
}

/// Access for writing: an existing path is used as it is; a missing one is first
/// written with `Null` (see `add_at`). Gives the tree after that and the path of the node.
pub open spec fn access(d: Data, p: Seq<Step>) -> Option<(Data, Seq<Step>)> {
    if read(d, p) is Some {
        Some((d, p))
    } else {
        add_at(d, p, Data::Null)
    }
}

/// Removes the child of a node named by one step: a list element by index, an
/// object entry by key; any other step leaves the node as it is.
pub open spec fn remove_child(d: Data, s: Step) -> Data {
    match (d, s) {
        (Data::List(l), Step::Index(i)) => Data::List(l.remove(i)),
        (Data::Object(e), Step::Field(k)) => Data::Object(remove_key(e, k)),
        _ => d,
    }
}

/// A list index outside of the list cannot be removed.
pub open spec fn child_removable(d: Data, s: Step) -> bool {
    match (d, s) {
        (Data::List(l), Step::Index(i)) => 0 <= i < l.len(),
        _ => true,
    }
}

/// Removal is possible when the parent can be reached for writing (see `access`)
/// and the last step is removable there.
pub open spec fn removable(d: Data, p: Seq<Step>) -> bool {
    if p.len() == 0 {
        true
    } else if p.len() == 1 {
        child_removable(d, p[0])
    } else {
        match access(d, p.drop_last()) {
            Some((m, q)) => child_removable(at(m, q).unwrap(), p.last()),
            None => false,
        }
    }
}

/// The tree after removing the node at `p`: the parent is first reached for writing
/// (see `access`), then the last step is removed from it.
pub open spec fn remove_at(d: Data, p: Seq<Step>) -> Data {
    if p.len() == 0 {
        d
    } else if p.len() == 1 {
        remove_child(d, p[0])
    } else {
        match access(d, p.drop_last()) {
            Some((m, q)) => set_at(m, q, remove_child(at(m, q).unwrap(), p.last())),
            None => d,
        }
    }
}

/// The name of a node's kind.
pub open spec fn kind_name(d: Data) -> Seq<char> {
    match d {
        Data::Str(_) => "string"@,
        Data::Int(_) => "int"@,
        Data::Float(_) => "float"@,
        Data::Bool(_) => "bool"@,
        Data::Object(_) => "object"@,
        Data::List(_) => "list"@,
        Data::Null => "null"@,
    }
}

/// The steps that lead from a node to its children, in order: object keys, or
/// list indices; none for a scalar.
pub open spec fn child_steps(d: Data) -> Seq<Step> {
    match d {
        Data::Object(e) => e.map_values(|x: (Seq<char>, Data)| Step::Field(x.0)),
        Data::List(l) => Seq::new(l.len(), |i: int| Step::Index(i)),
        _ => Seq::empty(),
    }
}

/// The paths of the children of the node `d` standing at `base`.
pub open spec fn child_paths(base: Seq<Step>, d: Data) -> Seq<Seq<Step>> {
    child_steps(d).map_values(|s: Step| base.push(s))
}

} // verus!
