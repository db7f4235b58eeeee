//! Breadth-first traversal of a tree with a callback that may rewrite it.
use vstd::prelude::*;
use crate::model::{
    Data, Step, lookup, child, at, read, set_at, add_at, access, removable, remove_at,
    child_steps, child_paths,
};
use crate::path::{PathEntry, steps, copy_path, encode, encode_spec};
use crate::value::Value;

verus! {

/// What the traversal callback asks for at the visited node.
pub enum TraverseAction {
    /// Go on.
    Leave,
    /// Remove the visited node.
    Remove,
    /// Replace the visited node.
    Change(Value),
    /// Replace the whole tree.
    ChangeRoot(Value),
}

/// The model of a callback answer.
pub enum Act {
    Leave,
    Remove,
    Change(Data),
    ChangeRoot(Data),
}

impl View for TraverseAction {
    type V = Act;

    open spec fn view(&self) -> Act {
        match self {
            TraverseAction::Leave => Act::Leave,
            TraverseAction::Remove => Act::Remove,
            TraverseAction::Change(v) => Act::Change(v@),
            TraverseAction::ChangeRoot(v) => Act::ChangeRoot(v@),
        }
    }
}

/// The state of a traversal: the tree as it stands, and the paths still to visit.
pub struct Walk {
    pub root: Data,
    pub queue: Seq<Seq<Step>>,
}

/// A traversal starts with the children of the root.
pub open spec fn walk_start(d: Data) -> Walk {
    Walk { root: d, queue: child_paths(Seq::empty(), d) }
}

/// The node at the next path is fetched for writing (see `access`); `None` when the
/// path can be neither read nor written, and the path is then skipped.
pub open spec fn fetch(w: Walk) -> Option<(Data, Data)> {
    match access(w.root, w.queue[0]) {
        Some((m, q)) => Some((m, at(m, q).unwrap())),
        None => None,
    }
}

/// The list at `parent` became shorter.
pub open spec fn list_shrunk(before: Data, after: Data, parent: Seq<Step>) -> bool {
    match (read(before, parent), read(after, parent)) {
        (Some(Data::List(lp)), Some(Data::List(ln))) => lp.len() > ln.len(),
        _ => false,
    }
}

/// Whether a removal at `p` visits `p` again (a later list element moves into it):
/// so when the parent, reached for writing, is a list of which `p` is not the last
/// index.
pub open spec fn revisit_after_remove(root: Data, p: Seq<Step>) -> bool {
    match access(root, p.drop_last()) {
        Some((m, q)) => match (at(m, q), p.last()) {
            (Some(Data::List(l)), Step::Index(i)) => i != l.len() - 1,
            _ => false,
        },
        None => false,
    }
}

/// The tree after reaching the parent of `p` for writing.
pub open spec fn root_after_parent(root: Data, p: Seq<Step>) -> Data {
    match access(root, p.drop_last()) {
        Some((m, _)) => m,
        None => root,
    }
}

/// The tree and the paths to visit after the callback answered `a` at path `p` of
/// `root`; `rest` are the paths after `p`.
pub open spec fn apply_act(root: Data, rest: Seq<Seq<Step>>, p: Seq<Step>, a: Act) -> (
    Data,
    Seq<Seq<Step>>,
) {
    match a {
        Act::Leave => (root, rest),
        Act::Change(x) => (
            match access(root, p) {
                Some((m, q)) => set_at(m, q, x),
                None => root,
            },
            rest,
        ),
        Act::ChangeRoot(x) => (
            x,
            if p.len() >= 2 && list_shrunk(root, x, p.drop_last()) {
                seq![p] + rest
            } else {
                rest
            },
        ),
        Act::Remove => (
            remove_at(root_after_parent(root, p), p),
            if revisit_after_remove(root, p) {
                seq![p] + rest
            } else {
                rest
            },
        ),
    }
}

/// One visit: the next path is fetched; if it is there the callback's answer `a` is
/// applied and the children of the fetched node are queued after all other paths.
pub open spec fn visit_step(w: Walk, a: Act) -> Walk {
    let p = w.queue[0];
    let rest = w.queue.drop_first();
    match fetch(w) {
        None => Walk { root: w.root, queue: rest },
        Some((m, cur)) => {
            let (r2, q2) = apply_act(m, rest, p, a);
            Walk { root: r2, queue: q2 + child_paths(p, cur) }
        },
    }
}

/// The callback `f`, called at the visit of `w` with the path, its text form, the
/// fetched node and the whole tree, may answer `a`.
pub open spec fn answers<F: Fn(&[PathEntry], &str, &Value, &Value) -> TraverseAction>(
    f: F,
    w: Walk,
    a: Act,
) -> bool {
    exists|p: &[PathEntry], e: &str, c: &Value, v: &Value, r: TraverseAction|
        {
            &&& steps(p@) == w.queue[0]
            &&& e@ == encode_spec(w.queue[0])
            &&& c@ == fetch(w).unwrap().1
            &&& v@ == fetch(w).unwrap().0
            &&& r@ == a
            &&& #[trigger] call_ensures(f, (p, e, c, v), r)
        }
}

/// The number of visits after which a traversal stops even if paths remain.
pub open spec fn visit_limit() -> nat {
    u64::MAX as nat
}

/// `trace` is a run of the traversal of `d` with callback `f`: each state follows
/// from the one before by a visit, with an answer the callback may give whenever the
/// visited path is fetched; the run ends when no path remains (or at the visit limit).
pub open spec fn is_run<F: Fn(&[PathEntry], &str, &Value, &Value) -> TraverseAction>(
    f: F,
    d: Data,
    trace: Seq<Walk>,
    acts: Seq<Act>,
) -> bool {
    &&& trace.len() == acts.len() + 1
    &&& trace[0] == walk_start(d)
    &&& forall|i: int|
        0 <= i < acts.len() ==> {
            &&& (#[trigger] trace[i]).queue.len() > 0
            &&& trace[i + 1] == visit_step(trace[i], acts[i])
            &&& fetch(trace[i]) is Some ==> answers(f, trace[i], acts[i])
        }
    &&& (trace.last().queue.len() == 0 || acts.len() == visit_limit())
}

/// The paths of the children of a node.
fn get_keys(value: &Value) -> (r: Option<Vec<PathEntry>>)
    ensures
        match r {
            Some(k) => (value@ is List || value@ is Object) && steps(k@) == child_steps(value@),
            None => !(value@ is List || value@ is Object) && child_steps(value@).len() == 0,
        },
{
    match value {
        Value::Object(e) => {
            let mut keys: Vec<PathEntry> = Vec::new();
            let n = e.len();
            for i in 0..n
                invariant
                    n == e@.len(),
                    *value == Value::Object(*e),
                    steps(keys@) == child_steps(value@).take(i as int),
            {
                let ghost before = keys@;
                keys.push(PathEntry::Field(e[i].0.clone()));
                assert(child_steps(value@)[i as int] == Step::Field(e@[i as int].0@));
                assert(steps(keys@) =~= steps(before).push(Step::Field(e@[i as int].0@)));
                assert(steps(keys@) =~= child_steps(value@).take(i + 1));
            }
            assert(child_steps(value@).take(n as int) =~= child_steps(value@));
            Some(keys)
        },
        Value::List(l) => {
            let mut keys: Vec<PathEntry> = Vec::new();
            let n = l.len();
            for i in 0..n
                invariant
                    n == l@.len(),
                    *value == Value::List(*l),
                    steps(keys@) == child_steps(value@).take(i as int),
            {
                let ghost before = keys@;
                keys.push(PathEntry::Index(i));
                assert(child_steps(value@)[i as int] == Step::Index(i as int));
                assert(steps(keys@) =~= steps(before).push(Step::Index(i as int)));
                assert(steps(keys@) =~= child_steps(value@).take(i + 1));
            }
            assert(child_steps(value@).take(n as int) =~= child_steps(value@));
            Some(keys)
        },
        _ => None,
    }
}

/// The node at `path`, fetched for writing (see `Value::change`), copied.
pub(crate) fn get_nested(value: &mut Value, path: &[PathEntry]) -> (r: Option<Value>)
    ensures
        match access(old(value)@, steps(path@)) {
            Some((m, q)) => final(value)@ == m && (r matches Some(c) && at(m, q) == Some(c@)),
            None => final(value)@ == old(value)@ && r is None,
        },
{
    match value.change(path) {
        Some(v) => {
            let c = v.clone();
            proof {
                let (m, q) = access(old(value)@, steps(path@)).unwrap();
                lemma_set_at_same(m, q);
            }
            Some(c)
        },
        None => None,
    }
}

/// Writing back the node that is already there changes nothing.
pub proof fn lemma_set_at_same(d: Data, p: Seq<Step>)
    requires
        at(d, p) is Some,
    ensures
        set_at(d, p, at(d, p).unwrap()) == d,
    decreases p.len(),
{
    if p.len() > 0 {
        let c = child(d, p[0]).unwrap();
        lemma_set_at_same(c, p.drop_first());
        crate::value::lemma_put_child_same(d, p[0]);
    }
}

/// The parent of a path of at least two entries.
fn path_parent(path: &[PathEntry]) -> (r: Option<Vec<PathEntry>>)
    ensures
        match r {
            Some(q) => path@.len() >= 2 && steps(q@) == steps(path@).drop_last(),
            None => path@.len() < 2,
        },
{
    if path.len() < 2 {
        return None;
    }
    let n = path.len();
    let m = n - 1;
    let mut q: Vec<PathEntry> = Vec::new();
    for j in 0..m
        invariant
            m + 1 == n,
            n == path@.len(),
            n == path.len(),
            q@ == path@.take(j as int),
    {
        q.push(path[j].clone());
        assert(q@ =~= path@.take(j + 1));
    }
    assert(steps(q@) =~= steps(path@).drop_last());
    Some(q)
}

/// The length of the list at `path`, if a list is there.
fn list_len_at(value: &Value, path: &[PathEntry]) -> (r: Option<usize>)
    ensures
        match read(value@, steps(path@)) {
            Some(Data::List(l)) => r is Some && r->0 as nat == l.len(),
            _ => r is None,
        },
{
    match value.get(path) {
        Some(Value::List(l)) => Some(l.len()),
        _ => None,
    }
}

/// The model of a queue of paths.
pub open spec fn queue_steps(q: Seq<Vec<PathEntry>>) -> Seq<Seq<Step>> {
    q.map_values(|p: Vec<PathEntry>| steps(p@))
}

/// A queued path: not empty, and without `[]`.
pub open spec fn queued_path(p: Seq<Step>) -> bool {
    p.len() > 0 && forall|i: int| 0 <= i < p.len() ==> !(#[trigger] p[i] is Append)
}

/// Every queued path is not empty and without `[]`.
pub open spec fn queue_ok(q: Seq<Seq<Step>>) -> bool {
    forall|j: int| 0 <= j < q.len() ==> queued_path(#[trigger] q[j])
}

/// Writing along a path without `[]` gives back the same path.
proof fn lemma_add_same_path(d: Data, p: Seq<Step>, x: Data)
    requires
        forall|i: int| 0 <= i < p.len() ==> !(#[trigger] p[i] is Append),
    ensures
        add_at(d, p, x) matches Some((_, q)) ==> q == p,
    decreases p.len(),
{
    if p.len() > 1 {
        if let Some(c) = child(d, p[0]) {
            assert forall|i: int| 0 <= i < p.drop_first().len() implies !(
            #[trigger] p.drop_first()[i] is Append) by {
                assert(p.drop_first()[i] == p[i + 1]);
            }
            lemma_add_same_path(c, p.drop_first(), x);
            assert(seq![p[0]] + p.drop_first() =~= p);
        }
    } else if p.len() == 1 {
        assert(!(p[0] is Append));
    }
}

/// Fetching a queued path finds the node at that very path.
pub(crate) proof fn lemma_fetch_queued(d: Data, p: Seq<Step>)
    requires
        queued_path(p),
    ensures
        access(d, p) matches Some((m, q)) ==> q == p && at(m, p) is Some,
{
    lemma_add_same_path(d, p, Data::Null);
    crate::value::lemma_add_reads_back(d, p, Data::Null);
}

/// The parent of an existing node exists and holds it.
proof fn lemma_at_parent(d: Data, p: Seq<Step>)
    requires
        p.len() > 0,
        at(d, p) is Some,
    ensures
        at(d, p.drop_last()) is Some,
        child(at(d, p.drop_last()).unwrap(), p.last()) == at(d, p),
{
    crate::laws::lemma_at_concat(d, p.drop_last(), seq![p.last()]);
    assert(p.drop_last() + seq![p.last()] =~= p);
    let one = seq![p.last()];
    assert(one.drop_first() =~= Seq::<Step>::empty());
    let c = at(d, p.drop_last()).unwrap();
    match child(c, p.last()) {
        Some(x) => {
            assert(at(x, one.drop_first()) == Some(x));
            assert(at(c, one) == Some(x));
        },
        None => {
            assert(at(c, one) is None);
        },
    }
}

/// An existing node can be removed, and its parent is reached without writing.
proof fn lemma_existing_removable(d: Data, p: Seq<Step>)
    requires
        p.len() > 0,
        at(d, p) is Some,
    ensures
        removable(d, p),
        p.len() >= 2 ==> access(d, p.drop_last()) == Some((d, p.drop_last())),
        p.len() == 1 ==> access(d, p.drop_last()) is None,
        root_after_parent(d, p) == d,
{
    lemma_at_parent(d, p);
    if p.len() == 1 {
        assert(p.drop_last().len() == 0);
        assert(seq![p[0]] =~= p);
        assert(p.drop_first() =~= Seq::<Step>::empty());
    }
}

/// The children of a node are found along its child steps.
proof fn lemma_child_steps_exist(d: Data, i: int)
    requires
        0 <= i < child_steps(d).len(),
    ensures
        child(d, child_steps(d)[i]) is Some,
        !(child_steps(d)[i] is Append),
{
    match d {
        Data::Object(e) => {
            lemma_lookup_some(e, i);
        },
        _ => {},
    }
}

proof fn lemma_lookup_some(e: Seq<(Seq<char>, Data)>, i: int)
    requires
        0 <= i < e.len(),
    ensures
        lookup(e, e[i].0) is Some,
    decreases i,
{
    if i > 0 && e[0].0 != e[i].0 {
        lemma_lookup_some(e.drop_first(), i - 1);
        assert(e.drop_first()[i - 1] == e[i]);
    }
}

/// Replaces the whole tree; tells whether the list holding the visited element
/// became shorter.
fn apply_change_root(value: &mut Value, path_base: &Vec<PathEntry>, new_root: Value) -> (requeue:
    bool)
    ensures
        final(value)@ == new_root@,
        requeue == (path_base@.len() >= 2 && list_shrunk(
            old(value)@,
            new_root@,
            steps(path_base@).drop_last(),
        )),
{
    match path_parent(path_base.as_slice()) {
        Some(parent) => {
            let before = list_len_at(value, &parent);
            *value = new_root;
            let after = list_len_at(value, &parent);
            match (before, after) {
                (Some(x), Some(y)) => x > y,
                _ => false,
            }
        },
        None => {
            *value = new_root;
            false
        },
    }
}

/// Replaces the node at the visited path.
fn apply_change(value: &mut Value, path_base: &Vec<PathEntry>, x: Value)
    ensures
        final(value)@ == match access(old(value)@, steps(path_base@)) {
            Some((m, q)) => set_at(m, q, x@),
            None => old(value)@,
        },
{
    match value.change(path_base.as_slice()) {
        Some(target) => {
            *target = x;
        },
        None => {},
    }
}

/// Removes the node at the visited path (which exists); tells whether the same
/// index is to be visited again.
fn apply_remove(value: &mut Value, path_base: &Vec<PathEntry>) -> (requeue: bool)
    requires
        queued_path(steps(path_base@)),
        at(old(value)@, steps(path_base@)) is Some,
    ensures
        final(value)@ == remove_at(root_after_parent(old(value)@, steps(path_base@)), steps(path_base@)),
        requeue == revisit_after_remove(old(value)@, steps(path_base@)),
{
    let ghost p = steps(path_base@);
    let ghost root1 = value@;
    proof {
        lemma_existing_removable(root1, p);
        lemma_at_parent(root1, p);
    }
    let n = path_base.len();
    let m = n - 1;
    let mut prefix: Vec<PathEntry> = Vec::new();
    for j in 0..m
        invariant
            m + 1 == n,
            n == path_base@.len(),
            prefix@ == path_base@.take(j as int),
    {
        prefix.push(path_base[j].clone());
        assert(prefix@ =~= path_base@.take(j + 1));
    }
    assert(steps(prefix@) =~= p.drop_last());
    assert(path_base@[m as int]@ == p.last());
    let mut requeue = false;
    match value.change(&prefix) {
        Some(parent) => {
            let ghost par = parent@;
            match &*parent {
                Value::List(list) => {
                    assert(child(par, p.last()) is Some);
                    match &path_base[m] {
                        PathEntry::Index(i) => {
                            if *i != list.len() - 1 {
                                requeue = true;
                            }
                        },
                        _ => {
                            assert(false);
                        },
                    }
                },
                _ => {},
            }
            proof {
                lemma_set_at_same(root1, p.drop_last());
            }
        },
        None => {},
    }
    assert(value@ == root1);
    value.remove(path_base.as_slice());
    requeue
}

/// Queues the paths of the children of the node at the visited path.
pub(crate) fn push_children(
    visit: &mut std::collections::VecDeque<Vec<PathEntry>>,
    path_base: &Vec<PathEntry>,
    cur: &Value,
)
    requires
        forall|i: int| 0 <= i < path_base@.len() ==> !(#[trigger] steps(path_base@)[i] is Append),
        queue_ok(queue_steps(old(visit)@)),
    ensures
        queue_steps(final(visit)@) == queue_steps(old(visit)@) + child_paths(steps(path_base@), cur@),
        queue_ok(queue_steps(final(visit)@)),
{
    let ghost p = steps(path_base@);
    let ghost q2 = queue_steps(visit@);
    match get_keys(cur) {
        Some(keys) => {
            let k = keys.len();
            for i in 0..k
                invariant
                    k == keys@.len(),
                    steps(keys@) == child_steps(cur@),
                    steps(path_base@) == p,
                    forall|i: int| 0 <= i < p.len() ==> !(#[trigger] p[i] is Append),
                    queue_steps(visit@) == q2 + child_paths(p, cur@).take(i as int),
                    queue_ok(queue_steps(visit@)),
            {
                let mut entry = copy_path(path_base.as_slice());
                assert(keys@[i as int]@ == child_steps(cur@)[i as int]);
                entry.push(keys[i].clone());
                let ghost before = queue_steps(visit@);
                let ghost e = p.push(child_steps(cur@)[i as int]);
                assert(steps(entry@) =~= e);
                visit.push_back(entry);
                proof {
                    lemma_child_steps_exist(cur@, i as int);
                    assert(queue_steps(visit@) =~= before.push(e));
                    assert(child_paths(p, cur@).take(i + 1) =~= child_paths(p, cur@).take(
                        i as int,
                    ).push(e));
                    assert(queue_steps(visit@) =~= q2 + child_paths(p, cur@).take(i + 1));
                    assert(queued_path(e)) by {
                        assert forall|t: int| 0 <= t < e.len() implies !(#[trigger] e[t] is Append) by {
                            if t < p.len() {
                                assert(e[t] == p[t]);
                            }
                        }
                    }
                    assert forall|j: int| 0 <= j < queue_steps(visit@).len() implies queued_path(
                        #[trigger] queue_steps(visit@)[j],
                    ) by {
                        if j < before.len() {
                            assert(queue_steps(visit@)[j] == before[j]);
                        }
                    }
                }
            }
            assert(child_paths(p, cur@).take(k as int) =~= child_paths(p, cur@));
        },
        None => {
            assert(queue_steps(visit@) =~= q2 + child_paths(p, cur@));
        },
    }
}

impl Value {
    /// Visits every node below the root, breadth first, calling `f` with the path
    /// of the node, its text form, a copy of the node and the whole tree; then
    /// applies the callback's answer (see `TraverseAction`) and queues the children of
    /// the visited node. A path is fetched for writing before the visit, so a missing
    /// field is first written as `null`; a path that leads nowhere is skipped. When a
    /// removal or a new root shortens the list that held the visited element, the same
    /// index is visited again. Gives the tree at the end.
    pub fn traverse<F: Fn(&[PathEntry], &str, &Value, &Value) -> TraverseAction>(&self, f: F) -> (r:
        Value)
        requires
            forall|p: &[PathEntry], e: &str, c: &Value, v: &Value| #[trigger]
                call_requires(f, (p, e, c, v)),
        ensures
            exists|trace: Seq<Walk>, acts: Seq<Act>|
                #[trigger] is_run(f, self@, trace, acts) && r@ == trace.last().root,
    {
        let mut value = self.clone();
        let mut visit: std::collections::VecDeque<Vec<PathEntry>> =
            std::collections::VecDeque::new();
        match get_keys(&value) {
            Some(keys) => {
                let n = keys.len();
                for i in 0..n
                    invariant
                        n == keys@.len(),
                        visit@.len() == i,
                        forall|j: int| #![trigger visit@[j]] 0 <= j < i ==> steps(visit@[j]@) == seq![keys@[j]@],
                {
                    let mut p: Vec<PathEntry> = Vec::new();
                    p.push(keys[i].clone());
                    visit.push_back(p);
                }
            },
            None => {},
        }
        assert(queue_steps(visit@) =~= walk_start(self@).queue);
        assert forall|j: int| 0 <= j < walk_start(self@).queue.len() implies queued_path(
            #[trigger] walk_start(self@).queue[j],
        ) by {
            lemma_child_steps_exist(self@, j);
            let q = walk_start(self@).queue[j];
            assert(q =~= seq![child_steps(self@)[j]]);
        }
        let ghost mut trace: Seq<Walk> = seq![walk_start(self@)];
        let ghost mut acts: Seq<Act> = Seq::empty();
        let mut fuel: u64 = u64::MAX;
        loop
            invariant
                forall|p: &[PathEntry], e: &str, c: &Value, v: &Value| #[trigger]
                    call_requires(f, (p, e, c, v)),
                trace.len() == acts.len() + 1,
                trace[0] == walk_start(self@),
                forall|i: int|
                    0 <= i < acts.len() ==> {
                        &&& (#[trigger] trace[i]).queue.len() > 0
                        &&& trace[i + 1] == visit_step(trace[i], acts[i])
                        &&& fetch(trace[i]) is Some ==> answers(f, trace[i], acts[i])
                    },
                trace.last().root == value@,
                trace.last().queue == queue_steps(visit@),
                queue_ok(queue_steps(visit@)),
                acts.len() + fuel == visit_limit(),
            decreases fuel,
        {
            if fuel == 0 {
                assert(is_run(f, self@, trace, acts));
                return value;
            }
            let path_base = match visit.pop_front() {
                Some(p) => p,
                None => {
                    assert(is_run(f, self@, trace, acts));
                    return value;
                },
            };
            fuel = fuel - 1;
            let ghost w = trace.last();
            let ghost p = w.queue[0];
            let ghost rest = w.queue.drop_first();
            assert(queue_steps(visit@) =~= rest);
            assert(steps(path_base@) == p);
            assert(queued_path(p));
            proof {
                lemma_fetch_queued(value@, p);
            }
            let fetched = get_nested(&mut value, &path_base);
            let cur = match fetched {
                Some(c) => c,
                None => {
                    proof {
                        assert(visit_step(w, Act::Leave) == Walk { root: value@, queue: rest });
                        assert forall|j: int| 0 <= j < rest.len() implies queued_path(#[trigger] rest[j]) by {
                            assert(rest[j] == w.queue[j + 1]);
                        }
                        trace = trace.push(visit_step(w, Act::Leave));
                        acts = acts.push(Act::Leave);
                    }
                    continue;
                },
            };
            let ghost root1 = value@;
            assert(fetch(w) == Some((root1, cur@)));
            assert(at(root1, p) == Some(cur@));
            let encoded = encode(&path_base);
            let action = f(path_base.as_slice(), encoded.as_str(), &cur, &value);
            let ghost a = action@;
            assert(answers(f, w, a));
            proof {
                assert forall|j: int| 0 <= j < rest.len() implies queued_path(#[trigger] rest[j]) by {
                    assert(rest[j] == w.queue[j + 1]);
                }
            }
            let ghost mut requeued = false;
            match action {
                TraverseAction::ChangeRoot(new_root) => {
                    if apply_change_root(&mut value, &path_base, new_root) {
                        visit.push_front(copy_path(path_base.as_slice()));
                        proof {
                            requeued = true;
                        }
                    }
                },
                TraverseAction::Change(x) => {
                    apply_change(&mut value, &path_base, x);
                },
                TraverseAction::Remove => {
                    if apply_remove(&mut value, &path_base) {
                        visit.push_front(copy_path(path_base.as_slice()));
                        proof {
                            requeued = true;
                        }
                    }
                },
                TraverseAction::Leave => {},
            }
            let ghost after = apply_act(root1, rest, p, a);
            assert(value@ == after.0);
            assert(queue_steps(visit@) =~= after.1);
            let ghost q2 = queue_steps(visit@);
            assert(queue_ok(q2)) by {
                assert forall|j: int| 0 <= j < q2.len() implies queued_path(#[trigger] q2[j]) by {
                    if requeued {
                        if j > 0 {
                            assert(q2[j] == rest[j - 1]);
                        }
                    } else {
                        assert(q2[j] == rest[j]);
                    }
                }
            }
            push_children(&mut visit, &path_base, &cur);
            proof {
                assert(visit_step(w, a) == Walk { root: value@, queue: queue_steps(visit@) });
                trace = trace.push(visit_step(w, a));
                acts = acts.push(a);
            }
        }
    }
}

/// Every queued path leads to a node of `d`.
pub open spec fn queue_in(d: Data, q: Seq<Seq<Step>>) -> bool {
    forall|j: int| 0 <= j < q.len() ==> (#[trigger] q[j]).len() > 0 && at(d, q[j]) is Some
}

proof fn lemma_child_paths_in(d: Data, p: Seq<Step>, cur: Data)
    requires
        at(d, p) == Some(cur),
        p.len() > 0,
    ensures
        queue_in(d, child_paths(p, cur)),
{
    assert forall|j: int| 0 <= j < child_paths(p, cur).len() implies (#[trigger] child_paths(
        p,
        cur,
    )[j]).len() > 0 && at(d, child_paths(p, cur)[j]) is Some by {
        let s = child_steps(cur)[j];
        lemma_child_steps_exist(cur, j);
        crate::laws::lemma_at_concat(d, p, seq![s]);
        assert(p + seq![s] =~= p.push(s));
        assert(seq![s].drop_first() =~= Seq::<Step>::empty());
        let x = child(cur, s).unwrap();
        assert(at(x, seq![s].drop_first()) == Some(x));
    }
}

/// A traversal whose callback always answers `Leave` gives back the tree it
/// started from.
pub proof fn law_traverse_leave<F: Fn(&[PathEntry], &str, &Value, &Value) -> TraverseAction>(
    f: F,
    d: Data,
    trace: Seq<Walk>,
    acts: Seq<Act>,
)
    requires
        is_run(f, d, trace, acts),
        forall|p: &[PathEntry], e: &str, c: &Value, v: &Value, r: TraverseAction| #[trigger]
            call_ensures(f, (p, e, c, v), r) ==> r is Leave,
    ensures
        trace.last().root == d,
{
    assert forall|j: int| 0 <= j < walk_start(d).queue.len() implies (
    #[trigger] walk_start(d).queue[j]).len() > 0 && at(d, walk_start(d).queue[j]) is Some by {
        let s = child_steps(d)[j];
        lemma_child_steps_exist(d, j);
        assert(walk_start(d).queue[j] =~= seq![s]);
        assert(seq![s].drop_first() =~= Seq::<Step>::empty());
        let x = child(d, s).unwrap();
        assert(at(x, seq![s].drop_first()) == Some(x));
    }
    lemma_leave_from(f, d, trace, acts, 0);
}

proof fn lemma_leave_from<F: Fn(&[PathEntry], &str, &Value, &Value) -> TraverseAction>(
    f: F,
    d: Data,
    trace: Seq<Walk>,
    acts: Seq<Act>,
    i: int,
)
    requires
        0 <= i <= acts.len(),
        is_run(f, d, trace, acts),
        forall|p: &[PathEntry], e: &str, c: &Value, v: &Value, r: TraverseAction| #[trigger]
            call_ensures(f, (p, e, c, v), r) ==> r is Leave,
        trace[i].root == d,
        queue_in(d, trace[i].queue),
    ensures
        trace.last().root == d,
    decreases acts.len() - i,
{
    if i < acts.len() {
        let w = trace[i];
        assert(w.queue.len() > 0);
        let p = w.queue[0];
        let rest = w.queue.drop_first();
        assert(at(d, p) is Some);
        assert(read(d, p) is Some);
        assert(access(d, p) == Some((d, p)));
        let cur = at(d, p).unwrap();
        assert(fetch(w) == Some((d, cur)));
        assert(answers(f, w, acts[i]));
        assert(acts[i] == Act::Leave);
        lemma_child_paths_in(d, p, cur);
        let nq = rest + child_paths(p, cur);
        assert(trace[i + 1] == Walk { root: d, queue: nq });
        assert forall|j: int| 0 <= j < nq.len() implies (#[trigger] nq[j]).len() > 0 && at(
            d,
            nq[j],
        ) is Some by {
            if j < rest.len() {
                assert(nq[j] == w.queue[j + 1]);
            } else {
                assert(nq[j] == child_paths(p, cur)[j - rest.len()]);
            }
        }
        lemma_leave_from(f, d, trace, acts, i + 1);
    }
}

/// A visit answered with `Leave` in a tree whose queued paths all lead to nodes
/// keeps the tree, fetches the node itself, and queues only paths that lead to nodes.
pub proof fn lemma_leave_step(d: Data, w: Walk)
    requires
        w.root == d,
        queue_in(d, w.queue),
        w.queue.len() > 0,
    ensures
        fetch(w) == Some((d, at(d, w.queue[0]).unwrap())),
        visit_step(w, Act::Leave).root == d,
        queue_in(d, visit_step(w, Act::Leave).queue),
{
    let p = w.queue[0];
    let rest = w.queue.drop_first();
    assert(at(d, p) is Some);
    assert(read(d, p) is Some);
    let cur = at(d, p).unwrap();
    lemma_child_paths_in(d, p, cur);
    let nq = rest + child_paths(p, cur);
    assert forall|j: int| 0 <= j < nq.len() implies (#[trigger] nq[j]).len() > 0 && at(d, nq[j])
        is Some by {
        if j < rest.len() {
            assert(nq[j] == w.queue[j + 1]);
        } else {
            assert(nq[j] == child_paths(p, cur)[j - rest.len()]);
        }
    }
}

/// The queue at the start of a traversal leads to nodes.
pub proof fn lemma_walk_start_in(d: Data)
    ensures
        queue_in(d, walk_start(d).queue),
{
    assert forall|j: int| 0 <= j < walk_start(d).queue.len() implies (
    #[trigger] walk_start(d).queue[j]).len() > 0 && at(d, walk_start(d).queue[j]) is Some by {
        let s = child_steps(d)[j];
        lemma_child_steps_exist(d, j);
        assert(walk_start(d).queue[j] =~= seq![s]);
        assert(seq![s].drop_first() =~= Seq::<Step>::empty());
        let x = child(d, s).unwrap();
        assert(at(x, seq![s].drop_first()) == Some(x));
    }
}

/// Every step of the run visits a path of `d` and keeps `d`.
proof fn lemma_leave_run_in<F: Fn(&[PathEntry], &str, &Value, &Value) -> TraverseAction>(
    f: F,
    d: Data,
    trace: Seq<Walk>,
    acts: Seq<Act>,
    i: int,
)
    requires
        0 <= i < trace.len(),
        is_run(f, d, trace, acts),
        forall|p: &[PathEntry], e: &str, c: &Value, v: &Value, r: TraverseAction| #[trigger]
            call_ensures(f, (p, e, c, v), r) ==> r is Leave,
    ensures
        trace[i].root == d,
        queue_in(d, trace[i].queue),
        i < acts.len() ==> acts[i] == Act::Leave,
    decreases i,
{
    if i == 0 {
        lemma_walk_start_in(d);
        if acts.len() > 0 {
            lemma_leave_step(d, trace[0]);
            assert(answers(f, trace[0], acts[0]));
        }
    } else {
        lemma_leave_run_in(f, d, trace, acts, i - 1);
        lemma_leave_step(d, trace[i - 1]);
        assert(answers(f, trace[i - 1], acts[i - 1]));
        if i < acts.len() {
            lemma_leave_step(d, trace[i]);
            assert(answers(f, trace[i], acts[i]));
        }
    }
}

/// A sequence of visits all answered with `Leave`, starting from the traversal of `d`.
spec fn leave_chain(d: Data, trace: Seq<Walk>, acts: Seq<Act>) -> bool {
    &&& trace.len() == acts.len() + 1
    &&& trace[0] == walk_start(d)
    &&& forall|i: int|
        0 <= i < acts.len() ==> (#[trigger] trace[i]).queue.len() > 0 && trace[i + 1] == visit_step(
            trace[i],
            Act::Leave,
        )
}

/// Along a chain of `Leave` visits the tree stays `d` and the queue leads to nodes.
proof fn lemma_chain_in(d: Data, trace: Seq<Walk>, acts: Seq<Act>, i: int)
    requires
        leave_chain(d, trace, acts),
        0 <= i < trace.len(),
    ensures
        trace[i].root == d,
        queue_in(d, trace[i].queue),
    decreases i,
{
    if i == 0 {
        lemma_walk_start_in(d);
    } else {
        lemma_chain_in(d, trace, acts, i - 1);
        assert(trace[i - 1].queue.len() > 0);
        lemma_leave_step(d, trace[i - 1]);
    }
}

/// A run whose callback always answers `Leave` is a chain of `Leave` visits.
proof fn lemma_run_chain<F: Fn(&[PathEntry], &str, &Value, &Value) -> TraverseAction>(
    f: F,
    d: Data,
    trace: Seq<Walk>,
    acts: Seq<Act>,
)
    requires
        is_run(f, d, trace, acts),
        forall|p: &[PathEntry], e: &str, c: &Value, v: &Value, r: TraverseAction| #[trigger]
            call_ensures(f, (p, e, c, v), r) ==> r is Leave,
    ensures
        leave_chain(d, trace, acts),
{
    assert forall|i: int| 0 <= i < acts.len() implies (#[trigger] trace[i]).queue.len() > 0 && trace[i
        + 1] == visit_step(trace[i], Act::Leave) by {
        lemma_leave_run_in(f, d, trace, acts, i);
    }
}

/// In a chain of `Leave` visits that ends with no path left, the path at position
/// `m` of the queue after `i` visits is visited `m` visits later.
proof fn lemma_fifo(d: Data, trace: Seq<Walk>, acts: Seq<Act>, i: int, m: int)
    requires
        leave_chain(d, trace, acts),
        trace.last().queue.len() == 0,
        0 <= i < trace.len(),
        0 <= m < trace[i].queue.len(),
    ensures
        i + m < acts.len(),
        trace[i + m].queue[0] == trace[i].queue[m],
    decreases m,
{
    if i == acts.len() {
        assert(trace[i] == trace.last());
    }
    assert(i < acts.len());
    lemma_chain_in(d, trace, acts, i);
    lemma_leave_step(d, trace[i]);
    let w = trace[i];
    assert(trace[i + 1] == visit_step(w, Act::Leave));
    if m > 0 {
        let cur = at(d, w.queue[0]).unwrap();
        assert(trace[i + 1].queue == w.queue.drop_first() + child_paths(w.queue[0], cur));
        assert(trace[i + 1].queue[m - 1] == w.queue[m]);
        lemma_fifo(d, trace, acts, i + 1, m - 1);
    }
}

/// The path `p` is visited at some step of the run.
pub open spec fn visited(trace: Seq<Walk>, acts: Seq<Act>, p: Seq<Step>) -> bool {
    exists|i: int| 0 <= i < acts.len() && (#[trigger] trace[i]).queue[0] == p
}

/// A child step of a node names one of its listed child steps.
proof fn lemma_child_step_listed(c: Data, s: Step)
    requires
        child(c, s) is Some,
    ensures
        exists|k: int| 0 <= k < child_steps(c).len() && #[trigger] child_steps(c)[k] == s,
{
    match (c, s) {
        (Data::List(l), Step::Index(i)) => {
            assert(child_steps(c)[i] == s);
        },
        (Data::Object(e), Step::Field(key)) => {
            let k = lemma_lookup_index(e, key);
            assert(child_steps(c)[k] == s);
        },
        _ => {},
    }
}

proof fn lemma_lookup_index(e: Seq<(Seq<char>, Data)>, key: Seq<char>) -> (k: int)
    requires
        lookup(e, key) is Some,
    ensures
        0 <= k < e.len(),
        e[k].0 == key,
    decreases e.len(),
{
    if e[0].0 == key {
        0
    } else {
        let k = lemma_lookup_index(e.drop_first(), key);
        assert(e.drop_first()[k] == e[k + 1]);
        k + 1
    }
}

/// A traversal whose callback always answers `Leave`, and which ends with no path
/// left, visits every node below the root.
pub proof fn law_traverse_visits_all<F: Fn(&[PathEntry], &str, &Value, &Value) -> TraverseAction>(
    f: F,
    d: Data,
    trace: Seq<Walk>,
    acts: Seq<Act>,
    p: Seq<Step>,
)
    requires
        is_run(f, d, trace, acts),
        forall|p: &[PathEntry], e: &str, c: &Value, v: &Value, r: TraverseAction| #[trigger]
            call_ensures(f, (p, e, c, v), r) ==> r is Leave,
        trace.last().queue.len() == 0,
        p.len() > 0,
        at(d, p) is Some,
    ensures
        visited(trace, acts, p),
{
    lemma_run_chain(f, d, trace, acts);
    lemma_chain_visits_all(d, trace, acts, p);
}

/// A chain of `Leave` visits that ends with no path left visits every node below
/// the root.
proof fn lemma_chain_visits_all(d: Data, trace: Seq<Walk>, acts: Seq<Act>, p: Seq<Step>)
    requires
        leave_chain(d, trace, acts),
        trace.last().queue.len() == 0,
        p.len() > 0,
        at(d, p) is Some,
    ensures
        visited(trace, acts, p),
    decreases p.len(),
{
    let parent = p.drop_last();
    lemma_at_parent(d, p);
    let c = at(d, parent).unwrap();
    lemma_child_step_listed(c, p.last());
    let k = choose|k: int| 0 <= k < child_steps(c).len() && #[trigger] child_steps(c)[k] == p.last();
    assert(parent.push(p.last()) =~= p);
    assert(child_paths(parent, c)[k] == p);
    if p.len() == 1 {
        assert(parent =~= Seq::<Step>::empty());
        assert(at(d, parent) == Some(d));
        assert(trace[0].queue[k] == p);
        lemma_fifo(d, trace, acts, 0, k);
        assert(trace[k].queue[0] == p);
    } else {
        lemma_chain_visits_all(d, trace, acts, parent);
        let i = choose|i: int| 0 <= i < acts.len() && (#[trigger] trace[i]).queue[0] == parent;
        lemma_chain_in(d, trace, acts, i);
        lemma_leave_step(d, trace[i]);
        let w = trace[i];
        let rest = w.queue.drop_first();
        assert(trace[i + 1] == visit_step(w, Act::Leave));
        assert(trace[i + 1].queue == rest + child_paths(parent, c));
        let m = rest.len() + k;
        assert(trace[i + 1].queue[m] == p);
        lemma_fifo(d, trace, acts, i + 1, m);
        assert(trace[i + 1 + m].queue[0] == p);
    }
}

/// The paths visited in the first `n` visits of a run.
pub open spec fn visited_paths(trace: Seq<Walk>, n: int) -> Seq<Seq<Step>> {
    Seq::new(n as nat, |k: int| trace[k].queue[0])
}

/// The paths visited before visit `i`, followed by those still queued.
spec fn listing(trace: Seq<Walk>, i: int) -> Seq<Seq<Step>> {
    visited_paths(trace, i) + trace[i].queue
}

/// What holds of the listing before visit `i` of a traversal that leaves the tree
/// as it is: no path twice; every path of two or more steps has its parent among
/// the paths visited so far; lengths never decrease, and the queued paths are at
/// most one step longer than the next one; list siblings stand in index order.
spec fn listing_ok(l: Seq<Seq<Step>>, i: int) -> bool {
    &&& 0 <= i <= l.len()
    &&& forall|a: int, b: int| 0 <= a < b < l.len() ==> #[trigger] l[a] != #[trigger] l[b]
    &&& forall|a: int|
        #![trigger l[a]]
        0 <= a < l.len() ==> l[a].len() > 0 && (l[a].len() >= 2 ==> exists|k: int|
            0 <= k < i && #[trigger] l[k] == l[a].drop_last())
    &&& forall|a: int, b: int| 0 <= a < b < l.len() ==> (#[trigger] l[a]).len() <= (#[trigger] l[b]).len()
    &&& i < l.len() ==> forall|a: int| i <= a < l.len() ==> (#[trigger] l[a]).len() <= l[i].len() + 1
    &&& forall|a: int, b: int|
        0 <= a < l.len() && 0 <= b < l.len() ==> siblings_in_order(#[trigger] l[a], #[trigger] l[b], a, b)
}

/// Two list siblings `x` (at position `a`) and `y` (at position `b`): the one with
/// the smaller index comes first.
pub open spec fn siblings_in_order(x: Seq<Step>, y: Seq<Step>, a: int, b: int) -> bool {
    (x.len() > 0 && y.len() > 0 && x.drop_last() == y.drop_last() && x.last() is Index && y.last() is Index
        && x.last()->Index_0 < y.last()->Index_0) ==> a < b
}

/// The children of a well-formed node have distinct paths, listed in index order
/// for a list.
proof fn lemma_child_paths_distinct(p: Seq<Step>, cur: Data)
    requires
        crate::model::wf(cur),
    ensures
        forall|a: int, b: int|
            0 <= a < b < child_paths(p, cur).len() ==> #[trigger] child_paths(p, cur)[a]
                != #[trigger] child_paths(p, cur)[b],
        forall|a: int|
            0 <= a < child_paths(p, cur).len() ==> (#[trigger] child_paths(p, cur)[a]).drop_last() == p
                && child_paths(p, cur)[a].len() == p.len() + 1,
        forall|a: int, b: int|
            0 <= a < child_paths(p, cur).len() && 0 <= b < child_paths(p, cur).len() ==> siblings_in_order(
                #[trigger] child_paths(p, cur)[a],
                #[trigger] child_paths(p, cur)[b],
                a,
                b,
            ),
{
    let c = child_paths(p, cur);
    assert forall|a: int| 0 <= a < c.len() implies (#[trigger] c[a]).drop_last() == p && c[a].len() == p.len()
        + 1 by {
        assert(c[a] == p.push(child_steps(cur)[a]));
        assert(p.push(child_steps(cur)[a]).drop_last() =~= p);
    }
    assert forall|a: int, b: int| 0 <= a < b < c.len() implies #[trigger] c[a] != #[trigger] c[b] by {
        assert(c[a].last() == child_steps(cur)[a]);
        assert(c[b].last() == child_steps(cur)[b]);
        match cur {
            Data::Object(e) => {
                assert(crate::model::key_lt(e[a].0, e[b].0));
                crate::laws::lemma_key_lt_irreflexive(e[a].0);
            },
            _ => {},
        }
    }
    assert forall|a: int, b: int| 0 <= a < c.len() && 0 <= b < c.len() implies siblings_in_order(
        #[trigger] c[a],
        #[trigger] c[b],
        a,
        b,
    ) by {
        assert(c[a].last() == child_steps(cur)[a]);
        assert(c[b].last() == child_steps(cur)[b]);
    }
}

/// What the children `c` of the path `p` bring to a listing.
spec fn children_of(c: Seq<Seq<Step>>, p: Seq<Step>) -> bool {
    &&& forall|a: int, b: int| 0 <= a < b < c.len() ==> #[trigger] c[a] != #[trigger] c[b]
    &&& forall|a: int| 0 <= a < c.len() ==> (#[trigger] c[a]).drop_last() == p && c[a].len() == p.len() + 1
    &&& forall|a: int, b: int|
        0 <= a < c.len() && 0 <= b < c.len() ==> siblings_in_order(#[trigger] c[a], #[trigger] c[b], a, b)
}

/// No listed path has the path at position `j` as its parent.
proof fn lemma_no_child_listed(l: Seq<Seq<Step>>, j: int)
    requires
        listing_ok(l, j),
        j < l.len(),
    ensures
        forall|a: int| 0 <= a < l.len() ==> (#[trigger] l[a]).len() < 2 || l[a].drop_last() != l[j],
{
    assert forall|a: int| 0 <= a < l.len() implies (#[trigger] l[a]).len() < 2 || l[a].drop_last()
        != l[j] by {
        if l[a].len() >= 2 && l[a].drop_last() == l[j] {
            let k = choose|k: int| 0 <= k < j && #[trigger] l[k] == l[a].drop_last();
            assert(l[k] == l[j]);
        }
    }
}

proof fn lemma_step_distinct(l: Seq<Seq<Step>>, c: Seq<Seq<Step>>, j: int)
    requires
        listing_ok(l, j),
        j < l.len(),
        children_of(c, l[j]),
        forall|a: int| 0 <= a < l.len() ==> (#[trigger] l[a]).len() < 2 || l[a].drop_last() != l[j],
    ensures
        forall|a: int, b: int| 0 <= a < b < (l + c).len() ==> #[trigger] (l + c)[a] != #[trigger] (l + c)[b],
{
    let l2 = l + c;
    assert forall|a: int, b: int| 0 <= a < b < l2.len() implies #[trigger] l2[a] != #[trigger] l2[b] by {
        if b >= l.len() {
            assert(l2[b] == c[b - l.len()]);
            if a >= l.len() {
                assert(l2[a] == c[a - l.len()]);
            } else {
                assert(l2[a] == l[a]);
                assert(l[a].len() > 0);
            }
        } else {
            assert(l2[a] == l[a]);
            assert(l2[b] == l[b]);
        }
    }
}

proof fn lemma_step_parents(l: Seq<Seq<Step>>, c: Seq<Seq<Step>>, j: int)
    requires
        listing_ok(l, j),
        j < l.len(),
        children_of(c, l[j]),
    ensures
        forall|a: int|
            #![trigger (l + c)[a]]
            0 <= a < (l + c).len() ==> (l + c)[a].len() > 0 && ((l + c)[a].len() >= 2 ==> exists|k: int|
                0 <= k < j + 1 && #[trigger] (l + c)[k] == (l + c)[a].drop_last()),
{
    let l2 = l + c;
    assert forall|a: int|
        #![trigger l2[a]]
        0 <= a < l2.len() implies l2[a].len() > 0 && (l2[a].len() >= 2 ==> exists|k: int|
            0 <= k < j + 1 && #[trigger] l2[k] == l2[a].drop_last()) by {
        if a >= l.len() {
            assert(l2[a] == c[a - l.len()]);
            assert(l2[j] == l[j]);
        } else {
            assert(l2[a] == l[a]);
            if l[a].len() >= 2 {
                let k = choose|k: int| 0 <= k < j && #[trigger] l[k] == l[a].drop_last();
                assert(l2[k] == l[k]);
            }
        }
    }
}

proof fn lemma_step_lengths(l: Seq<Seq<Step>>, c: Seq<Seq<Step>>, j: int)
    requires
        listing_ok(l, j),
        j < l.len(),
        children_of(c, l[j]),
    ensures
        forall|a: int, b: int| 0 <= a < b < (l + c).len() ==> (#[trigger] (l + c)[a]).len() <= (
        #[trigger] (l + c)[b]).len(),
        j + 1 < (l + c).len() ==> forall|a: int|
            j + 1 <= a < (l + c).len() ==> (#[trigger] (l + c)[a]).len() <= (l + c)[j + 1].len() + 1,
{
    let l2 = l + c;
    assert forall|a: int, b: int| 0 <= a < b < l2.len() implies (#[trigger] l2[a]).len() <= (
    #[trigger] l2[b]).len() by {
        if b >= l.len() {
            assert(l2[b] == c[b - l.len()]);
            if a >= l.len() {
                assert(l2[a] == c[a - l.len()]);
            } else {
                assert(l2[a] == l[a]);
                if a < j {
                    assert(l[a].len() <= l[j].len());
                }
            }
        } else {
            assert(l2[a] == l[a]);
            assert(l2[b] == l[b]);
        }
    }
    let i = j + 1;
    if i < l2.len() {
        assert forall|a: int| i <= a < l2.len() implies (#[trigger] l2[a]).len() <= l2[i].len() + 1 by {
            if i < l.len() {
                assert(l2[i] == l[i]);
                assert(l[j].len() <= l[i].len());
            } else {
                assert(l2[i] == c[i - l.len()]);
            }
            if a >= l.len() {
                assert(l2[a] == c[a - l.len()]);
            } else {
                assert(l2[a] == l[a]);
            }
        }
    }
}

proof fn lemma_step_siblings(l: Seq<Seq<Step>>, c: Seq<Seq<Step>>, j: int)
    requires
        listing_ok(l, j),
        j < l.len(),
        children_of(c, l[j]),
        forall|a: int| 0 <= a < l.len() ==> (#[trigger] l[a]).len() < 2 || l[a].drop_last() != l[j],
    ensures
        forall|a: int, b: int|
            0 <= a < (l + c).len() && 0 <= b < (l + c).len() ==> siblings_in_order(
                #[trigger] (l + c)[a],
                #[trigger] (l + c)[b],
                a,
                b,
            ),
{
    let l2 = l + c;
    assert forall|a: int, b: int| 0 <= a < l2.len() && 0 <= b < l2.len() implies siblings_in_order(
        #[trigger] l2[a],
        #[trigger] l2[b],
        a,
        b,
    ) by {
        if a >= l.len() && b >= l.len() {
            assert(l2[a] == c[a - l.len()]);
            assert(l2[b] == c[b - l.len()]);
            assert(siblings_in_order(c[a - l.len()], c[b - l.len()], a - l.len(), b - l.len()));
        } else if a >= l.len() {
            assert(l2[a] == c[a - l.len()]);
            assert(l2[b] == l[b]);
        } else if b >= l.len() {
            assert(l2[a] == l[a]);
            assert(l2[b] == c[b - l.len()]);
        } else {
            assert(l2[a] == l[a]);
            assert(l2[b] == l[b]);
        }
    }
}

/// Visiting the path at position `j` and listing its children keeps `listing_ok`.
proof fn lemma_listing_step(l: Seq<Seq<Step>>, c: Seq<Seq<Step>>, j: int)
    requires
        listing_ok(l, j),
        j < l.len(),
        children_of(c, l[j]),
    ensures
        listing_ok(l + c, j + 1),
{
    lemma_no_child_listed(l, j);
    lemma_step_distinct(l, c, j);
    lemma_step_parents(l, c, j);
    lemma_step_lengths(l, c, j);
    lemma_step_siblings(l, c, j);
}

/// The listing before each visit of a run that answers `Leave` keeps `listing_ok`.
#[verifier::spinoff_prover]
#[verifier::rlimit(30)]
proof fn lemma_listing<F: Fn(&[PathEntry], &str, &Value, &Value) -> TraverseAction>(
    f: F,
    d: Data,
    trace: Seq<Walk>,
    acts: Seq<Act>,
    i: int,
)
    requires
        is_run(f, d, trace, acts),
        forall|p: &[PathEntry], e: &str, c: &Value, v: &Value, r: TraverseAction| #[trigger]
            call_ensures(f, (p, e, c, v), r) ==> r is Leave,
        crate::model::wf(d),
        0 <= i <= acts.len(),
    ensures
        listing_ok(listing(trace, i), i),
    decreases i,
{
    if i == 0 {
        let l = listing(trace, 0);
        assert(l =~= trace[0].queue);
        assert(trace[0].queue == child_paths(Seq::empty(), d));
        lemma_child_paths_distinct(Seq::empty(), d);
        assert forall|a: int| 0 <= a < l.len() implies (#[trigger] l[a]).len() == 1 by {
            assert(child_paths(Seq::<Step>::empty(), d)[a].len() == 1);
        }
    } else {
        let j = i - 1;
        lemma_listing(f, d, trace, acts, j);
        lemma_leave_run_in(f, d, trace, acts, j);
        lemma_leave_step(d, trace[j]);
        let w = trace[j];
        let l = listing(trace, j);
        let p = w.queue[0];
        let cur = at(d, p).unwrap();
        assert(trace[i] == visit_step(w, Act::Leave));
        let c = child_paths(p, cur);
        assert(trace[i].queue == w.queue.drop_first() + c);
        assert(l[j] == p);
        assert(listing(trace, i) =~= l + c) by {
            assert(visited_paths(trace, i) =~= visited_paths(trace, j).push(p));
        }
        crate::laws::lemma_wf_at(d, p);
        lemma_child_paths_distinct(p, cur);
        lemma_listing_step(l, c, j);
    }
}

/// A traversal of a well-formed tree whose callback always answers `Leave` visits
/// paths that lead to nodes, never the same path twice, shorter paths before longer
/// ones, and the elements of a list in index order. Together with
/// `law_traverse_visits_all`, every node below the root is visited exactly once.
pub proof fn law_traverse_leave_order<F: Fn(&[PathEntry], &str, &Value, &Value) -> TraverseAction>(
    f: F,
    d: Data,
    trace: Seq<Walk>,
    acts: Seq<Act>,
)
    requires
        is_run(f, d, trace, acts),
        forall|p: &[PathEntry], e: &str, c: &Value, v: &Value, r: TraverseAction| #[trigger]
            call_ensures(f, (p, e, c, v), r) ==> r is Leave,
        crate::model::wf(d),
    ensures
        ({
            let v = visited_paths(trace, acts.len() as int);
            &&& forall|a: int| 0 <= a < v.len() ==> (#[trigger] v[a]).len() > 0 && at(d, v[a]) is Some
            &&& forall|a: int, b: int| 0 <= a < b < v.len() ==> #[trigger] v[a] != #[trigger] v[b]
            &&& forall|a: int, b: int| 0 <= a < b < v.len() ==> (#[trigger] v[a]).len() <= (#[trigger] v[b]).len()
            &&& forall|a: int, b: int|
                0 <= a < v.len() && 0 <= b < v.len() ==> siblings_in_order(#[trigger] v[a], #[trigger] v[b], a, b)
        }),
{
    let n = acts.len() as int;
    lemma_listing(f, d, trace, acts, n);
    let l = listing(trace, n);
    let v = visited_paths(trace, n);
    assert forall|a: int| 0 <= a < v.len() implies (#[trigger] v[a]).len() > 0 && at(d, v[a]) is Some by {
        lemma_leave_run_in(f, d, trace, acts, a);
        assert(trace[a].queue.len() > 0);
        assert(v[a] == trace[a].queue[0]);
    }
    assert forall|a: int, b: int| 0 <= a < b < v.len() implies #[trigger] v[a] != #[trigger] v[b] by {
        assert(v[a] == l[a]);
        assert(v[b] == l[b]);
    }
    assert forall|a: int, b: int| 0 <= a < b < v.len() implies (#[trigger] v[a]).len() <= (
    #[trigger] v[b]).len() by {
        assert(v[a] == l[a]);
        assert(v[b] == l[b]);
    }
    assert forall|a: int, b: int| 0 <= a < v.len() && 0 <= b < v.len() implies siblings_in_order(
        #[trigger] v[a],
        #[trigger] v[b],
        a,
        b,
    ) by {
        assert(v[a] == l[a]);
        assert(v[b] == l[b]);
    }
}

// ---------------------------------------------------------------------------
// A traversal that changes one node.

/// `q` lies strictly below `p`: `p` is a proper prefix of `q`.
pub open spec fn below(p: Seq<Step>, q: Seq<Step>) -> bool {
    p.len() < q.len() && forall|i: int| 0 <= i < p.len() ==> q[i] == p[i]
}

/// `q` is `p` or lies above it: `q` is a prefix of `p`.
pub open spec fn prefix_of(q: Seq<Step>, p: Seq<Step>) -> bool {
    q.len() <= p.len() && forall|i: int| 0 <= i < q.len() ==> q[i] == p[i]
}

proof fn lemma_lookup_replace_other(e: Seq<(Seq<char>, Data)>, k: Seq<char>, k2: Seq<char>, y: Data)
    requires
        k != k2,
    ensures
        lookup(crate::model::replace_first(e, k, y), k2) == lookup(e, k2),
    decreases e.len(),
{
    if e.len() > 0 {
        if e[0].0 != k {
            lemma_lookup_replace_other(e.drop_first(), k, k2, y);
            assert((seq![e[0]] + crate::model::replace_first(e.drop_first(), k, y)).drop_first()
                =~= crate::model::replace_first(e.drop_first(), k, y));
        } else {
            assert(e.update(0, (k, y)).drop_first() =~= e.drop_first());
        }
    }
}

/// Replacing one child leaves the other children as they were.
proof fn lemma_child_put_other(d: Data, s: Step, t: Step, y: Data)
    requires
        s != t,
        child(d, s) is Some,
    ensures
        child(crate::model::put_child(d, s, y), t) == child(d, t),
{
    match (d, s, t) {
        (Data::Object(e), Step::Field(k), Step::Field(k2)) => {
            lemma_lookup_replace_other(e, k, k2, y);
        },
        _ => {},
    }
}

/// After writing `x` at `p`, a path that does not lie below `p` and led to a node
/// still does; one that is neither above nor below `p` leads to the same node.
proof fn lemma_at_after_set(d: Data, p: Seq<Step>, x: Data, q: Seq<Step>)
    requires
        at(d, p) is Some,
        at(d, q) is Some,
        !below(p, q),
    ensures
        at(set_at(d, p, x), q) is Some,
        !prefix_of(q, p) ==> at(set_at(d, p, x), q) == at(d, q),
    decreases q.len(),
{
    if p.len() == 0 {
        assert(q.len() == 0);
    } else if q.len() > 0 {
        let c = child(d, p[0]).unwrap();
        let y = set_at(c, p.drop_first(), x);
        if q[0] == p[0] {
            crate::value::lemma_child_put(d, p[0], y);
            assert(!below(p.drop_first(), q.drop_first())) by {
                if below(p.drop_first(), q.drop_first()) {
                    assert forall|i: int| 0 <= i < p.len() implies q[i] == p[i] by {
                        if i > 0 {
                            assert(q.drop_first()[i - 1] == p.drop_first()[i - 1]);
                        }
                    }
                }
            }
            lemma_at_after_set(c, p.drop_first(), x, q.drop_first());
            if !prefix_of(q, p) {
                assert(!prefix_of(q.drop_first(), p.drop_first())) by {
                    if prefix_of(q.drop_first(), p.drop_first()) {
                        assert forall|i: int| 0 <= i < q.len() implies q[i] == p[i] by {
                            if i > 0 {
                                assert(q.drop_first()[i - 1] == p.drop_first()[i - 1]);
                            }
                        }
                    }
                }
            }
        } else {
            lemma_child_put_other(d, p[0], q[0], y);
        }
    }
}

/// Below a node that is neither a list nor an object nothing can be read or added.
proof fn lemma_nothing_below(e: Data, p: Seq<Step>, s: Step, y: Data)
    requires
        at(e, p) matches Some(x) && !(x is List) && !(x is Object),
    ensures
        at(e, p.push(s)) is None,
        add_at(e, p.push(s), y) is None,
    decreases p.len(),
{
    crate::laws::lemma_at_concat(e, p, seq![s]);
    assert(p + seq![s] =~= p.push(s));
    if p.len() > 0 {
        let c = child(e, p[0]).unwrap();
        assert(p.push(s)[0] == p[0]);
        assert(p.push(s).drop_first() =~= p.drop_first().push(s));
        lemma_nothing_below(c, p.drop_first(), s, y);
    }
}

/// Before the changed node is visited: the tree is `d` and every queued path leads
/// to a node of `d` that does not lie below `p0`.
spec fn before_change(d: Data, p0: Seq<Step>, w: Walk) -> bool {
    &&& w.root == d
    &&& forall|j: int|
        0 <= j < w.queue.len() ==> (#[trigger] w.queue[j]).len() > 0 && at(d, w.queue[j]) is Some && !below(
            p0,
            w.queue[j],
        )
}

/// A path queued as a child of the node at `p0` before it was changed.
spec fn dead_child(p0: Seq<Step>, q: Seq<Step>) -> bool {
    q.len() == p0.len() + 1 && below(p0, q)
}

/// After the change: the tree is `d` changed at `p0`, and every queued path leads to
/// a node that does not lie below `p0`, or is a former child of that node.
spec fn after_change(d: Data, p0: Seq<Step>, x: Data, w: Walk) -> bool {
    &&& w.root == set_at(d, p0, x)
    &&& forall|j: int|
        0 <= j < w.queue.len() ==> (#[trigger] w.queue[j]).len() > 0 && ((at(w.root, w.queue[j]) is Some
            && !below(p0, w.queue[j])) || dead_child(p0, w.queue[j]))
}

/// The callback answers `Change(x)` at `p0` and `Leave` everywhere else.
pub open spec fn changes_only<F: Fn(&[PathEntry], &str, &Value, &Value) -> TraverseAction>(
    f: F,
    p0: Seq<Step>,
    x: Data,
) -> bool {
    forall|p: &[PathEntry], e: &str, c: &Value, v: &Value, r: TraverseAction| #[trigger]
        call_ensures(f, (p, e, c, v), r) ==> if steps(p@) == p0 {
            r@ == Act::Change(x)
        } else {
            r is Leave
        }
}

/// The answer given at a visit whose node was fetched.
proof fn lemma_answer<F: Fn(&[PathEntry], &str, &Value, &Value) -> TraverseAction>(
    f: F,
    p0: Seq<Step>,
    x: Data,
    w: Walk,
    a: Act,
)
    requires
        changes_only(f, p0, x),
        answers(f, w, a),
    ensures
        a == if w.queue[0] == p0 {
            Act::Change(x)
        } else {
            Act::Leave
        },
{
    let (p, e, c, v, r) = choose|p: &[PathEntry], e: &str, c: &Value, v: &Value, r: TraverseAction|
        {
            &&& steps(p@) == w.queue[0]
            &&& e@ == encode_spec(w.queue[0])
            &&& c@ == fetch(w).unwrap().1
            &&& v@ == fetch(w).unwrap().0
            &&& r@ == a
            &&& #[trigger] call_ensures(f, (p, e, c, v), r)
        };
    assert(call_ensures(f, (p, e, c, v), r));
}

/// The children queued at a visit of a node that lies neither at nor below `p0` do
/// not lie below `p0`.
proof fn lemma_children_not_below(p0: Seq<Step>, q: Seq<Step>, cur: Data)
    requires
        q != p0,
        !below(p0, q),
    ensures
        forall|j: int| 0 <= j < child_paths(q, cur).len() ==> !below(p0, #[trigger] child_paths(q, cur)[j]),
{
    assert forall|j: int| 0 <= j < child_paths(q, cur).len() implies !below(
        p0,
        #[trigger] child_paths(q, cur)[j],
    ) by {
        let c = child_paths(q, cur)[j];
        assert(c == q.push(child_steps(cur)[j]));
        if below(p0, c) {
            if p0.len() == q.len() {
                assert(p0 =~= q);
            } else {
                assert forall|i: int| 0 <= i < p0.len() implies q[i] == p0[i] by {
                    assert(c[i] == q[i]);
                }
            }
        }
    }
}

/// One visit before the change: a visit elsewhere answers `Leave` and stays before
/// the change; the visit of `p0` changes the tree.
proof fn lemma_before_step<F: Fn(&[PathEntry], &str, &Value, &Value) -> TraverseAction>(
    f: F,
    d: Data,
    p0: Seq<Step>,
    x: Data,
    trace: Seq<Walk>,
    acts: Seq<Act>,
    i: int,
)
    requires
        is_run(f, d, trace, acts),
        changes_only(f, p0, x),
        !(x is List),
        !(x is Object),
        at(d, p0) is Some,
        0 <= i < acts.len(),
        before_change(d, p0, trace[i]),
    ensures
        trace[i].queue[0] != p0 ==> trace[i + 1] == visit_step(trace[i], Act::Leave) && before_change(
            d,
            p0,
            trace[i + 1],
        ),
        trace[i].queue[0] == p0 ==> after_change(d, p0, x, trace[i + 1]),
{
    let w = trace[i];
    assert(w.queue.len() > 0);
    let q0 = w.queue[0];
    let rest = w.queue.drop_first();
    assert(at(d, q0) is Some && q0.len() > 0);
    let cur = at(d, q0).unwrap();
    assert(fetch(w) == Some((d, cur)));
    lemma_answer(f, p0, x, w, acts[i]);
    let nq = trace[i + 1].queue;
    if q0 != p0 {
        assert(acts[i] == Act::Leave);
        lemma_child_paths_in(d, q0, cur);
        lemma_children_not_below(p0, q0, cur);
        assert(nq == rest + child_paths(q0, cur));
        assert forall|j: int| 0 <= j < nq.len() implies (#[trigger] nq[j]).len() > 0 && at(d, nq[j]) is Some
            && !below(p0, nq[j]) by {
            if j < rest.len() {
                assert(nq[j] == w.queue[j + 1]);
            } else {
                assert(nq[j] == child_paths(q0, cur)[j - rest.len()]);
            }
        }
    } else {
        let d2 = set_at(d, p0, x);
        assert(trace[i + 1].root == d2);
        assert(nq == rest + child_paths(p0, cur));
        assert forall|j: int| 0 <= j < nq.len() implies (#[trigger] nq[j]).len() > 0 && ((at(
            d2,
            nq[j],
        ) is Some && !below(p0, nq[j])) || dead_child(p0, nq[j])) by {
            if j < rest.len() {
                assert(nq[j] == w.queue[j + 1]);
                lemma_at_after_set(d, p0, x, nq[j]);
            } else {
                let k = j - rest.len();
                assert(nq[j] == child_paths(p0, cur)[k]);
                assert(nq[j] == p0.push(child_steps(cur)[k]));
            }
        }
    }
}

/// One visit after the change keeps the state after the change.
proof fn lemma_after_step<F: Fn(&[PathEntry], &str, &Value, &Value) -> TraverseAction>(
    f: F,
    d: Data,
    p0: Seq<Step>,
    x: Data,
    trace: Seq<Walk>,
    acts: Seq<Act>,
    i: int,
)
    requires
        is_run(f, d, trace, acts),
        changes_only(f, p0, x),
        !(x is List),
        !(x is Object),
        at(d, p0) is Some,
        0 <= i < acts.len(),
        after_change(d, p0, x, trace[i]),
    ensures
        after_change(d, p0, x, trace[i + 1]),
{
    let d2 = set_at(d, p0, x);
    let w = trace[i];
    assert(w.queue.len() > 0);
    let q0 = w.queue[0];
    let rest = w.queue.drop_first();
    crate::laws::lemma_at_set(d, p0, x);
    assert(q0.len() > 0);
    let nq = trace[i + 1].queue;
    if dead_child(p0, q0) {
        assert(q0 =~= p0.push(q0.last()));
        lemma_nothing_below(d2, p0, q0.last(), Data::Null);
        assert(fetch(w) is None);
        assert(nq == rest);
        assert forall|j: int| 0 <= j < nq.len() implies (#[trigger] nq[j]).len() > 0 && ((at(
            d2,
            nq[j],
        ) is Some && !below(p0, nq[j])) || dead_child(p0, nq[j])) by {
            assert(nq[j] == w.queue[j + 1]);
        }
    } else {
        let cur = at(d2, q0).unwrap();
        assert(fetch(w) == Some((d2, cur)));
        lemma_answer(f, p0, x, w, acts[i]);
        if q0 == p0 {
            lemma_set_at_same(d2, p0);
            assert(cur == x);
            assert(child_paths(p0, x) =~= Seq::<Seq<Step>>::empty());
            assert(nq =~= rest);
        } else {
            lemma_child_paths_in(d2, q0, cur);
            lemma_children_not_below(p0, q0, cur);
            assert(nq == rest + child_paths(q0, cur));
        }
        assert forall|j: int| 0 <= j < nq.len() implies (#[trigger] nq[j]).len() > 0 && ((at(
            d2,
            nq[j],
        ) is Some && !below(p0, nq[j])) || dead_child(p0, nq[j])) by {
            if j < rest.len() {
                assert(nq[j] == w.queue[j + 1]);
            } else {
                assert(nq[j] == child_paths(q0, cur)[j - rest.len()]);
            }
        }
    }
}

/// A visit before the change elsewhere than at `p0` stays before the change.
proof fn lemma_before_leave<F: Fn(&[PathEntry], &str, &Value, &Value) -> TraverseAction>(
    f: F,
    d: Data,
    p0: Seq<Step>,
    x: Data,
    trace: Seq<Walk>,
    acts: Seq<Act>,
    i: int,
)
    requires
        is_run(f, d, trace, acts),
        changes_only(f, p0, x),
        !(x is List),
        !(x is Object),
        at(d, p0) is Some,
        0 <= i < acts.len(),
        before_change(d, p0, trace[i]),
        trace[i].queue[0] != p0,
    ensures
        before_change(d, p0, trace[i + 1]),
{
    lemma_before_step(f, d, p0, x, trace, acts, i);
}

/// The visit of `p0` before the change changes the tree.
proof fn lemma_before_at<F: Fn(&[PathEntry], &str, &Value, &Value) -> TraverseAction>(
    f: F,
    d: Data,
    p0: Seq<Step>,
    x: Data,
    trace: Seq<Walk>,
    acts: Seq<Act>,
    i: int,
)
    requires
        is_run(f, d, trace, acts),
        changes_only(f, p0, x),
        !(x is List),
        !(x is Object),
        at(d, p0) is Some,
        0 <= i < acts.len(),
        before_change(d, p0, trace[i]),
        trace[i].queue[0] == p0,
    ensures
        after_change(d, p0, x, trace[i + 1]),
{
    lemma_before_step(f, d, p0, x, trace, acts, i);
}

/// Once the tree is changed, it stays so to the end.
proof fn lemma_after_to_end<F: Fn(&[PathEntry], &str, &Value, &Value) -> TraverseAction>(
    f: F,
    d: Data,
    p0: Seq<Step>,
    x: Data,
    trace: Seq<Walk>,
    acts: Seq<Act>,
    i: int,
)
    requires
        is_run(f, d, trace, acts),
        changes_only(f, p0, x),
        !(x is List),
        !(x is Object),
        at(d, p0) is Some,
        0 <= i < trace.len(),
        after_change(d, p0, x, trace[i]),
    ensures
        trace.last().root == set_at(d, p0, x),
    decreases trace.len() - i,
{
    if i < acts.len() {
        lemma_after_step(f, d, p0, x, trace, acts, i);
        lemma_after_to_end(f, d, p0, x, trace, acts, i + 1);
    } else {
        assert(trace[i] == trace.last());
    }
}

/// The start of a traversal comes before the change.
proof fn lemma_before_start(d: Data, p0: Seq<Step>)
    requires
        p0.len() > 0,
    ensures
        before_change(d, p0, walk_start(d)),
{
    lemma_walk_start_in(d);
    let q = walk_start(d).queue;
    assert forall|j: int| 0 <= j < q.len() implies (#[trigger] q[j]).len() > 0 && at(d, q[j]) is Some
        && !below(p0, q[j]) by {
        assert(q[j] == child_paths(Seq::<Step>::empty(), d)[j]);
        assert(q[j].len() == 1);
    }
}

/// If the tree is not changed at the end, every visit came before the change and
/// none was at `p0`.
#[verifier::spinoff_prover]
proof fn lemma_unchanged_run<F: Fn(&[PathEntry], &str, &Value, &Value) -> TraverseAction>(
    f: F,
    d: Data,
    p0: Seq<Step>,
    x: Data,
    trace: Seq<Walk>,
    acts: Seq<Act>,
    i: int,
)
    requires
        is_run(f, d, trace, acts),
        changes_only(f, p0, x),
        !(x is List),
        !(x is Object),
        at(d, p0) is Some,
        trace.last().root != set_at(d, p0, x),
        p0.len() > 0,
        0 <= i < trace.len(),
    ensures
        before_change(d, p0, trace[i]),
        i < acts.len() ==> trace[i].queue[0] != p0,
    decreases i,
{
    if i == 0 {
        lemma_before_start(d, p0);
    } else {
        let j = i - 1;
        lemma_unchanged_run(f, d, p0, x, trace, acts, j);
        lemma_before_leave(f, d, p0, x, trace, acts, j);
    }
    if i < acts.len() && trace[i].queue[0] == p0 {
        lemma_before_at(f, d, p0, x, trace, acts, i);
        lemma_after_to_end(f, d, p0, x, trace, acts, i + 1);
    }
}

/// A traversal whose callback answers `Change(x)` at the path `p0`, which leads to a
/// node, and `Leave` everywhere else, where `x` is neither a list nor an object, and
/// which ends with no path left: the tree at the end is the tree with the node at
/// `p0` replaced by `x`. So `p0` reads `x`, nothing lies below it, and every path
/// neither above nor below `p0` reads what it read before.
pub proof fn law_traverse_change_one<F: Fn(&[PathEntry], &str, &Value, &Value) -> TraverseAction>(
    f: F,
    d: Data,
    trace: Seq<Walk>,
    acts: Seq<Act>,
    p0: Seq<Step>,
    x: Data,
)
    requires
        is_run(f, d, trace, acts),
        trace.last().queue.len() == 0,
        changes_only(f, p0, x),
        p0.len() > 0,
        at(d, p0) is Some,
        !(x is List),
        !(x is Object),
    ensures
        trace.last().root == set_at(d, p0, x),
        read(trace.last().root, p0) == Some(x),
        forall|s: Step| #[trigger] at(trace.last().root, p0.push(s)) is None,
        forall|q: Seq<Step>|
            at(d, q) is Some && !below(p0, q) && !prefix_of(q, p0) ==> #[trigger] at(trace.last().root, q) == at(
                d,
                q,
            ),
{
    let d2 = set_at(d, p0, x);
    if trace.last().root != d2 {
        let n = acts.len() as int;
        lemma_unchanged_run(f, d, p0, x, trace, acts, n);
        assert(leave_chain(d, trace, acts)) by {
            assert forall|i: int| 0 <= i < acts.len() implies (#[trigger] trace[i]).queue.len() > 0
                && trace[i + 1] == visit_step(trace[i], Act::Leave) by {
                lemma_unchanged_run(f, d, p0, x, trace, acts, i);
                lemma_before_step(f, d, p0, x, trace, acts, i);
            }
        }
        lemma_chain_visits_all(d, trace, acts, p0);
        let i = choose|i: int| 0 <= i < acts.len() && (#[trigger] trace[i]).queue[0] == p0;
        lemma_unchanged_run(f, d, p0, x, trace, acts, i);
    }
    crate::laws::lemma_at_set(d, p0, x);
    assert forall|s: Step| #[trigger] at(trace.last().root, p0.push(s)) is None by {
        lemma_nothing_below(d2, p0, s, Data::Null);
    }
    assert forall|q: Seq<Step>|
        at(d, q) is Some && !below(p0, q) && !prefix_of(q, p0) implies #[trigger] at(trace.last().root, q)
            == at(d, q) by {
        lemma_at_after_set(d, p0, x, q);
    }
}

// ---------------------------------------------------------------------------
// Visiting a list index again.

/// In a traversal, when the callback answers `Remove` at an element of a list below
/// the top level that is not the last element, the same path is visited next, and
/// it now holds the element that followed the removed one.
pub proof fn law_remove_revisits<F: Fn(&[PathEntry], &str, &Value, &Value) -> TraverseAction>(
    f: F,
    d: Data,
    trace: Seq<Walk>,
    acts: Seq<Act>,
    i: int,
    parent: Seq<Step>,
    k: int,
)
    requires
        is_run(f, d, trace, acts),
        0 <= i < acts.len(),
        trace[i].queue[0] == parent.push(Step::Index(k)),
        parent.len() >= 1,
        fetch(trace[i]) matches Some((m, _)) && read(m, parent) matches Some(Data::List(l)) && 0 <= k
            && k + 1 < l.len(),
        acts[i] == Act::Remove,
    ensures
        trace[i + 1].queue.len() > 0,
        trace[i + 1].queue[0] == parent.push(Step::Index(k)),
        fetch(trace[i]) matches Some((m, _)) && read(m, parent) matches Some(Data::List(l)) && read(
            trace[i + 1].root,
            parent.push(Step::Index(k)),
        ) == Some(l[k + 1]),
{
    assert(trace[i].queue.len() > 0);
    assert(trace[i + 1] == visit_step(trace[i], acts[i]));
    lemma_remove_step(trace[i], parent, k);
}

/// A visit answered with `Remove` at a list element that is not the last one (below
/// the top level) queues the same path first, where the next element now stands.
proof fn lemma_remove_step(w: Walk, parent: Seq<Step>, k: int)
    requires
        w.queue.len() > 0,
        w.queue[0] == parent.push(Step::Index(k)),
        parent.len() >= 1,
        fetch(w) matches Some((m, _)) && read(m, parent) matches Some(Data::List(l)) && 0 <= k && k + 1
            < l.len(),
    ensures
        visit_step(w, Act::Remove).queue.len() > 0,
        visit_step(w, Act::Remove).queue[0] == parent.push(Step::Index(k)),
        fetch(w) matches Some((m, _)) && read(m, parent) matches Some(Data::List(l)) && read(
            visit_step(w, Act::Remove).root,
            parent.push(Step::Index(k)),
        ) == Some(l[k + 1]),
{
    let p = parent.push(Step::Index(k));
    let (m, cur) = fetch(w).unwrap();
    let l = read(m, parent).unwrap()->List_0;
    assert(p.drop_last() =~= parent);
    assert(p.last() == Step::Index(k));
    assert(access(m, parent) == Some((m, parent)));
    assert(revisit_after_remove(m, p));
    assert(root_after_parent(m, p) == m);
    let small = Data::List(l.remove(k));
    assert(crate::model::remove_child(Data::List(l), Step::Index(k)) == small);
    let r2 = set_at(m, parent, small);
    assert(remove_at(m, p) == r2);
    let nw = visit_step(w, Act::Remove);
    assert(nw.root == r2);
    assert(nw.queue == seq![p] + w.queue.drop_first() + child_paths(p, cur));
    crate::laws::lemma_at_set(m, parent, small);
    crate::laws::lemma_at_concat(r2, parent, seq![Step::Index(k)]);
    assert(parent + seq![Step::Index(k)] =~= p);
    assert(seq![Step::Index(k)].drop_first() =~= Seq::<Step>::empty());
    assert(l.remove(k)[k] == l[k + 1]);
    assert(child(small, Step::Index(k)) == Some(l.remove(k)[k]));
    assert(at(l.remove(k)[k], Seq::<Step>::empty()) == Some(l.remove(k)[k]));
    assert(at(small, seq![Step::Index(k)]) == Some(l[k + 1]));
    assert(at(r2, parent) == Some(small));
    assert(at(r2, p) == Some(l[k + 1]));
    assert(read(r2, p) == Some(l[k + 1]));
}

/// In a traversal, when the callback answers `ChangeRoot` with a tree in which the
/// list holding the visited element (at any depth below the top level) is shorter
/// than in the tree the callback was given, the new tree is taken and the same path
/// is visited next.
pub proof fn law_change_root_revisits<F: Fn(&[PathEntry], &str, &Value, &Value) -> TraverseAction>(
    f: F,
    d: Data,
    trace: Seq<Walk>,
    acts: Seq<Act>,
    i: int,
    x: Data,
)
    requires
        is_run(f, d, trace, acts),
        0 <= i < acts.len(),
        trace[i].queue[0].len() >= 2,
        fetch(trace[i]) matches Some((m, _)) && read(m, trace[i].queue[0].drop_last()) matches Some(
            Data::List(a),
        ) && read(x, trace[i].queue[0].drop_last()) matches Some(Data::List(b)) && b.len() < a.len(),
        acts[i] == Act::ChangeRoot(x),
    ensures
        trace[i + 1].root == x,
        trace[i + 1].queue.len() > 0,
        trace[i + 1].queue[0] == trace[i].queue[0],
{
    assert(trace[i].queue.len() > 0);
    assert(trace[i + 1] == visit_step(trace[i], acts[i]));
    lemma_change_root_step(trace[i], x);
}

/// A visit answered with `ChangeRoot(x)`, where `x` holds a shorter list than the
/// fetched tree at the parent of the visited path, takes `x` and queues the same
/// path first.
proof fn lemma_change_root_step(w: Walk, x: Data)
    requires
        w.queue.len() > 0,
        w.queue[0].len() >= 2,
        fetch(w) matches Some((m, _)) && read(m, w.queue[0].drop_last()) matches Some(Data::List(a))
            && read(x, w.queue[0].drop_last()) matches Some(Data::List(b)) && b.len() < a.len(),
    ensures
        visit_step(w, Act::ChangeRoot(x)).root == x,
        visit_step(w, Act::ChangeRoot(x)).queue.len() > 0,
        visit_step(w, Act::ChangeRoot(x)).queue[0] == w.queue[0],
{
    let p = w.queue[0];
    let (m, cur) = fetch(w).unwrap();
    assert(list_shrunk(m, x, p.drop_last()));
    let nw = visit_step(w, Act::ChangeRoot(x));
    assert(nw.queue == seq![p] + w.queue.drop_first() + child_paths(p, cur));
}

/// The list at the parent of `p` is shorter in `after` than in `before`.
pub open spec fn parent_list_shorter(before: Data, after: Data, p: Seq<Step>) -> bool {
    &&& p.len() >= 2
    &&& read(before, p.drop_last()) matches Some(Data::List(a))
    &&& read(after, p.drop_last()) matches Some(Data::List(b))
    &&& b.len() < a.len()
}

/// `p` names an element of a list below the top level of `t` that is not its last.
pub open spec fn inner_element_not_last(t: Data, p: Seq<Step>) -> bool {
    &&& p.len() >= 2
    &&& read(t, p.drop_last()) matches Some(Data::List(l))
    &&& p.last() matches Step::Index(k)
    &&& k != l.len() - 1
}

proof fn lemma_revisit_is(m: Data, p: Seq<Step>)
    requires
        p.len() >= 1,
    ensures
        revisit_after_remove(m, p) == inner_element_not_last(m, p),
{
    let parent = p.drop_last();
    if p.len() == 1 {
        assert(parent =~= Seq::<Step>::empty());
        assert(access(m, parent) is None);
    } else if read(m, parent) is None {
        crate::value::lemma_add_reads_back(m, parent, Data::Null);
    }
}

/// In a traversal, the visit at which the callback answers `ChangeRoot(x)` takes
/// `x` as the tree, and queues the same path again first exactly when the list
/// holding the visited element (below the top level) got shorter than in the tree
/// the callback was given; then the paths still waiting, then the children of the
/// visited node.
pub proof fn law_change_root_next<F: Fn(&[PathEntry], &str, &Value, &Value) -> TraverseAction>(
    f: F,
    d: Data,
    trace: Seq<Walk>,
    acts: Seq<Act>,
    i: int,
    x: Data,
)
    requires
        is_run(f, d, trace, acts),
        0 <= i < acts.len(),
        fetch(trace[i]) is Some,
        acts[i] == Act::ChangeRoot(x),
    ensures
        trace[i + 1].root == x,
        trace[i + 1].queue == (if parent_list_shorter(fetch(trace[i]).unwrap().0, x, trace[i].queue[0]) {
            seq![trace[i].queue[0]]
        } else {
            Seq::empty()
        }) + trace[i].queue.drop_first() + child_paths(trace[i].queue[0], fetch(trace[i]).unwrap().1),
{
    assert(trace[i].queue.len() > 0);
    assert(trace[i + 1] == visit_step(trace[i], acts[i]));
    lemma_change_root_next_step(trace[i], x);
}

proof fn lemma_change_root_next_step(w: Walk, x: Data)
    requires
        w.queue.len() > 0,
        fetch(w) is Some,
    ensures
        visit_step(w, Act::ChangeRoot(x)).root == x,
        visit_step(w, Act::ChangeRoot(x)).queue == (if parent_list_shorter(fetch(w).unwrap().0, x, w.queue[0]) {
            seq![w.queue[0]]
        } else {
            Seq::empty()
        }) + w.queue.drop_first() + child_paths(w.queue[0], fetch(w).unwrap().1),
{
    let p = w.queue[0];
    let (m, cur) = fetch(w).unwrap();
    assert(parent_list_shorter(m, x, p) == (p.len() >= 2 && list_shrunk(m, x, p.drop_last())));
    if parent_list_shorter(m, x, p) {
        assert(visit_step(w, Act::ChangeRoot(x)).queue == seq![p] + w.queue.drop_first() + child_paths(p, cur));
    } else {
        assert(Seq::<Seq<Step>>::empty() + w.queue.drop_first() =~= w.queue.drop_first());
    }
}

/// In a traversal, the visit at which the callback answers `Remove` queues the same
/// path again first exactly when it names an element, below the top level, of a
/// list of which it is not the last element (in the tree the callback was given);
/// then the paths still waiting, then the children of the visited node.
pub proof fn law_remove_next<F: Fn(&[PathEntry], &str, &Value, &Value) -> TraverseAction>(
    f: F,
    d: Data,
    trace: Seq<Walk>,
    acts: Seq<Act>,
    i: int,
)
    requires
        is_run(f, d, trace, acts),
        0 <= i < acts.len(),
        fetch(trace[i]) is Some,
        trace[i].queue[0].len() >= 1,
        acts[i] == Act::Remove,
    ensures
        trace[i + 1].queue == (if inner_element_not_last(fetch(trace[i]).unwrap().0, trace[i].queue[0]) {
            seq![trace[i].queue[0]]
        } else {
            Seq::empty()
        }) + trace[i].queue.drop_first() + child_paths(trace[i].queue[0], fetch(trace[i]).unwrap().1),
{
    assert(trace[i].queue.len() > 0);
    assert(trace[i + 1] == visit_step(trace[i], acts[i]));
    lemma_remove_next_step(trace[i]);
}

proof fn lemma_remove_next_step(w: Walk)
    requires
        w.queue.len() > 0,
        fetch(w) is Some,
        w.queue[0].len() >= 1,
    ensures
        visit_step(w, Act::Remove).queue == (if inner_element_not_last(fetch(w).unwrap().0, w.queue[0]) {
            seq![w.queue[0]]
        } else {
            Seq::empty()
        }) + w.queue.drop_first() + child_paths(w.queue[0], fetch(w).unwrap().1),
{
    let p = w.queue[0];
    let (m, cur) = fetch(w).unwrap();
    lemma_revisit_is(m, p);
    if !inner_element_not_last(m, p) {
        assert(Seq::<Seq<Step>>::empty() + w.queue.drop_first() =~= w.queue.drop_first());
    }
}

} // verus!
