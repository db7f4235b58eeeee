//! What one tree holds that another does not.
use vstd::prelude::*;
use crate::model::{Data, Step, at, read, kind_name};
use crate::path::{PathEntry, steps, copy_path, encode, encode_spec};
use crate::value::Value;
use crate::traverse::{
    Act, Walk, walk_start, fetch, visit_step, visit_limit, queue_steps, queue_ok, queued_path,
    get_nested, push_children, lemma_fetch_queued, lemma_leave_step, lemma_walk_start_in, queue_in,
};

verus! {

/// The paths and nodes that a traversal answering `Leave` everywhere visits, in
/// order, from the state `w`, for at most `fuel` visits.
pub open spec fn visits(w: Walk, fuel: nat) -> Seq<(Seq<Step>, Data)>
    decreases fuel,
{
    if fuel == 0 || w.queue.len() == 0 {
        Seq::empty()
    } else {
        let rest = visits(visit_step(w, Act::Leave), (fuel - 1) as nat);
        match fetch(w) {
            Some((_, cur)) => seq![(w.queue[0], cur)] + rest,
            None => rest,
        }
    }
}

/// The bit pattern of a double-precision NaN: every exponent bit set and a
/// fraction that is not zero.
pub open spec fn float_is_nan(b: u64) -> bool {
    (b & 0x7ff0_0000_0000_0000u64) == 0x7ff0_0000_0000_0000u64 && (b & 0x000f_ffff_ffff_ffffu64) != 0
}

/// The bit pattern of a zero of either sign.
pub open spec fn float_is_zero(b: u64) -> bool {
    (b & 0x7fff_ffff_ffff_ffffu64) == 0
}

/// Equality of two doubles given by their bit patterns, as IEEE-754 compares
/// numbers: the two zeros are equal, a NaN equals nothing, and otherwise the
/// patterns must be the same.
pub open spec fn float_eq(a: u64, b: u64) -> bool {
    (float_is_zero(a) && float_is_zero(b)) || (!float_is_nan(a) && a == b)
}

/// Compares two doubles given by their bit patterns (see `float_eq`).
pub fn float_equal(a: u64, b: u64) -> (r: bool)
    ensures
        r == float_eq(a, b),
{
    ((a & 0x7fff_ffff_ffff_ffffu64) == 0 && (b & 0x7fff_ffff_ffff_ffffu64) == 0) || (!((a
        & 0x7ff0_0000_0000_0000u64) == 0x7ff0_0000_0000_0000u64 && (a & 0x000f_ffff_ffff_ffffu64) != 0)
        && a == b)
}

/// Two scalars of the same kind with different contents (numbers compared as
/// numbers).
pub open spec fn scalar_differs(a: Data, b: Data) -> bool {
    match (a, b) {
        (Data::Str(x), Data::Str(y)) => x != y,
        (Data::Int(x), Data::Int(y)) => x != y,
        (Data::Float(x), Data::Float(y)) => !float_eq(x, y),
        (Data::Bool(x), Data::Bool(y)) => x != y,
        _ => false,
    }
}

/// A visited node of the compared tree counts as a difference when the base tree
/// has nothing at its path, has a node of another kind there, or a scalar with
/// other contents.
pub open spec fn differs(base: Option<Data>, v: Data) -> bool {
    match base {
        None => true,
        Some(b) => kind_name(b) != kind_name(v) || scalar_differs(b, v),
    }
}

/// The text form of some proper prefix of `p` (the empty prefix included) is among
/// the texts `ign`.
pub open spec fn ignored(ign: Seq<Seq<char>>, p: Seq<Step>) -> bool {
    exists|i: int| 0 <= i < p.len() && ign.contains(#[trigger] encode_spec(p.take(i)))
}

/// The differences found among the visited nodes `vs`, with the text forms of the
/// lists and objects reported so far (whose descendants are not reported again).
pub open spec fn diff_fold(base: Data, vs: Seq<(Seq<Step>, Data)>) -> (
    Seq<(Seq<Step>, Data)>,
    Seq<Seq<char>>,
)
    decreases vs.len(),
{
    if vs.len() == 0 {
        (Seq::empty(), Seq::empty())
    } else {
        let (res, ign) = diff_fold(base, vs.drop_last());
        let (p, v) = vs.last();
        if ign.len() > 0 && ignored(ign, p) {
            (res, ign)
        } else if differs(read(base, p), v) {
            (
                res.push((p, v)),
                if v is List || v is Object {
                    ign.push(encode_spec(p))
                } else {
                    ign
                },
            )
        } else {
            (res, ign)
        }
    }
}

/// The differences of `compare` against `base`, in the order of a breadth-first
/// traversal of `compare`.
pub open spec fn diff_spec(base: Data, compare: Data) -> Seq<(Seq<Step>, Data)> {
    diff_fold(base, visits(walk_start(compare), visit_limit())).0
}

/// The model of a list of found differences.
pub open spec fn found_view(r: Seq<(Vec<PathEntry>, Value)>) -> Seq<(Seq<Step>, Data)> {
    r.map_values(|x: (Vec<PathEntry>, Value)| (steps(x.0@), x.1@))
}

/// The paths and nodes visited by a traversal of `compare` that answers `Leave`.
fn leave_visits(compare: &Value) -> (r: Vec<(Vec<PathEntry>, Value)>)
    ensures
        found_view(r@) == visits(walk_start(compare@), visit_limit()),
{
    let mut value = compare.clone();
    let mut visit: std::collections::VecDeque<Vec<PathEntry>> = std::collections::VecDeque::new();
    let mut out: Vec<(Vec<PathEntry>, Value)> = Vec::new();
    let empty: Vec<PathEntry> = Vec::new();
    assert(queue_steps(visit@) =~= Seq::<Seq<Step>>::empty());
    push_children(&mut visit, &empty, &value);
    assert(steps(empty@) =~= Seq::<Step>::empty());
    assert(queue_steps(visit@) =~= walk_start(compare@).queue);
    let ghost start = walk_start(compare@);
    let mut fuel: u64 = u64::MAX;
    assert(found_view(out@) + visits(start, fuel as nat) =~= visits(start, visit_limit()));
    loop
        invariant
            start == walk_start(compare@),
            queue_ok(queue_steps(visit@)),
            found_view(out@) + visits(
                Walk { root: value@, queue: queue_steps(visit@) },
                fuel as nat,
            ) == visits(start, visit_limit()),
        decreases fuel,
    {
        let ghost w = Walk { root: value@, queue: queue_steps(visit@) };
        if fuel == 0 {
            assert(visits(w, 0) =~= Seq::<(Seq<Step>, Data)>::empty());
            assert(found_view(out@) + visits(w, 0) =~= found_view(out@));
            return out;
        }
        let path_base = match visit.pop_front() {
            Some(p) => p,
            None => {
                assert(found_view(out@) + visits(w, fuel as nat) =~= found_view(out@));
                return out;
            },
        };
        let ghost p = w.queue[0];
        let ghost rest = w.queue.drop_first();
        assert(queue_steps(visit@) =~= rest);
        assert(steps(path_base@) == p);
        proof {
            lemma_fetch_queued(value@, p);
        }
        let fetched = get_nested(&mut value, &path_base);
        let ghost vis_rest = visits(visit_step(w, Act::Leave), (fuel - 1) as nat);
        match fetched {
            Some(cur) => {
                let ghost before = found_view(out@);
                push_children(&mut visit, &path_base, &cur);
                assert(queue_steps(visit@) == visit_step(w, Act::Leave).queue);
                assert(value@ == visit_step(w, Act::Leave).root);
                out.push((path_base, cur));
                assert(found_view(out@) =~= before.push((p, fetch(w).unwrap().1)));
                assert(found_view(out@) + vis_rest =~= before + visits(w, fuel as nat));
            },
            None => {
                assert(queue_steps(visit@) == visit_step(w, Act::Leave).queue);
                assert(value@ == visit_step(w, Act::Leave).root);
                proof {
                    assert forall|j: int| 0 <= j < rest.len() implies queued_path(
                        #[trigger] rest[j],
                    ) by {
                        assert(rest[j] == w.queue[j + 1]);
                    }
                }
            },
        }
        fuel = fuel - 1;
    }
}

/// Whether the text of some proper prefix of `path` is among `ignore`.
fn prefix_ignored(ignore: &Vec<String>, path: &Vec<PathEntry>) -> (r: bool)
    ensures
        r == ignored(ignore@.map_values(|s: String| s@), steps(path@)),
{
    let ghost ign = ignore@.map_values(|s: String| s@);
    let n = path.len();
    for i in 0..n
        invariant
            n == path@.len(),
            ign == ignore@.map_values(|s: String| s@),
            forall|j: int| 0 <= j < i ==> !ign.contains(#[trigger] encode_spec(steps(path@).take(j))),
    {
        let mut prefix: Vec<PathEntry> = Vec::new();
        for j in 0..i
            invariant
                i < n,
                n == path@.len(),
                prefix@ == path@.take(j as int),
        {
            prefix.push(path[j].clone());
            assert(prefix@ =~= path@.take(j + 1));
        }
        assert(steps(prefix@) =~= steps(path@).take(i as int));
        let check = encode(prefix.as_slice());
        let m = ignore.len();
        for k in 0..m
            invariant
                m == ignore@.len(),
                i < n,
                n == path@.len(),
                ign == ignore@.map_values(|s: String| s@),
                check@ == encode_spec(steps(path@).take(i as int)),
                forall|t: int| 0 <= t < k ==> ign[t] != check@,
        {
            if ignore[k] == check {
                assert(ign[k as int] == check@);
                assert(ign.contains(encode_spec(steps(path@).take(i as int))));
                return true;
            }
        }
        assert(!ign.contains(encode_spec(steps(path@).take(i as int))));
    }
    assert forall|j: int| 0 <= j < steps(path@).len() implies !ign.contains(
        #[trigger] encode_spec(steps(path@).take(j)),
    ) by {}
    false
}

/// Two nodes of kinds with the same name.
fn type_equals(a: &Value, b: &Value) -> (r: bool)
    ensures
        r == (kind_name(a@) == kind_name(b@)),
{
    a.type_encoded() == b.type_encoded()
}

/// Whether a visited node differs from what the base tree holds at its path.
fn node_differs(base: Option<&Value>, v: &Value) -> (r: bool)
    ensures
        r == differs(crate::value::view_opt(base), v@),
{
    match base {
        None => true,
        Some(b) => {
            !type_equals(b, v) || match (b, v) {
                (Value::String(x), Value::String(y)) => !(*x == *y),
                (Value::Int(x), Value::Int(y)) => *x != *y,
                (Value::Float(x), Value::Float(y)) => !float_equal(*x, *y),
                (Value::Bool(x), Value::Bool(y)) => *x != *y,
                _ => false,
            }
        },
    }
}

impl Value {
    /// The nodes of `compare` that `self` lacks or holds otherwise, with their paths,
    /// in the order of a breadth-first traversal of `compare`: a node counts when
    /// `self` has nothing at its path, a node of another kind, or a scalar with other
    /// contents; below a list or object that counts, nothing more is reported. `None`
    /// when there is no such node.
    pub fn diff(&self, compare: &Value) -> (r: Option<Vec<(Vec<PathEntry>, Value)>>)
        ensures
            match r {
                Some(v) => found_view(v@) == diff_spec(self@, compare@) && v@.len() > 0,
                None => diff_spec(self@, compare@).len() == 0,
            },
    {
        let vs = leave_visits(compare);
        let mut result: Vec<(Vec<PathEntry>, Value)> = Vec::new();
        let mut ignore: Vec<String> = Vec::new();
        let n = vs.len();
        let ghost all = found_view(vs@);
        for i in 0..n
            invariant
                n == vs@.len(),
                all == found_view(vs@),
                all == visits(walk_start(compare@), visit_limit()),
                diff_fold(self@, all.take(i as int)) == (
                    found_view(result@),
                    ignore@.map_values(|s: String| s@),
                ),
        {
            let path = &vs[i].0;
            let value = &vs[i].1;
            let ghost pv = all[i as int];
            assert(all.take(i + 1).drop_last() =~= all.take(i as int));
            assert(all.take(i + 1).last() == pv);
            assert(pv == (steps(path@), value@));
            let skip = if ignore.len() > 0 {
                prefix_ignored(&ignore, path)
            } else {
                false
            };
            if !skip {
                let found = self.get(path.as_slice());
                if node_differs(found, value) {
                    let ghost before_r = found_view(result@);
                    let ghost before_i = ignore@.map_values(|s: String| s@);
                    result.push((copy_path(path.as_slice()), value.clone()));
                    assert(found_view(result@) =~= before_r.push(pv));
                    let is_container = match value {
                        Value::Object(_) => true,
                        Value::List(_) => true,
                        _ => false,
                    };
                    if is_container {
                        ignore.push(encode(path.as_slice()));
                        assert(ignore@.map_values(|s: String| s@) =~= before_i.push(
                            encode_spec(steps(path@)),
                        ));
                    }
                }
            }
        }
        assert(all.take(n as int) =~= all);
        if result.len() == 0 {
            None
        } else {
            Some(result)
        }
    }
}

proof fn lemma_visits_found(d: Data, w: Walk, fuel: nat)
    requires
        w.root == d,
        queue_in(d, w.queue),
    ensures
        forall|k: int|
            0 <= k < visits(w, fuel).len() ==> read(d, (#[trigger] visits(w, fuel)[k]).0) == Some(
                visits(w, fuel)[k].1,
            ),
    decreases fuel,
{
    if fuel > 0 && w.queue.len() > 0 {
        lemma_leave_step(d, w);
        let w2 = visit_step(w, Act::Leave);
        lemma_visits_found(d, w2, (fuel - 1) as nat);
        let rest = visits(w2, (fuel - 1) as nat);
        let p = w.queue[0];
        assert(p.len() > 0);
        assert(visits(w, fuel) == seq![(p, at(d, p).unwrap())] + rest);
        assert forall|k: int| 0 <= k < visits(w, fuel).len() implies read(
            d,
            (#[trigger] visits(w, fuel)[k]).0,
        ) == Some(visits(w, fuel)[k].1) by {
            if k > 0 {
                assert(visits(w, fuel)[k] == rest[k - 1]);
            }
        }
    }
}

proof fn lemma_fold_nothing(base: Data, vs: Seq<(Seq<Step>, Data)>)
    requires
        no_nan(base),
        forall|k: int| 0 <= k < vs.len() ==> read(base, (#[trigger] vs[k]).0) == Some(vs[k].1),
    ensures
        diff_fold(base, vs).0.len() == 0,
        diff_fold(base, vs).1.len() == 0,
    decreases vs.len(),
{
    if vs.len() > 0 {
        lemma_fold_nothing(base, vs.drop_last());
        let (p, v) = vs.last();
        assert(read(base, vs[vs.len() - 1].0) == Some(vs[vs.len() - 1].1));
        assert(!differs(read(base, p), v)) by {
            if let Data::Float(b) = v {
                assert(no_nan_at(base, p));
            }
        }
    }
}

/// No number stored at `p` is a NaN.
pub open spec fn no_nan_at(d: Data, p: Seq<Step>) -> bool {
    read(d, p) matches Some(Data::Float(b)) ==> !float_is_nan(b)
}

/// No number in the tree is a NaN.
pub open spec fn no_nan(d: Data) -> bool {
    forall|p: Seq<Step>| #[trigger] no_nan_at(d, p)
}

/// A tree that holds no NaN has no difference with itself.
pub proof fn law_diff_self(d: Data)
    requires
        no_nan(d),
    ensures
        diff_spec(d, d).len() == 0,
{
    lemma_walk_start_in(d);
    lemma_visits_found(d, walk_start(d), visit_limit());
    lemma_fold_nothing(d, visits(walk_start(d), visit_limit()));
}

/// A scalar at a path holds another integer, string or boolean than the base
/// tree's scalar of the same kind there, or another number bit pattern where the two
/// are not both zeros (of either sign).
pub open spec fn scalar_changed(base: Option<Data>, v: Data) -> bool {
    match (base, v) {
        (Some(Data::Int(x)), Data::Int(y)) => x != y,
        (Some(Data::Float(x)), Data::Float(y)) => x != y && !((x & 0x7fff_ffff_ffff_ffffu64) == 0 && (y
            & 0x7fff_ffff_ffff_ffffu64) == 0),
        (Some(Data::Str(x)), Data::Str(y)) => x != y,
        (Some(Data::Bool(x)), Data::Bool(y)) => x != y,
        _ => false,
    }
}

/// One more visited node keeps the differences found so far, in place.
proof fn lemma_fold_grows(base: Data, vs: Seq<(Seq<Step>, Data)>)
    requires
        vs.len() > 0,
    ensures
        diff_fold(base, vs.drop_last()).0.len() <= diff_fold(base, vs).0.len(),
        forall|j: int|
            0 <= j < diff_fold(base, vs.drop_last()).0.len() ==> diff_fold(base, vs).0[j]
                == #[trigger] diff_fold(base, vs.drop_last()).0[j],
{
}

/// Every text in `ign` is the text form of a path in `res`.
spec fn texts_reported(res: Seq<(Seq<Step>, Data)>, ign: Seq<Seq<char>>) -> bool {
    forall|u: int| 0 <= u < ign.len() ==> #[trigger] text_reported(res, ign[u])
}

/// The text `t` is the text form of a path in `res`.
spec fn text_reported(res: Seq<(Seq<Step>, Data)>, t: Seq<char>) -> bool {
    exists|j: int| 0 <= j < res.len() && encode_spec(#[trigger] res[j].0) == t
}

/// Every text among those whose descendants are skipped is the text form of a
/// reported path.
proof fn lemma_fold_ign(base: Data, vs: Seq<(Seq<Step>, Data)>)
    ensures
        texts_reported(diff_fold(base, vs).0, diff_fold(base, vs).1),
    decreases vs.len(),
{
    if vs.len() > 0 {
        let d = vs.drop_last();
        lemma_fold_ign(base, d);
        lemma_fold_grows(base, vs);
        let res = diff_fold(base, d).0;
        let ign = diff_fold(base, d).1;
        let r2 = diff_fold(base, vs).0;
        let i2 = diff_fold(base, vs).1;
        let p = vs.last().0;
        let v = vs.last().1;
        let skipped = ign.len() > 0 && ignored(ign, p);
        let pushed = !skipped && differs(read(base, p), v);
        if !pushed {
            assert(r2 == res && i2 == ign);
        } else if v is List || v is Object {
            assert(r2 == res.push((p, v)));
            assert(i2 == ign.push(encode_spec(p)));
            lemma_texts_push(res, ign, (p, v), true);
        } else {
            assert(r2 == res.push((p, v)));
            assert(i2 == ign);
            lemma_texts_push(res, ign, (p, v), false);
        }
    }
}

proof fn lemma_texts_push(res: Seq<(Seq<Step>, Data)>, ign: Seq<Seq<char>>, x: (Seq<Step>, Data), add: bool)
    requires
        texts_reported(res, ign),
    ensures
        texts_reported(res.push(x), if add { ign.push(encode_spec(x.0)) } else { ign }),
{
    let r2 = res.push(x);
    let i2 = if add { ign.push(encode_spec(x.0)) } else { ign };
    assert forall|u: int| 0 <= u < i2.len() implies #[trigger] text_reported(r2, i2[u]) by {
        if u < ign.len() {
            assert(i2[u] == ign[u]);
            assert(text_reported(res, ign[u]));
            let j = choose|j: int| 0 <= j < res.len() && encode_spec(#[trigger] res[j].0) == ign[u];
            assert(r2[j] == res[j]);
            assert(0 <= j < r2.len() && encode_spec(r2[j].0) == i2[u]);
        } else {
            assert(u == ign.len());
            assert(r2[res.len() as int] == x);
            assert(encode_spec(r2[res.len() as int].0) == i2[u]);
        }
    }
    assert(texts_reported(r2, i2));
}

proof fn lemma_fold_reports(base: Data, vs: Seq<(Seq<Step>, Data)>, k: int)
    requires
        0 <= k < vs.len(),
        scalar_changed(read(base, vs[k].0), vs[k].1),
        forall|j: int, i: int|
            0 <= j < diff_fold(base, vs).0.len() && 0 <= i < vs[k].0.len() ==> encode_spec(
                (#[trigger] diff_fold(base, vs).0[j]).0,
            ) != encode_spec(#[trigger] vs[k].0.take(i)),
    ensures
        exists|j: int| 0 <= j < diff_fold(base, vs).0.len() && #[trigger] diff_fold(base, vs).0[j] == vs[k],
    decreases vs.len(),
{
    let d = vs.drop_last();
    lemma_fold_grows(base, vs);
    let (res, ign) = diff_fold(base, d);
    let r2 = diff_fold(base, vs).0;
    if k < vs.len() - 1 {
        assert(d[k] == vs[k]);
        assert forall|j: int, i: int| 0 <= j < res.len() && 0 <= i < d[k].0.len() implies encode_spec(
            (#[trigger] res[j]).0,
        ) != encode_spec(#[trigger] d[k].0.take(i)) by {
            assert(r2[j] == res[j]);
        }
        lemma_fold_reports(base, d, k);
        let j = choose|j: int| 0 <= j < res.len() && #[trigger] res[j] == d[k];
        assert(r2[j] == res[j]);
    } else {
        let (p, v) = vs.last();
        assert(vs[k] == vs.last());
        lemma_fold_ign(base, d);
        if ign.len() > 0 && ignored(ign, p) {
            let i = choose|i: int| 0 <= i < p.len() && ign.contains(#[trigger] encode_spec(p.take(i)));
            let u = choose|u: int| 0 <= u < ign.len() && ign[u] == encode_spec(p.take(i));
            assert(ign[u] == encode_spec(p.take(i)));
            assert(text_reported(res, ign[u]));
            let j = choose|j: int| 0 <= j < res.len() && encode_spec(#[trigger] res[j].0) == ign[u];
            assert(r2[j] == res[j]);
            assert(encode_spec(r2[j].0) != encode_spec(vs[k].0.take(i)));
        }
        assert(differs(read(base, p), v));
        assert(r2 == res.push((p, v)));
        assert(r2[res.len() as int] == vs[k]);
    }
}

/// A node of `compare`, visited in its breadth-first order, that holds another
/// integer, string, boolean or number than the scalar of the same kind that `base`
/// holds at its path (see `scalar_changed`), is among the differences, unless a reported path is written like a
/// proper prefix of its path (below a reported list or object nothing more is
/// reported).
pub proof fn law_diff_reports_changed_scalars(base: Data, compare: Data, k: int)
    requires
        0 <= k < visits(walk_start(compare), visit_limit()).len(),
        scalar_changed(
            read(base, visits(walk_start(compare), visit_limit())[k].0),
            visits(walk_start(compare), visit_limit())[k].1,
        ),
        forall|j: int, i: int|
            0 <= j < diff_spec(base, compare).len() && 0 <= i < visits(
                walk_start(compare),
                visit_limit(),
            )[k].0.len() ==> encode_spec((#[trigger] diff_spec(base, compare)[j]).0) != encode_spec(
                #[trigger] visits(walk_start(compare), visit_limit())[k].0.take(i),
            ),
    ensures
        exists|j: int|
            0 <= j < diff_spec(base, compare).len() && #[trigger] diff_spec(base, compare)[j] == visits(
                walk_start(compare),
                visit_limit(),
            )[k],
{
    let vs = visits(walk_start(compare), visit_limit());
    let r = diff_fold(base, vs).0;
    assert(diff_spec(base, compare) == r);
    assert forall|j: int, i: int| 0 <= j < r.len() && 0 <= i < vs[k].0.len() implies encode_spec(
        (#[trigger] r[j]).0,
    ) != encode_spec(#[trigger] vs[k].0.take(i)) by {
        assert(diff_spec(base, compare)[j] == r[j]);
    }
    lemma_fold_reports(base, vs, k);
    let j = choose|j: int| 0 <= j < r.len() && #[trigger] r[j] == vs[k];
    assert(diff_spec(base, compare)[j] == vs[k]);
}

} // verus!
