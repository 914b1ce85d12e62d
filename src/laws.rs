use vstd::prelude::*;

use crate::order::{
    first_by_name, known, names, order_of, peel, placed, ready, sources_of, table_of, waiting,
};
use crate::record::PkgView;

verus! {

/// Every record's internal dependencies name records placed before it.
pub open spec fn deps_first(o: Seq<PkgView>) -> bool {
    forall|i: int| #![trigger o[i]] 0 <= i < o.len() ==> placed(o[i], o.take(i))
}

proof fn lemma_ready_placed(rem: Seq<PkgView>, ordered: Seq<PkgView>)
    ensures
        forall|k: int|
            0 <= k < ready(rem, ordered).len() ==> placed(#[trigger] ready(rem, ordered)[k], ordered),
    decreases rem.len(),
{
    if rem.len() > 0 {
        lemma_ready_placed(rem.drop_last(), ordered);
        let p = ready(rem.drop_last(), ordered);
        let r = ready(rem, ordered);
        assert forall|k: int| 0 <= k < r.len() implies placed(#[trigger] r[k], ordered) by {
            if k < p.len() {
                assert(r[k] == p[k]);
            }
        }
    }
}

proof fn lemma_peel_deps_first(rem: Seq<PkgView>, ordered: Seq<PkgView>, o: Seq<PkgView>)
    requires
        peel(rem, ordered) == Ok::<Seq<PkgView>, Seq<PkgView>>(o),
        deps_first(ordered),
    ensures
        deps_first(o),
    decreases rem.len(),
{
    if rem.len() > 0 {
        let e = ready(rem, ordered);
        let o2 = ordered + e;
        crate::order::lemma_ready_waiting_len(rem, ordered);
        lemma_ready_placed(rem, ordered);
        assert forall|i: int| #![trigger o2[i]] 0 <= i < o2.len() implies placed(o2[i], o2.take(i)) by {
            if i < ordered.len() {
                assert(o2[i] == ordered[i]);
                assert(o2.take(i) =~= ordered.take(i));
            } else {
                let r = e[i - ordered.len()];
                assert(o2[i] == r);
                assert(placed(r, ordered));
                assert forall|j: int| 0 <= j < r.int_deps.len() implies names(
                    o2.take(i),
                ).contains(#[trigger] r.int_deps[j]) by {
                    let d = r.int_deps[j];
                    assert(names(ordered).contains(d));
                    let m = choose|m: int| 0 <= m < names(ordered).len() && names(ordered)[m] == d;
                    assert(names(o2.take(i))[m] == d);
                }
            }
        }
        lemma_peel_deps_first(waiting(rem, ordered), o2, o);
    }
}

/// In a dependency order every internal dependency of a record is the name
/// of a record that comes before it.
pub proof fn law_dependencies_come_first(ps: Seq<PkgView>, o: Seq<PkgView>)
    requires
        order_of(table_of(ps)) == Ok::<Seq<PkgView>, Seq<PkgView>>(o),
    ensures
        forall|i: int, j: int|
            0 <= i < o.len() && 0 <= j < o[i].int_deps.len() ==> names(o.take(i)).contains(
                #[trigger] o[i].int_deps[j],
            ),
{
    lemma_peel_deps_first(table_of(ps), Seq::empty(), o);
    assert forall|i: int, j: int|
        0 <= i < o.len() && 0 <= j < o[i].int_deps.len() implies names(o.take(i)).contains(
            #[trigger] o[i].int_deps[j],
        ) by {
        assert(placed(o[i], o.take(i)));
    }
}

proof fn lemma_known_none(deps: Seq<Seq<char>>, ns: Seq<Seq<char>>)
    requires
        forall|k: int| 0 <= k < deps.len() ==> !ns.contains(#[trigger] deps[k]),
    ensures
        known(deps, ns).len() == 0,
    decreases deps.len(),
{
    if deps.len() > 0 {
        assert(!ns.contains(deps[deps.len() - 1]));
        lemma_known_none(deps.drop_last(), ns);
    }
}

proof fn lemma_ready_has(rem: Seq<PkgView>, ordered: Seq<PkgView>, i: int)
    requires
        0 <= i < rem.len(),
        placed(rem[i], ordered),
    ensures
        ready(rem, ordered).contains(rem[i]),
    decreases rem.len(),
{
    let r = ready(rem, ordered);
    if i == rem.len() - 1 {
        assert(r.last() == rem[i]);
    } else {
        assert(rem.drop_last()[i] == rem[i]);
        lemma_ready_has(rem.drop_last(), ordered, i);
        let p = ready(rem.drop_last(), ordered);
        let k = choose|k: int| 0 <= k < p.len() && p[k] == rem[i];
        assert(r[k] == rem[i]);
    }
}

/// A record none of whose dependencies is a package of the table has no
/// internal dependency, and the first pass of the ordering takes it.
pub proof fn law_external_dependencies_ignored(ps: Seq<PkgView>, i: int)
    requires
        0 <= i < table_of(ps).len(),
        forall|k: int|
            0 <= k < table_of(ps)[i].deps.len() ==> !names(table_of(ps)).contains(
                #[trigger] table_of(ps)[i].deps[k],
            ),
    ensures
        table_of(ps)[i].int_deps.len() == 0,
        ready(table_of(ps), Seq::empty()).contains(table_of(ps)[i]),
{
    let t = table_of(ps);
    let f = first_by_name(ps);
    assert(names(t) =~= names(f));
    assert(t[i].deps == f[i].deps);
    assert forall|k: int| 0 <= k < f[i].deps.len() implies !names(f).contains(
        #[trigger] f[i].deps[k],
    ) by {
        assert(t[i].deps[k] == f[i].deps[k]);
    }
    lemma_known_none(f[i].deps, names(f));
    lemma_ready_has(t, Seq::empty(), i);
}

/// The sources listed for an ordered sequence depend on that sequence alone:
/// listing them twice gives the same list.
pub proof fn law_sources_repeatable(a: Seq<PkgView>, b: Seq<PkgView>)
    requires
        a == b,
    ensures
        sources_of(a) == sources_of(b),
{
}

proof fn lemma_first_by_name(ps: Seq<PkgView>)
    ensures
        forall|i: int|
            #![trigger first_by_name(ps)[i]]
            0 <= i < first_by_name(ps).len() ==> exists|k: int|
                0 <= k < ps.len() && ps[k] == first_by_name(ps)[i] && forall|m: int|
                    0 <= m < k ==> (#[trigger] ps[m]).name != ps[k].name,
        forall|k: int| 0 <= k < ps.len() ==> names(first_by_name(ps)).contains(#[trigger] ps[k].name),
        forall|i: int, j: int|
            0 <= i < j < first_by_name(ps).len() ==> (#[trigger] first_by_name(ps)[i]).name
                != (#[trigger] first_by_name(ps)[j]).name,
    decreases ps.len(),
{
    if ps.len() > 0 {
        let q = ps.drop_last();
        let t0 = first_by_name(q);
        let t = first_by_name(ps);
        let l = ps.last();
        lemma_first_by_name(q);
        assert forall|i: int| #![trigger t[i]] 0 <= i < t.len() implies exists|k: int|
            0 <= k < ps.len() && ps[k] == t[i] && forall|m: int|
                0 <= m < k ==> (#[trigger] ps[m]).name != ps[k].name by {
            if i < t0.len() {
                assert(t[i] == t0[i]);
                let k = choose|k: int|
                    0 <= k < q.len() && q[k] == t0[i] && forall|m: int|
                        0 <= m < k ==> (#[trigger] q[m]).name != q[k].name;
                assert(ps[k] == q[k]);
                assert forall|m: int| 0 <= m < k implies (#[trigger] ps[m]).name != ps[k].name by {
                    assert(ps[m] == q[m]);
                }
            } else {
                let k = ps.len() - 1;
                assert(ps[k] == t[i]);
                assert forall|m: int| 0 <= m < k implies (#[trigger] ps[m]).name != ps[k].name by {
                    assert(ps[m] == q[m]);
                    assert(names(t0).contains(q[m].name));
                }
            }
        }
        assert forall|k: int| 0 <= k < ps.len() implies names(t).contains(
            #[trigger] ps[k].name,
        ) by {
            if k < q.len() {
                assert(ps[k] == q[k]);
                assert(names(t0).contains(q[k].name));
                let m = choose|m: int| 0 <= m < names(t0).len() && names(t0)[m] == q[k].name;
                assert(names(t)[m] == q[k].name);
            } else if !names(t0).contains(l.name) {
                assert(names(t)[t0.len() as int] == l.name);
            } else {
                assert(t == t0);
            }
        }
        assert forall|i: int, j: int| 0 <= i < j < t.len() implies (#[trigger] t[i]).name != (
        #[trigger] t[j]).name by {
            if j < t0.len() {
                assert(t[i] == t0[i] && t[j] == t0[j]);
            } else {
                assert(t[i] == t0[i]);
                assert(names(t0)[i] == t0[i].name);
            }
        }
    }
}

/// Two records agree on every parsed attribute.
pub open spec fn same_parsed(a: PkgView, b: PkgView) -> bool {
    &&& a.name == b.name
    &&& a.version == b.version
    &&& a.source == b.source
    &&& a.homepage == b.homepage
    &&& a.deps == b.deps
}

/// `r` has the parsed attributes of an input record that no earlier input
/// record shares a name with.
pub open spec fn declared_first(ps: Seq<PkgView>, r: PkgView) -> bool {
    exists|k: int|
        0 <= k < ps.len() && #[trigger] same_parsed(r, ps[k]) && forall|m: int|
            0 <= m < k ==> (#[trigger] ps[m]).name != ps[k].name
}

/// The table keeps, for each name, the record that declares it first: every
/// table record is an input record that no earlier input record shares a name
/// with, every input name has a record in the table, and no two table records
/// share a name.
pub proof fn law_first_occurrence_wins(ps: Seq<PkgView>)
    ensures
        forall|i: int|
            #![trigger table_of(ps)[i]]
            0 <= i < table_of(ps).len() ==> declared_first(ps, table_of(ps)[i]),
        forall|k: int| 0 <= k < ps.len() ==> names(table_of(ps)).contains(#[trigger] ps[k].name),
        forall|i: int, j: int|
            0 <= i < j < table_of(ps).len() ==> (#[trigger] table_of(ps)[i]).name
                != (#[trigger] table_of(ps)[j]).name,
{
    let f = first_by_name(ps);
    let t = table_of(ps);
    lemma_first_by_name(ps);
    assert(names(t) =~= names(f));
    assert forall|i: int| #![trigger t[i]] 0 <= i < t.len() implies declared_first(ps, t[i]) by {
        let k = choose|k: int|
            0 <= k < ps.len() && ps[k] == f[i] && forall|m: int|
                0 <= m < k ==> (#[trigger] ps[m]).name != ps[k].name;
        assert(0 <= k < ps.len());
        assert(same_parsed(t[i], ps[k]));
        assert(forall|m: int| 0 <= m < k ==> (#[trigger] ps[m]).name != ps[k].name);
    }
    assert forall|i: int, j: int| 0 <= i < j < t.len() implies (#[trigger] t[i]).name != (
    #[trigger] t[j]).name by {
        assert(f[i].name == t[i].name && f[j].name == t[j].name);
    }
}

proof fn lemma_partition(rem: Seq<PkgView>, ordered: Seq<PkgView>)
    ensures
        forall|k: int|
            0 <= k < rem.len() ==> ready(rem, ordered).contains(#[trigger] rem[k]) || waiting(
                rem,
                ordered,
            ).contains(rem[k]),
        forall|k: int|
            0 <= k < ready(rem, ordered).len() ==> rem.contains(#[trigger] ready(rem, ordered)[k]),
        forall|k: int|
            0 <= k < waiting(rem, ordered).len() ==> rem.contains(
                #[trigger] waiting(rem, ordered)[k],
            ),
    decreases rem.len(),
{
    if rem.len() > 0 {
        let q = rem.drop_last();
        lemma_partition(q, ordered);
        let r0 = ready(q, ordered);
        let w0 = waiting(q, ordered);
        let r = ready(rem, ordered);
        let w = waiting(rem, ordered);
        assert forall|k: int| 0 <= k < rem.len() implies r.contains(#[trigger] rem[k])
            || w.contains(rem[k]) by {
            if k < q.len() {
                assert(rem[k] == q[k]);
                if r0.contains(q[k]) {
                    let j = choose|j: int| 0 <= j < r0.len() && r0[j] == q[k];
                    assert(r[j] == q[k]);
                } else {
                    let j = choose|j: int| 0 <= j < w0.len() && w0[j] == q[k];
                    assert(w[j] == q[k]);
                }
            } else if placed(rem.last(), ordered) {
                assert(r[r0.len() as int] == rem[k]);
            } else {
                assert(w[w0.len() as int] == rem[k]);
            }
        }
        assert forall|k: int| 0 <= k < r.len() implies rem.contains(#[trigger] r[k]) by {
            if k < r0.len() {
                assert(r[k] == r0[k]);
                let j = choose|j: int| 0 <= j < q.len() && q[j] == r0[k];
                assert(rem[j] == q[j]);
            } else {
                assert(rem[rem.len() - 1] == r[k]);
            }
        }
        assert forall|k: int| 0 <= k < w.len() implies rem.contains(#[trigger] w[k]) by {
            if k < w0.len() {
                assert(w[k] == w0[k]);
                let j = choose|j: int| 0 <= j < q.len() && q[j] == w0[k];
                assert(rem[j] == q[j]);
            } else {
                assert(rem[rem.len() - 1] == w[k]);
            }
        }
    }
}

proof fn lemma_peel_members(rem: Seq<PkgView>, ordered: Seq<PkgView>, o: Seq<PkgView>)
    requires
        peel(rem, ordered) == Ok::<Seq<PkgView>, Seq<PkgView>>(o),
    ensures
        ordered.len() <= o.len(),
        o.take(ordered.len() as int) == ordered,
        forall|k: int| 0 <= k < o.len() ==> ordered.contains(#[trigger] o[k]) || rem.contains(o[k]),
        forall|k: int| 0 <= k < rem.len() ==> o.contains(#[trigger] rem[k]),
    decreases rem.len(),
{
    if rem.len() == 0 {
        assert(o.take(ordered.len() as int) =~= ordered);
        assert forall|k: int| 0 <= k < o.len() implies ordered.contains(#[trigger] o[k])
            || rem.contains(o[k]) by {
            assert(ordered[k] == o[k]);
        }
    } else {
        let e = ready(rem, ordered);
        let w = waiting(rem, ordered);
        let o2 = ordered + e;
        crate::order::lemma_ready_waiting_len(rem, ordered);
        lemma_partition(rem, ordered);
        lemma_peel_members(w, o2, o);
        assert(o.take(ordered.len() as int) =~= o2.take(ordered.len() as int));
        assert(o2.take(ordered.len() as int) =~= ordered);
        assert forall|k: int| 0 <= k < o.len() implies ordered.contains(#[trigger] o[k])
            || rem.contains(o[k]) by {
            if o2.contains(o[k]) {
                let j = choose|j: int| 0 <= j < o2.len() && o2[j] == o[k];
                if j < ordered.len() {
                    assert(ordered[j] == o[k]);
                } else {
                    assert(e[j - ordered.len()] == o[k]);
                }
            } else {
                assert(w.contains(o[k]));
                let j = choose|j: int| 0 <= j < w.len() && w[j] == o[k];
                assert(rem.contains(w[j]));
            }
        }
        assert forall|k: int| 0 <= k < rem.len() implies o.contains(#[trigger] rem[k]) by {
            if e.contains(rem[k]) {
                let j = choose|j: int| 0 <= j < e.len() && e[j] == rem[k];
                assert(o2[ordered.len() + j] == rem[k]);
                assert(o.take(o2.len() as int) == o2);
                assert(o[ordered.len() + j] == o.take(o2.len() as int)[ordered.len() + j]);
            } else {
                assert(w.contains(rem[k]));
                let j = choose|j: int| 0 <= j < w.len() && w[j] == rem[k];
                assert(o.contains(w[j]));
            }
        }
    }
}

/// A dependency order holds every record of the table, and nothing else.
pub proof fn law_order_holds_whole_table(ps: Seq<PkgView>, o: Seq<PkgView>)
    requires
        order_of(table_of(ps)) == Ok::<Seq<PkgView>, Seq<PkgView>>(o),
    ensures
        forall|k: int| 0 <= k < table_of(ps).len() ==> o.contains(#[trigger] table_of(ps)[k]),
        forall|k: int| 0 <= k < o.len() ==> table_of(ps).contains(#[trigger] o[k]),
{
    lemma_peel_members(table_of(ps), Seq::empty(), o);
    assert forall|k: int| 0 <= k < o.len() implies table_of(ps).contains(#[trigger] o[k]) by {
        assert(!Seq::<PkgView>::empty().contains(o[k]));
    }
}

/// Each record of `g` has an internal dependency that names a record of `g`.
pub open spec fn waits_within(g: Seq<PkgView>) -> bool {
    forall|x: int|
        0 <= x < g.len() ==> exists|y: int|
            0 <= y < g.len() && (#[trigger] g[x]).int_deps.contains(#[trigger] g[y].name)
}

proof fn lemma_group_never_placed(o: Seq<PkgView>, g: Seq<PkgView>)
    requires
        deps_first(o),
        waits_within(g),
        forall|k: int, x: int|
            0 <= k < o.len() && 0 <= x < g.len() && (#[trigger] o[k]).name == (#[trigger] g[x]).name
                ==> o[k] == g[x],
    ensures
        forall|k: int, x: int|
            0 <= k < o.len() && 0 <= x < g.len() ==> (#[trigger] o[k]).name != (#[trigger] g[x]).name,
    decreases o.len(),
{
    if o.len() > 0 {
        let q = o.drop_last();
        assert forall|i: int| #![trigger q[i]] 0 <= i < q.len() implies placed(q[i], q.take(i)) by {
            assert(o[i] == q[i]);
            assert(o.take(i) =~= q.take(i));
        }
        assert forall|k: int, x: int|
            0 <= k < q.len() && 0 <= x < g.len() && (#[trigger] q[k]).name == (#[trigger] g[x]).name
                implies q[k] == g[x] by {
            assert(o[k] == q[k]);
        }
        lemma_group_never_placed(q, g);
        let n = o.len() - 1;
        assert(placed(o[n], o.take(n)));
        assert(o.take(n) =~= q);
        assert forall|x: int| 0 <= x < g.len() implies o[n].name != (#[trigger] g[x]).name by {
            if o[n].name == g[x].name {
                assert(o[n] == g[x]);
                let y = choose|y: int| 0 <= y < g.len() && g[x].int_deps.contains(#[trigger] g[y].name);
                let j = choose|j: int| 0 <= j < g[x].int_deps.len() && g[x].int_deps[j] == g[y].name;
                assert(names(q).contains(o[n].int_deps[j]));
                let m = choose|m: int| 0 <= m < names(q).len() && names(q)[m] == g[y].name;
                assert(q[m].name == g[y].name);
            }
        }
        assert forall|k: int, x: int| 0 <= k < o.len() && 0 <= x < g.len() implies (
        #[trigger] o[k]).name != (#[trigger] g[x]).name by {
            if k < n {
                assert(o[k] == q[k]);
            }
        }
    }
}

/// A non-empty group of table records, each of which has an internal
/// dependency on a record of the group (a dependency cycle, or records that
/// wait on one), makes the ordering fail.
pub proof fn law_waiting_group_fails(ps: Seq<PkgView>, g: Seq<PkgView>)
    requires
        g.len() > 0,
        forall|x: int| 0 <= x < g.len() ==> table_of(ps).contains(#[trigger] g[x]),
        waits_within(g),
    ensures
        order_of(table_of(ps)) is Err,
{
    let t = table_of(ps);
    if order_of(t) is Ok {
        let o = order_of(t)->Ok_0;
        law_first_occurrence_wins(ps);
        lemma_peel_members(t, Seq::empty(), o);
        lemma_peel_deps_first(t, Seq::empty(), o);
        assert forall|k: int, x: int|
            0 <= k < o.len() && 0 <= x < g.len() && (#[trigger] o[k]).name == (#[trigger] g[x]).name
                implies o[k] == g[x] by {
            assert(!Seq::<PkgView>::empty().contains(o[k]));
            let j = choose|j: int| 0 <= j < t.len() && t[j] == o[k];
            let a = choose|a: int| 0 <= a < t.len() && t[a] == g[x];
            if j != a {
                assert(t[j].name != t[a].name) by {
                    if j < a {
                        assert(t[j].name != t[a].name);
                    } else {
                        assert(t[a].name != t[j].name);
                    }
                }
            }
        }
        lemma_group_never_placed(o, g);
        assert(o.contains(g[0]));
        let k = choose|k: int| 0 <= k < o.len() && o[k] == g[0];
        assert(o[k].name == g[0].name);
    }
}

/// A dependency order starts with exactly the records that the first pass
/// takes, in table order.
pub proof fn law_first_pass_leads(ps: Seq<PkgView>, o: Seq<PkgView>)
    requires
        order_of(table_of(ps)) == Ok::<Seq<PkgView>, Seq<PkgView>>(o),
    ensures
        ready(table_of(ps), Seq::empty()).len() <= o.len(),
        o.take(ready(table_of(ps), Seq::empty()).len() as int) == ready(
            table_of(ps),
            Seq::empty(),
        ),
{
    let t = table_of(ps);
    let e = ready(t, Seq::empty());
    if t.len() == 0 {
        assert(o.take(0) =~= e);
    } else {
        let o1 = Seq::<PkgView>::empty() + e;
        assert(o1 =~= e);
        crate::order::lemma_ready_waiting_len(t, Seq::empty());
        lemma_peel_members(waiting(t, Seq::empty()), o1, o);
    }
}

/// The number of passes that layer peeling makes, the last one included.
pub open spec fn passes(rem: Seq<PkgView>, ordered: Seq<PkgView>) -> nat
    decreases rem.len(),
{
    if rem.len() == 0 {
        1
    } else {
        let e = ready(rem, ordered);
        if e.len() == 0 {
            1
        } else {
            proof {
                crate::order::lemma_ready_waiting_len(rem, ordered);
            }
            1 + passes(waiting(rem, ordered), ordered + e)
        }
    }
}

proof fn lemma_passes_bound(rem: Seq<PkgView>, ordered: Seq<PkgView>)
    ensures
        passes(rem, ordered) <= rem.len() + 1,
    decreases rem.len(),
{
    if rem.len() > 0 && ready(rem, ordered).len() > 0 {
        crate::order::lemma_ready_waiting_len(rem, ordered);
        lemma_passes_bound(waiting(rem, ordered), ordered + ready(rem, ordered));
    }
}

/// Ordering a table of n records takes at most n + 1 passes, whether it
/// succeeds or finds a cycle.
pub proof fn law_passes_bounded(ps: Seq<PkgView>)
    ensures
        passes(table_of(ps), Seq::empty()) <= table_of(ps).len() + 1,
{
    lemma_passes_bound(table_of(ps), Seq::empty());
}

/// Every internal dependency of a record of `rem` names a record of
/// `ordered` or of `rem`.
pub open spec fn deps_inside(rem: Seq<PkgView>, ordered: Seq<PkgView>) -> bool {
    forall|x: int, j: int|
        0 <= x < rem.len() && 0 <= j < rem[x].int_deps.len() ==> names(ordered).contains(
            #[trigger] rem[x].int_deps[j],
        ) || names(rem).contains(rem[x].int_deps[j])
}

proof fn lemma_known_sub(deps: Seq<Seq<char>>, ns: Seq<Seq<char>>)
    ensures
        forall|k: int| 0 <= k < known(deps, ns).len() ==> ns.contains(#[trigger] known(deps, ns)[k]),
    decreases deps.len(),
{
    if deps.len() > 0 {
        lemma_known_sub(deps.drop_last(), ns);
        let p = known(deps.drop_last(), ns);
        let r = known(deps, ns);
        assert forall|k: int| 0 <= k < r.len() implies ns.contains(#[trigger] r[k]) by {
            if k < p.len() {
                assert(r[k] == p[k]);
            }
        }
    }
}

proof fn lemma_stuck_waits_within(rem: Seq<PkgView>, ordered: Seq<PkgView>)
    requires
        ready(rem, ordered).len() == 0,
        deps_inside(rem, ordered),
    ensures
        waits_within(rem),
{
    assert forall|x: int| 0 <= x < rem.len() implies exists|y: int|
        0 <= y < rem.len() && (#[trigger] rem[x]).int_deps.contains(#[trigger] rem[y].name) by {
        if placed(rem[x], ordered) {
            lemma_ready_has(rem, ordered, x);
        }
        assert(!placed(rem[x], ordered));
        assert(exists|j: int|
            0 <= j < rem[x].int_deps.len() && !names(ordered).contains(
                #[trigger] rem[x].int_deps[j],
            ));
        let j = choose|j: int|
            0 <= j < rem[x].int_deps.len() && !names(ordered).contains(#[trigger] rem[x].int_deps[j]);
        assert(names(rem).contains(rem[x].int_deps[j]));
        let y = choose|y: int| 0 <= y < names(rem).len() && names(rem)[y] == rem[x].int_deps[j];
        assert(rem[x].int_deps[j] == rem[y].name);
        assert(rem[x].int_deps.contains(rem[y].name));
    }
}

proof fn lemma_deps_inside_step(rem: Seq<PkgView>, ordered: Seq<PkgView>)
    requires
        deps_inside(rem, ordered),
    ensures
        deps_inside(waiting(rem, ordered), ordered + ready(rem, ordered)),
{
    let e = ready(rem, ordered);
    let w = waiting(rem, ordered);
    let o2 = ordered + e;
    lemma_partition(rem, ordered);
    assert forall|x: int, j: int|
        0 <= x < w.len() && 0 <= j < w[x].int_deps.len() implies names(o2).contains(
        #[trigger] w[x].int_deps[j],
    ) || names(w).contains(w[x].int_deps[j]) by {
        assert(rem.contains(w[x]));
        let a = choose|a: int| 0 <= a < rem.len() && rem[a] == w[x];
        let d = w[x].int_deps[j];
        assert(rem[a].int_deps[j] == d);
        if names(ordered).contains(d) {
            let m = choose|m: int| 0 <= m < names(ordered).len() && names(ordered)[m] == d;
            assert(names(o2)[m] == d);
        } else {
            assert(names(rem).contains(d));
            let y = choose|y: int| 0 <= y < names(rem).len() && names(rem)[y] == d;
            assert(rem[y].name == d);
            if e.contains(rem[y]) {
                let k = choose|k: int| 0 <= k < e.len() && e[k] == rem[y];
                assert(names(o2)[ordered.len() + k] == d);
            } else {
                assert(w.contains(rem[y]));
                let k = choose|k: int| 0 <= k < w.len() && w[k] == rem[y];
                assert(names(w)[k] == d);
            }
        }
    }
}

proof fn lemma_peel_err(rem: Seq<PkgView>, ordered: Seq<PkgView>, r: Seq<PkgView>)
    requires
        peel(rem, ordered) == Err::<Seq<PkgView>, Seq<PkgView>>(r),
        deps_inside(rem, ordered),
    ensures
        r.len() > 0,
        forall|x: int| 0 <= x < r.len() ==> rem.contains(#[trigger] r[x]),
        waits_within(r),
    decreases rem.len(),
{
    let e = ready(rem, ordered);
    let w = waiting(rem, ordered);
    if e.len() == 0 {
        assert(r == rem);
        assert forall|x: int| 0 <= x < r.len() implies rem.contains(#[trigger] r[x]) by {
            assert(rem[x] == r[x]);
        }
        lemma_stuck_waits_within(rem, ordered);
    } else {
        crate::order::lemma_ready_waiting_len(rem, ordered);
        lemma_partition(rem, ordered);
        lemma_deps_inside_step(rem, ordered);
        lemma_peel_err(w, ordered + e, r);
        assert forall|x: int| 0 <= x < r.len() implies rem.contains(#[trigger] r[x]) by {
            assert(w.contains(r[x]));
            let k = choose|k: int| 0 <= k < w.len() && w[k] == r[x];
            assert(rem.contains(w[k]));
        }
    }
}

/// When the ordering fails, the records it leaves form a non-empty group of
/// table records each of which has an internal dependency on a record of the
/// group. With `law_waiting_group_fails`: ordering fails exactly when such a
/// group exists.
pub proof fn law_failure_leaves_waiting_group(ps: Seq<PkgView>, r: Seq<PkgView>)
    requires
        order_of(table_of(ps)) == Err::<Seq<PkgView>, Seq<PkgView>>(r),
    ensures
        r.len() > 0,
        forall|x: int| 0 <= x < r.len() ==> table_of(ps).contains(#[trigger] r[x]),
        waits_within(r),
{
    let t = table_of(ps);
    let f = first_by_name(ps);
    assert(names(t) =~= names(f));
    assert forall|x: int, j: int|
        0 <= x < t.len() && 0 <= j < t[x].int_deps.len() implies names(
        Seq::<PkgView>::empty(),
    ).contains(#[trigger] t[x].int_deps[j]) || names(t).contains(t[x].int_deps[j]) by {
        lemma_known_sub(f[x].deps, names(f));
        assert(t[x].int_deps == known(f[x].deps, names(f)));
    }
    lemma_peel_err(t, Seq::empty(), r);
}

/// Two packages of a table that are internal dependencies of each other make
/// the ordering fail: no pass can take either of them.
pub proof fn law_mutual_dependency_fails(ps: Seq<PkgView>, a: int, b: int)
    requires
        0 <= a < table_of(ps).len(),
        0 <= b < table_of(ps).len(),
        table_of(ps)[a].int_deps.contains(table_of(ps)[b].name),
        table_of(ps)[b].int_deps.contains(table_of(ps)[a].name),
    ensures
        order_of(table_of(ps)) is Err,
{
    let t = table_of(ps);
    let ga = t[a];
    let gb = t[b];
    let g = seq![ga, gb];
    assert(t.contains(ga));
    assert(t.contains(gb));
    assert(g[0] == ga && g[1] == gb);
    assert(g[0].int_deps.contains(g[1].name));
    assert(g[1].int_deps.contains(g[0].name));
    assert(waits_within(g));
    assert(forall|x: int| 0 <= x < g.len() ==> t.contains(#[trigger] g[x]));
    law_waiting_group_fails(ps, g);
}

} // verus!
