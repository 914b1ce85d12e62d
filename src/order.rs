use vstd::prelude::*;

use crate::index::{index_of, parse_index, views_of};
use crate::record::{opt_view, Pkg, PkgError, PkgView};
use crate::text::{contains_string, dedup};

verus! {

/// The names of a sequence of records.
pub open spec fn names(t: Seq<PkgView>) -> Seq<Seq<char>> {
    Seq::new(t.len(), |i: int| t[i].name)
}

/// The records whose name was not seen before, in order.
pub open spec fn first_by_name(ps: Seq<PkgView>) -> Seq<PkgView>
    decreases ps.len(),
{
    if ps.len() == 0 {
        Seq::empty()
    } else {
        let t = first_by_name(ps.drop_last());
        if names(t).contains(ps.last().name) {
            t
        } else {
            t.push(ps.last())
        }
    }
}

/// The dependencies that are among `ns`, in order.
pub open spec fn known(deps: Seq<Seq<char>>, ns: Seq<Seq<char>>) -> Seq<Seq<char>>
    decreases deps.len(),
{
    if deps.len() == 0 {
        Seq::empty()
    } else if ns.contains(deps.last()) {
        known(deps.drop_last(), ns).push(deps.last())
    } else {
        known(deps.drop_last(), ns)
    }
}

/// The package table: first record of each name, with its internal
/// dependencies computed against the names of the whole table.
pub open spec fn table_of(ps: Seq<PkgView>) -> Seq<PkgView> {
    let t = first_by_name(ps);
    Seq::new(t.len(), |i: int| PkgView { int_deps: known(t[i].deps, names(t)), ..t[i] })
}

/// Every internal dependency of `r` is the name of a record in `ordered`.
pub open spec fn placed(r: PkgView, ordered: Seq<PkgView>) -> bool {
    forall|j: int| 0 <= j < r.int_deps.len() ==> names(ordered).contains(#[trigger] r.int_deps[j])
}

/// The records of `rem` that are placed against `ordered`, in order.
pub open spec fn ready(rem: Seq<PkgView>, ordered: Seq<PkgView>) -> Seq<PkgView>
    decreases rem.len(),
{
    if rem.len() == 0 {
        Seq::empty()
    } else if placed(rem.last(), ordered) {
        ready(rem.drop_last(), ordered).push(rem.last())
    } else {
        ready(rem.drop_last(), ordered)
    }
}

/// The records of `rem` that are not yet placed against `ordered`, in order.
pub open spec fn waiting(rem: Seq<PkgView>, ordered: Seq<PkgView>) -> Seq<PkgView>
    decreases rem.len(),
{
    if rem.len() == 0 {
        Seq::empty()
    } else if placed(rem.last(), ordered) {
        waiting(rem.drop_last(), ordered)
    } else {
        waiting(rem.drop_last(), ordered).push(rem.last())
    }
}

pub proof fn lemma_ready_waiting_len(rem: Seq<PkgView>, ordered: Seq<PkgView>)
    ensures
        ready(rem, ordered).len() + waiting(rem, ordered).len() == rem.len(),
    decreases rem.len(),
{
    if rem.len() > 0 {
        lemma_ready_waiting_len(rem.drop_last(), ordered);
    }
}

/// Layer peeling: each pass appends, in table order, every remaining record
/// whose internal dependencies were all placed before the pass began. `Err`
/// holds the records that could never be placed.
pub open spec fn peel(rem: Seq<PkgView>, ordered: Seq<PkgView>) -> Result<
    Seq<PkgView>,
    Seq<PkgView>,
>
    decreases rem.len(),
{
    if rem.len() == 0 {
        Ok(ordered)
    } else {
        let e = ready(rem, ordered);
        if e.len() == 0 {
            Err(rem)
        } else {
            proof {
                lemma_ready_waiting_len(rem, ordered);
            }
            peel(waiting(rem, ordered), ordered + e)
        }
    }
}

/// The dependency order of a package table.
pub open spec fn order_of(table: Seq<PkgView>) -> Result<Seq<PkgView>, Seq<PkgView>> {
    peel(table, Seq::empty())
}

/// The effective source identifier of a record.
pub open spec fn source_of(p: PkgView) -> Seq<char> {
    match p.source {
        Some(s) => s,
        None => p.name,
    }
}

/// The source identifiers of records, each once, in order of first appearance.
pub open spec fn sources_of(ps: Seq<PkgView>) -> Seq<Seq<char>> {
    dedup(ps.map_values(|p: PkgView| source_of(p)))
}

// ---------------------------------------------------------------- copies
fn copy_strings(v: &Vec<String>) -> (r: Vec<String>)
    ensures
        r.deep_view() == v.deep_view(),
{
    let mut out: Vec<String> = Vec::new();
    let mut i: usize = 0;
    while i < v.len()
        invariant
            i <= v@.len(),
            out.deep_view() == v.deep_view().take(i as int),
        decreases v@.len() - i,
    {
        let ghost before = out.deep_view();
        out.push(v[i].clone());
        assert(out.deep_view() =~= before.push(v@[i as int]@));
        i += 1;
        assert(out.deep_view() =~= v.deep_view().take(i as int));
    }
    assert(v.deep_view().take(i as int) =~= v.deep_view());
    out
}

fn copy_opt(o: &Option<String>) -> (r: Option<String>)
    ensures
        opt_view(r) == opt_view(*o),
{
    match o {
        Some(s) => Some(s.clone()),
        None => None,
    }
}

fn copy_pkg(p: &Pkg) -> (r: Pkg)
    ensures
        r@ == p@,
{
    Pkg {
        name: p.name.clone(),
        version: copy_opt(&p.version),
        source: copy_opt(&p.source),
        homepage: copy_opt(&p.homepage),
        deps: copy_strings(&p.deps),
        int_deps: copy_strings(&p.int_deps),
    }
}

// ---------------------------------------------------------------- table
/// Whether some record of `t` is named `s`.
fn has_name(t: &Vec<Pkg>, s: &String) -> (r: bool)
    ensures
        r == names(views_of(t@)).contains(s@),
{
    let mut i: usize = 0;
    while i < t.len()
        invariant
            i <= t@.len(),
            forall|j: int| 0 <= j < i ==> t@[j].name@ != s@,
        decreases t@.len() - i,
    {
        if t[i].name == *s {
            assert(names(views_of(t@))[i as int] == s@);
            return true;
        }
        i += 1;
    }
    proof {
        if names(views_of(t@)).contains(s@) {
            let j = choose|j: int|
                0 <= j < names(views_of(t@)).len() && names(views_of(t@))[j] == s@;
            assert(t@[j].name@ == s@);
        }
    }
    false
}

/// Builds the package table: records with an empty name are refused, the
/// first record of each name is kept, and each record's internal dependencies
/// are those of its dependencies that name a record of the table.
pub fn build_table(pkgs: Vec<Pkg>) -> (r: Result<Vec<Pkg>, PkgError>)
    ensures
        match r {
            Ok(t) => (forall|i: int| 0 <= i < pkgs@.len() ==> pkgs@[i].name@.len() > 0)
                && views_of(t@) == table_of(views_of(pkgs@)),
            Err(e) => match e {
                PkgError::MissingName(k) => k < pkgs@.len() && pkgs@[k as int].name@.len() == 0
                    && forall|i: int| 0 <= i < k ==> pkgs@[i].name@.len() > 0,
                _ => false,
            },
        },
{
    let ghost ps = views_of(pkgs@);
    let mut t: Vec<Pkg> = Vec::new();
    let mut i: usize = 0;
    assert(ps.take(0) =~= Seq::<PkgView>::empty());
    assert(views_of(t@) =~= Seq::<PkgView>::empty());
    while i < pkgs.len()
        invariant
            i <= pkgs@.len(),
            ps == views_of(pkgs@),
            forall|j: int| 0 <= j < i ==> pkgs@[j].name@.len() > 0,
            views_of(t@) == first_by_name(ps.take(i as int)),
        decreases pkgs@.len() - i,
    {
        let p = &pkgs[i];
        if p.name.as_str().is_empty() {
            return Err(PkgError::MissingName(i));
        }
        assert(ps.take(i + 1).drop_last() =~= ps.take(i as int));
        assert(ps.take(i + 1).last() == p@);
        if !has_name(&t, &p.name) {
            let ghost before = views_of(t@);
            t.push(copy_pkg(p));
            assert(views_of(t@) =~= before.push(p@));
        }
        i += 1;
    }
    assert(ps.take(i as int) =~= ps);
    let ghost firsts = views_of(t@);
    let mut k: usize = 0;
    while k < t.len()
        invariant
            k <= t@.len() == firsts.len(),
            firsts == first_by_name(ps),
            forall|i: int| 0 <= i < pkgs@.len() ==> pkgs@[i].name@.len() > 0,
            forall|j: int|
                #![trigger t@[j]]
                0 <= j < k ==> t@[j]@ == (PkgView {
                    int_deps: known(firsts[j].deps, names(firsts)),
                    ..firsts[j]
                }),
            forall|j: int| #![trigger t@[j]] k <= j < t@.len() ==> t@[j]@ == firsts[j],
        decreases t@.len() - k,
    {
        let deps = copy_strings(&t[k].deps);
        let mut int_deps: Vec<String> = Vec::new();
        let mut d: usize = 0;
        while d < deps.len()
            invariant
                d <= deps@.len(),
                k < t@.len() == firsts.len(),
                deps.deep_view() == firsts[k as int].deps,
                int_deps.deep_view() == known(deps.deep_view().take(d as int), names(firsts)),
                forall|j: int| #![trigger t@[j]] 0 <= j < t@.len() ==> t@[j]@.name == firsts[j].name,
            decreases deps@.len() - d,
        {
            assert(deps.deep_view().take(d + 1).drop_last() =~= deps.deep_view().take(d as int));
            assert(names(views_of(t@)) =~= names(firsts));
            if has_name(&t, &deps[d]) {
                let ghost before = int_deps.deep_view();
                int_deps.push(deps[d].clone());
                assert(int_deps.deep_view() =~= before.push(deps@[d as int]@));
            }
            d += 1;
        }
        assert(deps.deep_view().take(d as int) =~= deps.deep_view());
        let mut rec = copy_pkg(&t[k]);
        rec.int_deps = int_deps;
        t.set(k, rec);
        k += 1;
    }
    assert(views_of(t@) =~= table_of(ps));
    Ok(t)
}

// ---------------------------------------------------------------- ordering
/// Whether every internal dependency of `p` names a record of `ordered`.
fn is_placed(p: &Pkg, ordered: &Vec<Pkg>) -> (r: bool)
    ensures
        r == placed(p@, views_of(ordered@)),
{
    let mut j: usize = 0;
    while j < p.int_deps.len()
        invariant
            j <= p.int_deps@.len(),
            forall|i: int|
                0 <= i < j ==> names(views_of(ordered@)).contains(#[trigger] p@.int_deps[i]),
        decreases p.int_deps@.len() - j,
    {
        if !has_name(ordered, &p.int_deps[j]) {
            assert(!names(views_of(ordered@)).contains(p@.int_deps[j as int]));
            return false;
        }
        j += 1;
    }
    true
}

/// Orders a package table so that every record comes after all of its
/// internal dependencies: each pass takes, in table order, the records whose
/// internal dependencies were all placed before the pass. When a pass takes
/// nothing, the records left form or wait on a cycle, and their names are
/// returned as the error.
pub fn order_packages(table: &Vec<Pkg>) -> (r: Result<Vec<Pkg>, PkgError>)
    ensures
        match r {
            Ok(o) => order_of(views_of(table@)) == Ok::<Seq<PkgView>, Seq<PkgView>>(
                views_of(o@),
            ),
            Err(e) => match e {
                PkgError::Cycle(ns) => exists|rem: Seq<PkgView>|
                    order_of(views_of(table@)) == Err::<Seq<PkgView>, Seq<PkgView>>(rem)
                        && ns.deep_view() == names(rem),
                _ => false,
            },
        },
{
    let mut rem: Vec<Pkg> = Vec::new();
    let mut i: usize = 0;
    while i < table.len()
        invariant
            i <= table@.len(),
            views_of(rem@) == views_of(table@).take(i as int),
        decreases table@.len() - i,
    {
        let ghost before = views_of(rem@);
        rem.push(copy_pkg(&table[i]));
        assert(views_of(rem@) =~= before.push(table@[i as int]@));
        i += 1;
        assert(views_of(rem@) =~= views_of(table@).take(i as int));
    }
    assert(views_of(table@).take(i as int) =~= views_of(table@));
    let mut ordered: Vec<Pkg> = Vec::new();
    assert(views_of(ordered@) =~= Seq::<PkgView>::empty());
    while rem.len() > 0
        invariant
            order_of(views_of(table@)) == peel(views_of(rem@), views_of(ordered@)),
        decreases rem@.len(),
    {
        let ghost r0 = views_of(rem@);
        let ghost o0 = views_of(ordered@);
        let mut fresh: Vec<Pkg> = Vec::new();
        let mut still: Vec<Pkg> = Vec::new();
        let mut k: usize = 0;
        assert(r0.take(0) =~= Seq::<PkgView>::empty());
        assert(views_of(fresh@) =~= Seq::<PkgView>::empty());
        assert(views_of(still@) =~= Seq::<PkgView>::empty());
        while k < rem.len()
            invariant
                k <= rem@.len(),
                r0 == views_of(rem@),
                o0 == views_of(ordered@),
                views_of(fresh@) == ready(r0.take(k as int), o0),
                views_of(still@) == waiting(r0.take(k as int), o0),
            decreases rem@.len() - k,
        {
            assert(r0.take(k + 1).drop_last() =~= r0.take(k as int));
            assert(r0.take(k + 1).last() == rem@[k as int]@);
            let c = copy_pkg(&rem[k]);
            if is_placed(&rem[k], &ordered) {
                let ghost before = views_of(fresh@);
                fresh.push(c);
                assert(views_of(fresh@) =~= before.push(c@));
            } else {
                let ghost before = views_of(still@);
                still.push(c);
                assert(views_of(still@) =~= before.push(c@));
            }
            k += 1;
        }
        assert(r0.take(k as int) =~= r0);
        proof {
            lemma_ready_waiting_len(r0, o0);
        }
        if fresh.len() == 0 {
            let mut ns: Vec<String> = Vec::new();
            let mut j: usize = 0;
            while j < rem.len()
                invariant
                    j <= rem@.len(),
                    r0 == views_of(rem@),
                    ns.deep_view() == names(r0).take(j as int),
                decreases rem@.len() - j,
            {
                let ghost before = ns.deep_view();
                ns.push(rem[j].name.clone());
                assert(ns.deep_view() =~= before.push(r0[j as int].name));
                j += 1;
                assert(ns.deep_view() =~= names(r0).take(j as int));
            }
            assert(names(r0).take(j as int) =~= names(r0));
            return Err(PkgError::Cycle(ns));
        }
        let mut f: usize = 0;
        while f < fresh.len()
            invariant
                f <= fresh@.len(),
                views_of(ordered@) == o0 + views_of(fresh@).take(f as int),
            decreases fresh@.len() - f,
        {
            let ghost before = views_of(ordered@);
            ordered.push(copy_pkg(&fresh[f]));
            assert(views_of(ordered@) =~= before.push(fresh@[f as int]@));
            f += 1;
            assert(views_of(ordered@) =~= o0 + views_of(fresh@).take(f as int));
        }
        assert(views_of(fresh@).take(f as int) =~= views_of(fresh@));
        rem = still;
    }
    assert(peel(views_of(rem@), views_of(ordered@)) == Ok::<Seq<PkgView>, Seq<PkgView>>(
        views_of(ordered@),
    ));
    Ok(ordered)
}

/// Builds the package table of `pkgs` and puts it in dependency order.
pub fn process_packages(pkgs: Vec<Pkg>) -> (r: Result<Vec<Pkg>, PkgError>)
    ensures
        match r {
            Ok(o) => (forall|i: int| 0 <= i < pkgs@.len() ==> pkgs@[i].name@.len() > 0) && order_of(
                table_of(views_of(pkgs@)),
            ) == Ok::<Seq<PkgView>, Seq<PkgView>>(views_of(o@)),
            Err(e) => match e {
                PkgError::MissingName(k) => k < pkgs@.len() && pkgs@[k as int].name@.len() == 0
                    && forall|i: int| 0 <= i < k ==> pkgs@[i].name@.len() > 0,
                PkgError::Cycle(ns) => (forall|i: int|
                    0 <= i < pkgs@.len() ==> pkgs@[i].name@.len() > 0) && exists|rem: Seq<PkgView>|
                    order_of(table_of(views_of(pkgs@))) == Err::<Seq<PkgView>, Seq<PkgView>>(rem)
                        && ns.deep_view() == names(rem),
                _ => false,
            },
        },
{
    let table = build_table(pkgs)?;
    order_packages(&table)
}

// ---------------------------------------------------------------- sources
/// The source identifiers of `pkgs`, each once, in order of first appearance;
/// a record without a `Source` stands for itself by name.
pub fn extract_pkg_or_sources(pkgs: Vec<Pkg>) -> (r: Vec<String>)
    ensures
        r.deep_view() == sources_of(views_of(pkgs@)),
{
    let ghost all = views_of(pkgs@).map_values(|p: PkgView| source_of(p));
    let mut sources: Vec<String> = Vec::new();
    let mut i: usize = 0;
    while i < pkgs.len()
        invariant
            i <= pkgs@.len(),
            all == views_of(pkgs@).map_values(|p: PkgView| source_of(p)),
            sources.deep_view() == dedup(all.take(i as int)),
        decreases pkgs@.len() - i,
    {
        let p = &pkgs[i];
        let s = match &p.source {
            Some(src) => src.clone(),
            None => p.name.clone(),
        };
        assert(all[i as int] == s@);
        assert(all.take(i + 1).drop_last() =~= all.take(i as int));
        if !contains_string(&sources, &s) {
            let ghost before = sources.deep_view();
            sources.push(s);
            assert(sources.deep_view() =~= before.push(all[i as int]));
        }
        i += 1;
    }
    assert(all.take(i as int) =~= all);
    sources
}

/// The source identifiers of a whole package index, in dependency order.
pub fn index_sources(text: &str) -> (r: Result<Vec<String>, PkgError>)
    ensures
        match index_of(text@) {
            Err(t) => r is Err && match r->Err_0 {
                PkgError::Malformed(u) => u@ == t,
                _ => false,
            },
            Ok(ps) => match r {
                Ok(v) => (forall|i: int| 0 <= i < ps.len() ==> ps[i].name.len() > 0) && exists|
                    o: Seq<PkgView>,
                |
                    order_of(table_of(ps)) == Ok::<Seq<PkgView>, Seq<PkgView>>(o)
                        && v.deep_view() == sources_of(o),
                Err(e) => match e {
                    PkgError::MissingName(k) => k < ps.len() && ps[k as int].name.len() == 0
                        && forall|i: int| 0 <= i < k ==> ps[i].name.len() > 0,
                    PkgError::Cycle(ns) => (forall|i: int| 0 <= i < ps.len() ==> ps[i].name.len() > 0)
                        && exists|rem: Seq<PkgView>|
                        order_of(table_of(ps)) == Err::<Seq<PkgView>, Seq<PkgView>>(rem)
                            && ns.deep_view() == names(rem),
                    _ => false,
                },
            },
        },
{
    let pkgs = parse_index(text)?;
    let ghost ps = views_of(pkgs@);
    let ordered = process_packages(pkgs)?;
    Ok(extract_pkg_or_sources(ordered))
}

} // verus!
