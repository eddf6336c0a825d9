//! The SAT encoding and the solver driver.
//!
//! SAT variable `i` stands for "the package with id `i` is installed".
//! From a root package a breadth-first traversal emits, for each visited
//! package `p`:
//!   - per `requires` entry with providers `q1..qn`: `(!p | q1 | .. | qn)`,
//!     which for `n == 0` is the unit clause `(!p)`;
//!   - per `conflicts` entry with providers: `(!p | q1 | .. | qn)`, the
//!     same shape as `requires`; a strict reading of conflict semantics
//!     would negate the providers instead, and that stricter encoding is
//!     deliberately not substituted here — see the tests for the shape;
//!   - per `obsoletes` entry with providers: `(!p | !q1 | .. | !qn)`;
//! and enqueues every provider id not seen before, in clause order.
//! `spec_encode` states the emitted formula exactly, so the encoder is
//! deterministic by construction.
use vstd::prelude::*;

use crate::repo::{
    Repo, IdT, PackageView, EntryView, rpm_entries_view, providers_seq, req_entries, con_entries,
    obs_entries, spec_find_by_name, lemma_providers_seq_bounds,
};
use varisat::ExtendFormula;

verus! {

/// One CNF literal: a package id and a polarity.
#[derive(Clone, Copy, Debug, PartialEq, Eq, Structural)]
pub struct Lit {
    pub var: IdT,
    pub pos: bool,
}

/// A CNF formula: a conjunction of disjunctive clauses.
#[derive(Debug, PartialEq)]
pub struct CnfFormula {
    pub clauses: Vec<Vec<Lit>>,
}

pub open spec fn clauses_view(cs: Seq<Vec<Lit>>) -> Seq<Seq<Lit>> {
    Seq::new(cs.len(), |i: int| cs[i]@)
}

impl View for CnfFormula {
    type V = Seq<Seq<Lit>>;

    open spec fn view(&self) -> Seq<Seq<Lit>> {
        clauses_view(self.clauses@)
    }
}

pub open spec fn pos_lit(v: IdT) -> Lit {
    Lit { var: v, pos: true }
}

pub open spec fn neg_lit(v: IdT) -> Lit {
    Lit { var: v, pos: false }
}

pub open spec fn lit_sat(a: Map<int, bool>, l: Lit) -> bool {
    a[l.var as int] == l.pos
}

pub open spec fn clause_sat(a: Map<int, bool>, c: Seq<Lit>) -> bool {
    exists|k: int| 0 <= k < c.len() && lit_sat(a, #[trigger] c[k])
}

pub open spec fn formula_sat(a: Map<int, bool>, f: Seq<Seq<Lit>>) -> bool {
    forall|k: int| 0 <= k < f.len() ==> clause_sat(a, #[trigger] f[k])
}

/// Some total assignment of packages to installed / not installed makes
/// every clause true.
pub open spec fn satisfiable(f: Seq<Seq<Lit>>) -> bool {
    exists|a: Map<int, bool>| a.dom() == Set::<int>::full() && formula_sat(a, f)
}

/// The literals standing for a providers list, in list order.
pub open spec fn provider_lits(ids: Seq<IdT>, polarity: bool) -> Seq<Lit>
    decreases ids.len(),
{
    if ids.len() == 0 {
        Seq::empty()
    } else {
        provider_lits(ids.drop_last(), polarity).push(Lit { var: ids.last(), pos: polarity })
    }
}

/// The clauses of one relation list of package `p`, in entry order.
/// `emit_empty` says whether an entry without providers still emits its
/// (then unit) clause — true for `requires`, false otherwise.
pub open spec fn rel_clauses(
    pkgs: Seq<PackageView>,
    p: IdT,
    es: Seq<EntryView>,
    polarity: bool,
    emit_empty: bool,
) -> Seq<Seq<Lit>>
    decreases es.len(),
{
    if es.len() == 0 {
        Seq::empty()
    } else {
        let prev = rel_clauses(pkgs, p, es.drop_last(), polarity, emit_empty);
        let provs = providers_seq(pkgs, es.last().name);
        if provs.len() == 0 && !emit_empty {
            prev
        } else {
            prev.push(seq![neg_lit(p)] + provider_lits(provs, polarity))
        }
    }
}

/// All clauses one visited package emits, requires then conflicts then
/// obsoletes.
pub open spec fn package_clauses(pkgs: Seq<PackageView>, p: IdT) -> Seq<Seq<Lit>> {
    if p < pkgs.len() {
        rel_clauses(pkgs, p, req_entries(pkgs[p as int]), true, true) + rel_clauses(
            pkgs,
            p,
            con_entries(pkgs[p as int]),
            true,
            false,
        ) + rel_clauses(pkgs, p, obs_entries(pkgs[p as int]), false, false)
    } else {
        Seq::empty()
    }
}

/// The provider ids a relation list mentions, in clause-literal order.
pub open spec fn entries_stream(pkgs: Seq<PackageView>, es: Seq<EntryView>) -> Seq<IdT>
    decreases es.len(),
{
    if es.len() == 0 {
        Seq::empty()
    } else {
        entries_stream(pkgs, es.drop_last()) + providers_seq(pkgs, es.last().name)
    }
}

/// Every provider id package `p` mentions, across its three relation lists.
pub open spec fn provider_stream(pkgs: Seq<PackageView>, p: IdT) -> Seq<IdT>
    decreases pkgs.len(),
{
    if p < pkgs.len() {
        entries_stream(pkgs, req_entries(pkgs[p as int])) + entries_stream(
            pkgs,
            con_entries(pkgs[p as int]),
        ) + entries_stream(pkgs, obs_entries(pkgs[p as int]))
    } else {
        Seq::empty()
    }
}

/// Walks a provider id stream against a visited map: collects the ids not
/// yet visited, in order and without repetition, marking each.
pub open spec fn enqueue_news(ids: Seq<IdT>, visited: Seq<bool>) -> (Seq<IdT>, Seq<bool>)
    decreases ids.len(),
{
    if ids.len() == 0 {
        (Seq::<IdT>::empty(), visited)
    } else {
        let id = ids[0];
        if id < visited.len() && !visited[id as int] {
            let r = enqueue_news(ids.drop_first(), visited.update(id as int, true));
            (seq![id] + r.0, r.1)
        } else {
            enqueue_news(ids.drop_first(), visited)
        }
    }
}

pub open spec fn count_false(v: Seq<bool>) -> nat
    decreases v.len(),
{
    if v.len() == 0 {
        0
    } else {
        count_false(v.drop_last()) + (if v.last() {
            0nat
        } else {
            1nat
        })
    }
}

proof fn lemma_count_false_update(v: Seq<bool>, i: int)
    requires
        0 <= i < v.len(),
        !v[i],
    ensures
        count_false(v.update(i, true)) + 1 == count_false(v),
    decreases v.len(),
{
    let v2 = v.update(i, true);
    if i == v.len() - 1 {
        assert(v2.drop_last() =~= v.drop_last());
        assert(v2.last() == true);
    } else {
        assert(v2.drop_last() =~= v.drop_last().update(i, true));
        assert(v2.last() == v.last());
        lemma_count_false_update(v.drop_last(), i);
    }
}

/// What one enqueue pass does: it keeps the map's length, turns exactly as
/// many entries from unvisited to visited as it collects ids, and collects
/// only ids from the stream that fit the map.
pub proof fn lemma_enqueue_news(ids: Seq<IdT>, visited: Seq<bool>)
    ensures
        enqueue_news(ids, visited).1.len() == visited.len(),
        count_false(visited) == count_false(enqueue_news(ids, visited).1) + enqueue_news(
            ids,
            visited,
        ).0.len(),
        forall|k: int|
            0 <= k < enqueue_news(ids, visited).0.len() ==> ids.contains(
                #[trigger] enqueue_news(ids, visited).0[k],
            ) && enqueue_news(ids, visited).0[k] < visited.len(),
        forall|m: int|
            0 <= m < visited.len() && #[trigger] enqueue_news(ids, visited).1[m] ==> (visited[m]
                || enqueue_news(ids, visited).0.contains(m as usize)),
        forall|m: int|
            0 <= m < visited.len() && #[trigger] visited[m] ==> enqueue_news(ids, visited).1[m],
        forall|x: IdT|
            #[trigger] ids.contains(x) && x < visited.len() ==> enqueue_news(
                ids,
                visited,
            ).1[x as int],
    decreases ids.len(),
{
    if ids.len() > 0 {
        let id = ids[0];
        if id < visited.len() && !visited[id as int] {
            let v2 = visited.update(id as int, true);
            lemma_count_false_update(visited, id as int);
            lemma_enqueue_news(ids.drop_first(), v2);
            let r = enqueue_news(ids.drop_first(), v2);
            assert forall|m: int|
                0 <= m < visited.len() && #[trigger] visited[m] implies enqueue_news(
                ids,
                visited,
            ).1[m] by {
                assert(v2[m]);
            }
            assert forall|x: IdT| #[trigger] ids.contains(x) && x < visited.len() implies
                enqueue_news(ids, visited).1[x as int] by {
                if x == id {
                    assert(v2[id as int]);
                } else {
                    let m = choose|m: int| 0 <= m < ids.len() && ids[m] == x;
                    assert(ids.drop_first()[m - 1] == x);
                    assert(ids.drop_first().contains(x));
                }
            }
            assert forall|k: int|
                0 <= k < enqueue_news(ids, visited).0.len() implies ids.contains(
                #[trigger] enqueue_news(ids, visited).0[k],
            ) && enqueue_news(ids, visited).0[k] < visited.len() by {
                if k == 0 {
                    assert(enqueue_news(ids, visited).0[0] == id);
                    assert(ids[0] == id);
                } else {
                    assert(enqueue_news(ids, visited).0[k] == r.0[k - 1]);
                    assert(ids.drop_first().contains(r.0[k - 1]));
                    let m = choose|m: int|
                        0 <= m < ids.drop_first().len() && ids.drop_first()[m] == r.0[k - 1];
                    assert(ids[m + 1] == r.0[k - 1]);
                }
            }
            assert forall|m: int|
                0 <= m < visited.len() && #[trigger] enqueue_news(ids, visited).1[m] implies (
            visited[m] || enqueue_news(ids, visited).0.contains(m as usize)) by {
                if !visited[m] {
                    if m == id as int {
                        assert(enqueue_news(ids, visited).0[0] == id);
                        assert(enqueue_news(ids, visited).0.contains(m as usize));
                    } else {
                        assert(!v2[m]);
                        assert(r.0.contains(m as usize));
                        let k = choose|k: int| 0 <= k < r.0.len() && r.0[k] == m as usize;
                        assert(enqueue_news(ids, visited).0[k + 1] == m as usize);
                        assert(enqueue_news(ids, visited).0.contains(m as usize));
                    }
                }
            }
        } else {
            lemma_enqueue_news(ids.drop_first(), visited);
            assert forall|k: int|
                0 <= k < enqueue_news(ids, visited).0.len() implies ids.contains(
                #[trigger] enqueue_news(ids, visited).0[k],
            ) && enqueue_news(ids, visited).0[k] < visited.len() by {
                let r = enqueue_news(ids.drop_first(), visited);
                assert(ids.drop_first().contains(r.0[k]));
                let m = choose|m: int|
                    0 <= m < ids.drop_first().len() && ids.drop_first()[m] == r.0[k];
                assert(ids[m + 1] == r.0[k]);
            }
            assert forall|x: IdT| #[trigger] ids.contains(x) && x < visited.len() implies
                enqueue_news(ids, visited).1[x as int] by {
                if x == id {
                    assert(visited[id as int]);
                } else {
                    let m = choose|m: int| 0 <= m < ids.len() && ids[m] == x;
                    assert(ids.drop_first()[m - 1] == x);
                    assert(ids.drop_first().contains(x));
                }
            }
        }
    }
}

/// Enqueueing a concatenated stream is enqueueing its parts in turn.
proof fn lemma_enqueue_concat(a: Seq<IdT>, b: Seq<IdT>, v: Seq<bool>)
    ensures
        enqueue_news(a + b, v).0 == enqueue_news(a, v).0 + enqueue_news(b, enqueue_news(a, v).1).0,
        enqueue_news(a + b, v).1 == enqueue_news(b, enqueue_news(a, v).1).1,
    decreases a.len(),
{
    if a.len() == 0 {
        assert(a + b =~= b);
        assert(enqueue_news(a, v).0 + enqueue_news(b, v).0 =~= enqueue_news(b, v).0);
    } else {
        assert((a + b)[0] == a[0]);
        assert((a + b).len() > 0);
        assert((a + b).drop_first() =~= a.drop_first() + b);
        let id = a[0];
        if id < v.len() && !v[id as int] {
            let v2 = v.update(id as int, true);
            lemma_enqueue_concat(a.drop_first(), b, v2);
            assert(seq![id] + (enqueue_news(a.drop_first(), v2).0 + enqueue_news(
                b,
                enqueue_news(a.drop_first(), v2).1,
            ).0) =~= (seq![id] + enqueue_news(a.drop_first(), v2).0) + enqueue_news(
                b,
                enqueue_news(a.drop_first(), v2).1,
            ).0);
        } else {
            lemma_enqueue_concat(a.drop_first(), b, v);
        }
    }
}

/// The visited map seeding a traversal: only the root is marked.
pub open spec fn init_visited(n: nat, root: IdT) -> Seq<bool> {
    Seq::new(n, |k: int| k == root as int)
}

/// The whole emitted formula, from a queue and a visited map.
pub open spec fn spec_bfs(pkgs: Seq<PackageView>, queue: Seq<IdT>, visited: Seq<bool>) -> Seq<
    Seq<Lit>,
>
    decreases 2 * count_false(visited) + queue.len(),
{
    if queue.len() == 0 {
        Seq::<Seq<Lit>>::empty()
    } else {
        let p = queue[0];
        let r = enqueue_news(provider_stream(pkgs, p), visited);
        proof {
            lemma_enqueue_news(provider_stream(pkgs, p), visited);
        }
        package_clauses(pkgs, p) + spec_bfs(pkgs, queue.drop_first() + r.0, r.1)
    }
}

/// The CNF formula encoded for a root package: what the traversal emits
/// starting from a queue holding only the root. The root's own assertion
/// is no part of it; the driver assumes the root separately.
pub open spec fn spec_encode(pkgs: Seq<PackageView>, root: IdT) -> Seq<Seq<Lit>> {
    spec_bfs(pkgs, seq![root], init_visited(pkgs.len(), root))
}

proof fn lemma_rel_clauses_step(
    pkgs: Seq<PackageView>,
    p: IdT,
    es: Seq<EntryView>,
    j: int,
    polarity: bool,
    emit_empty: bool,
)
    requires
        0 <= j < es.len(),
    ensures
        rel_clauses(pkgs, p, es.take(j + 1), polarity, emit_empty) == ({
            let prev = rel_clauses(pkgs, p, es.take(j), polarity, emit_empty);
            let provs = providers_seq(pkgs, es[j].name);
            if provs.len() == 0 && !emit_empty {
                prev
            } else {
                prev.push(seq![neg_lit(p)] + provider_lits(provs, polarity))
            }
        }),
{
    assert(es.take(j + 1).drop_last() =~= es.take(j));
    assert(es.take(j + 1).last() == es[j]);
}

proof fn lemma_entries_stream_step(pkgs: Seq<PackageView>, es: Seq<EntryView>, j: int)
    requires
        0 <= j < es.len(),
    ensures
        entries_stream(pkgs, es.take(j + 1)) == entries_stream(pkgs, es.take(j)) + providers_seq(
            pkgs,
            es[j].name,
        ),
{
    assert(es.take(j + 1).drop_last() =~= es.take(j));
    assert(es.take(j + 1).last() == es[j]);
}

proof fn lemma_provider_lits_step(ids: Seq<IdT>, k: int, polarity: bool)
    requires
        0 <= k < ids.len(),
    ensures
        provider_lits(ids.take(k + 1), polarity) == provider_lits(ids.take(k), polarity).push(
            Lit { var: ids[k], pos: polarity },
        ),
{
    assert(ids.take(k + 1).drop_last() =~= ids.take(k));
    assert(ids.take(k + 1).last() == ids[k]);
}

proof fn lemma_provider_lits_vars(ids: Seq<IdT>, polarity: bool)
    ensures
        provider_lits(ids, polarity).len() == ids.len(),
        forall|li: int|
            0 <= li < ids.len() ==> #[trigger] provider_lits(ids, polarity)[li] == (Lit {
                var: ids[li],
                pos: polarity,
            }),
    decreases ids.len(),
{
    if ids.len() > 0 {
        lemma_provider_lits_vars(ids.drop_last(), polarity);
    }
}

/// All variables of a formula lie below `n`.
pub open spec fn vars_bounded(f: Seq<Seq<Lit>>, n: nat) -> bool {
    forall|ci: int, li: int|
        0 <= ci < f.len() && 0 <= li < f[ci].len() ==> (#[trigger] f[ci][li]).var < n
}

/// Emits the clauses of one relation list of package `p` and enqueues the
/// providers those clauses mention, exactly as the traversal spec says.
#[verifier::loop_isolation(false)]
fn emit_rel_clauses(
    repo: &Repo,
    p: IdT,
    es: &Vec<crate::repo::RpmEntry>,
    polarity: bool,
    emit_empty: bool,
    Ghost(ges): Ghost<Seq<EntryView>>,
    formula: &mut Vec<Vec<Lit>>,
    queue: &mut Vec<IdT>,
    visited: &mut Vec<bool>,
)
    requires
        repo.wf(),
        p < repo@.len(),
        old(visited)@.len() == repo@.len(),
        ges == rpm_entries_view(es@),
        vars_bounded(clauses_view(old(formula)@), repo@.len()),
    ensures
        clauses_view(final(formula)@) == clauses_view(old(formula)@) + rel_clauses(
            repo@,
            p,
            ges,
            polarity,
            emit_empty,
        ),
        final(queue)@ == old(queue)@ + enqueue_news(
            entries_stream(repo@, ges),
            old(visited)@,
        ).0,
        final(visited)@ == enqueue_news(entries_stream(repo@, ges), old(visited)@).1,
        final(visited)@.len() == old(visited)@.len(),
        vars_bounded(clauses_view(final(formula)@), repo@.len()),
{
    let ghost f0 = clauses_view(formula@);
    let ghost q0 = queue@;
    let ghost v0 = visited@;
    proof {
        assert(ges.take(0) =~= Seq::<EntryView>::empty());
        assert(clauses_view(formula@) =~= f0 + rel_clauses(repo@, p, ges.take(0), polarity,
            emit_empty,
        ));
        assert(q0 =~= q0 + enqueue_news(entries_stream(repo@, ges.take(0)), v0).0);
    }
    let mut j: usize = 0;
    while j < es.len()
        invariant
            repo.wf(),
            p < repo@.len(),
            0 <= j <= es@.len(),
            ges == rpm_entries_view(es@),
            ges.len() == es@.len(),
            visited@.len() == repo@.len(),
            clauses_view(formula@) == f0 + rel_clauses(repo@, p, ges.take(j as int), polarity,
                emit_empty,
            ),
            queue@ == q0 + enqueue_news(entries_stream(repo@, ges.take(j as int)), v0).0,
            visited@ == enqueue_news(entries_stream(repo@, ges.take(j as int)), v0).1,
            vars_bounded(clauses_view(formula@), repo@.len()),
        decreases es@.len() - j,
    {
        let entry = &es[j];
        proof {
            assert(ges[j as int] == es@[j as int]@);
        }
        let ghost name = ges[j as int].name;
        let ghost provs = providers_seq(repo@, name);
        let ghost stream0 = entries_stream(repo@, ges.take(j as int));
        let ghost vmid = visited@;
        let ghost qmid = queue@;
        proof {
            lemma_providers_seq_bounds(repo@, name);
        }
        let providers_opt = repo.get_entry_provider_id(entry);
        match providers_opt {
            Some(pv) => {
                // build the clause: !p, then one literal per provider
                let mut clause: Vec<Lit> = Vec::new();
                clause.push(Lit { var: p, pos: false });
                let mut k: usize = 0;
                while k < pv.len()
                    invariant
                        0 <= k <= pv@.len(),
                        pv@ == provs,
                        clause@ == seq![neg_lit(p)] + provider_lits(pv@.take(k as int), polarity),
                    decreases pv@.len() - k,
                {
                    clause.push(Lit { var: pv[k], pos: polarity });
                    proof {
                        lemma_provider_lits_step(pv@, k as int, polarity);
                    }
                    k = k + 1;
                }
                proof {
                    assert(pv@.take(pv@.len() as int) =~= pv@);
                }
                let ghost fmid = clauses_view(formula@);
                formula.push(clause);
                proof {
                    assert(clauses_view(formula@) =~= fmid.push(clause@));
                    lemma_rel_clauses_step(repo@, p, ges, j as int, polarity, emit_empty);
                    assert(f0 + rel_clauses(repo@, p, ges.take(j + 1), polarity, emit_empty)
                        =~= clauses_view(formula@));
                    lemma_provider_lits_vars(provs, polarity);
                    assert forall|ci: int, li: int|
                        0 <= ci < clauses_view(formula@).len() && 0 <= li < clauses_view(
                            formula@,
                        )[ci].len() implies (#[trigger] clauses_view(formula@)[ci][li]).var
                        < repo@.len() by {
                        if ci < fmid.len() {
                            assert(clauses_view(formula@)[ci] == fmid[ci]);
                            assert(fmid[ci][li].var < repo@.len());
                        } else {
                            assert(clauses_view(formula@)[ci] == clause@);
                            if li == 0 {
                                assert(clause@[0] == neg_lit(p));
                            } else {
                                assert(clause@[li] == provider_lits(provs, polarity)[li - 1]);
                                assert(provs[li - 1] < repo@.len());
                            }
                        }
                    }
                }
                // enqueue providers not seen before
                let mut k2: usize = 0;
                proof {
                    assert(pv@.take(0) =~= Seq::<IdT>::empty());
                    assert(queue@ =~= queue@ + enqueue_news(pv@.take(0), vmid).0);
                }
                while k2 < pv.len()
                    invariant
                        0 <= k2 <= pv@.len(),
                        pv@ == provs,
                        visited@.len() == repo@.len(),
                        forall|m: int| 0 <= m < provs.len() ==> (#[trigger] provs[m]) < repo@.len(),
                        queue@ == qmid + enqueue_news(pv@.take(k2 as int), vmid).0,
                        visited@ == enqueue_news(pv@.take(k2 as int), vmid).1,
                    decreases pv@.len() - k2,
                {
                    let id = pv[k2];
                    let ghost ek = enqueue_news(pv@.take(k2 as int), vmid);
                    proof {
                        assert(provs[k2 as int] < repo@.len());
                        assert(pv@.take(k2 + 1) =~= pv@.take(k2 as int) + seq![pv@[k2 as int]]);
                        lemma_enqueue_concat(pv@.take(k2 as int), seq![pv@[k2 as int]], vmid);
                        assert(seq![pv@[k2 as int]][0] == id);
                        assert(seq![pv@[k2 as int]].drop_first() =~= Seq::<IdT>::empty());
                        assert(visited@ == ek.1);
                        assert(id < ek.1.len());
                    }
                    if !visited[id] {
                        proof {
                            assert(!ek.1[id as int]);
                            assert(enqueue_news(seq![pv@[k2 as int]], ek.1) == (
                                seq![id] + enqueue_news(
                                    Seq::<IdT>::empty(),
                                    ek.1.update(id as int, true),
                                ).0,
                                enqueue_news(Seq::<IdT>::empty(), ek.1.update(id as int, true)).1,
                            ));
                            assert(enqueue_news(seq![pv@[k2 as int]], ek.1).0 =~= seq![id]);
                        }
                        visited.set(id, true);
                        queue.push(id);
                        proof {
                            assert(queue@ =~= qmid + (ek.0 + seq![id]));
                        }
                    } else {
                        proof {
                            assert(ek.1[id as int]);
                            assert(enqueue_news(seq![pv@[k2 as int]], ek.1) == enqueue_news(
                                Seq::<IdT>::empty(),
                                ek.1,
                            ));
                            assert(enqueue_news(seq![pv@[k2 as int]], ek.1).0
                                =~= Seq::<IdT>::empty());
                            assert(ek.0 + Seq::<IdT>::empty() =~= ek.0);
                        }
                    }
                    k2 = k2 + 1;
                }
                proof {
                    assert(pv@.take(pv@.len() as int) =~= pv@);
                    lemma_entries_stream_step(repo@, ges, j as int);
                    lemma_enqueue_concat(stream0, provs, v0);
                    assert(queue@ =~= q0 + enqueue_news(entries_stream(repo@, ges.take(j + 1)),
                        v0,
                    ).0);
                }
            },
            None => {
                proof {
                    assert(provs.len() == 0);
                    lemma_rel_clauses_step(repo@, p, ges, j as int, polarity, emit_empty);
                    lemma_entries_stream_step(repo@, ges, j as int);
                    lemma_enqueue_concat(stream0, provs, v0);
                    assert(provs =~= Seq::<IdT>::empty());
                    assert(enqueue_news(provs, vmid).0 =~= Seq::<IdT>::empty());
                    assert(qmid + Seq::<IdT>::empty() =~= qmid);
                }
                if emit_empty {
                    let mut clause: Vec<Lit> = Vec::new();
                    clause.push(Lit { var: p, pos: false });
                    let ghost fmid = clauses_view(formula@);
                    formula.push(clause);
                    proof {
                        assert(provider_lits(provs, polarity) =~= Seq::<Lit>::empty());
                        assert(clause@ =~= seq![neg_lit(p)] + provider_lits(provs, polarity));
                        assert(clauses_view(formula@) =~= fmid.push(clause@));
                        assert(f0 + rel_clauses(repo@, p, ges.take(j + 1), polarity, emit_empty)
                            =~= clauses_view(formula@));
                        assert forall|ci: int, li: int|
                            0 <= ci < clauses_view(formula@).len() && 0 <= li < clauses_view(
                                formula@,
                            )[ci].len() implies (#[trigger] clauses_view(formula@)[ci][li]).var
                            < repo@.len() by {
                            if ci < fmid.len() {
                                assert(clauses_view(formula@)[ci] == fmid[ci]);
                                assert(fmid[ci][li].var < repo@.len());
                            } else {
                                assert(clauses_view(formula@)[ci] == clause@);
                                assert(clause@[li] == neg_lit(p));
                            }
                        }
                    }
                }
            },
        }
        j = j + 1;
    }
    proof {
        assert(ges.take(ges.len() as int) =~= ges);
    }
}

/// Encodes the CNF formula for a root package: breadth-first over the
/// packages the root's relations reach, emitting each visited package's
/// clauses in order. The result is exactly `spec_encode`, so equal
/// repositories and roots give the identical formula.
#[verifier::loop_isolation(false)]
#[verifier::rlimit(100)]
pub fn get_formula_by_package_id(repo: &Repo, package_id: IdT) -> (f: CnfFormula)
    requires
        repo.wf(),
        package_id < repo@.len(),
    ensures
        f@ == spec_encode(repo@, package_id),
        vars_bounded(f@, repo@.len()),
{
    let n = repo.package_count();
    let mut visited: Vec<bool> = Vec::new();
    let mut t: usize = 0;
    while t < n
        invariant
            0 <= t <= n,
            visited@.len() == t,
            forall|m: int| 0 <= m < t ==> visited@[m] == (m == package_id as int),
        decreases n - t,
    {
        visited.push(t == package_id);
        t = t + 1;
    }
    proof {
        assert(visited@ =~= init_visited(repo@.len(), package_id));
    }
    let mut queue: Vec<IdT> = Vec::new();
    queue.push(package_id);
    let mut formula: Vec<Vec<Lit>> = Vec::new();
    let mut head: usize = 0;
    proof {
        assert(queue@.skip(0) =~= seq![package_id]);
        assert(clauses_view(formula@) =~= Seq::<Seq<Lit>>::empty());
        assert(Seq::<Seq<Lit>>::empty() + spec_bfs(repo@, queue@.skip(0), visited@)
            =~= spec_encode(repo@, package_id));
    }
    while head < queue.len()
        invariant
            repo.wf(),
            n == repo@.len(),
            visited@.len() == n,
            head <= queue@.len(),
            forall|k: int| 0 <= k < queue@.len() ==> (#[trigger] queue@[k]) < n,
            clauses_view(formula@) + spec_bfs(repo@, queue@.skip(head as int), visited@)
                == spec_encode(repo@, package_id),
            vars_bounded(clauses_view(formula@), n as nat),
        decreases 2 * count_false(visited@) + queue@.len() - head,
    {
        let ghost qpre = queue@.skip(head as int);
        let ghost vpre = visited@;
        let ghost fpre = clauses_view(formula@);
        let ghost qall = queue@;
        let p = queue[head];
        head = head + 1;
        proof {
            assert(qpre[0] == p);
        }
        let ghost pk = repo@[p as int];
        let ghost s1 = entries_stream(repo@, req_entries(pk));
        let ghost s2 = entries_stream(repo@, con_entries(pk));
        let ghost s3 = entries_stream(repo@, obs_entries(pk));
        match repo.get_package_requires_by_id(p) {
            Some(es) => {
                emit_rel_clauses(
                    repo,
                    p,
                    es,
                    true,
                    true,
                    Ghost(req_entries(pk)),
                    &mut formula,
                    &mut queue,
                    &mut visited,
                );
            },
            None => {
                proof {
                    assert(req_entries(pk) =~= Seq::<EntryView>::empty());
                    assert(rel_clauses(repo@, p, req_entries(pk), true, true) =~= Seq::<
                        Seq<Lit>,
                    >::empty());
                    assert(s1 =~= Seq::<IdT>::empty());
                    assert(clauses_view(formula@) =~= fpre + rel_clauses(repo@, p,
                        req_entries(pk),
                        true,
                        true,
                    ));
                    assert(queue@ =~= qall + enqueue_news(s1, vpre).0);
                }
            },
        }
        let ghost q1 = queue@;
        let ghost v1 = visited@;
        proof {
            assert(v1 == enqueue_news(s1, vpre).1);
        }
        match repo.get_package_conflicts_by_id(p) {
            Some(es) => {
                emit_rel_clauses(
                    repo,
                    p,
                    es,
                    true,
                    false,
                    Ghost(con_entries(pk)),
                    &mut formula,
                    &mut queue,
                    &mut visited,
                );
            },
            None => {
                proof {
                    assert(con_entries(pk) =~= Seq::<EntryView>::empty());
                    assert(rel_clauses(repo@, p, con_entries(pk), true, false) =~= Seq::<
                        Seq<Lit>,
                    >::empty());
                    assert(s2 =~= Seq::<IdT>::empty());
                    assert(clauses_view(formula@) =~= (fpre + rel_clauses(repo@, p,
                        req_entries(pk),
                        true,
                        true,
                    )) + rel_clauses(repo@, p, con_entries(pk), true, false));
                    assert(queue@ =~= q1 + enqueue_news(s2, v1).0);
                }
            },
        }
        let ghost q2 = queue@;
        let ghost v2 = visited@;
        proof {
            assert(v2 == enqueue_news(s2, v1).1);
        }
        match repo.get_package_obsoletes_by_id(p) {
            Some(es) => {
                emit_rel_clauses(
                    repo,
                    p,
                    es,
                    false,
                    false,
                    Ghost(obs_entries(pk)),
                    &mut formula,
                    &mut queue,
                    &mut visited,
                );
            },
            None => {
                proof {
                    assert(obs_entries(pk) =~= Seq::<EntryView>::empty());
                    assert(rel_clauses(repo@, p, obs_entries(pk), false, false) =~= Seq::<
                        Seq<Lit>,
                    >::empty());
                    assert(s3 =~= Seq::<IdT>::empty());
                    assert(clauses_view(formula@) =~= ((fpre + rel_clauses(repo@, p,
                        req_entries(pk),
                        true,
                        true,
                    )) + rel_clauses(repo@, p, con_entries(pk), true, false)) + rel_clauses(
                        repo@,
                        p,
                        obs_entries(pk),
                        false,
                        false,
                    ));
                    assert(queue@ =~= q2 + enqueue_news(s3, v2).0);
                }
            },
        }
        proof {
            let v3 = enqueue_news(s3, v2).1;
            assert(visited@ == v3);
            // the three relation lists together are the package's clauses
            assert(clauses_view(formula@) =~= fpre + package_clauses(repo@, p));
            // the three streams together are the package's provider stream
            assert(provider_stream(repo@, p) == (s1 + s2) + s3);
            lemma_enqueue_concat(s1 + s2, s3, vpre);
            lemma_enqueue_concat(s1, s2, vpre);
            let news = enqueue_news(provider_stream(repo@, p), vpre);
            assert(news.1 == v3);
            assert(news.0 =~= (enqueue_news(s1, vpre).0 + enqueue_news(s2, v1).0) + enqueue_news(
                s3,
                v2,
            ).0);
            assert(queue@ =~= qall + news.0);
            // one unfolding of the traversal spec
            assert(spec_bfs(repo@, qpre, vpre) == package_clauses(repo@, p) + spec_bfs(
                repo@,
                qpre.drop_first() + news.0,
                news.1,
            ));
            assert(queue@.skip(head as int) =~= qpre.drop_first() + news.0);
            assert((fpre + package_clauses(repo@, p)) + spec_bfs(
                repo@,
                queue@.skip(head as int),
                visited@,
            ) =~= fpre + (package_clauses(repo@, p) + spec_bfs(
                repo@,
                queue@.skip(head as int),
                visited@,
            )));
            // the new queue entries are valid ids, and the measure drops
            lemma_enqueue_news(provider_stream(repo@, p), vpre);
            assert forall|k: int| 0 <= k < queue@.len() implies (#[trigger] queue@[k]) < n by {
                if k < qall.len() {
                    assert(queue@[k] == qall[k]);
                } else {
                    assert(queue@[k] == news.0[k - qall.len()]);
                }
            }
        }
    }
    proof {
        assert(queue@.skip(queue@.len() as int) =~= Seq::<IdT>::empty());
        assert(clauses_view(formula@) + Seq::<Seq<Lit>>::empty() =~= clauses_view(formula@));
    }
    CnfFormula { clauses: formula }
}

/// Relies on varisat: `CnfFormula::add_clause` records each clause as
/// given, `Solver::add_formula` loads them, and `Solver::solve` returns
/// `Ok(true)` exactly when the loaded formula is satisfiable and
/// `Ok(false)` when it is not. `solve` can err only when interrupted
/// through an interrupt handle or when proof logging hits an I/O
/// failure; this body creates no interrupt handle and configures no
/// proof output, so the call returns an answer.
#[verifier::external_body]
fn varisat_check(clauses: &Vec<Vec<Lit>>) -> (r: Option<bool>)
    requires
        vars_bounded(clauses_view(clauses@), 0x1000_0000),
    ensures
        r is Some,
        r is Some ==> r->Some_0 == satisfiable(clauses_view(clauses@)),
{
    let mut formula = varisat::CnfFormula::new();
    for clause in clauses.iter() {
        let mut lits: Vec<varisat::Lit> = Vec::new();
        for l in clause.iter() {
            lits.push(varisat::Lit::from_index(l.var, l.pos));
        }
        formula.add_clause(&lits);
    }
    let mut solver = varisat::solver::Solver::new();
    solver.add_formula(&formula);
    match solver.solve() {
        Ok(b) => Some(b),
        Err(_) => None,
    }
}

proof fn lemma_rel_clauses_full(pkgs: Seq<PackageView>, p: IdT, es: Seq<EntryView>, polarity: bool)
    ensures
        rel_clauses(pkgs, p, es, polarity, true).len() == es.len(),
        forall|j: int|
            0 <= j < es.len() ==> #[trigger] rel_clauses(pkgs, p, es, polarity, true)[j]
                == seq![neg_lit(p)] + provider_lits(providers_seq(pkgs, es[j].name), polarity),
    decreases es.len(),
{
    if es.len() > 0 {
        lemma_rel_clauses_full(pkgs, p, es.drop_last(), polarity);
        assert forall|j: int|
            0 <= j < es.len() implies #[trigger] rel_clauses(pkgs, p, es, polarity, true)[j]
            == seq![neg_lit(p)] + provider_lits(providers_seq(pkgs, es[j].name), polarity) by {
            if j < es.len() - 1 {
                assert(es.drop_last()[j] == es[j]);
                assert(rel_clauses(pkgs, p, es, polarity, true)[j] == rel_clauses(
                    pkgs,
                    p,
                    es.drop_last(),
                    polarity,
                    true,
                )[j]);
            } else {
                assert(es.last() == es[j]);
            }
        }
    }
}

proof fn lemma_rel_clauses_contains(
    pkgs: Seq<PackageView>,
    p: IdT,
    es: Seq<EntryView>,
    polarity: bool,
    emit_empty: bool,
    j: int,
)
    requires
        0 <= j < es.len(),
        providers_seq(pkgs, es[j].name).len() > 0 || emit_empty,
    ensures
        rel_clauses(pkgs, p, es, polarity, emit_empty).contains(
            seq![neg_lit(p)] + provider_lits(providers_seq(pkgs, es[j].name), polarity),
        ),
    decreases es.len(),
{
    let c = seq![neg_lit(p)] + provider_lits(providers_seq(pkgs, es[j].name), polarity);
    let prev = rel_clauses(pkgs, p, es.drop_last(), polarity, emit_empty);
    if j == es.len() - 1 {
        assert(es.last() == es[j]);
        assert(rel_clauses(pkgs, p, es, polarity, emit_empty)[prev.len() as int] == c);
    } else {
        assert(es.drop_last()[j] == es[j]);
        lemma_rel_clauses_contains(pkgs, p, es.drop_last(), polarity, emit_empty, j);
        let idx = choose|idx: int| 0 <= idx < prev.len() && prev[idx] == c;
        assert(rel_clauses(pkgs, p, es, polarity, emit_empty)[idx] == c);
    }
}

/// The first unfolding of the traversal: the encoded formula opens with
/// the root's own clauses.
proof fn lemma_encode_head(pkgs: Seq<PackageView>, root: IdT)
    ensures
        spec_encode(pkgs, root) == package_clauses(pkgs, root) + spec_bfs(
            pkgs,
            seq![root].drop_first() + enqueue_news(
                provider_stream(pkgs, root),
                init_visited(pkgs.len(), root),
            ).0,
            enqueue_news(provider_stream(pkgs, root), init_visited(pkgs.len(), root)).1,
        ),
{
    assert(seq![root].len() == 1);
    assert(seq![root][0] == root);
}

/// Encoding soundness for requires: when the root requires a capability
/// without any provider, the formula with the root asserted has no model.
pub proof fn lemma_missing_requirement_unsat(pkgs: Seq<PackageView>, root: IdT, j: int)
    requires
        root < pkgs.len(),
        0 <= j < req_entries(pkgs[root as int]).len(),
        providers_seq(pkgs, req_entries(pkgs[root as int])[j].name).len() == 0,
    ensures
        !satisfiable(spec_encode(pkgs, root).push(seq![pos_lit(root)])),
{
    let es = req_entries(pkgs[root as int]);
    let reqc = rel_clauses(pkgs, root, es, true, true);
    lemma_rel_clauses_full(pkgs, root, es, true);
    assert(provider_lits(providers_seq(pkgs, es[j].name), true) =~= Seq::<Lit>::empty());
    assert(reqc[j] =~= seq![neg_lit(root)]);
    assert(package_clauses(pkgs, root)[j] == reqc[j]);
    lemma_encode_head(pkgs, root);
    assert(spec_encode(pkgs, root)[j] == reqc[j]);
    let f = spec_encode(pkgs, root).push(seq![pos_lit(root)]);
    assert(f[j] =~= seq![neg_lit(root)]);
    let last = f.len() - 1;
    assert(f[last] == seq![pos_lit(root)]);
    assert forall|a: Map<int, bool>| !(a.dom() == Set::<int>::full() && formula_sat(a, f)) by {
        if a.dom() == Set::<int>::full() && formula_sat(a, f) {
            assert(clause_sat(a, f[j]));
            let k = choose|k: int| 0 <= k < f[j].len() && lit_sat(a, f[j][k]);
            assert(f[j][k] == neg_lit(root));
            assert(a[root as int] == false);
            assert(clause_sat(a, f[last]));
            let k2 = choose|k2: int| 0 <= k2 < f[last].len() && lit_sat(a, f[last][k2]);
            assert(f[last][k2] == pos_lit(root));
            assert(a[root as int] == true);
        }
    }
    assert(!satisfiable(f));
}

/// Encoding soundness for obsoletes, for a capability with exactly one
/// provider: no model installs both the root and that provider. (With
/// several providers the emitted clause only rules out installing all of
/// them at once, so the per-provider claim is stated for the
/// single-provider case.)
pub proof fn lemma_obsoleted_provider_unsat(pkgs: Seq<PackageView>, root: IdT, j: int, q: IdT)
    requires
        root < pkgs.len(),
        0 <= j < obs_entries(pkgs[root as int]).len(),
        providers_seq(pkgs, obs_entries(pkgs[root as int])[j].name) == seq![q],
    ensures
        forall|a: Map<int, bool>|
            (a[root as int] == true && a[q as int] == true) ==> !formula_sat(
                a,
                spec_encode(pkgs, root),
            ),
{
    let es = obs_entries(pkgs[root as int]);
    let provs = providers_seq(pkgs, es[j].name);
    let c = seq![neg_lit(root)] + provider_lits(provs, false);
    assert(provider_lits(provs, false) =~= seq![neg_lit(q)]) by {
        assert(provs.len() == 1);
        assert(provs.drop_last() =~= Seq::<IdT>::empty());
        assert(provider_lits(provs.drop_last(), false) =~= Seq::<Lit>::empty());
        assert(provs.last() == q);
        assert(provider_lits(provs, false) == provider_lits(provs.drop_last(), false).push(
            Lit { var: q, pos: false },
        ));
    }
    assert(c =~= seq![neg_lit(root), neg_lit(q)]);
    lemma_rel_clauses_contains(pkgs, root, es, false, false, j);
    let obsc = rel_clauses(pkgs, root, es, false, false);
    let idx = choose|idx: int| 0 <= idx < obsc.len() && obsc[idx] == c;
    let reqc = rel_clauses(pkgs, root, req_entries(pkgs[root as int]), true, true);
    let conc = rel_clauses(pkgs, root, con_entries(pkgs[root as int]), true, false);
    let off = reqc.len() + conc.len();
    assert(package_clauses(pkgs, root)[off + idx] == c);
    lemma_encode_head(pkgs, root);
    assert(spec_encode(pkgs, root)[off + idx] == c);
    assert forall|a: Map<int, bool>|
        (a[root as int] == true && a[q as int] == true) implies !formula_sat(
        a,
        spec_encode(pkgs, root),
    ) by {
        if formula_sat(a, spec_encode(pkgs, root)) {
            assert(clause_sat(a, spec_encode(pkgs, root)[off + idx]));
            let k = choose|k: int| 0 <= k < c.len() && lit_sat(a, c[k]);
            assert(c[0] == neg_lit(root) && c[1] == neg_lit(q));
            if k == 0 {
                assert(a[root as int] == false);
            } else {
                assert(a[q as int] == false);
            }
        }
    }
}

/// Conflict-free root: a package with no relation sections encodes to the
/// empty formula, and with the root asserted it is trivially satisfiable.
pub proof fn lemma_no_relations_satisfiable(pkgs: Seq<PackageView>, root: IdT)
    requires
        root < pkgs.len(),
        pkgs[root as int].format.requires is None,
        pkgs[root as int].format.conflicts is None,
        pkgs[root as int].format.obsoletes is None,
    ensures
        spec_encode(pkgs, root) == Seq::<Seq<Lit>>::empty(),
        satisfiable(spec_encode(pkgs, root).push(seq![pos_lit(root)])),
{
    assert(req_entries(pkgs[root as int]) =~= Seq::<EntryView>::empty());
    assert(con_entries(pkgs[root as int]) =~= Seq::<EntryView>::empty());
    assert(obs_entries(pkgs[root as int]) =~= Seq::<EntryView>::empty());
    assert(package_clauses(pkgs, root) =~= Seq::<Seq<Lit>>::empty());
    assert(provider_stream(pkgs, root) =~= Seq::<IdT>::empty());
    lemma_encode_head(pkgs, root);
    let vis = init_visited(pkgs.len(), root);
    assert(enqueue_news(provider_stream(pkgs, root), vis) == (Seq::<IdT>::empty(), vis));
    assert(seq![root].drop_first() + Seq::<IdT>::empty() =~= Seq::<IdT>::empty());
    assert(spec_bfs(pkgs, Seq::<IdT>::empty(), vis) =~= Seq::<Seq<Lit>>::empty());
    assert(spec_encode(pkgs, root) =~= Seq::<Seq<Lit>>::empty());
    let f = spec_encode(pkgs, root).push(seq![pos_lit(root)]);
    let a = Map::<int, bool>::total(|_i: int| true);
    assert(a.dom() =~= Set::<int>::full());
    assert(a[root as int] == true);
    assert(f[0][0] == pos_lit(root));
    assert(clause_sat(a, f[0])) by {
        assert(lit_sat(a, f[0][0]));
    }
    assert forall|k: int| 0 <= k < f.len() implies clause_sat(a, #[trigger] f[k]) by {
        assert(k == 0);
    }
    assert(satisfiable(f));
}

/// One dependency edge: package `p`'s relation entries name a capability
/// that `q` provides.
pub open spec fn dep_edge(pkgs: Seq<PackageView>, p: IdT, q: IdT) -> bool {
    provider_stream(pkgs, p).contains(q)
}

pub open spec fn reaches_in(pkgs: Seq<PackageView>, root: IdT, q: IdT, k: nat) -> bool
    decreases k,
{
    if k == 0 {
        q == root
    } else {
        exists|m: IdT| reaches_in(pkgs, root, m, (k - 1) as nat) && dep_edge(pkgs, m, q)
    }
}

/// `q` is the root or lies on a chain of dependency edges from it.
pub open spec fn reachable(pkgs: Seq<PackageView>, root: IdT, q: IdT) -> bool {
    exists|k: nat| reaches_in(pkgs, root, q, k)
}

proof fn lemma_reachable_step(pkgs: Seq<PackageView>, root: IdT, m: IdT, q: IdT)
    requires
        reachable(pkgs, root, m),
        dep_edge(pkgs, m, q),
    ensures
        reachable(pkgs, root, q),
{
    let k = choose|k: nat| reaches_in(pkgs, root, m, k);
    assert(reaches_in(pkgs, root, m, ((k + 1) as nat - 1) as nat));
    assert(reaches_in(pkgs, root, q, (k + 1) as nat));
}

proof fn lemma_rel_clauses_vars(
    pkgs: Seq<PackageView>,
    p: IdT,
    es: Seq<EntryView>,
    polarity: bool,
    emit_empty: bool,
    ci: int,
    li: int,
)
    requires
        0 <= ci < rel_clauses(pkgs, p, es, polarity, emit_empty).len(),
        0 <= li < rel_clauses(pkgs, p, es, polarity, emit_empty)[ci].len(),
    ensures
        rel_clauses(pkgs, p, es, polarity, emit_empty)[ci][li].var == p || entries_stream(
            pkgs,
            es,
        ).contains(rel_clauses(pkgs, p, es, polarity, emit_empty)[ci][li].var),
    decreases es.len(),
{
    let cs = rel_clauses(pkgs, p, es, polarity, emit_empty);
    let prev = rel_clauses(pkgs, p, es.drop_last(), polarity, emit_empty);
    let provs = providers_seq(pkgs, es.last().name);
    let spre = entries_stream(pkgs, es.drop_last());
    if ci < prev.len() {
        assert(cs[ci] == prev[ci]);
        lemma_rel_clauses_vars(pkgs, p, es.drop_last(), polarity, emit_empty, ci, li);
        if spre.contains(prev[ci][li].var) {
            let k = choose|k: int| 0 <= k < spre.len() && spre[k] == prev[ci][li].var;
            assert(entries_stream(pkgs, es)[k] == prev[ci][li].var);
        }
    } else {
        let c = seq![neg_lit(p)] + provider_lits(provs, polarity);
        assert(cs[ci] == c);
        if li > 0 {
            lemma_provider_lits_vars(provs, polarity);
            assert(c[li] == provider_lits(provs, polarity)[li - 1]);
            assert(c[li].var == provs[li - 1]);
            assert(entries_stream(pkgs, es)[spre.len() + li - 1] == provs[li - 1]);
        }
    }
}

proof fn lemma_package_clauses_vars(pkgs: Seq<PackageView>, p: IdT, ci: int, li: int)
    requires
        0 <= ci < package_clauses(pkgs, p).len(),
        0 <= li < package_clauses(pkgs, p)[ci].len(),
    ensures
        package_clauses(pkgs, p)[ci][li].var == p || provider_stream(pkgs, p).contains(
            package_clauses(pkgs, p)[ci][li].var,
        ),
{
    let pc = package_clauses(pkgs, p);
    let a = rel_clauses(pkgs, p, req_entries(pkgs[p as int]), true, true);
    let b = rel_clauses(pkgs, p, con_entries(pkgs[p as int]), true, false);
    let c = rel_clauses(pkgs, p, obs_entries(pkgs[p as int]), false, false);
    let sa = entries_stream(pkgs, req_entries(pkgs[p as int]));
    let sb = entries_stream(pkgs, con_entries(pkgs[p as int]));
    let sc = entries_stream(pkgs, obs_entries(pkgs[p as int]));
    let v = pc[ci][li].var;
    if ci < a.len() {
        assert(pc[ci] == a[ci]);
        lemma_rel_clauses_vars(pkgs, p, req_entries(pkgs[p as int]), true, true, ci, li);
        if sa.contains(v) {
            let k = choose|k: int| 0 <= k < sa.len() && sa[k] == v;
            assert(provider_stream(pkgs, p)[k] == v);
        }
    } else if ci < a.len() + b.len() {
        assert(pc[ci] == b[ci - a.len()]);
        lemma_rel_clauses_vars(pkgs, p, con_entries(pkgs[p as int]), true, false, ci - a.len(), li);
        if sb.contains(v) {
            let k = choose|k: int| 0 <= k < sb.len() && sb[k] == v;
            assert(provider_stream(pkgs, p)[sa.len() + k] == v);
        }
    } else {
        assert(pc[ci] == c[ci - a.len() - b.len()]);
        lemma_rel_clauses_vars(
            pkgs,
            p,
            obs_entries(pkgs[p as int]),
            false,
            false,
            ci - a.len() - b.len(),
            li,
        );
        if sc.contains(v) {
            let k = choose|k: int| 0 <= k < sc.len() && sc[k] == v;
            assert(provider_stream(pkgs, p)[sa.len() + sb.len() + k] == v);
        }
    }
}

proof fn lemma_bfs_vars_reachable(
    pkgs: Seq<PackageView>,
    root: IdT,
    queue: Seq<IdT>,
    visited: Seq<bool>,
    ci: int,
    li: int,
)
    requires
        visited.len() <= usize::MAX,
        forall|t: int| 0 <= t < queue.len() ==> reachable(pkgs, root, #[trigger] queue[t]),
        forall|v: int|
            0 <= v < visited.len() && #[trigger] visited[v] ==> reachable(pkgs, root, v as IdT),
        0 <= ci < spec_bfs(pkgs, queue, visited).len(),
        0 <= li < spec_bfs(pkgs, queue, visited)[ci].len(),
    ensures
        reachable(pkgs, root, spec_bfs(pkgs, queue, visited)[ci][li].var),
    decreases 2 * count_false(visited) + queue.len(),
{
    assert(queue.len() > 0);
    let p = queue[0];
    let stream = provider_stream(pkgs, p);
    let r = enqueue_news(stream, visited);
    lemma_enqueue_news(stream, visited);
    let pc = package_clauses(pkgs, p);
    let q2 = queue.drop_first() + r.0;
    let rest = spec_bfs(pkgs, q2, r.1);
    assert(spec_bfs(pkgs, queue, visited) == pc + rest);
    if ci < pc.len() {
        assert(spec_bfs(pkgs, queue, visited)[ci] == pc[ci]);
        lemma_package_clauses_vars(pkgs, p, ci, li);
        let v = pc[ci][li].var;
        if v != p {
            lemma_reachable_step(pkgs, root, p, v);
        }
    } else {
        assert forall|t: int| 0 <= t < q2.len() implies reachable(pkgs, root, #[trigger] q2[t]) by {
            if t < queue.len() - 1 {
                assert(q2[t] == queue[t + 1]);
            } else {
                assert(q2[t] == r.0[t - (queue.len() - 1)]);
                assert(stream.contains(q2[t]));
                lemma_reachable_step(pkgs, root, p, q2[t]);
            }
        }
        assert forall|v: int|
            0 <= v < r.1.len() && #[trigger] r.1[v] implies reachable(pkgs, root, v as IdT) by {
            if !visited[v] {
                assert(r.0.contains(v as usize));
                let k = choose|k: int| 0 <= k < r.0.len() && r.0[k] == v as usize;
                assert(stream.contains(r.0[k]));
                lemma_reachable_step(pkgs, root, p, v as usize);
            }
        }
        assert(spec_bfs(pkgs, queue, visited)[ci] == rest[ci - pc.len()]);
        lemma_bfs_vars_reachable(pkgs, root, q2, r.1, ci - pc.len(), li);
    }
}

/// Reachability: every package id standing as a literal in the encoded
/// formula is the root itself or reachable from it along provider edges
/// of the requires / conflicts / obsoletes relations.
pub proof fn lemma_encoded_literals_reachable(pkgs: Seq<PackageView>, root: IdT, ci: int, li: int)
    requires
        pkgs.len() <= usize::MAX,
        0 <= ci < spec_encode(pkgs, root).len(),
        0 <= li < spec_encode(pkgs, root)[ci].len(),
    ensures
        reachable(pkgs, root, spec_encode(pkgs, root)[ci][li].var),
{
    assert(reaches_in(pkgs, root, root, 0));
    assert(reachable(pkgs, root, root));
    let vis = init_visited(pkgs.len(), root);
    assert forall|v: int| 0 <= v < vis.len() && #[trigger] vis[v] implies reachable(
        pkgs,
        root,
        v as IdT,
    ) by {
        assert(v == root as int);
        assert(v as usize == root);
    }
    assert forall|t: int| 0 <= t < seq![root].len() implies reachable(
        pkgs,
        root,
        #[trigger] seq![root][t],
    ) by {
        assert(seq![root][t] == root);
    }
    lemma_bfs_vars_reachable(pkgs, root, seq![root], vis, ci, li);
}

proof fn lemma_entries_stream_bounds(pkgs: Seq<PackageView>, es: Seq<EntryView>)
    ensures
        forall|k: int|
            0 <= k < entries_stream(pkgs, es).len() ==> (#[trigger] entries_stream(pkgs, es)[k])
                < pkgs.len(),
    decreases es.len(),
{
    if es.len() > 0 {
        lemma_entries_stream_bounds(pkgs, es.drop_last());
        lemma_providers_seq_bounds(pkgs, es.last().name);
        let pre = entries_stream(pkgs, es.drop_last());
        let provs = providers_seq(pkgs, es.last().name);
        assert forall|k: int|
            0 <= k < entries_stream(pkgs, es).len() implies (#[trigger] entries_stream(
            pkgs,
            es,
        )[k]) < pkgs.len() by {
            if k < pre.len() {
                assert(entries_stream(pkgs, es)[k] == pre[k]);
            } else {
                assert(entries_stream(pkgs, es)[k] == provs[k - pre.len()]);
            }
        }
    }
}

proof fn lemma_provider_stream_bounds(pkgs: Seq<PackageView>, p: IdT)
    ensures
        forall|k: int|
            0 <= k < provider_stream(pkgs, p).len() ==> (#[trigger] provider_stream(pkgs, p)[k])
                < pkgs.len(),
{
    if p < pkgs.len() {
        let sa = entries_stream(pkgs, req_entries(pkgs[p as int]));
        let sb = entries_stream(pkgs, con_entries(pkgs[p as int]));
        let sc = entries_stream(pkgs, obs_entries(pkgs[p as int]));
        lemma_entries_stream_bounds(pkgs, req_entries(pkgs[p as int]));
        lemma_entries_stream_bounds(pkgs, con_entries(pkgs[p as int]));
        lemma_entries_stream_bounds(pkgs, obs_entries(pkgs[p as int]));
        assert forall|k: int|
            0 <= k < provider_stream(pkgs, p).len() implies (#[trigger] provider_stream(
            pkgs,
            p,
        )[k]) < pkgs.len() by {
            if k < sa.len() {
                assert(provider_stream(pkgs, p)[k] == sa[k]);
            } else if k < sa.len() + sb.len() {
                assert(provider_stream(pkgs, p)[k] == sb[k - sa.len()]);
            } else {
                assert(provider_stream(pkgs, p)[k] == sc[k - sa.len() - sb.len()]);
            }
        }
    }
}

/// All clauses of one package stand in a formula.
spec fn emitted_all(pkgs: Seq<PackageView>, p: IdT, f: Seq<Seq<Lit>>) -> bool {
    forall|k: int|
        0 <= k < package_clauses(pkgs, p).len() ==> f.contains(
            #[trigger] package_clauses(pkgs, p)[k],
        )
}

/// The completeness of the traversal, stated over a partial run: with
/// `done` holding what earlier steps emitted, every package mentioned as
/// a variable anywhere in the total formula has all of its own clauses in
/// that formula.
proof fn lemma_total_occ(
    pkgs: Seq<PackageView>,
    done: Seq<Seq<Lit>>,
    queue: Seq<IdT>,
    visited: Seq<bool>,
    ci: int,
    li: int,
    cl: Seq<Lit>,
)
    requires
        visited.len() == pkgs.len(),
        pkgs.len() <= usize::MAX,
        forall|t: int|
            0 <= t < queue.len() ==> (#[trigger] queue[t]) < visited.len() && visited[queue[t] as int],
        forall|m: int|
            0 <= m < visited.len() && #[trigger] visited[m] ==> queue.contains(m as IdT)
                || emitted_all(pkgs, m as IdT, done),
        forall|c2: int, l2: int|
            0 <= c2 < done.len() && 0 <= l2 < done[c2].len() ==> (#[trigger] done[c2][l2]).var
                < visited.len() && visited[done[c2][l2].var as int],
        0 <= ci < (done + spec_bfs(pkgs, queue, visited)).len(),
        0 <= li < (done + spec_bfs(pkgs, queue, visited))[ci].len(),
        package_clauses(pkgs, (done + spec_bfs(pkgs, queue, visited))[ci][li].var).contains(cl),
    ensures
        (done + spec_bfs(pkgs, queue, visited)).contains(cl),
    decreases 2 * count_false(visited) + queue.len(),
{
    let f = done + spec_bfs(pkgs, queue, visited);
    if queue.len() == 0 {
        assert(spec_bfs(pkgs, queue, visited) =~= Seq::<Seq<Lit>>::empty());
        assert(f =~= done);
        assert(f[ci] == done[ci]);
        let v0 = done[ci][li].var;
        assert(visited[v0 as int]);
        assert(!queue.contains(v0 as IdT));
        assert(emitted_all(pkgs, v0, done));
        let k = choose|k: int|
            0 <= k < package_clauses(pkgs, v0).len() && package_clauses(pkgs, v0)[k] == cl;
        assert(done.contains(package_clauses(pkgs, v0)[k]));
    } else {
        let p = queue[0];
        let stream = provider_stream(pkgs, p);
        let r = enqueue_news(stream, visited);
        lemma_enqueue_news(stream, visited);
        lemma_provider_stream_bounds(pkgs, p);
        let pc = package_clauses(pkgs, p);
        let done2 = done + pc;
        let queue2 = queue.drop_first() + r.0;
        let vis2 = r.1;
        assert(spec_bfs(pkgs, queue, visited) == pc + spec_bfs(pkgs, queue2, vis2));
        assert(f =~= done2 + spec_bfs(pkgs, queue2, vis2));
        assert forall|t: int|
            0 <= t < queue2.len() implies (#[trigger] queue2[t]) < vis2.len() && vis2[queue2[t] as int] by {
            if t < queue.len() - 1 {
                assert(queue2[t] == queue[t + 1]);
            } else {
                assert(queue2[t] == r.0[t - (queue.len() - 1)]);
                assert(stream.contains(queue2[t]));
            }
        }
        assert(emitted_all(pkgs, p, done2)) by {
            assert forall|k: int| 0 <= k < pc.len() implies done2.contains(#[trigger] pc[k]) by {
                assert(done2[done.len() + k] == pc[k]);
            }
        }
        assert forall|m: int|
            0 <= m < vis2.len() && #[trigger] vis2[m] implies queue2.contains(m as IdT)
                || emitted_all(pkgs, m as IdT, done2) by {
            if visited[m] {
                if queue.contains(m as IdT) {
                    let t = choose|t: int| 0 <= t < queue.len() && queue[t] == m as IdT;
                    if t == 0 {
                        assert(m as IdT == p);
                    } else {
                        assert(queue2[t - 1] == queue[t]);
                        assert(queue2.contains(m as IdT));
                    }
                } else {
                    assert(emitted_all(pkgs, m as IdT, done));
                    assert(emitted_all(pkgs, m as IdT, done2)) by {
                        let pcm = package_clauses(pkgs, m as IdT);
                        assert forall|k: int|
                            0 <= k < pcm.len() implies done2.contains(#[trigger] pcm[k]) by {
                            assert(done.contains(pcm[k]));
                            let idx = choose|idx: int|
                                0 <= idx < done.len() && done[idx] == pcm[k];
                            assert(done2[idx] == pcm[k]);
                        }
                    }
                }
            } else {
                assert(r.0.contains(m as usize));
                let k = choose|k: int| 0 <= k < r.0.len() && r.0[k] == m as usize;
                assert(queue2[queue.len() - 1 + k] == m as usize);
                assert(queue2.contains(m as IdT));
            }
        }
        assert forall|c2: int, l2: int|
            0 <= c2 < done2.len() && 0 <= l2 < done2[c2].len() implies (#[trigger] done2[c2][l2]).var
            < vis2.len() && vis2[done2[c2][l2].var as int] by {
            if c2 < done.len() {
                assert(done2[c2] == done[c2]);
                assert(done[c2][l2].var < visited.len() && visited[done[c2][l2].var as int]);
            } else {
                assert(done2[c2] == pc[c2 - done.len()]);
                lemma_package_clauses_vars(pkgs, p, c2 - done.len(), l2);
                let v = pc[c2 - done.len()][l2].var;
                if v == p {
                    assert(visited[p as int]);
                } else {
                    assert(stream.contains(v));
                }
            }
        }
        assert((done2 + spec_bfs(pkgs, queue2, vis2))[ci] == f[ci]);
        lemma_total_occ(pkgs, done2, queue2, vis2, ci, li, cl);
    }
}

/// Every package the encoded formula mentions as a variable was itself
/// visited by the traversal, so all of its own clauses stand in the
/// formula too.
pub proof fn lemma_encoded_var_clauses_present(
    pkgs: Seq<PackageView>,
    root: IdT,
    ci: int,
    li: int,
    cl: Seq<Lit>,
)
    requires
        pkgs.len() <= usize::MAX,
        root < pkgs.len(),
        0 <= ci < spec_encode(pkgs, root).len(),
        0 <= li < spec_encode(pkgs, root)[ci].len(),
        package_clauses(pkgs, spec_encode(pkgs, root)[ci][li].var).contains(cl),
    ensures
        spec_encode(pkgs, root).contains(cl),
{
    let vis = init_visited(pkgs.len(), root);
    let f = Seq::<Seq<Lit>>::empty() + spec_bfs(pkgs, seq![root], vis);
    assert(f =~= spec_encode(pkgs, root));
    assert(seq![root][0] == root);
    lemma_total_occ(pkgs, Seq::<Seq<Lit>>::empty(), seq![root], vis, ci, li, cl);
    let idx = choose|idx: int| 0 <= idx < f.len() && f[idx] == cl;
    assert(spec_encode(pkgs, root)[idx] == cl);
}

/// Encoding soundness for requires, generalized from the root to every
/// package the formula mentions: when such a package requires a
/// capability without any provider, the formula with that package
/// asserted has no model.
pub proof fn lemma_missing_requirement_unsat_for_var(
    pkgs: Seq<PackageView>,
    root: IdT,
    ci: int,
    li: int,
    j: int,
)
    requires
        pkgs.len() <= usize::MAX,
        root < pkgs.len(),
        0 <= ci < spec_encode(pkgs, root).len(),
        0 <= li < spec_encode(pkgs, root)[ci].len(),
        spec_encode(pkgs, root)[ci][li].var < pkgs.len(),
        0 <= j < req_entries(pkgs[spec_encode(pkgs, root)[ci][li].var as int]).len(),
        providers_seq(
            pkgs,
            req_entries(pkgs[spec_encode(pkgs, root)[ci][li].var as int])[j].name,
        ).len() == 0,
    ensures
        !satisfiable(
            spec_encode(pkgs, root).push(seq![pos_lit(spec_encode(pkgs, root)[ci][li].var)]),
        ),
{
    let p = spec_encode(pkgs, root)[ci][li].var;
    let es = req_entries(pkgs[p as int]);
    let cl = seq![neg_lit(p)];
    lemma_rel_clauses_full(pkgs, p, es, true);
    let reqc = rel_clauses(pkgs, p, es, true, true);
    assert(provider_lits(providers_seq(pkgs, es[j].name), true) =~= Seq::<Lit>::empty());
    assert(reqc[j] =~= cl);
    assert(package_clauses(pkgs, p)[j] == reqc[j]);
    assert(package_clauses(pkgs, p).contains(cl));
    lemma_encoded_var_clauses_present(pkgs, root, ci, li, cl);
    let idx = choose|idx: int|
        0 <= idx < spec_encode(pkgs, root).len() && spec_encode(pkgs, root)[idx] == cl;
    let f = spec_encode(pkgs, root).push(seq![pos_lit(p)]);
    assert(f[idx] == cl);
    let last = f.len() - 1;
    assert(f[last] == seq![pos_lit(p)]);
    assert forall|a: Map<int, bool>| !(a.dom() == Set::<int>::full() && formula_sat(a, f)) by {
        if a.dom() == Set::<int>::full() && formula_sat(a, f) {
            assert(clause_sat(a, f[idx]));
            let k = choose|k: int| 0 <= k < f[idx].len() && lit_sat(a, f[idx][k]);
            assert(f[idx][k] == neg_lit(p));
            assert(a[p as int] == false);
            assert(clause_sat(a, f[last]));
            let k2 = choose|k2: int| 0 <= k2 < f[last].len() && lit_sat(a, f[last][k2]);
            assert(f[last][k2] == pos_lit(p));
            assert(a[p as int] == true);
        }
    }
    assert(!satisfiable(f));
}

/// Encoding soundness for obsoletes, generalized from the root to every
/// package the formula mentions, for a capability with exactly one
/// provider: no model installs both that package and the provider.
pub proof fn lemma_obsoleted_provider_unsat_for_var(
    pkgs: Seq<PackageView>,
    root: IdT,
    ci: int,
    li: int,
    j: int,
    q: IdT,
)
    requires
        pkgs.len() <= usize::MAX,
        root < pkgs.len(),
        0 <= ci < spec_encode(pkgs, root).len(),
        0 <= li < spec_encode(pkgs, root)[ci].len(),
        spec_encode(pkgs, root)[ci][li].var < pkgs.len(),
        0 <= j < obs_entries(pkgs[spec_encode(pkgs, root)[ci][li].var as int]).len(),
        providers_seq(
            pkgs,
            obs_entries(pkgs[spec_encode(pkgs, root)[ci][li].var as int])[j].name,
        ) == seq![q],
    ensures
        forall|a: Map<int, bool>|
            (a[spec_encode(pkgs, root)[ci][li].var as int] == true && a[q as int] == true)
                ==> !formula_sat(a, spec_encode(pkgs, root)),
{
    let p = spec_encode(pkgs, root)[ci][li].var;
    let es = obs_entries(pkgs[p as int]);
    let provs = providers_seq(pkgs, es[j].name);
    let cl = seq![neg_lit(p)] + provider_lits(provs, false);
    assert(provider_lits(provs, false) =~= seq![neg_lit(q)]) by {
        assert(provs.len() == 1);
        assert(provs.drop_last() =~= Seq::<IdT>::empty());
        assert(provider_lits(provs.drop_last(), false) =~= Seq::<Lit>::empty());
        assert(provs.last() == q);
        assert(provider_lits(provs, false) == provider_lits(provs.drop_last(), false).push(
            Lit { var: q, pos: false },
        ));
    }
    assert(cl =~= seq![neg_lit(p), neg_lit(q)]);
    lemma_rel_clauses_contains(pkgs, p, es, false, false, j);
    let obsc = rel_clauses(pkgs, p, es, false, false);
    let oidx = choose|oidx: int| 0 <= oidx < obsc.len() && obsc[oidx] == cl;
    let reqc = rel_clauses(pkgs, p, req_entries(pkgs[p as int]), true, true);
    let conc = rel_clauses(pkgs, p, con_entries(pkgs[p as int]), true, false);
    let off = reqc.len() + conc.len();
    assert(package_clauses(pkgs, p)[off + oidx] == cl);
    assert(package_clauses(pkgs, p).contains(cl));
    lemma_encoded_var_clauses_present(pkgs, root, ci, li, cl);
    let fidx = choose|fidx: int|
        0 <= fidx < spec_encode(pkgs, root).len() && spec_encode(pkgs, root)[fidx] == cl;
    assert forall|a: Map<int, bool>|
        (a[p as int] == true && a[q as int] == true) implies !formula_sat(
        a,
        spec_encode(pkgs, root),
    ) by {
        if formula_sat(a, spec_encode(pkgs, root)) {
            assert(clause_sat(a, spec_encode(pkgs, root)[fidx]));
            let k = choose|k: int| 0 <= k < cl.len() && lit_sat(a, cl[k]);
            assert(cl[0] == neg_lit(p) && cl[1] == neg_lit(q));
            if k == 0 {
                assert(a[p as int] == false);
            } else {
                assert(a[q as int] == false);
            }
        }
    }
}

/// How a satisfiability query can fail: the queried name is not in the
/// repository, or the solver reported an internal error. Neither is an
/// answer of "not satisfiable". With the way this driver runs varisat
/// (no interruption, no proof logging) a solver failure cannot arise,
/// which the driver's contract reflects; the variant remains as the
/// error surface a solver library owns.
#[derive(Clone, Copy, Debug, PartialEq, Eq, Structural)]
pub enum SolveError {
    NotFound,
    SolverFailure,
}

/// Decides whether the named package and its reachable dependency closure
/// can be installed together: encodes the formula for the lowest package
/// id bearing the name, asserts that root, and asks the solver. A present
/// name is owed a definite answer: exactly the satisfiability of the
/// encoded formula with the root asserted.
pub fn check_package_satisfiability_in_repo(repo: &Repo, package_name: &String) -> (r: Result<
    bool,
    SolveError,
>)
    requires
        repo.wf(),
        repo@.len() <= 0x1000_0000,
    ensures
        r == Result::<bool, SolveError>::Err(SolveError::NotFound) <==> spec_find_by_name(
            repo@,
            package_name@,
        ) is None,
        spec_find_by_name(repo@, package_name@) is Some ==> r == Result::<bool, SolveError>::Ok(
            satisfiable(
                spec_encode(repo@, spec_find_by_name(repo@, package_name@)->Some_0).push(
                    seq![pos_lit(spec_find_by_name(repo@, package_name@)->Some_0)],
                ),
            ),
        ),
{
    match repo.get_package_id_by_name(package_name.as_str()) {
        Some(package_id) => {
            let mut formula = get_formula_by_package_id(repo, package_id);
            let mut unit: Vec<Lit> = Vec::new();
            unit.push(Lit { var: package_id, pos: true });
            let ghost fpre = clauses_view(formula.clauses@);
            let ghost uview = unit@;
            formula.clauses.push(unit);
            proof {
                assert(uview =~= seq![pos_lit(package_id)]);
                assert(clauses_view(formula.clauses@) =~= fpre.push(seq![pos_lit(package_id)]));
                assert forall|ci: int, li: int|
                    0 <= ci < clauses_view(formula.clauses@).len() && 0 <= li < clauses_view(
                        formula.clauses@,
                    )[ci].len() implies (#[trigger] clauses_view(formula.clauses@)[ci][li]).var
                    < 0x1000_0000 by {
                    if ci < fpre.len() {
                        assert(clauses_view(formula.clauses@)[ci] == fpre[ci]);
                        assert(fpre[ci][li].var < repo@.len());
                    } else {
                        assert(clauses_view(formula.clauses@)[ci] == seq![pos_lit(package_id)]);
                    }
                }
            }
            match varisat_check(&formula.clauses) {
                Some(b) => Ok(b),
                None => Err(SolveError::SolverFailure),
            }
        },
        None => Err(SolveError::NotFound),
    }
}

} // verus!
