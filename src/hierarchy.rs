//! The patient / study / series / instance tree built from scanned entries.
use vstd::prelude::*;
use crate::decimal::Decimal;
use crate::directory::DirectoryEntry;
use crate::directory::{number_key, number_key_exec};
use crate::sorting::{sort_by, sort_by_keys};
use crate::spatial::{sort_instances, spatially_sorted};
use crate::propagate::{clone_decimals, decimals_view};

verus! {

/// One file in a series.
#[derive(Clone, Debug)]
pub struct Instance {
    pub path: String,
    pub sop_instance_uid: Option<String>,
    pub instance_number: Option<i32>,
    pub image_position: Option<Vec<Decimal>>,
    pub image_orientation: Option<Vec<Decimal>>,
    pub slice_location: Option<Decimal>,
    pub is_valid: bool,
}

/// A series: its identifying and descriptive attributes and its instances.
#[derive(Clone, Debug)]
pub struct Series {
    pub series_instance_uid: String,
    pub series_number: Option<i32>,
    pub description: Option<String>,
    pub modality: Option<String>,
    pub instances: Vec<Instance>,
}

/// A study and its series.
#[derive(Clone, Debug)]
pub struct Study {
    pub study_instance_uid: String,
    pub study_date: Option<String>,
    pub description: Option<String>,
    pub accession_number: Option<String>,
    pub series: Vec<Series>,
}

/// A patient and their studies.
#[derive(Clone, Debug)]
pub struct Patient {
    pub patient_id: String,
    pub patient_name: Option<String>,
    pub studies: Vec<Study>,
}

/// The key that stands for an absent identifier; files lacking one are
/// grouped together under it.
pub const UNKNOWN_KEY: &'static str = "UNKNOWN";

pub open spec fn key_text(v: Option<String>) -> Seq<char> {
    match v {
        Some(s) => s@,
        None => UNKNOWN_KEY@,
    }
}

pub(crate) fn key_string(v: &Option<String>) -> (r: String)
    ensures
        r@ == key_text(*v),
{
    match v {
        Some(s) => s.clone(),
        None => String::from_str(UNKNOWN_KEY),
    }
}

/// The patient, study and series keys of an entry.
pub open spec fn entry_keys(e: DirectoryEntry) -> (Seq<char>, Seq<char>, Seq<char>) {
    (
        key_text(e.metadata.patient_id),
        key_text(e.metadata.study_instance_uid),
        key_text(e.metadata.series_instance_uid),
    )
}

/// Sum of `f` over a sequence.
pub open spec fn sum_of<A>(s: Seq<A>, f: spec_fn(A) -> int) -> int
    decreases s.len(),
{
    if s.len() == 0 {
        0
    } else {
        sum_of(s.drop_last(), f) + f(s.last())
    }
}

pub open spec fn series_size(s: Series) -> int {
    s.instances@.len() as int
}

pub open spec fn series_sizes() -> spec_fn(Series) -> int {
    |s: Series| series_size(s)
}

pub open spec fn study_size(t: Study) -> int {
    sum_of(t.series@, series_sizes())
}

pub open spec fn study_sizes() -> spec_fn(Study) -> int {
    |t: Study| study_size(t)
}

pub open spec fn patient_size(p: Patient) -> int {
    sum_of(p.studies@, study_sizes())
}

pub open spec fn patient_sizes() -> spec_fn(Patient) -> int {
    |p: Patient| patient_size(p)
}

/// The number of instances in a tree.
pub open spec fn total_instances(ps: Seq<Patient>) -> int {
    sum_of(ps, patient_sizes())
}

/// The number of valid entries.
pub open spec fn count_valid(es: Seq<DirectoryEntry>) -> int
    decreases es.len(),
{
    if es.len() == 0 {
        0
    } else {
        count_valid(es.drop_last()) + if es.last().is_valid {
            1int
        } else {
            0
        }
    }
}

pub proof fn lemma_sum_update<A>(s: Seq<A>, f: spec_fn(A) -> int, i: int, v: A)
    requires
        0 <= i < s.len(),
    ensures
        sum_of(s.update(i, v), f) == sum_of(s, f) - f(s[i]) + f(v),
    decreases s.len(),
{
    if i < s.len() - 1 {
        assert(s.update(i, v).drop_last() =~= s.drop_last().update(i, v));
        lemma_sum_update(s.drop_last(), f, i, v);
    } else {
        assert(s.update(i, v).drop_last() =~= s.drop_last());
    }
}

pub proof fn lemma_sum_push<A>(s: Seq<A>, f: spec_fn(A) -> int, v: A)
    ensures
        sum_of(s.push(v), f) == sum_of(s, f) + f(v),
{
    assert(s.push(v).drop_last() =~= s);
}

pub proof fn lemma_sum_empty_then_one<A>(v: A, f: spec_fn(A) -> int)
    ensures
        sum_of(seq![v], f) == f(v),
{
    assert(seq![v].drop_last() =~= Seq::<A>::empty());
    assert(sum_of(Seq::<A>::empty(), f) == 0);
    assert(seq![v].last() == v);
}

// ---- series level: a study and its series

pub open spec fn series_has(t: Study, c: Seq<char>) -> bool {
    exists|k: int| 0 <= k < t.series@.len() && (#[trigger] t.series@[k]).series_instance_uid@ == c
}

pub open spec fn study_ok(t: Study) -> bool {
    &&& t.series@.len() > 0
    &&& forall|k: int| 0 <= k < t.series@.len() ==> (#[trigger] t.series@[k]).instances@.len() > 0
    &&& forall|k: int, l: int|
        0 <= k < l < t.series@.len() ==> (#[trigger] t.series@[k]).series_instance_uid@
            != (#[trigger] t.series@[l]).series_instance_uid@
}

fn new_series(e: &DirectoryEntry, sk: String, inst: Instance) -> (r: Series)
    ensures
        r.series_instance_uid@ == sk@,
        r.instances@ == seq![inst],
{
    let mut instances: Vec<Instance> = Vec::new();
    instances.push(inst);
    Series {
        series_instance_uid: sk,
        series_number: e.metadata.series_number,
        description: e.metadata.series_description.clone(),
        modality: e.metadata.modality.clone(),
        instances,
    }
}

fn add_to_study(t: &mut Study, e: &DirectoryEntry, sk: String, inst: Instance)
    requires
        old(t).series@.len() == 0 || study_ok(*old(t)),
    ensures
        study_ok(*final(t)),
        study_size(*final(t)) == study_size(*old(t)) + 1,
        series_has(*final(t), sk@),
        forall|c: Seq<char>| series_has(*old(t), c) ==> series_has(*final(t), c),
        forall|k: int|
            0 <= k < final(t).series@.len() ==> series_has(*old(t), (#[trigger] final(t).series@[k]).series_instance_uid@)
                || final(t).series@[k].series_instance_uid@ == sk@,
        final(t).study_instance_uid == old(t).study_instance_uid,
{
    let ghost before = t.series@;
    let ghost f = series_sizes();
    let mut k: usize = 0;
    while k < t.series.len()
        invariant
            *t == *old(t),
            old(t).series@.len() == 0 || study_ok(*old(t)),
            f == series_sizes(),
            t.series@ == before,
            k <= before.len(),
            forall|j: int| 0 <= j < k ==> (#[trigger] before[j]).series_instance_uid@ != sk@,
        decreases t.series.len() - k,
    {
        if t.series[k].series_instance_uid == sk {
            let mut s = t.series.remove(k);
            s.instances.push(inst);
            t.series.insert(k, s);
            proof {
                assert(t.series@ =~= before.update(k as int, s));
                lemma_sum_update(before, f, k as int, s);
                assert(s.instances@.len() == before[k as int].instances@.len() + 1);
                assert(f(s) == f(before[k as int]) + 1);
                assert(study_ok(*old(t)));
                assert forall|j: int| 0 <= j < t.series@.len() implies (#[trigger] t.series@[j]).series_instance_uid@
                    == before[j].series_instance_uid@ && t.series@[j].instances@.len() > 0 by {
                    if j != k {
                        assert(t.series@[j] == before[j]);
                    }
                }
                assert(series_has(*t, sk@)) by {
                    assert(t.series@[k as int].series_instance_uid@ == sk@);
                }
                assert forall|c: Seq<char>| series_has(*old(t), c) implies series_has(*t, c) by {
                    let j = choose|j: int| 0 <= j < before.len() && (#[trigger] before[j]).series_instance_uid@ == c;
                    assert(t.series@[j].series_instance_uid@ == c);
                }
                assert forall|j: int| 0 <= j < t.series@.len() implies series_has(*old(t), (#[trigger] t.series@[j]).series_instance_uid@)
                    || t.series@[j].series_instance_uid@ == sk@ by {
                    assert(t.series@[j].series_instance_uid@ == before[j].series_instance_uid@);
                }
            }
            return;
        }
        k = k + 1;
    }
    let s = new_series(e, sk, inst);
    t.series.push(s);
    proof {
        assert(t.series@ =~= before.push(s));
        lemma_sum_push(before, f, s);
        assert(t.series@[before.len() as int] == s);
        assert forall|c: Seq<char>| series_has(*old(t), c) implies series_has(*t, c) by {
            let j = choose|j: int| 0 <= j < before.len() && (#[trigger] before[j]).series_instance_uid@ == c;
            assert(t.series@[j] == before[j]);
        }
        assert forall|j: int| 0 <= j < t.series@.len() implies series_has(*old(t), (#[trigger] t.series@[j]).series_instance_uid@)
            || t.series@[j].series_instance_uid@ == sk@ by {
            if j < before.len() {
                assert(t.series@[j] == before[j]);
            }
        }
    }
}

fn new_study(e: &DirectoryEntry, tk: String, sk: String, inst: Instance) -> (r: Study)
    ensures
        study_ok(r),
        r.study_instance_uid@ == tk@,
        study_size(r) == 1,
        series_has(r, sk@),
        forall|k: int| 0 <= k < r.series@.len() ==> (#[trigger] r.series@[k]).series_instance_uid@ == sk@,
{
    let s = new_series(e, sk, inst);
    let mut series: Vec<Series> = Vec::new();
    series.push(s);
    proof {
        assert(series@ =~= seq![s]);
        lemma_sum_empty_then_one(s, series_sizes());
        assert(series@[0] == s);
    }
    Study {
        study_instance_uid: tk,
        study_date: e.metadata.study_date.clone(),
        description: e.metadata.study_description.clone(),
        accession_number: e.metadata.accession_number.clone(),
        series,
    }
}

// ---- study level: a patient and their studies

pub open spec fn study_has(p: Patient, b: Seq<char>, c: Seq<char>) -> bool {
    exists|t: int|
        0 <= t < p.studies@.len() && (#[trigger] p.studies@[t]).study_instance_uid@ == b && series_has(
            p.studies@[t],
            c,
        )
}

pub open spec fn patient_ok(p: Patient) -> bool {
    &&& p.studies@.len() > 0
    &&& forall|t: int| 0 <= t < p.studies@.len() ==> study_ok(#[trigger] p.studies@[t])
    &&& forall|t: int, u: int|
        0 <= t < u < p.studies@.len() ==> (#[trigger] p.studies@[t]).study_instance_uid@
            != (#[trigger] p.studies@[u]).study_instance_uid@
}

fn add_to_patient(p: &mut Patient, e: &DirectoryEntry, tk: String, sk: String, inst: Instance)
    requires
        old(p).studies@.len() == 0 || patient_ok(*old(p)),
    ensures
        patient_ok(*final(p)),
        patient_size(*final(p)) == patient_size(*old(p)) + 1,
        study_has(*final(p), tk@, sk@),
        forall|b: Seq<char>, c: Seq<char>| study_has(*old(p), b, c) ==> study_has(*final(p), b, c),
        forall|t: int, k: int|
            0 <= t < final(p).studies@.len() && 0 <= k < final(p).studies@[t].series@.len()
                ==> study_has(
                *old(p),
                final(p).studies@[t].study_instance_uid@,
                (#[trigger] final(p).studies@[t].series@[k]).series_instance_uid@,
            ) || (final(p).studies@[t].study_instance_uid@ == tk@
                && final(p).studies@[t].series@[k].series_instance_uid@ == sk@),
        final(p).patient_id == old(p).patient_id,
{
    let ghost before = p.studies@;
    let ghost f = study_sizes();
    let mut t: usize = 0;
    while t < p.studies.len()
        invariant
            *p == *old(p),
            old(p).studies@.len() == 0 || patient_ok(*old(p)),
            f == study_sizes(),
            p.studies@ == before,
            t <= before.len(),
            forall|j: int| 0 <= j < t ==> (#[trigger] before[j]).study_instance_uid@ != tk@,
        decreases p.studies.len() - t,
    {
        if p.studies[t].study_instance_uid == tk {
            let mut st = p.studies.remove(t);
            let ghost old_st = st;
            add_to_study(&mut st, e, sk, inst);
            p.studies.insert(t, st);
            proof {
                let ti = t as int;
                assert(p.studies@ =~= before.update(ti, st));
                lemma_sum_update(before, f, ti, st);
                assert(old_st == before[ti]);
                assert forall|j: int| 0 <= j < p.studies@.len() implies (#[trigger] p.studies@[j]).study_instance_uid@
                    == before[j].study_instance_uid@ && study_ok(p.studies@[j]) by {
                    if j != ti {
                        assert(p.studies@[j] == before[j]);
                    }
                }
                assert(study_has(*p, tk@, sk@)) by {
                    assert(p.studies@[ti] == st);
                }
                assert forall|b: Seq<char>, c: Seq<char>| study_has(*old(p), b, c) implies study_has(*p, b, c) by {
                    let j = choose|j: int|
                        0 <= j < before.len() && (#[trigger] before[j]).study_instance_uid@ == b && series_has(before[j], c);
                    if j != ti {
                        assert(p.studies@[j] == before[j]);
                    } else {
                        assert(p.studies@[j] == st);
                    }
                }
                assert forall|j: int, k: int|
                    0 <= j < p.studies@.len() && 0 <= k < p.studies@[j].series@.len() implies study_has(
                        *old(p),
                        p.studies@[j].study_instance_uid@,
                        (#[trigger] p.studies@[j].series@[k]).series_instance_uid@,
                    ) || (p.studies@[j].study_instance_uid@ == tk@ && p.studies@[j].series@[k].series_instance_uid@ == sk@) by {
                    if j != ti {
                        assert(p.studies@[j] == before[j]);
                        assert(series_has(before[j], before[j].series@[k].series_instance_uid@));
                    } else {
                        assert(p.studies@[j] == st);
                        let c = st.series@[k].series_instance_uid@;
                        if series_has(old_st, c) {
                            assert(study_has(*old(p), tk@, c));
                        }
                    }
                }
            }
            return;
        }
        t = t + 1;
    }
    let st = new_study(e, tk, sk, inst);
    p.studies.push(st);
    proof {
        assert(p.studies@ =~= before.push(st));
        lemma_sum_push(before, f, st);
        assert(p.studies@[before.len() as int] == st);
        assert forall|b: Seq<char>, c: Seq<char>| study_has(*old(p), b, c) implies study_has(*p, b, c) by {
            let j = choose|j: int|
                0 <= j < before.len() && (#[trigger] before[j]).study_instance_uid@ == b && series_has(before[j], c);
            assert(p.studies@[j] == before[j]);
        }
        assert forall|j: int, k: int|
            0 <= j < p.studies@.len() && 0 <= k < p.studies@[j].series@.len() implies study_has(
                *old(p),
                p.studies@[j].study_instance_uid@,
                (#[trigger] p.studies@[j].series@[k]).series_instance_uid@,
            ) || (p.studies@[j].study_instance_uid@ == tk@ && p.studies@[j].series@[k].series_instance_uid@ == sk@) by {
            if j < before.len() {
                assert(p.studies@[j] == before[j]);
                assert(series_has(before[j], before[j].series@[k].series_instance_uid@));
            }
        }
        assert forall|j: int| 0 <= j < p.studies@.len() implies study_ok(#[trigger] p.studies@[j]) by {
            if j < before.len() {
                assert(p.studies@[j] == before[j]);
            }
        }
    }
}

fn new_patient(e: &DirectoryEntry, pk: String, tk: String, sk: String, inst: Instance) -> (r: Patient)
    ensures
        patient_ok(r),
        r.patient_id@ == pk@,
        patient_size(r) == 1,
        study_has(r, tk@, sk@),
        forall|t: int, k: int|
            0 <= t < r.studies@.len() && 0 <= k < r.studies@[t].series@.len() ==> r.studies@[t].study_instance_uid@
                == tk@ && (#[trigger] r.studies@[t].series@[k]).series_instance_uid@ == sk@,
{
    let st = new_study(e, tk, sk, inst);
    let mut studies: Vec<Study> = Vec::new();
    studies.push(st);
    proof {
        assert(studies@ =~= seq![st]);
        lemma_sum_empty_then_one(st, study_sizes());
        assert(studies@[0] == st);
    }
    Patient { patient_id: pk, patient_name: e.metadata.patient_name.clone(), studies }
}

// ---- patient level: the whole tree

/// The tree holds a series `c` in a study `b` of a patient `a`.
pub open spec fn placed(ps: Seq<Patient>, a: Seq<char>, b: Seq<char>, c: Seq<char>) -> bool {
    exists|p: int| 0 <= p < ps.len() && (#[trigger] ps[p]).patient_id@ == a && study_has(ps[p], b, c)
}

/// Every level is non-empty and its keys are distinct.
pub open spec fn tree_ok(ps: Seq<Patient>) -> bool {
    &&& forall|p: int| 0 <= p < ps.len() ==> patient_ok(#[trigger] ps[p])
    &&& forall|p: int, q: int| 0 <= p < q < ps.len() ==> (#[trigger] ps[p]).patient_id@ != (#[trigger] ps[q]).patient_id@
}

fn add_instance(ps: &mut Vec<Patient>, e: &DirectoryEntry, pk: String, tk: String, sk: String, inst: Instance)
    requires
        tree_ok(old(ps)@),
    ensures
        tree_ok(final(ps)@),
        total_instances(final(ps)@) == total_instances(old(ps)@) + 1,
        placed(final(ps)@, pk@, tk@, sk@),
        forall|a: Seq<char>, b: Seq<char>, c: Seq<char>| placed(old(ps)@, a, b, c) ==> placed(final(ps)@, a, b, c),
        forall|p: int, t: int, k: int|
            0 <= p < final(ps)@.len() && 0 <= t < final(ps)@[p].studies@.len() && 0 <= k
                < final(ps)@[p].studies@[t].series@.len() ==> placed(
                old(ps)@,
                final(ps)@[p].patient_id@,
                final(ps)@[p].studies@[t].study_instance_uid@,
                (#[trigger] final(ps)@[p].studies@[t].series@[k]).series_instance_uid@,
            ) || (final(ps)@[p].patient_id@ == pk@ && final(ps)@[p].studies@[t].study_instance_uid@ == tk@
                && final(ps)@[p].studies@[t].series@[k].series_instance_uid@ == sk@),
{
    let ghost before = ps@;
    let ghost f = patient_sizes();
    let mut p: usize = 0;
    while p < ps.len()
        invariant
            ps@ == before,
            before == old(ps)@,
            tree_ok(before),
            f == patient_sizes(),
            p <= before.len(),
            forall|j: int| 0 <= j < p ==> (#[trigger] before[j]).patient_id@ != pk@,
        decreases ps.len() - p,
    {
        if ps[p].patient_id == pk {
            let mut pat = ps.remove(p);
            let ghost old_pat = pat;
            add_to_patient(&mut pat, e, tk, sk, inst);
            ps.insert(p, pat);
            proof {
                let pi = p as int;
                assert(ps@ =~= before.update(pi, pat));
                lemma_sum_update(before, f, pi, pat);
                assert(old_pat == before[pi]);
                assert forall|j: int| 0 <= j < ps@.len() implies (#[trigger] ps@[j]).patient_id@ == before[j].patient_id@
                    && patient_ok(ps@[j]) by {
                    if j != pi {
                        assert(ps@[j] == before[j]);
                    }
                }
                assert(placed(ps@, pk@, tk@, sk@)) by {
                    assert(ps@[pi] == pat);
                }
                assert forall|a: Seq<char>, b: Seq<char>, c: Seq<char>| placed(before, a, b, c) implies placed(ps@, a, b, c) by {
                    let j = choose|j: int| 0 <= j < before.len() && (#[trigger] before[j]).patient_id@ == a && study_has(before[j], b, c);
                    if j != pi {
                        assert(ps@[j] == before[j]);
                    } else {
                        assert(ps@[j] == pat);
                    }
                }
                assert forall|j: int, t: int, k: int|
                    0 <= j < ps@.len() && 0 <= t < ps@[j].studies@.len() && 0 <= k < ps@[j].studies@[t].series@.len() implies placed(
                        before,
                        ps@[j].patient_id@,
                        ps@[j].studies@[t].study_instance_uid@,
                        (#[trigger] ps@[j].studies@[t].series@[k]).series_instance_uid@,
                    ) || (ps@[j].patient_id@ == pk@ && ps@[j].studies@[t].study_instance_uid@ == tk@
                        && ps@[j].studies@[t].series@[k].series_instance_uid@ == sk@) by {
                    let b = ps@[j].studies@[t].study_instance_uid@;
                    let c = ps@[j].studies@[t].series@[k].series_instance_uid@;
                    if j != pi {
                        assert(ps@[j] == before[j]);
                        assert(series_has(before[j].studies@[t], c));
                        assert(study_has(before[j], b, c));
                    } else {
                        assert(ps@[j] == pat);
                        assert(pat.studies@[t].series@[k] == ps@[j].studies@[t].series@[k]);
                        if study_has(old_pat, b, c) {
                            assert(placed(before, pk@, b, c));
                        }
                    }
                }
            }
            return;
        }
        p = p + 1;
    }
    let pat = new_patient(e, pk, tk, sk, inst);
    ps.push(pat);
    proof {
        assert(ps@ =~= before.push(pat));
        lemma_sum_push(before, f, pat);
        assert(ps@[before.len() as int] == pat);
        assert forall|a: Seq<char>, b: Seq<char>, c: Seq<char>| placed(before, a, b, c) implies placed(ps@, a, b, c) by {
            let j = choose|j: int| 0 <= j < before.len() && (#[trigger] before[j]).patient_id@ == a && study_has(before[j], b, c);
            assert(ps@[j] == before[j]);
        }
        assert forall|j: int, t: int, k: int|
            0 <= j < ps@.len() && 0 <= t < ps@[j].studies@.len() && 0 <= k < ps@[j].studies@[t].series@.len() implies placed(
                before,
                ps@[j].patient_id@,
                ps@[j].studies@[t].study_instance_uid@,
                (#[trigger] ps@[j].studies@[t].series@[k]).series_instance_uid@,
            ) || (ps@[j].patient_id@ == pk@ && ps@[j].studies@[t].study_instance_uid@ == tk@
                && ps@[j].studies@[t].series@[k].series_instance_uid@ == sk@) by {
            if j < before.len() {
                assert(ps@[j] == before[j]);
                let c = before[j].studies@[t].series@[k].series_instance_uid@;
                assert(series_has(before[j].studies@[t], c));
                assert(study_has(before[j], before[j].studies@[t].study_instance_uid@, c));
            }
        }
        assert forall|j: int| 0 <= j < ps@.len() implies patient_ok(#[trigger] ps@[j]) by {
            if j < before.len() {
                assert(ps@[j] == before[j]);
            }
        }
    }
}

/// Every series of the tree stands for some valid entry with its keys.
pub open spec fn from_entries(ps: Seq<Patient>, es: Seq<DirectoryEntry>) -> bool {
    forall|p: int, t: int, k: int|
        0 <= p < ps.len() && 0 <= t < ps[p].studies@.len() && 0 <= k < ps[p].studies@[t].series@.len()
            ==> exists|j: int|
            0 <= j < es.len() && (#[trigger] es[j]).is_valid && entry_keys(es[j]) == (
                ps[p].patient_id@,
                ps[p].studies@[t].study_instance_uid@,
                (#[trigger] ps[p].studies@[t].series@[k]).series_instance_uid@,
            )
}

/// Every valid entry has its series in the tree.
pub open spec fn all_placed(ps: Seq<Patient>, es: Seq<DirectoryEntry>) -> bool {
    forall|j: int|
        0 <= j < es.len() && (#[trigger] es[j]).is_valid ==> placed(
            ps,
            entry_keys(es[j]).0,
            entry_keys(es[j]).1,
            entry_keys(es[j]).2,
        )
}

/// `ps` groups the valid entries `es`: one instance per valid entry, under
/// the patient, study and series of its keys, with distinct keys at every
/// level and no empty group.
pub open spec fn groups(ps: Seq<Patient>, es: Seq<DirectoryEntry>) -> bool {
    &&& tree_ok(ps)
    &&& total_instances(ps) == count_valid(es)
    &&& all_placed(ps, es)
    &&& from_entries(ps, es)
}

pub(crate) fn instance_of(e: &DirectoryEntry) -> (r: Instance)
    ensures
        r.path@ == e.path@,
        r.instance_number == e.metadata.instance_number,
        r.slice_location == e.metadata.slice_location,
        r.is_valid == e.is_valid,
        decimals_view(r.image_position) == decimals_view(e.metadata.image_position),
        decimals_view(r.image_orientation) == decimals_view(e.metadata.image_orientation),
{
    Instance {
        path: e.path.clone(),
        sop_instance_uid: e.metadata.sop_instance_uid.clone(),
        instance_number: e.metadata.instance_number,
        image_position: clone_decimals(&e.metadata.image_position),
        image_orientation: clone_decimals(&e.metadata.image_orientation),
        slice_location: e.metadata.slice_location,
        is_valid: e.is_valid,
    }
}

/// Groups the valid entries into patients, studies and series, keyed by
/// patient id and by study and series instance UID (absent ones under
/// `UNKNOWN`). Descriptive attributes come from the first entry of each
/// group. Invalid entries are skipped.
pub fn group_entries(entries: &Vec<DirectoryEntry>) -> (r: Vec<Patient>)
    ensures
        groups(r@, entries@),
{
    let mut ps: Vec<Patient> = Vec::new();
    let mut m: usize = 0;
    assert(entries@.take(0) =~= Seq::<DirectoryEntry>::empty());
    while m < entries.len()
        invariant
            m <= entries.len(),
            groups(ps@, entries@.take(m as int)),
        decreases entries.len() - m,
    {
        let ghost es = entries@.take(m as int);
        let ghost es2 = entries@.take(m + 1);
        assert(es2.drop_last() =~= es);
        assert(es2.last() == entries@[m as int]);
        let e = &entries[m];
        if e.is_valid {
            let pk = key_string(&e.metadata.patient_id);
            let tk = key_string(&e.metadata.study_instance_uid);
            let sk = key_string(&e.metadata.series_instance_uid);
            let ghost trip = (pk@, tk@, sk@);
            let ghost before = ps@;
            let inst = instance_of(e);
            add_instance(&mut ps, e, pk, tk, sk, inst);
            proof {
                assert(entry_keys(es2[m as int]) == trip);
                assert forall|j: int| 0 <= j < es2.len() && (#[trigger] es2[j]).is_valid implies placed(
                    ps@,
                    entry_keys(es2[j]).0,
                    entry_keys(es2[j]).1,
                    entry_keys(es2[j]).2,
                ) by {
                    if j < m {
                        assert(es2[j] == es[j]);
                    }
                }
                assert forall|p: int, t: int, k: int|
                    0 <= p < ps@.len() && 0 <= t < ps@[p].studies@.len() && 0 <= k < ps@[p].studies@[t].series@.len()
                        implies exists|j: int|
                        0 <= j < es2.len() && (#[trigger] es2[j]).is_valid && entry_keys(es2[j]) == (
                            ps@[p].patient_id@,
                            ps@[p].studies@[t].study_instance_uid@,
                            (#[trigger] ps@[p].studies@[t].series@[k]).series_instance_uid@,
                        ) by {
                    let a = ps@[p].patient_id@;
                    let b = ps@[p].studies@[t].study_instance_uid@;
                    let c = ps@[p].studies@[t].series@[k].series_instance_uid@;
                    if placed(before, a, b, c) {
                        let q = choose|q: int| 0 <= q < before.len() && (#[trigger] before[q]).patient_id@ == a && study_has(before[q], b, c);
                        let u = choose|u: int|
                            0 <= u < before[q].studies@.len() && (#[trigger] before[q].studies@[u]).study_instance_uid@ == b
                                && series_has(before[q].studies@[u], c);
                        let w = choose|w: int|
                            0 <= w < before[q].studies@[u].series@.len()
                                && (#[trigger] before[q].studies@[u].series@[w]).series_instance_uid@ == c;
                        assert(before[q].studies@[u].series@[w].series_instance_uid@ == c);
                        let j = choose|j: int|
                            0 <= j < es.len() && (#[trigger] es[j]).is_valid && entry_keys(es[j]) == (
                                before[q].patient_id@,
                                before[q].studies@[u].study_instance_uid@,
                                before[q].studies@[u].series@[w].series_instance_uid@,
                            );
                        assert(es2[j] == es[j]);
                    } else {
                        assert(es2[m as int].is_valid);
                    }
                }
            }
        } else {
            proof {
                assert forall|j: int| 0 <= j < es2.len() && (#[trigger] es2[j]).is_valid implies placed(
                    ps@,
                    entry_keys(es2[j]).0,
                    entry_keys(es2[j]).1,
                    entry_keys(es2[j]).2,
                ) by {
                    assert(es2[j] == es[j]);
                }
                assert forall|p: int, t: int, k: int|
                    0 <= p < ps@.len() && 0 <= t < ps@[p].studies@.len() && 0 <= k < ps@[p].studies@[t].series@.len()
                        implies exists|j: int|
                        0 <= j < es2.len() && (#[trigger] es2[j]).is_valid && entry_keys(es2[j]) == (
                            ps@[p].patient_id@,
                            ps@[p].studies@[t].study_instance_uid@,
                            (#[trigger] ps@[p].studies@[t].series@[k]).series_instance_uid@,
                        ) by {
                    let j = choose|j: int|
                        0 <= j < es.len() && (#[trigger] es[j]).is_valid && entry_keys(es[j]) == (
                            ps@[p].patient_id@,
                            ps@[p].studies@[t].study_instance_uid@,
                            ps@[p].studies@[t].series@[k].series_instance_uid@,
                        );
                    assert(es2[j] == es[j]);
                }
            }
        }
        m = m + 1;
    }
    assert(entries@.take(entries.len() as int) =~= entries@);
    ps
}

/// The distinct series keys among entries.
pub open spec fn series_keys(es: Seq<DirectoryEntry>) -> Set<Seq<char>> {
    es.map_values(|e: DirectoryEntry| entry_keys(e).2).to_set()
}

pub proof fn lemma_count_valid_all(es: Seq<DirectoryEntry>)
    requires
        forall|j: int| 0 <= j < es.len() ==> (#[trigger] es[j]).is_valid,
    ensures
        count_valid(es) == es.len(),
    decreases es.len(),
{
    if es.len() > 0 {
        assert forall|j: int| 0 <= j < es.drop_last().len() implies (#[trigger] es.drop_last()[j]).is_valid by {
            assert(es.drop_last()[j] == es[j]);
        }
        lemma_count_valid_all(es.drop_last());
        assert(es.last() == es[es.len() - 1]);
    }
}

/// Grouping valid files that share one patient and one study gives exactly
/// one patient with exactly one study, holding one series per distinct
/// series key, and as many instances as files.
pub proof fn law_single_study_grouping(es: Seq<DirectoryEntry>, ps: Seq<Patient>)
    requires
        groups(ps, es),
        es.len() > 0,
        forall|j: int| 0 <= j < es.len() ==> (#[trigger] es[j]).is_valid,
        forall|j: int|
            0 <= j < es.len() ==> entry_keys(#[trigger] es[j]).0 == entry_keys(es[0]).0 && entry_keys(es[j]).1
                == entry_keys(es[0]).1,
    ensures
        ps.len() == 1,
        ps[0].studies@.len() == 1,
        ps[0].studies@[0].series@.len() == series_keys(es).len(),
        total_instances(ps) == es.len(),
{
    let pk = entry_keys(es[0]).0;
    let tk = entry_keys(es[0]).1;
    lemma_count_valid_all(es);
    // every patient, and every study in it, carries the shared keys
    assert forall|p: int, t: int| 0 <= p < ps.len() && 0 <= t < ps[p].studies@.len()
        implies ps[p].patient_id@ == pk && (#[trigger] ps[p].studies@[t]).study_instance_uid@ == tk by {
        assert(patient_ok(ps[p]));
        assert(study_ok(ps[p].studies@[t]));
        let x = ps[p].studies@[t].series@[0];
        let j = choose|j: int|
            0 <= j < es.len() && (#[trigger] es[j]).is_valid && entry_keys(es[j]) == (
                ps[p].patient_id@,
                ps[p].studies@[t].study_instance_uid@,
                ps[p].studies@[t].series@[0].series_instance_uid@,
            );
    }
    assert(es[0].is_valid);
    assert(placed(ps, entry_keys(es[0]).0, entry_keys(es[0]).1, entry_keys(es[0]).2));
    assert(ps.len() >= 1);
    if ps.len() > 1 {
        assert(patient_ok(ps[0]) && patient_ok(ps[1]));
        assert(ps[0].studies@[0].study_instance_uid@ == tk);
        assert(ps[1].studies@[0].study_instance_uid@ == tk);
        assert(false);
    }
    let pat = ps[0];
    assert(patient_ok(pat));
    if pat.studies@.len() > 1 {
        assert(pat.studies@[0].study_instance_uid@ == tk);
        assert(pat.studies@[1].study_instance_uid@ == tk);
        assert(false);
    }
    let st = pat.studies@[0];
    assert(study_ok(st));
    let uids = st.series@.map_values(|x: Series| x.series_instance_uid@);
    assert(uids.no_duplicates());
    let keys = es.map_values(|e: DirectoryEntry| entry_keys(e).2);
    assert forall|c: Seq<char>| uids.to_set().contains(c) <==> series_keys(es).contains(c) by {
        if uids.contains(c) {
            let k = choose|k: int| 0 <= k < uids.len() && uids[k] == c;
            let x = st.series@[k];
            assert(ps[0].studies@[0].series@[k] == x);
            let j = choose|j: int|
                0 <= j < es.len() && (#[trigger] es[j]).is_valid && entry_keys(es[j]) == (
                    ps[0].patient_id@,
                    ps[0].studies@[0].study_instance_uid@,
                    ps[0].studies@[0].series@[k].series_instance_uid@,
                );
            assert(keys[j] == c);
            assert(keys.contains(c));
        }
        if keys.contains(c) {
            let j = choose|j: int| 0 <= j < keys.len() && keys[j] == c;
            assert(es[j].is_valid);
            assert(placed(ps, entry_keys(es[j]).0, entry_keys(es[j]).1, entry_keys(es[j]).2));
            let p = choose|p: int|
                0 <= p < ps.len() && (#[trigger] ps[p]).patient_id@ == entry_keys(es[j]).0 && study_has(
                    ps[p],
                    entry_keys(es[j]).1,
                    entry_keys(es[j]).2,
                );
            assert(p == 0);
            let t = choose|t: int|
                0 <= t < pat.studies@.len() && (#[trigger] pat.studies@[t]).study_instance_uid@ == entry_keys(es[j]).1
                    && series_has(pat.studies@[t], entry_keys(es[j]).2);
            assert(t == 0);
            let k = choose|k: int| 0 <= k < st.series@.len() && (#[trigger] st.series@[k]).series_instance_uid@ == c;
            assert(uids[k] == c);
            assert(uids.contains(c));
        }
    }
    assert(uids.to_set() =~= series_keys(es));
    uids.unique_seq_to_set();
}

/// Texts in lexicographic order of their characters' code points.
pub open spec fn text_lt(a: Seq<char>, b: Seq<char>) -> bool
    decreases a.len(),
{
    if a.len() == 0 {
        b.len() > 0
    } else if b.len() == 0 {
        false
    } else if a[0] != b[0] {
        (a[0] as u32) < (b[0] as u32)
    } else {
        text_lt(a.drop_first(), b.drop_first())
    }
}

pub fn text_less(a: &str, b: &str) -> (r: bool)
    ensures
        r == text_lt(a@, b@),
{
    let n = a.unicode_len();
    let m = b.unicode_len();
    let mut i: usize = 0;
    assert(a@.skip(0) =~= a@);
    assert(b@.skip(0) =~= b@);
    while i < n && i < m
        invariant
            i <= n,
            i <= m,
            n == a@.len(),
            m == b@.len(),
            text_lt(a@, b@) == text_lt(a@.skip(i as int), b@.skip(i as int)),
        decreases n - i,
    {
        let x = a.get_char(i);
        let y = b.get_char(i);
        assert(a@.skip(i as int)[0] == x);
        assert(b@.skip(i as int)[0] == y);
        if x != y {
            return (x as u32) < (y as u32);
        }
        assert(a@.skip(i as int).drop_first() =~= a@.skip(i + 1));
        assert(b@.skip(i as int).drop_first() =~= b@.skip(i + 1));
        i = i + 1;
    }
    assert(a@.skip(i as int).len() == n - i);
    i == n && i < m
}

/// How many of `xs` come strictly before `x`.
pub open spec fn count_less(xs: Seq<Seq<char>>, x: Seq<char>) -> int
    decreases xs.len(),
{
    if xs.len() == 0 {
        0
    } else {
        count_less(xs.drop_last(), x) + if text_lt(xs.last(), x) {
            1int
        } else {
            0
        }
    }
}

pub open spec fn opt_text(v: Option<String>) -> Seq<char> {
    match v {
        Some(s) => s@,
        None => Seq::empty(),
    }
}

fn opt_str(v: &Option<String>) -> (r: &str)
    ensures
        r@ == opt_text(*v),
{
    match v {
        Some(s) => s.as_str(),
        None => {
            proof {
                reveal_strlit("");
            }
            ""
        },
    }
}

/// Patient order: by name (an absent name as empty).
pub open spec fn patient_order(ps: Seq<Patient>) -> spec_fn(Patient) -> (i128, i128) {
    |p: Patient| (count_less(ps.map_values(|q: Patient| opt_text(q.patient_name)), opt_text(p.patient_name)) as i128, 0i128)
}

/// Study order: newest date first (an absent date as empty, hence last).
pub open spec fn study_order(ts: Seq<Study>) -> spec_fn(Study) -> (i128, i128) {
    |t: Study| (-count_less(ts.map_values(|u: Study| opt_text(u.study_date)), opt_text(t.study_date)) as i128, 0i128)
}

/// Series order: by series number, absent numbers last.
pub open spec fn series_order() -> spec_fn(Series) -> (i128, i128) {
    |s: Series| (number_key(s.series_number), 0i128)
}

/// `out` is `inp` with its instances in spatial order.
pub open spec fn series_in_order(out: Series, inp: Series) -> bool {
    &&& out.series_instance_uid == inp.series_instance_uid
    &&& out.series_number == inp.series_number
    &&& out.description == inp.description
    &&& out.modality == inp.modality
    &&& out.instances@ == spatially_sorted(inp.instances@)
}

/// `out` is `inp` with each series' instances in spatial order and the
/// series ordered by number.
pub open spec fn study_in_order(out: Study, inp: Study) -> bool {
    &&& out.study_instance_uid == inp.study_instance_uid
    &&& out.study_date == inp.study_date
    &&& out.description == inp.description
    &&& out.accession_number == inp.accession_number
    &&& exists|mid: Seq<Series>|
        mid.len() == inp.series@.len() && (forall|k: int|
            0 <= k < mid.len() ==> series_in_order(#[trigger] mid[k], inp.series@[k])) && out.series@ == sort_by(
            mid,
            series_order(),
        )
}

/// `out` is `inp` with each study in order and the studies ordered by date.
pub open spec fn patient_in_order(out: Patient, inp: Patient) -> bool {
    &&& out.patient_id == inp.patient_id
    &&& out.patient_name == inp.patient_name
    &&& exists|mid: Seq<Study>|
        mid.len() == inp.studies@.len() && (forall|t: int|
            0 <= t < mid.len() ==> study_in_order(#[trigger] mid[t], inp.studies@[t])) && out.studies@ == sort_by(
            mid,
            study_order(mid),
        )
}

fn study_rank(ts: &Vec<Study>, i: usize) -> (r: i128)
    requires
        i < ts@.len(),
    ensures
        0 <= r <= ts@.len(),
        r == count_less(ts@.map_values(|u: Study| opt_text(u.study_date)), opt_text(ts@[i as int].study_date)),
{
    let ghost xs = ts@.map_values(|u: Study| opt_text(u.study_date));
    let x = opt_str(&ts[i].study_date);
    let mut c: i128 = 0;
    let mut j: usize = 0;
    assert(xs.take(0) =~= Seq::<Seq<char>>::empty());
    while j < ts.len()
        invariant
            j <= ts@.len(),
            xs == ts@.map_values(|u: Study| opt_text(u.study_date)),
            x@ == opt_text(ts@[i as int].study_date),
            0 <= c <= j,
            c == count_less(xs.take(j as int), x@),
        decreases ts.len() - j,
    {
        assert(xs.take(j + 1).drop_last() =~= xs.take(j as int));
        if text_less(opt_str(&ts[j].study_date), x) {
            c = c + 1;
        }
        j = j + 1;
    }
    assert(xs.take(ts@.len() as int) =~= xs);
    c
}

fn patient_rank(ps: &Vec<Patient>, i: usize) -> (r: i128)
    requires
        i < ps@.len(),
    ensures
        0 <= r <= ps@.len(),
        r == count_less(ps@.map_values(|q: Patient| opt_text(q.patient_name)), opt_text(ps@[i as int].patient_name)),
{
    let ghost xs = ps@.map_values(|q: Patient| opt_text(q.patient_name));
    let x = opt_str(&ps[i].patient_name);
    let mut c: i128 = 0;
    let mut j: usize = 0;
    assert(xs.take(0) =~= Seq::<Seq<char>>::empty());
    while j < ps.len()
        invariant
            j <= ps@.len(),
            xs == ps@.map_values(|q: Patient| opt_text(q.patient_name)),
            x@ == opt_text(ps@[i as int].patient_name),
            0 <= c <= j,
            c == count_less(xs.take(j as int), x@),
        decreases ps.len() - j,
    {
        assert(xs.take(j + 1).drop_last() =~= xs.take(j as int));
        if text_less(opt_str(&ps[j].patient_name), x) {
            c = c + 1;
        }
        j = j + 1;
    }
    assert(xs.take(ps@.len() as int) =~= xs);
    c
}

fn order_series(s: Series) -> (r: Series)
    ensures
        series_in_order(r, s),
{
    let Series { series_instance_uid, series_number, description, modality, instances } = s;
    let instances = sort_instances(instances);
    Series { series_instance_uid, series_number, description, modality, instances }
}

fn order_study(t: Study) -> (r: Study)
    ensures
        study_in_order(r, t),
{
    let ghost inp = t.series@;
    let Study { study_instance_uid, study_date, description, accession_number, series } = t;
    let mut series = series;
    let mut mid: Vec<Series> = Vec::new();
    while series.len() > 0
        invariant
            series@ == inp.take(series@.len() as int),
            series@.len() + mid@.len() == inp.len(),
            forall|k: int| 0 <= k < mid@.len() ==> series_in_order(#[trigger] mid@[k], inp[k + series@.len()]),
        decreases series.len(),
    {
        let s = series.pop().unwrap();
        let o = order_series(s);
        mid.insert(0, o);
        assert forall|k: int| 0 <= k < mid@.len() implies series_in_order(#[trigger] mid@[k], inp[k + series@.len()]) by {
            if k > 0 {
                assert(mid@[k] == mid@.drop_first()[k - 1]);
            }
        }
    }
    let mut keys: Vec<(i128, i128)> = Vec::new();
    let mut i: usize = 0;
    while i < mid.len()
        invariant
            i <= mid.len(),
            keys@.len() == i,
            forall|j: int| 0 <= j < i ==> keys@[j] == (series_order())(#[trigger] mid@[j]),
        decreases mid.len() - i,
    {
        keys.push((number_key_exec(mid[i].series_number), 0));
        i = i + 1;
    }
    let ghost m = mid@;
    let series = sort_by_keys(mid, keys, Ghost(series_order()));
    Study { study_instance_uid, study_date, description, accession_number, series }
}

fn order_patient(p: Patient) -> (r: Patient)
    ensures
        patient_in_order(r, p),
{
    let ghost inp = p.studies@;
    let Patient { patient_id, patient_name, studies } = p;
    let mut studies = studies;
    let mut out: Vec<Study> = Vec::new();
    while studies.len() > 0
        invariant
            studies@ == inp.take(studies@.len() as int),
            studies@.len() + out@.len() == inp.len(),
            forall|k: int| 0 <= k < out@.len() ==> study_in_order(#[trigger] out@[k], inp[k + studies@.len()]),
        decreases studies.len(),
    {
        let t = studies.pop().unwrap();
        let o = order_study(t);
        out.insert(0, o);
        assert forall|k: int| 0 <= k < out@.len() implies study_in_order(#[trigger] out@[k], inp[k + studies@.len()]) by {
            if k > 0 {
                assert(out@[k] == out@.drop_first()[k - 1]);
            }
        }
    }
    let mut keys: Vec<(i128, i128)> = Vec::new();
    let mut i: usize = 0;
    let ghost dates = out@.map_values(|u: Study| opt_text(u.study_date));
    while i < out.len()
        invariant
            i <= out.len(),
            dates == out@.map_values(|u: Study| opt_text(u.study_date)),
            keys@.len() == i,
            forall|j: int| 0 <= j < i ==> keys@[j] == (study_order(out@))(#[trigger] out@[j]),
        decreases out.len() - i,
    {
        let c = study_rank(&out, i);
        keys.push((-c, 0));
        i = i + 1;
    }
    let studies = sort_by_keys(out, keys, Ghost(study_order(out@)));
    Patient { patient_id, patient_name, studies }
}

/// `r` is what organizing `entries` gives: a grouping of them, each patient
/// in order, the patients ordered by name.
pub open spec fn organized(r: Seq<Patient>, entries: Seq<DirectoryEntry>) -> bool {
    exists|g: Seq<Patient>, mid: Seq<Patient>|
        groups(g, entries) && mid.len() == g.len() && (forall|p: int|
            0 <= p < g.len() ==> patient_in_order(#[trigger] mid[p], g[p])) && r == sort_by(mid, patient_order(mid))
}

/// Organizes entries into patients, studies, series and instances: valid
/// entries grouped by their keys, then within each study the series
/// ordered by number (absent numbers last) and the instances of each series
/// in spatial order.
pub fn organize(entries: &Vec<DirectoryEntry>) -> (r: Vec<Patient>)
    ensures
        organized(r@, entries@),
{
    let grouped = group_entries(entries);
    let ghost g = grouped@;
    let mut rest = grouped;
    let mut out: Vec<Patient> = Vec::new();
    while rest.len() > 0
        invariant
            rest@ == g.take(rest@.len() as int),
            rest@.len() + out@.len() == g.len(),
            forall|k: int| 0 <= k < out@.len() ==> patient_in_order(#[trigger] out@[k], g[k + rest@.len()]),
        decreases rest.len(),
    {
        let p = rest.pop().unwrap();
        let o = order_patient(p);
        out.insert(0, o);
        assert forall|k: int| 0 <= k < out@.len() implies patient_in_order(#[trigger] out@[k], g[k + rest@.len()]) by {
            if k > 0 {
                assert(out@[k] == out@.drop_first()[k - 1]);
            }
        }
    }
    let mut keys: Vec<(i128, i128)> = Vec::new();
    let mut i: usize = 0;
    while i < out.len()
        invariant
            i <= out.len(),
            keys@.len() == i,
            forall|j: int| 0 <= j < i ==> keys@[j] == (patient_order(out@))(#[trigger] out@[j]),
        decreases out.len() - i,
    {
        let c = patient_rank(&out, i);
        keys.push((c, 0));
        i = i + 1;
    }
    let ghost mid = out@;
    assert(forall|k: int| 0 <= k < g.len() ==> patient_in_order(#[trigger] mid[k], g[k]));
    sort_by_keys(out, keys, Ghost(patient_order(mid)))
}

} // verus!
