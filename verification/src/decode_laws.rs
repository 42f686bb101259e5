//! Laws of decoding: what holds of the parameters of every decoded program and
//! workload.
use vstd::prelude::*;

use crate::input::{
    declaration, defaults, lemma_binding_index_bound, lemma_program_index_bound, param_declared, program_index,
    rebind, spec_array, spec_header, spec_overrides, spec_param, spec_params, spec_program, spec_programs, spec_signed,
    spec_thread, spec_thread_body, spec_thread_head, spec_threads, spec_workload, Parameter, ProgramModel,
    ThreadModel, MAX_INSTANCES, MAX_PARAMETERS, binding_index,
};
use crate::json::{member, text_of, Json};

verus! {


/// Every declaration keeps its default within its range.
pub open spec fn ranges_ok(ps: Seq<Parameter>) -> bool {
    forall|k: int| 0 <= k < ps.len() ==> (#[trigger] ps[k]).minimum <= ps[k].default && ps[k].default <= ps[k].maximum
}

/// No two declarations share an identifier.
pub open spec fn ids_unique(ps: Seq<Parameter>) -> bool {
    forall|a: int, b: int| 0 <= a < b < ps.len() ==> (#[trigger] ps[a]).id@ != (#[trigger] ps[b]).id@
}

/// Every binding names a declared parameter and lies within that declaration's range.
pub open spec fn within_declarations(decls: Seq<Parameter>, bs: Seq<(String, i64)>) -> bool {
    forall|k: int|
        0 <= k < bs.len() ==> (declaration(decls, (#[trigger] bs[k]).0@) matches Some(d) && d.minimum <= bs[k].1
            && bs[k].1 <= d.maximum)
}

proof fn lemma_params_ok(list: Seq<Json>, i: int, acc: Seq<Parameter>)
    requires
        ranges_ok(acc),
        ids_unique(acc),
    ensures
        spec_params(list, i, acc) matches Ok(ps) ==> ranges_ok(ps) && ids_unique(ps),
    decreases list.len() - i,
{
    if 0 <= i < list.len() {
        if let Ok(p) = spec_param(list[i]) {
            if !param_declared(acc, p.id@) {
                let next = acc.push(p);
                assert forall|a: int, b: int| 0 <= a < b < next.len() implies (#[trigger] next[a]).id@
                    != (#[trigger] next[b]).id@ by {
                    if b == acc.len() {
                        assert(next[a] == acc[a]);
                    }
                }
                lemma_params_ok(list, i + 1, next);
            }
        }
    }
}

/// Law: a decoded program declares each parameter with `minimum <= default <= maximum`,
/// and under one identifier only.
pub proof fn law_program_parameters(v: Json, check_version: bool)
    ensures
        spec_program(v, check_version) matches Ok(p) ==> ranges_ok(p.parameters) && ids_unique(p.parameters),
{
    reveal(spec_program);
    if let Ok(plist) = spec_array(member(v, "parameters"@), 0, MAX_PARAMETERS as nat) {
        lemma_params_ok(plist, 0, seq![]);
    }
}

proof fn lemma_declaration_of(decls: Seq<Parameter>, k: int)
    requires
        ids_unique(decls),
        0 <= k < decls.len(),
    ensures
        declaration(decls, decls[k].id@) == Some(decls[k]),
    decreases k,
{
    if k > 0 {
        assert(decls[0].id@ != decls[k].id@);
        let rest = decls.drop_first();
        assert(rest[k - 1] == decls[k]);
        assert forall|a: int, b: int| 0 <= a < b < rest.len() implies (#[trigger] rest[a]).id@ != (#[trigger] rest[b]).id@ by {
            assert(rest[a] == decls[a + 1] && rest[b] == decls[b + 1]);
        }
        lemma_declaration_of(rest, k - 1);
    }
}

proof fn lemma_defaults_ok(decls: Seq<Parameter>)
    requires
        ranges_ok(decls),
        ids_unique(decls),
    ensures
        within_declarations(decls, defaults(decls)),
{
    let bs = defaults(decls);
    assert forall|k: int| 0 <= k < bs.len() implies (declaration(decls, (#[trigger] bs[k]).0@) matches Some(d)
        && d.minimum <= bs[k].1 && bs[k].1 <= d.maximum) by {
        lemma_declaration_of(decls, k);
        assert(bs[k] == (decls[k].id, decls[k].default));
    }
}

proof fn lemma_rebind_ok(decls: Seq<Parameter>, params: Seq<(String, i64)>, key: String, x: i64, d: Parameter)
    requires
        within_declarations(decls, params),
        declaration(decls, key@) == Some(d),
        d.minimum <= x <= d.maximum,
    ensures
        within_declarations(decls, rebind(params, key, x)),
{
    lemma_binding_index_bound(params, key@);
    let next = rebind(params, key, x);
    assert forall|k: int| 0 <= k < next.len() implies (declaration(decls, (#[trigger] next[k]).0@) matches Some(e)
        && e.minimum <= next[k].1 && next[k].1 <= e.maximum) by {
        match binding_index(params, key@) {
            Some(j) => {
                if k != j {
                    assert(next[k] == params[k]);
                }
            },
            None => {
                if k < params.len() {
                    assert(next[k] == params[k]);
                }
            },
        }
    }
}

proof fn lemma_overrides_ok(entries: Seq<(String, Json)>, i: int, decls: Seq<Parameter>, params: Seq<(String, i64)>)
    requires
        within_declarations(decls, params),
    ensures
        spec_overrides(entries, i, decls, params) matches Ok(ps) ==> within_declarations(decls, ps),
    decreases entries.len() - i,
{
    if 0 <= i < entries.len() {
        if let Some(d) = declaration(decls, entries[i].0@) {
            if let Ok(x) = spec_signed(entries[i].1) {
                if !(x < d.minimum || x > d.maximum) {
                    lemma_rebind_ok(decls, params, entries[i].0, x, d);
                    lemma_overrides_ok(entries, i + 1, decls, rebind(params, entries[i].0, x));
                }
            }
        }
    }
}

/// Law: a decoded thread binds each parameter of its program to a value within the
/// range that the program declares for it; an override outside the range is refused.
pub proof fn law_thread_bindings(t: Json, tid: String, pi: nat, program: ProgramModel)
    requires
        ranges_ok(program.parameters),
        ids_unique(program.parameters),
    ensures
        spec_thread_body(t, tid, pi, program) matches Ok(tm) ==> tm.program == pi && within_declarations(
            program.parameters,
            tm.parameters,
        ),
{
    reveal(spec_thread_body);
    lemma_defaults_ok(program.parameters);
    if let Json::Object(ov) = member(t, "parameters"@) {
        lemma_overrides_ok(ov@, 0, program.parameters, defaults(program.parameters));
    }
}

/// Every program keeps its declarations within range and uniquely named.
pub open spec fn programs_ok(ps: Seq<ProgramModel>) -> bool {
    forall|j: int| 0 <= j < ps.len() ==> ranges_ok((#[trigger] ps[j]).parameters) && ids_unique(ps[j].parameters)
}

/// Every thread runs one of `ps` and binds its parameters within that program's ranges.
pub open spec fn threads_ok(ps: Seq<ProgramModel>, ts: Seq<ThreadModel>) -> bool {
    forall|j: int|
        0 <= j < ts.len() ==> (#[trigger] ts[j]).program < ps.len() && within_declarations(
            ps[ts[j].program as int].parameters,
            ts[j].parameters,
        )
}

proof fn lemma_programs_ok(list: Seq<Json>, i: int, acc: Seq<ProgramModel>, unsupported: bool)
    requires
        programs_ok(acc),
    ensures
        spec_programs(list, i, acc, unsupported) matches Ok((ps, _)) ==> programs_ok(ps),
    decreases list.len() - i,
{
    if 0 <= i < list.len() {
        law_program_parameters(list[i], false);
        if let Ok(pm) = spec_program(list[i], false) {
            let uns = unsupported || text_of(member(list[i], "schemaVersion"@)) != Some("os-lab-program/1"@);
            let next = acc.push(pm);
            assert forall|j: int| 0 <= j < next.len() implies ranges_ok((#[trigger] next[j]).parameters) && ids_unique(
                next[j].parameters,
            ) by {
                if j < acc.len() {
                    assert(next[j] == acc[j]);
                }
            }
            lemma_programs_ok(list, i + 1, next, uns);
        }
    }
}

proof fn lemma_threads_ok(list: Seq<Json>, i: int, machine: String, programs: Seq<ProgramModel>, acc: Seq<ThreadModel>)
    requires
        programs_ok(programs),
        threads_ok(programs, acc),
    ensures
        spec_threads(list, i, machine, programs, acc) matches Ok(ts) ==> threads_ok(programs, ts),
    decreases list.len() - i,
{
    if 0 <= i < list.len() {
        reveal(spec_thread_head);
        if let Ok((tid, pi)) = spec_thread_head(list[i], machine, programs, acc) {
            assert forall|s: Seq<char>| (#[trigger] program_index(programs, s)) is Some implies program_index(programs, s)->0
                < programs.len() by {
                lemma_program_index_bound(programs, s);
            }
            if let Ok(pref) = crate::input::spec_id(member(list[i], "programId"@)) {
                assert(program_index(programs, pref@) == Some(pi));
            }
            assert(pi < programs.len());
            assert(ranges_ok(programs[pi as int].parameters) && ids_unique(programs[pi as int].parameters));
            law_thread_bindings(list[i], tid, pi, programs[pi as int]);
            if let Ok(tm) = spec_thread(list[i], machine, programs, acc) {
                let next = acc.push(tm);
                assert forall|j: int| 0 <= j < next.len() implies (#[trigger] next[j]).program < programs.len()
                    && within_declarations(programs[next[j].program as int].parameters, next[j].parameters) by {
                    if j < acc.len() {
                        assert(next[j] == acc[j]);
                    }
                }
                lemma_threads_ok(list, i + 1, machine, programs, next);
            }
        }
    }
}

/// Law: in a decoded workload every program declares its parameters with
/// `minimum <= default <= maximum` under distinct identifiers, and every thread runs one
/// of its programs with each parameter bound within the declared range.
pub proof fn law_workload_bindings(v: Json)
    ensures
        spec_workload(v) matches Ok(w) ==> programs_ok(w.programs) && threads_ok(w.programs, w.threads),
{
    reveal(spec_workload);
    if let Ok(h) = spec_header(v) {
        if let Ok(plist) = spec_array(member(v, "programs"@), 1, MAX_INSTANCES as nat) {
            if let Ok(tlist) = spec_array(member(v, "threads"@), 1, MAX_INSTANCES as nat) {
                lemma_programs_ok(plist, 0, seq![], false);
                if let Ok((programs, _)) = spec_programs(plist, 0, seq![], false) {
                    lemma_threads_ok(tlist, 0, h.machine, programs, seq![]);
                }
            }
        }
    }
}


} // verus!
