//! The shape of the values that the parser builds: arrays whose elements all have the
//! array's type, and objects whose fields are named once each, by valid names.

use crate::types::{model_generalizes, TypeModel};
use crate::value::{model_type_of, spec_is_valid_field, ObjModel, ValueModel};
use vstd::prelude::*;

verus! {

/// A name that an object written in OVER can give a field: valid, and not the parent
/// marker `^` nor anything starting with it.
pub open spec fn regular_field_name(f: Seq<char>) -> bool {
    &&& f.len() > 0
    &&& spec_is_valid_field(f)
    &&& f[0] != '^'
}

/// No two pairs share a field name.
pub open spec fn distinct_names(ps: Seq<(Seq<char>, ValueModel)>) -> bool {
    forall|i: int, j: int| 0 <= i < j < ps.len() ==> (#[trigger] ps[i]).0 != (#[trigger] ps[j]).0
}

/// A well-formed value: each array's elements have types that its element type refines,
/// and each object has distinct regular field names; the same holds of everything inside.
pub open spec fn wf_value(v: ValueModel) -> bool
    decreases v, 0nat,
{
    match v {
        ValueModel::Arr(es, t) => wf_elems(es, t, es.len()),
        ValueModel::Tup(es) => wf_values(es, es.len()),
        ValueModel::Obj(o) => wf_obj(o),
        _ => true,
    }
}

/// The first `n` elements of an array of type `t` are well-formed and of type `t`.
pub open spec fn wf_elems(es: Seq<ValueModel>, t: TypeModel, n: nat) -> bool
    decreases es, n,
{
    if n == 0 || n > es.len() {
        n == 0
    } else {
        &&& wf_elems(es, t, (n - 1) as nat)
        &&& wf_value(es[n - 1])
        &&& model_generalizes(model_type_of(es[n - 1]), t)
    }
}

/// The first `n` values are well-formed.
pub open spec fn wf_values(es: Seq<ValueModel>, n: nat) -> bool
    decreases es, n,
{
    if n == 0 || n > es.len() {
        n == 0
    } else {
        wf_values(es, (n - 1) as nat) && wf_value(es[n - 1])
    }
}

/// The values of the first `n` pairs are well-formed.
pub open spec fn wf_pairs(ps: Seq<(Seq<char>, ValueModel)>, n: nat) -> bool
    decreases ps, n,
{
    if n == 0 || n > ps.len() {
        n == 0
    } else {
        wf_pairs(ps, (n - 1) as nat) && wf_value(ps[n - 1].1)
    }
}

/// A well-formed object: distinct regular field names, well-formed values, and a
/// well-formed parent if it has one.
pub open spec fn wf_obj(o: ObjModel) -> bool
    decreases o, 0nat,
{
    &&& wf_pairs(o.pairs, o.pairs.len())
    &&& distinct_names(o.pairs)
    &&& forall|i: int| 0 <= i < o.pairs.len() ==> regular_field_name(#[trigger] o.pairs[i].0)
    &&& match o.parent {
        Some(p) => wf_obj(*p),
        None => true,
    }
}

/// `wf_elems` says of each element that it is well-formed and of the array's type.
pub proof fn lemma_wf_elems(es: Seq<ValueModel>, t: TypeModel, n: nat)
    requires
        n <= es.len(),
    ensures
        wf_elems(es, t, n) <==> forall|i: int|
            0 <= i < n ==> wf_value(#[trigger] es[i]) && model_generalizes(model_type_of(es[i]), t),
    decreases n,
{
    if n > 0 {
        lemma_wf_elems(es, t, (n - 1) as nat);
    }
}

/// `wf_values` says of each value that it is well-formed.
pub proof fn lemma_wf_values(es: Seq<ValueModel>, n: nat)
    requires
        n <= es.len(),
    ensures
        wf_values(es, n) <==> forall|i: int| 0 <= i < n ==> wf_value(#[trigger] es[i]),
    decreases n,
{
    if n > 0 {
        lemma_wf_values(es, (n - 1) as nat);
    }
}

/// `wf_pairs` says of each pair's value that it is well-formed.
pub proof fn lemma_wf_pairs(ps: Seq<(Seq<char>, ValueModel)>, n: nat)
    requires
        n <= ps.len(),
    ensures
        wf_pairs(ps, n) <==> forall|i: int| 0 <= i < n ==> wf_value((#[trigger] ps[i]).1),
    decreases n,
{
    if n > 0 {
        lemma_wf_pairs(ps, (n - 1) as nat);
    }
}

} // verus!
