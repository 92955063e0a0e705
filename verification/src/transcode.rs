//! The graph transcoder: converts one source object into its target form.
//!
//! Primitives are copied by value (integers range-checked to the target's
//! 32-bit width), arrays and dictionaries recurse, and every indirection —
//! a reference or an inline stream — is replaced by a freshly allocated
//! target identifier whose object is deferred onto the work list.
//! References are deduplicated by source identifier: the second encounter
//! of the same identifier reuses the target identifier of the first.

use vstd::prelude::*;
use crate::alloc_id::IdAllocator;
use crate::alloc_id::MAX_TARGET_ID;
use crate::alloc_id::TargetId;
use crate::model::TranscodeError;
use crate::model::arr_rel;
use crate::model::dedup_bounded;
use crate::model::dedup_in_table;
use crate::model::dict_rel;
use crate::model::id_in_map;
use crate::model::indir_count;
use crate::model::indir_count_arr;
use crate::model::indir_count_entries;
use crate::model::ints_ok;
use crate::model::item_ok;
use crate::model::lemma_indir_arr_prefix;
use crate::model::lemma_indir_entries_prefix;
use crate::model::lemma_range_empty;
use crate::model::lemma_range_push;
use crate::model::lemma_refs_bounded_grow;
use crate::model::lemma_step_refl;
use crate::model::lemma_step_trans;
use crate::model::lemma_tv_rel_mono;
use crate::model::range_seq;
use crate::model::refs_bounded;
use crate::model::refs_ok;
use crate::model::step_ok;
use crate::model::stream_in;
use crate::model::tref_in;
use crate::model::tv_rel;
use crate::model::work_ids;
use crate::object::Object;
use crate::object::ObjView;
use crate::object::TargetObject;
use crate::object::TargetView;
use crate::object::copy_bytes;
use crate::object::view_arr;
use crate::object::view_arr_props;
use crate::object::view_entries;
use crate::object::view_entries_props;
use crate::object::view_obj;
use crate::object::view_tarr;
use crate::object::view_tarr_props;
use crate::object::view_tentries;
use crate::object::view_tentries_props;
use crate::object::view_tobj;
use crate::table::DedupTable;
use crate::table::SourceTable;

verus! {

/// Transcodes one source object into its target form.
///
/// On success the result is related to the source by `tv_rel` under the
/// final identifier mapping.  The call fails with `DanglingReference`
/// exactly when the value resolves a reference absent from the table, and
/// with `IntegerOutOfRange` when an inline integer exceeds the target
/// width (or the identifier space itself is exhausted); given enough
/// identifier headroom, success is guaranteed whenever neither holds.
pub fn transcode_value(
    o: &Object,
    table: &SourceTable,
    dedup: &mut DedupTable,
    alloc: &mut IdAllocator,
    work: &mut Vec<(TargetId, Object)>,
) -> (r: Result<TargetObject, TranscodeError>)
    requires
        old(alloc).wf(),
        dedup_bounded(old(dedup)@, old(alloc)@),
        dedup_in_table(old(dedup)@, table@),
        crate::model::dedup_inj(old(dedup)@),
    ensures
        final(alloc).wf(),
        crate::model::dedup_inj(final(dedup)@),
        step_ok(
            table@,
            old(dedup)@,
            final(dedup)@,
            old(alloc)@,
            final(alloc)@,
            old(work)@,
            final(work)@,
            view_obj(*o),
        ),
        final(alloc)@ <= old(alloc)@ + indir_count(view_obj(*o)),
        (r matches Ok(t) ==> tv_rel(view_obj(*o), view_tobj(t), final(dedup)@) && refs_bounded(
            view_tobj(t),
            final(dedup)@,
            old(alloc)@,
            final(alloc)@,
        )),
        r is Ok ==> refs_ok(view_obj(*o), table@.dom()) && ints_ok(view_obj(*o)),
        refs_ok(view_obj(*o), table@.dom()) && ints_ok(view_obj(*o)) && old(alloc)@ + indir_count(
            view_obj(*o),
        ) <= MAX_TARGET_ID + 1 ==> r is Ok,
        (r matches Err(e) ==> {
            ||| (e is DanglingReference && !refs_ok(view_obj(*o), table@.dom()))
            ||| (e == TranscodeError::IntegerOutOfRange && (!ints_ok(view_obj(*o)) || old(
                alloc,
            )@ + indir_count(view_obj(*o)) > MAX_TARGET_ID + 1))
        }),
        (r matches Err(e) ==> (e matches TranscodeError::DanglingReference(s2)
            ==> crate::model::mentions(view_obj(*o), s2) && !table@.contains_key(s2))),
        r == Err::<TargetObject, TranscodeError>(TranscodeError::IntegerOutOfRange) ==> !ints_ok(
            view_obj(*o),
        ) || final(alloc)@ == MAX_TARGET_ID + 1,
        (view_obj(*o) matches ObjView::Ref(s2) && old(dedup)@.contains_key(s2))
            ==> (final(alloc)@ == old(alloc)@ && final(dedup)@ == old(dedup)@
            && final(work)@ == old(work)@),
        view_obj(*o) is Stream ==> (r matches Ok(t)
            ==> (view_tobj(t) == TargetView::Ref(old(alloc)@)
            && final(alloc)@ == old(alloc)@ + 1
            && final(work)@.len() == old(work)@.len() + 1
            && (final(work)@.last()).0.value == old(alloc)@
            && view_obj((final(work)@.last()).1) == view_obj(*o))),
    decreases *o,
{
    match o {
        Object::Null => {
            proof {
                lemma_step_refl(table@, dedup@, alloc@, work@, view_obj(*o));
            }
            Ok(TargetObject::Null)
        },
        Object::Boolean(b) => {
            proof {
                lemma_step_refl(table@, dedup@, alloc@, work@, view_obj(*o));
            }
            Ok(TargetObject::Boolean(*b))
        },
        Object::Integer(v) => {
            proof {
                lemma_step_refl(table@, dedup@, alloc@, work@, view_obj(*o));
            }
            if *v >= i32::MIN as i64 && *v <= i32::MAX as i64 {
                Ok(TargetObject::Integer(*v as i32))
            } else {
                proof {
                    assert(!crate::model::int_fits(*v as int));
                }
                Err(TranscodeError::IntegerOutOfRange)
            }
        },
        Object::Real(bits) => {
            proof {
                lemma_step_refl(table@, dedup@, alloc@, work@, view_obj(*o));
            }
            Ok(TargetObject::Real(*bits))
        },
        Object::Name(n) => {
            proof {
                lemma_step_refl(table@, dedup@, alloc@, work@, view_obj(*o));
            }
            Ok(TargetObject::Name(copy_bytes(n)))
        },
        Object::Str(s) => {
            proof {
                lemma_step_refl(table@, dedup@, alloc@, work@, view_obj(*o));
            }
            Ok(TargetObject::Str(copy_bytes(s)))
        },
        Object::Array(v) => {
            match transcode_arr(v, table, dedup, alloc, work) {
                Ok(tv) => Ok(TargetObject::Array(tv)),
                Err(e) => {
                    proof {
                        assert(e == TranscodeError::IntegerOutOfRange ==> !ints_ok(view_obj(*o))
                            || alloc@ == MAX_TARGET_ID + 1);
                    }
                    Err(e)
                },
            }
        },
        Object::Dictionary(d) => {
            match transcode_dict(d, table, dedup, alloc, work) {
                Ok(td) => Ok(TargetObject::Dictionary(td)),
                Err(e) => {
                    proof {
                        assert(e == TranscodeError::IntegerOutOfRange ==> !ints_ok(view_obj(*o))
                            || alloc@ == MAX_TARGET_ID + 1);
                    }
                    Err(e)
                },
            }
        },
        Object::Stream(_, _) => {
            if alloc.can_bump() {
                let ghost n0 = alloc@;
                let id = alloc.bump();
                let copy = o.deep_clone();
                work.push((id, copy));
                proof {
                    assert(work@.subrange(0, old(work)@.len() as int) =~= old(work)@);
                    lemma_range_empty(n0 as int);
                    lemma_range_push(n0 as int, n0 as int);
                    assert(work_ids(work@) =~= work_ids(old(work)@) + range_seq(
                        n0 as int,
                        n0 as int + 1,
                    ));
                    assert(stream_in(view_obj(*o), view_obj(copy)));
                    assert(item_ok(work@[old(work)@.len() as int], table@, dedup@, view_obj(*o)));
                }
                Ok(TargetObject::Reference(id))
            } else {
                proof {
                    lemma_step_refl(table@, dedup@, alloc@, work@, view_obj(*o));
                    assert(alloc@ == MAX_TARGET_ID + 1);
                }
                Err(TranscodeError::IntegerOutOfRange)
            }
        },
        Object::Reference(sid) => {
            match dedup.get(*sid) {
                Some(idv) => {
                    proof {
                        lemma_step_refl(table@, dedup@, alloc@, work@, view_obj(*o));
                        assert(table@.contains_key(*sid));
                        assert(id_in_map(dedup@, idv));
                    }
                    Ok(TargetObject::Reference(TargetId { value: idv }))
                },
                None => {
                    match table.get(*sid) {
                        None => {
                            proof {
                                lemma_step_refl(table@, dedup@, alloc@, work@, view_obj(*o));
                            }
                            Err(TranscodeError::DanglingReference(*sid))
                        },
                        Some(obj) => {
                            if alloc.can_bump() {
                                let ghost n0 = alloc@;
                                let ghost m0 = dedup@;
                                let id = alloc.bump();
                                dedup.insert(*sid, id.value);
                                let copy = obj.deep_clone();
                                work.push((id, copy));
                                proof {
                                    assert(work@.subrange(0, old(work)@.len() as int) =~= old(
                                        work,
                                    )@);
                                    lemma_range_empty(n0 as int);
                                    lemma_range_push(n0 as int, n0 as int);
                                    assert(work_ids(work@) =~= work_ids(old(work)@) + range_seq(
                                        n0 as int,
                                        n0 as int + 1,
                                    ));
                                    assert(dedup@.contains_key(*sid) && dedup@[*sid] == id.value);
                                    assert(view_obj(work@[old(work)@.len() as int].1)
                                        == table@[*sid]);
                                    assert(item_ok(
                                        work@[old(work)@.len() as int],
                                        table@,
                                        dedup@,
                                        view_obj(*o),
                                    ));
                                    assert forall|s2: crate::object::SourceId|
                                        #[trigger] dedup@.contains_key(s2) && !m0.contains_key(s2)
                                        implies exists|k: int|
                                            old(work)@.len() <= k < work@.len()
                                            && (#[trigger] work@[k]).0.value == dedup@[s2]
                                            && view_obj(work@[k].1) == table@[s2] by {
                                        assert(s2 == *sid);
                                        assert((work@[old(work)@.len() as int]).0.value
                                            == dedup@[s2]);
                                    }
                                    assert forall|s2: crate::object::SourceId|
                                        #[trigger] dedup@.contains_key(s2) && !m0.contains_key(s2)
                                        implies crate::model::mentions(view_obj(*o), s2) by {
                                        assert(s2 == *sid);
                                    }
                                    assert forall|
                                        s3: crate::object::SourceId,
                                        s4: crate::object::SourceId,
                                    |
                                        #[trigger] dedup@.contains_key(s3)
                                        && #[trigger] dedup@.contains_key(s4) && dedup@[s3]
                                        == dedup@[s4] implies s3 == s4 by {
                                        if s3 != s4 {
                                            if s3 == *sid {
                                                assert(m0.contains_key(s4) && m0[s4] < n0);
                                            } else if s4 == *sid {
                                                assert(m0.contains_key(s3) && m0[s3] < n0);
                                            }
                                        }
                                    }
                                }
                                Ok(TargetObject::Reference(id))
                            } else {
                                proof {
                                    lemma_step_refl(table@, dedup@, alloc@, work@, view_obj(*o));
                                    assert(alloc@ == MAX_TARGET_ID + 1);
                                }
                                Err(TranscodeError::IntegerOutOfRange)
                            }
                        },
                    }
                },
            }
        },
    }
}

/// Transcodes the elements of an array in order.
pub fn transcode_arr(
    v: &Vec<Object>,
    table: &SourceTable,
    dedup: &mut DedupTable,
    alloc: &mut IdAllocator,
    work: &mut Vec<(TargetId, Object)>,
) -> (r: Result<Vec<TargetObject>, TranscodeError>)
    requires
        old(alloc).wf(),
        dedup_bounded(old(dedup)@, old(alloc)@),
        dedup_in_table(old(dedup)@, table@),
        crate::model::dedup_inj(old(dedup)@),
    ensures
        final(alloc).wf(),
        crate::model::dedup_inj(final(dedup)@),
        step_ok(
            table@,
            old(dedup)@,
            final(dedup)@,
            old(alloc)@,
            final(alloc)@,
            old(work)@,
            final(work)@,
            ObjView::Array(view_arr(v@)),
        ),
        final(alloc)@ <= old(alloc)@ + indir_count(ObjView::Array(view_arr(v@))),
        (r matches Ok(tv) ==> arr_rel(view_arr(v@), view_tarr(tv@), final(dedup)@)
            && refs_bounded(
            TargetView::Array(view_tarr(tv@)),
            final(dedup)@,
            old(alloc)@,
            final(alloc)@,
        )),
        r is Ok ==> refs_ok(ObjView::Array(view_arr(v@)), table@.dom()) && ints_ok(
            ObjView::Array(view_arr(v@)),
        ),
        refs_ok(ObjView::Array(view_arr(v@)), table@.dom()) && ints_ok(
            ObjView::Array(view_arr(v@)),
        ) && old(alloc)@ + indir_count(ObjView::Array(view_arr(v@))) <= MAX_TARGET_ID + 1
            ==> r is Ok,
        (r matches Err(e) ==> (e matches TranscodeError::DanglingReference(s2)
            ==> crate::model::mentions(ObjView::Array(view_arr(v@)), s2) && !table@.contains_key(
                s2,
            ))),
        (r matches Err(e) ==> {
            ||| (e is DanglingReference && !refs_ok(
                ObjView::Array(view_arr(v@)),
                table@.dom(),
            ))
            ||| (e == TranscodeError::IntegerOutOfRange && (!ints_ok(ObjView::Array(view_arr(v@)))
                || old(alloc)@ + indir_count(ObjView::Array(view_arr(v@))) > MAX_TARGET_ID + 1))
        }),
        r == Err::<Vec<TargetObject>, TranscodeError>(TranscodeError::IntegerOutOfRange)
            ==> !ints_ok(ObjView::Array(view_arr(v@))) || final(alloc)@ == MAX_TARGET_ID + 1,
    decreases *v,
{
    let ghost av = view_arr(v@);
    let ghost m0 = dedup@;
    let ghost n0 = alloc@;
    let ghost w0 = work@;
    proof {
        lemma_step_refl(table@, m0, n0, w0, ObjView::Array(av));
        assert(av.subrange(0, 0) =~= Seq::<ObjView>::empty());
    }
    let mut out: Vec<TargetObject> = Vec::new();
    let mut i: usize = 0;
    while i < v.len()
        invariant
            i <= v@.len(),
            av == view_arr(v@),
            m0 == old(dedup)@,
            n0 == old(alloc)@,
            w0 == old(work)@,
            alloc.wf(),
            dedup_bounded(dedup@, alloc@),
            dedup_in_table(dedup@, table@),
            crate::model::dedup_inj(dedup@),
            step_ok(table@, m0, dedup@, n0, alloc@, w0, work@, ObjView::Array(av)),
            alloc@ <= n0 + indir_count_arr(av.subrange(0, i as int)),
            out@.len() == i,
            forall|j: int| 0 <= j < i ==> tv_rel(av[j], view_tobj(#[trigger] out@[j]), dedup@),
            forall|j: int| 0 <= j < i ==> refs_ok(#[trigger] av[j], table@.dom()) && ints_ok(
                av[j],
            ),
            forall|j: int| 0 <= j < i ==> refs_bounded(
                view_tobj(#[trigger] out@[j]),
                dedup@,
                n0,
                alloc@,
            ),
        decreases v@.len() - i,
    {
        proof {
            view_arr_props(v@);
            lemma_indir_arr_prefix(av, i as int);
            lemma_indir_arr_prefix(av, i as int + 1);
            assert(decreases_to!(*v => v@[i as int]));
        }
        let ghost mi = dedup@;
        let ghost ni = alloc@;
        let ghost wi = work@;
        let res = transcode_value(&v[i], table, dedup, alloc, work);
        proof {
            assert(view_obj(v@[i as int]) == av[i as int]);
            assert forall|sv: ObjView| stream_in(av[i as int], sv) implies #[trigger] stream_in(
                ObjView::Array(av),
                sv,
            ) by {
                view_arr_props(v@);
                assert((i as int) < av.len());
                assert(crate::model::stream_in_arr(av, sv));
            }
            assert forall|s2: crate::object::SourceId| crate::model::mentions(av[i as int], s2)
                implies #[trigger] crate::model::mentions(ObjView::Array(av), s2) by {
                view_arr_props(v@);
                assert((i as int) < av.len());
                assert(crate::model::mentions_arr(av, s2));
            }
            lemma_step_trans(
                table@,
                m0,
                mi,
                dedup@,
                n0,
                ni,
                alloc@,
                w0,
                wi,
                work@,
                ObjView::Array(av),
                av[i as int],
                ObjView::Array(av),
            );
        }
        match res {
            Ok(t) => {
                proof {
                    assert forall|j: int| 0 <= j < i implies tv_rel(
                        av[j],
                        view_tobj(#[trigger] out@[j]),
                        dedup@,
                    ) by {
                        lemma_tv_rel_mono(av[j], view_tobj(out@[j]), mi, dedup@);
                    }
                    assert forall|j: int| 0 <= j < i implies refs_bounded(
                        view_tobj(#[trigger] out@[j]),
                        dedup@,
                        n0,
                        alloc@,
                    ) by {
                        lemma_refs_bounded_grow(view_tobj(out@[j]), mi, dedup@, n0, ni, n0, alloc@);
                    }
                    lemma_refs_bounded_grow(view_tobj(t), dedup@, dedup@, ni, alloc@, n0, alloc@);
                }
                out.push(t);
                i = i + 1;
            },
            Err(e) => {
                proof {
                    view_arr_props(v@);
                    assert((i as int) < av.len());
                    if let TranscodeError::DanglingReference(s2) = e {
                        assert(crate::model::mentions(av[i as int], s2));
                        assert(crate::model::mentions_arr(av, s2));
                    }
                    if e is DanglingReference {
                        assert(!refs_ok(ObjView::Array(av), table@.dom())) by {
                            assert(!crate::model::refs_ok_arr(av, table@.dom())) by {
                                assert(!refs_ok(av[i as int], table@.dom()));
                                assert((i as int) < av.len());
                            }
                        }
                    } else {
                        if !ints_ok(av[i as int]) {
                            assert(!ints_ok(ObjView::Array(av))) by {
                                assert(!crate::model::ints_ok_arr(av)) by {
                                    assert(!ints_ok(av[i as int]));
                                    assert((i as int) < av.len());
                                }
                            }
                        }
                    }
                }
                return Err(e);
            },
        }
    }
    proof {
        view_arr_props(v@);
        assert(av.subrange(0, i as int) =~= av);
        view_tarr_props(out@);
        assert(arr_rel(av, view_tarr(out@), dedup@)) by {
            assert forall|j: int| 0 <= j < av.len() implies tv_rel(
                #[trigger] av[j],
                view_tarr(out@)[j],
                dedup@,
            ) by {
                assert(view_tarr(out@)[j] == view_tobj(out@[j]));
            }
        }
        assert(crate::model::refs_ok_arr(av, table@.dom()));
        assert(crate::model::ints_ok_arr(av));
        assert(refs_ok(ObjView::Array(av), table@.dom()));
        assert(ints_ok(ObjView::Array(av)));
        assert forall|id: u64| #[trigger] tref_in(TargetView::Array(view_tarr(out@)), id)
            implies id_in_map(dedup@, id) || n0 <= id < alloc@ by {
            assert(crate::model::tref_in_arr(view_tarr(out@), id));
            let j = choose|j: int|
                0 <= j < view_tarr(out@).len() && tref_in(#[trigger] view_tarr(out@)[j], id);
            assert(view_tarr(out@)[j] == view_tobj(out@[j]));
            assert(tref_in(view_tobj(out@[j]), id));
        }
    }
    Ok(out)
}

/// Transcodes the entries of a dictionary in order, omitting entries
/// whose value is null.
pub fn transcode_dict(
    d: &Vec<(Vec<u8>, Object)>,
    table: &SourceTable,
    dedup: &mut DedupTable,
    alloc: &mut IdAllocator,
    work: &mut Vec<(TargetId, Object)>,
) -> (r: Result<Vec<(Vec<u8>, TargetObject)>, TranscodeError>)
    requires
        old(alloc).wf(),
        dedup_bounded(old(dedup)@, old(alloc)@),
        dedup_in_table(old(dedup)@, table@),
        crate::model::dedup_inj(old(dedup)@),
    ensures
        final(alloc).wf(),
        crate::model::dedup_inj(final(dedup)@),
        step_ok(
            table@,
            old(dedup)@,
            final(dedup)@,
            old(alloc)@,
            final(alloc)@,
            old(work)@,
            final(work)@,
            ObjView::Dict(view_entries(d@)),
        ),
        final(alloc)@ <= old(alloc)@ + indir_count(ObjView::Dict(view_entries(d@))),
        (r matches Ok(td) ==> dict_rel(view_entries(d@), view_tentries(td@), final(dedup)@)
            && refs_bounded(
            TargetView::Dict(view_tentries(td@)),
            final(dedup)@,
            old(alloc)@,
            final(alloc)@,
        )),
        r is Ok ==> refs_ok(ObjView::Dict(view_entries(d@)), table@.dom()) && ints_ok(
            ObjView::Dict(view_entries(d@)),
        ),
        refs_ok(ObjView::Dict(view_entries(d@)), table@.dom()) && ints_ok(
            ObjView::Dict(view_entries(d@)),
        ) && old(alloc)@ + indir_count(ObjView::Dict(view_entries(d@))) <= MAX_TARGET_ID + 1
            ==> r is Ok,
        (r matches Err(e) ==> (e matches TranscodeError::DanglingReference(s2)
            ==> crate::model::mentions(ObjView::Dict(view_entries(d@)), s2)
            && !table@.contains_key(s2))),
        (r matches Err(e) ==> {
            ||| (e is DanglingReference && !refs_ok(
                ObjView::Dict(view_entries(d@)),
                table@.dom(),
            ))
            ||| (e == TranscodeError::IntegerOutOfRange && (!ints_ok(
                ObjView::Dict(view_entries(d@)),
            ) || old(alloc)@ + indir_count(ObjView::Dict(view_entries(d@))) > MAX_TARGET_ID + 1))
        }),
        r == Err::<Vec<(Vec<u8>, TargetObject)>, TranscodeError>(
            TranscodeError::IntegerOutOfRange,
        ) ==> !ints_ok(ObjView::Dict(view_entries(d@))) || final(alloc)@ == MAX_TARGET_ID + 1,
    decreases *d,
{
    let ghost ev = view_entries(d@);
    let ghost m0 = dedup@;
    let ghost n0 = alloc@;
    let ghost w0 = work@;
    proof {
        lemma_step_refl(table@, m0, n0, w0, ObjView::Dict(ev));
        assert(ev.subrange(0, 0) =~= Seq::<(Seq<u8>, ObjView)>::empty());
    }
    let mut td: Vec<(Vec<u8>, TargetObject)> = Vec::new();
    let mut i: usize = 0;
    while i < d.len()
        invariant
            i <= d@.len(),
            ev == view_entries(d@),
            m0 == old(dedup)@,
            n0 == old(alloc)@,
            w0 == old(work)@,
            alloc.wf(),
            dedup_bounded(dedup@, alloc@),
            dedup_in_table(dedup@, table@),
            crate::model::dedup_inj(dedup@),
            step_ok(table@, m0, dedup@, n0, alloc@, w0, work@, ObjView::Dict(ev)),
            alloc@ <= n0 + indir_count_entries(ev.subrange(0, i as int)),
            dict_rel(ev.subrange(0, i as int), view_tentries(td@), dedup@),
            forall|j: int| 0 <= j < i ==> refs_ok((#[trigger] ev[j]).1, table@.dom()) && ints_ok(
                ev[j].1,
            ),
            forall|j: int| 0 <= j < td@.len() ==> refs_bounded(
                view_tobj((#[trigger] td@[j]).1),
                dedup@,
                n0,
                alloc@,
            ),
        decreases d@.len() - i,
    {
        proof {
            view_entries_props(d@);
            lemma_indir_entries_prefix(ev, i as int);
            lemma_indir_entries_prefix(ev, i as int + 1);
            assert(decreases_to!(*d => d@[i as int].1));
            assert(ev.subrange(0, i as int + 1).drop_last() =~= ev.subrange(0, i as int));
            assert(ev.subrange(0, i as int + 1).last() == ev[i as int]);
        }
        let entry = &d[i];
        if let Object::Null = &entry.1 {
            proof {
                assert(ev[i as int].1 is Null);
                assert(dict_rel(ev.subrange(0, i as int + 1), view_tentries(td@), dedup@));
                assert(refs_ok(ev[i as int].1, table@.dom()) && ints_ok(ev[i as int].1));
            }
            i = i + 1;
        } else {
            let ghost mi = dedup@;
            let ghost ni = alloc@;
            let ghost wi = work@;
            let res = transcode_value(&entry.1, table, dedup, alloc, work);
            proof {
                assert(view_obj(d@[i as int].1) == ev[i as int].1);
                assert forall|sv: ObjView| stream_in(ev[i as int].1, sv)
                    implies #[trigger] stream_in(ObjView::Dict(ev), sv) by {
                    view_entries_props(d@);
                    assert((i as int) < ev.len());
                    assert(crate::model::stream_in_entries(ev, sv));
                }
                assert forall|s2: crate::object::SourceId|
                    crate::model::mentions(ev[i as int].1, s2)
                    implies #[trigger] crate::model::mentions(ObjView::Dict(ev), s2) by {
                    view_entries_props(d@);
                    assert((i as int) < ev.len());
                    assert(crate::model::mentions_entries(ev, s2));
                }
                lemma_step_trans(
                    table@,
                    m0,
                    mi,
                    dedup@,
                    n0,
                    ni,
                    alloc@,
                    w0,
                    wi,
                    work@,
                    ObjView::Dict(ev),
                    ev[i as int].1,
                    ObjView::Dict(ev),
                );
            }
            match res {
                Ok(t) => {
                    let key = copy_bytes(&entry.0);
                    proof {
                        crate::model::lemma_dict_rel_mono(
                            ev.subrange(0, i as int),
                            view_tentries(td@),
                            mi,
                            dedup@,
                        );
                        assert forall|j: int| 0 <= j < td@.len() implies refs_bounded(
                            view_tobj((#[trigger] td@[j]).1),
                            dedup@,
                            n0,
                            alloc@,
                        ) by {
                            lemma_refs_bounded_grow(
                                view_tobj(td@[j].1),
                                mi,
                                dedup@,
                                n0,
                                ni,
                                n0,
                                alloc@,
                            );
                        }
                        lemma_refs_bounded_grow(
                            view_tobj(t),
                            dedup@,
                            dedup@,
                            ni,
                            alloc@,
                            n0,
                            alloc@,
                        );
                    }
                    let ghost td_old = td@;
                    td.push((key, t));
                    proof {
                        assert(td@.drop_last() =~= td_old);
                        view_tentries_props(td@);
                        assert(view_tentries(td@).drop_last() =~= view_tentries(td_old)) by {
                            view_tentries_props(td_old);
                            assert(view_tentries(td@).drop_last() =~= view_tentries(td@).subrange(
                                0,
                                td_old.len() as int,
                            ));
                            assert forall|j: int| 0 <= j < td_old.len() implies view_tentries(
                                td@,
                            )[j] == view_tentries(td_old)[j] by {
                                assert(td@[j] == td_old[j]);
                            }
                        }
                        assert(view_tentries(td@).last() == (key@, view_tobj(t)));
                        assert(dict_rel(ev.subrange(0, i as int + 1), view_tentries(td@), dedup@));
                    }
                    i = i + 1;
                },
                Err(e) => {
                    proof {
                        view_entries_props(d@);
                        assert((i as int) < ev.len());
                        if let TranscodeError::DanglingReference(s2) = e {
                            assert(crate::model::mentions(ev[i as int].1, s2));
                            assert(crate::model::mentions_entries(ev, s2));
                        }
                        if e is DanglingReference {
                            assert(!refs_ok(ObjView::Dict(ev), table@.dom())) by {
                                assert(!crate::model::refs_ok_entries(ev, table@.dom())) by {
                                    assert(!refs_ok(ev[i as int].1, table@.dom()));
                                    assert((i as int) < ev.len());
                                }
                            }
                        } else {
                            if !ints_ok(ev[i as int].1) {
                                assert(!ints_ok(ObjView::Dict(ev))) by {
                                    assert(!crate::model::ints_ok_entries(ev)) by {
                                        assert(!ints_ok(ev[i as int].1));
                                        assert((i as int) < ev.len());
                                    }
                                }
                            }
                        }
                    }
                    return Err(e);
                },
            }
        }
    }
    proof {
        view_entries_props(d@);
        assert(ev.subrange(0, i as int) =~= ev);
        assert(crate::model::refs_ok_entries(ev, table@.dom()));
        assert(crate::model::ints_ok_entries(ev));
        assert(refs_ok(ObjView::Dict(ev), table@.dom()));
        assert(ints_ok(ObjView::Dict(ev)));
        view_tentries_props(td@);
        assert forall|id: u64| #[trigger] tref_in(TargetView::Dict(view_tentries(td@)), id)
            implies id_in_map(dedup@, id) || n0 <= id < alloc@ by {
            assert(crate::model::tref_in_entries(view_tentries(td@), id));
            let j = choose|j: int|
                0 <= j < view_tentries(td@).len() && tref_in(
                    (#[trigger] view_tentries(td@)[j]).1,
                    id,
                );
            assert(view_tentries(td@)[j].1 == view_tobj(td@[j].1));
            assert(tref_in(view_tobj(td@[j].1), id));
        }
    }
    Ok(td)
}

} // verus!
