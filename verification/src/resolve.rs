//! The deferred-resolution loop and the public entry point of the core.
//!
//! The loop drains the work list in waves: each wave snapshots the pending
//! items, clears the list, and transcodes every snapshotted object into
//! the output under its already-allocated identifier; transcoding may
//! defer new items for the next wave.  It stops when a wave discovers no
//! new work, or fails with `GraphTooDeep` once the configured wave ceiling
//! is exceeded.  `transcode_subtree` ties allocator, deduplication table,
//! transcoder and loop together for one run.

use vstd::prelude::*;
use crate::alloc_id::IdAllocator;
use crate::alloc_id::TargetId;
use crate::model::TranscodeError;
use crate::model::dedup_bounded;
use crate::model::dedup_in_table;
use crate::model::entry_rel;
use crate::model::id_in_map;
use crate::model::indir_count;
use crate::model::ints_ok;
use crate::model::lemma_item_source;
use crate::model::lemma_out_entry_ok_mono;
use crate::model::lemma_pending_from_item;
use crate::model::lemma_pending_ok_mono;
use crate::model::lemma_range_concat;
use crate::model::lemma_refs_bounded_grow;
use crate::model::lemma_tv_rel_mono;
use crate::model::map_extends;
use crate::model::out_entry_ok;
use crate::model::out_ids;
use crate::model::pending_ok;
use crate::model::range_seq;
use crate::model::refs_bounded;
use crate::model::refs_ok;
use crate::model::source_stream;
use crate::model::step_ok;
use crate::model::stream_in;
use crate::model::tref_in;
use crate::model::tv_rel;
use crate::model::work_ids;
use crate::object::Object;
use crate::object::ObjView;
use crate::object::SourceId;
use crate::object::TargetObject;
use crate::object::TargetView;
use crate::object::copy_bytes;
use crate::object::view_entries;
use crate::object::view_obj;
use crate::object::view_tobj;
use crate::table::DedupTable;
use crate::table::SourceTable;
use crate::transcode::transcode_dict;
use crate::transcode::transcode_value;

verus! {

/// What one finished run guarantees, under the identifier mapping `m` it
/// built: the mapping stays within the allocated range, the first output
/// entry is the transcoded root, every later entry is accounted for, every
/// deduplicated source object is defined, and every reference in the
/// output points into the run's own identifier range.
pub open spec fn subtree_post(
    table: Map<SourceId, crate::object::ObjView>,
    rootv: ObjView,
    m: Map<SourceId, u64>,
    n0: u64,
    nf: u64,
    out: Seq<(TargetId, TargetObject)>,
) -> bool {
    &&& dedup_bounded(m, nf)
    &&& dedup_in_table(m, table)
    &&& (forall|sid: SourceId| #[trigger] m.contains_key(sid) ==> n0 < m[sid])
    &&& out.len() >= 1
    &&& tv_rel(rootv, view_tobj(out[0].1), m)
    &&& (forall|i: int| 1 <= i < out.len() ==> out_entry_ok(#[trigger] out[i], table, m, rootv))
    &&& (forall|sid: SourceId| #[trigger] m.contains_key(sid) ==> exists|i: int|
        0 <= i < out.len() && (#[trigger] out[i]).0.value == m[sid] && entry_rel(
            table[sid],
            view_tobj(out[i].1),
            m,
        ))
    &&& (forall|i: int, id: u64|
        0 <= i < out.len() && #[trigger] tref_in(view_tobj(out[i].1), id) ==> n0 < id < nf)
    &&& (forall|sid: SourceId| #[trigger] m.contains_key(sid) ==> crate::model::reachable(
        table,
        rootv,
        sid,
    ))
    &&& crate::model::dedup_inj(m)
    &&& (rootv is Stream ==> out.len() >= 2 && view_tobj(out[0].1) == TargetView::Ref(
        out[1].0.value,
    ) && entry_rel(rootv, view_tobj(out[1].1), m))
}

/// After one transcoding call, everything already established — earlier
/// definitions, waiting items, and their reference bounds — stays valid
/// under the grown mapping, and the newly deferred items are valid too.
proof fn lemma_wave_upgrades(
    table: Map<SourceId, ObjView>,
    root_src: ObjView,
    mi: Map<SourceId, u64>,
    ma: Map<SourceId, u64>,
    ni: u64,
    na: u64,
    b0: u64,
    wi: Seq<(TargetId, Object)>,
    wa: Seq<(TargetId, Object)>,
    snap: Seq<(TargetId, Object)>,
    j: int,
    out_s: Seq<(TargetId, TargetObject)>,
    src_call: ObjView,
)
    requires
        step_ok(table, mi, ma, ni, na, wi, wa, src_call),
        b0 <= ni,
        0 <= j < snap.len(),
        pending_ok(snap[j], table, mi, root_src),
        forall|sid: SourceId| #[trigger] mi.contains_key(sid) ==> crate::model::reachable(
            table,
            root_src,
            sid,
        ),
        forall|sv: ObjView| stream_in(src_call, sv) ==> #[trigger] stream_in(
            view_obj(snap[j].1),
            sv,
        ),
        forall|sid: SourceId| crate::model::mentions(src_call, sid)
            ==> #[trigger] crate::model::mentions(view_obj(snap[j].1), sid),
        forall|k: int| j <= k < snap.len() ==> pending_ok(#[trigger] snap[k], table, mi, root_src),
        forall|k: int| 0 <= k < wi.len() ==> pending_ok(#[trigger] wi[k], table, mi, root_src),
        forall|i: int| 0 <= i < out_s.len() ==> out_entry_ok(
            #[trigger] out_s[i],
            table,
            mi,
            root_src,
        ),
        forall|i: int| 0 <= i < out_s.len() ==> refs_bounded(
            view_tobj((#[trigger] out_s[i]).1),
            mi,
            b0,
            ni,
        ),
    ensures
        forall|sid: SourceId| #[trigger] ma.contains_key(sid) ==> crate::model::reachable(
            table,
            root_src,
            sid,
        ),
        forall|k: int| 0 <= k < wa.len() ==> pending_ok(#[trigger] wa[k], table, ma, root_src),
        forall|k: int| j <= k < snap.len() ==> pending_ok(#[trigger] snap[k], table, ma, root_src),
        forall|i: int| 0 <= i < out_s.len() ==> out_entry_ok(
            #[trigger] out_s[i],
            table,
            ma,
            root_src,
        ),
        forall|i: int| 0 <= i < out_s.len() ==> refs_bounded(
            view_tobj((#[trigger] out_s[i]).1),
            ma,
            b0,
            na,
        ),
{
    lemma_item_source(snap[j], table, mi, root_src);
    crate::model::lemma_reach_preserved(table, root_src, mi, ma, snap[j], src_call);
    assert forall|k: int| 0 <= k < wa.len() implies pending_ok(
        #[trigger] wa[k],
        table,
        ma,
        root_src,
    ) by {
        if k < wi.len() {
            assert(wa[k] == wa.subrange(0, wi.len() as int)[k]);
            assert(wa[k] == wi[k]);
            lemma_pending_ok_mono(wi[k], table, mi, ma, root_src);
        } else {
            lemma_pending_from_item(wa[k], table, ma, root_src, src_call);
        }
    }
    assert forall|k: int| j <= k < snap.len() implies pending_ok(
        #[trigger] snap[k],
        table,
        ma,
        root_src,
    ) by {
        lemma_pending_ok_mono(snap[k], table, mi, ma, root_src);
    }
    assert forall|i: int| 0 <= i < out_s.len() implies out_entry_ok(
        #[trigger] out_s[i],
        table,
        ma,
        root_src,
    ) by {
        lemma_out_entry_ok_mono(out_s[i], table, mi, ma, root_src);
    }
    assert forall|i: int| 0 <= i < out_s.len() implies refs_bounded(
        view_tobj((#[trigger] out_s[i]).1),
        ma,
        b0,
        na,
    ) by {
        lemma_refs_bounded_grow(view_tobj(out_s[i].1), mi, ma, b0, ni, b0, na);
    }
}

/// One processed item moves from the snapshot into the output while the
/// identifiers allocated for its children join the next wave: the
/// identifier ledger stays exact.
proof fn lemma_ids_step(
    out_b: Seq<(TargetId, TargetObject)>,
    out_a: Seq<(TargetId, TargetObject)>,
    snap: Seq<(TargetId, Object)>,
    j: int,
    wi: Seq<(TargetId, Object)>,
    wa: Seq<(TargetId, Object)>,
    b0: u64,
    ni: u64,
    na: u64,
    t: TargetObject,
)
    requires
        0 <= j < snap.len(),
        out_a == out_b.push((snap[j].0, t)),
        out_ids(out_b) + work_ids(snap.skip(j)) + work_ids(wi) == range_seq(b0 as int, ni as int),
        work_ids(wa) == work_ids(wi) + range_seq(ni as int, na as int),
        b0 <= ni <= na,
    ensures
        out_ids(out_a) + work_ids(snap.skip(j + 1)) + work_ids(wa) == range_seq(
            b0 as int,
            na as int,
        ),
{
    assert(snap.skip(j) =~= seq![snap[j]] + snap.skip(j + 1));
    assert(work_ids(snap.skip(j)) =~= seq![snap[j].0.value] + work_ids(snap.skip(j + 1)));
    assert(out_ids(out_a) =~= out_ids(out_b).push(snap[j].0.value));
    lemma_range_concat(b0 as int, ni as int, na as int);
    assert(out_ids(out_a) + work_ids(snap.skip(j + 1)) + work_ids(wa) =~= range_seq(
        b0 as int,
        na as int,
    ));
}

/// After one item is processed, every deduplicated source identifier
/// still has a witness: a finished definition, or an item still waiting
/// in this wave's snapshot or on the next wave's list.
proof fn lemma_witness_step(
    table: Map<SourceId, ObjView>,
    mi: Map<SourceId, u64>,
    ma: Map<SourceId, u64>,
    snap: Seq<(TargetId, Object)>,
    j: int,
    wi: Seq<(TargetId, Object)>,
    wa: Seq<(TargetId, Object)>,
    out_b: Seq<(TargetId, TargetObject)>,
    out_a: Seq<(TargetId, TargetObject)>,
    t: TargetObject,
)
    requires
        0 <= j < snap.len(),
        out_a == out_b.push((snap[j].0, t)),
        map_extends(mi, ma),
        entry_rel(view_obj(snap[j].1), view_tobj(t), ma),
        wa.len() >= wi.len(),
        wa.subrange(0, wi.len() as int) == wi,
        forall|sid: SourceId| #[trigger] ma.contains_key(sid) && !mi.contains_key(sid)
            ==> exists|k: int| wi.len() <= k < wa.len() && (#[trigger] wa[k]).0.value == ma[sid]
            && view_obj(wa[k].1) == table[sid],
        forall|sid: SourceId| #[trigger] mi.contains_key(sid) ==> (exists|i: int|
            0 <= i < out_b.len() && (#[trigger] out_b[i]).0.value == mi[sid] && entry_rel(
                table[sid],
                view_tobj(out_b[i].1),
                mi,
            )) || (exists|k: int|
            j <= k < snap.len() && (#[trigger] snap[k]).0.value == mi[sid] && view_obj(snap[k].1)
                == table[sid]) || (exists|k: int|
            0 <= k < wi.len() && (#[trigger] wi[k]).0.value == mi[sid] && view_obj(wi[k].1)
                == table[sid]),
    ensures
        forall|sid: SourceId| #[trigger] ma.contains_key(sid) ==> (exists|i: int|
            0 <= i < out_a.len() && (#[trigger] out_a[i]).0.value == ma[sid] && entry_rel(
                table[sid],
                view_tobj(out_a[i].1),
                ma,
            )) || (exists|k: int|
            j + 1 <= k < snap.len() && (#[trigger] snap[k]).0.value == ma[sid] && view_obj(
                snap[k].1,
            ) == table[sid]) || (exists|k: int|
            0 <= k < wa.len() && (#[trigger] wa[k]).0.value == ma[sid] && view_obj(wa[k].1)
                == table[sid]),
{
    assert forall|sid: SourceId| #[trigger] ma.contains_key(sid) implies (exists|i: int|
        0 <= i < out_a.len() && (#[trigger] out_a[i]).0.value == ma[sid] && entry_rel(
            table[sid],
            view_tobj(out_a[i].1),
            ma,
        )) || (exists|k: int|
        j + 1 <= k < snap.len() && (#[trigger] snap[k]).0.value == ma[sid] && view_obj(snap[k].1)
            == table[sid]) || (exists|k: int|
        0 <= k < wa.len() && (#[trigger] wa[k]).0.value == ma[sid] && view_obj(wa[k].1)
            == table[sid]) by {
        if mi.contains_key(sid) {
            assert(ma[sid] == mi[sid]);
            if exists|i: int|
                0 <= i < out_b.len() && (#[trigger] out_b[i]).0.value == mi[sid] && entry_rel(
                    table[sid],
                    view_tobj(out_b[i].1),
                    mi,
                ) {
                let i = choose|i: int|
                    0 <= i < out_b.len() && (#[trigger] out_b[i]).0.value == mi[sid] && entry_rel(
                        table[sid],
                        view_tobj(out_b[i].1),
                        mi,
                    );
                assert(out_a[i] == out_b[i]);
                crate::model::lemma_entry_rel_mono(table[sid], view_tobj(out_b[i].1), mi, ma);
            } else if exists|k: int|
                j <= k < snap.len() && (#[trigger] snap[k]).0.value == mi[sid] && view_obj(
                    snap[k].1,
                ) == table[sid] {
                let k = choose|k: int|
                    j <= k < snap.len() && (#[trigger] snap[k]).0.value == mi[sid] && view_obj(
                        snap[k].1,
                    ) == table[sid];
                if k == j {
                    assert((out_a[out_b.len() as int]).0.value == ma[sid]);
                    assert(entry_rel(table[sid], view_tobj(t), ma));
                }
            } else {
                let k = choose|k: int|
                    0 <= k < wi.len() && (#[trigger] wi[k]).0.value == mi[sid] && view_obj(
                        wi[k].1,
                    ) == table[sid];
                assert(wa[k] == wa.subrange(0, wi.len() as int)[k]);
                assert(wa[k] == wi[k]);
            }
        }
    }
}

/// Collapses the reference bound of one definition to plain numbers:
/// with the mapping inside `(n0, hi)`, every reference lies there too.
proof fn lemma_refs_numeric(t: TargetView, m: Map<SourceId, u64>, lo: u64, hi: u64, n0: u64)
    requires
        refs_bounded(t, m, lo, hi),
        dedup_bounded(m, hi),
        forall|sid: SourceId| #[trigger] m.contains_key(sid) ==> n0 < m[sid],
        n0 < lo,
    ensures
        forall|id: u64| #[trigger] tref_in(t, id) ==> n0 < id < hi,
{
    assert forall|id: u64| #[trigger] tref_in(t, id) implies n0 < id < hi by {
        if id_in_map(m, id) {
            let sid = choose|sid: SourceId| #[trigger] m.contains_key(sid) && m[sid] == id;
        }
    }
}

/// Drains the pending work list in waves until it is empty.
///
/// Every pending identifier is defined exactly once, in allocation order;
/// the wave count is returned for the caller's diagnostics.
#[verifier::rlimit(80)]
#[verifier::spinoff_prover]
fn resolve_pending(
    table: &SourceTable,
    dedup: &mut DedupTable,
    alloc: &mut IdAllocator,
    work: Vec<(TargetId, Object)>,
    max_waves: u64,
    root_src: Ghost<ObjView>,
) -> (r: Result<(Vec<(TargetId, TargetObject)>, u64), TranscodeError>)
    requires
        old(alloc).wf(),
        work@.len() < old(alloc)@,
        dedup_bounded(old(dedup)@, old(alloc)@),
        dedup_in_table(old(dedup)@, table@),
        forall|sid: SourceId| #[trigger] old(dedup)@.contains_key(sid) ==> old(alloc)@
            - work@.len() <= old(dedup)@[sid],
        work_ids(work@) == range_seq(old(alloc)@ - work@.len(), old(alloc)@ as int),
        forall|k: int| 0 <= k < work@.len() ==> pending_ok(
            #[trigger] work@[k],
            table@,
            old(dedup)@,
            root_src@,
        ),
        forall|sid: SourceId| #[trigger] old(dedup)@.contains_key(sid) ==> exists|k: int|
            0 <= k < work@.len() && (#[trigger] work@[k]).0.value == old(dedup)@[sid] && view_obj(
                work@[k].1,
            ) == table@[sid],
        forall|sid: SourceId| #[trigger] old(dedup)@.contains_key(sid)
            ==> crate::model::reachable(table@, root_src@, sid),
        crate::model::dedup_inj(old(dedup)@),
    ensures
        final(alloc).wf(),
        old(alloc)@ <= final(alloc)@,
        (r matches Ok(p) ==> {
            &&& map_extends(old(dedup)@, final(dedup)@)
            &&& dedup_bounded(final(dedup)@, final(alloc)@)
            &&& dedup_in_table(final(dedup)@, table@)
            &&& (forall|sid: SourceId| #[trigger] final(dedup)@.contains_key(sid) ==> old(
                alloc,
            )@ - work@.len() <= final(dedup)@[sid])
            &&& out_ids(p.0@) == range_seq(old(alloc)@ - work@.len(), final(alloc)@ as int)
            &&& (forall|i: int| 0 <= i < p.0@.len() ==> out_entry_ok(
                #[trigger] p.0@[i],
                table@,
                final(dedup)@,
                root_src@,
            ))
            &&& (forall|sid: SourceId| #[trigger] final(dedup)@.contains_key(sid)
                ==> exists|i: int|
                0 <= i < p.0@.len() && (#[trigger] p.0@[i]).0.value == final(dedup)@[sid]
                    && entry_rel(table@[sid], view_tobj(p.0@[i].1), final(dedup)@))
            &&& (forall|i: int| 0 <= i < p.0@.len() ==> refs_bounded(
                view_tobj((#[trigger] p.0@[i]).1),
                final(dedup)@,
                (old(alloc)@ - work@.len()) as u64,
                final(alloc)@,
            ))
            &&& (forall|sid: SourceId| #[trigger] final(dedup)@.contains_key(sid)
                ==> crate::model::reachable(table@, root_src@, sid))
            &&& crate::model::dedup_inj(final(dedup)@)
            &&& (forall|k: int| 0 <= k < work@.len() ==> (#[trigger] p.0@[k]).0 == work@[k].0
                && entry_rel(view_obj(work@[k].1), view_tobj(p.0@[k].1), final(dedup)@))
            &&& p.1 <= max_waves
            &&& p.1 <= p.0@.len()
        }),
        (r matches Err(e) ==> e is DanglingReference || e == TranscodeError::IntegerOutOfRange
            || e == TranscodeError::GraphTooDeep),
        (r matches Err(e) ==> (e matches TranscodeError::DanglingReference(s2)
            ==> crate::model::reachable(table@, root_src@, s2) && !table@.contains_key(s2))),
        r == Err::<(Vec<(TargetId, TargetObject)>, u64), TranscodeError>(
            TranscodeError::IntegerOutOfRange,
        ) ==> final(alloc)@ == crate::alloc_id::MAX_TARGET_ID + 1 || exists|o2: ObjView|
            #[trigger] crate::model::src_material(table@, root_src@, o2)
            && !crate::model::item_ints_ok(o2),
        r == Err::<(Vec<(TargetId, TargetObject)>, u64), TranscodeError>(
            TranscodeError::GraphTooDeep,
        ) ==> max_waves < final(alloc)@ - (old(alloc)@ - work@.len()),
        work@.len() == 0 ==> r is Ok,
{
    let ghost m_in = dedup@;
    let ghost n_in = alloc@;
    let ghost b0: u64 = (alloc@ - work@.len()) as u64;
    let mut out: Vec<(TargetId, TargetObject)> = Vec::new();
    let mut pending = work;
    let mut waves: u64 = 0;
    proof {
        assert(out_ids(out@) + work_ids(pending@) =~= range_seq(b0 as int, alloc@ as int));
    }
    while pending.len() > 0
        invariant
            work@.len() == 0 ==> pending@.len() == 0,
            waves <= out@.len(),
            waves == 0 ==> out@.len() == 0 && pending@ == work@,
            waves >= 1 ==> out@.len() >= work@.len() && (forall|k: int|
                0 <= k < work@.len() ==> (#[trigger] out@[k]).0 == work@[k].0 && entry_rel(
                    view_obj(work@[k].1),
                    view_tobj(out@[k].1),
                    dedup@,
                )),
            forall|sid: SourceId| #[trigger] dedup@.contains_key(sid)
                ==> crate::model::reachable(table@, root_src@, sid),
            crate::model::dedup_inj(dedup@),
            alloc.wf(),
            n_in <= alloc@,
            b0 == n_in - work@.len(),
            waves <= max_waves,
            map_extends(m_in, dedup@),
            m_in == old(dedup)@,
            n_in == old(alloc)@,
            dedup_bounded(dedup@, alloc@),
            dedup_in_table(dedup@, table@),
            forall|sid: SourceId| #[trigger] dedup@.contains_key(sid) ==> b0 <= dedup@[sid],
            out_ids(out@) + work_ids(pending@) == range_seq(b0 as int, alloc@ as int),
            forall|i: int| 0 <= i < out@.len() ==> out_entry_ok(
                #[trigger] out@[i],
                table@,
                dedup@,
                root_src@,
            ),
            forall|k: int| 0 <= k < pending@.len() ==> pending_ok(
                #[trigger] pending@[k],
                table@,
                dedup@,
                root_src@,
            ),
            forall|sid: SourceId| #[trigger] dedup@.contains_key(sid) ==> (exists|i: int|
                0 <= i < out@.len() && (#[trigger] out@[i]).0.value == dedup@[sid] && entry_rel(
                    table@[sid],
                    view_tobj(out@[i].1),
                    dedup@,
                )) || (exists|k: int|
                0 <= k < pending@.len() && (#[trigger] pending@[k]).0.value == dedup@[sid]
                    && view_obj(pending@[k].1) == table@[sid]),
            forall|i: int| 0 <= i < out@.len() ==> refs_bounded(
                view_tobj((#[trigger] out@[i]).1),
                dedup@,
                b0,
                alloc@,
            ),
        decreases max_waves - waves,
    {
        if waves >= max_waves {
            proof {
                assert(out_ids(out@).len() == out@.len());
                assert(work_ids(pending@).len() == pending@.len());
                assert(range_seq(b0 as int, alloc@ as int).len() == alloc@ - b0);
                assert((out_ids(out@) + work_ids(pending@)).len() == out@.len()
                    + pending@.len());
                assert(out@.len() + pending@.len() == alloc@ - b0);
                assert(max_waves <= out@.len());
                assert(max_waves < alloc@ - b0);
            }
            return Err(TranscodeError::GraphTooDeep);
        }
        waves = waves + 1;
        let snapshot = pending;
        pending = Vec::new();
        let ghost snap = snapshot@;
        let ghost ow = out@.len();
        let mut j: usize = 0;
        proof {
            assert(work_ids(pending@) =~= Seq::<u64>::empty());
            assert(snap.skip(0) =~= snap);
            assert(out_ids(out@) + work_ids(snap.skip(0)) + work_ids(pending@) =~= range_seq(
                b0 as int,
                alloc@ as int,
            ));
        }
        while j < snapshot.len()
            invariant
                work@.len() > 0,
                j <= snap.len(),
                snap == snapshot@,
                snap.len() > 0,
                1 <= waves <= max_waves,
                out@.len() == ow + j,
                waves <= ow + 1,
                waves == 1 ==> ow == 0 && snap == work@,
                waves == 1 ==> forall|k: int| 0 <= k < j ==> (#[trigger] out@[k]).0 == work@[k].0
                    && entry_rel(view_obj(work@[k].1), view_tobj(out@[k].1), dedup@),
                waves >= 2 ==> out@.len() >= work@.len() && (forall|k: int|
                    0 <= k < work@.len() ==> (#[trigger] out@[k]).0 == work@[k].0 && entry_rel(
                        view_obj(work@[k].1),
                        view_tobj(out@[k].1),
                        dedup@,
                    )),
                forall|sid: SourceId| #[trigger] dedup@.contains_key(sid)
                    ==> crate::model::reachable(table@, root_src@, sid),
                crate::model::dedup_inj(dedup@),
                alloc.wf(),
                n_in <= alloc@,
                b0 == n_in - work@.len(),
                waves <= max_waves,
                map_extends(m_in, dedup@),
                m_in == old(dedup)@,
                n_in == old(alloc)@,
                dedup_bounded(dedup@, alloc@),
                dedup_in_table(dedup@, table@),
                forall|sid: SourceId| #[trigger] dedup@.contains_key(sid) ==> b0 <= dedup@[sid],
                out_ids(out@) + work_ids(snap.skip(j as int)) + work_ids(pending@) == range_seq(
                    b0 as int,
                    alloc@ as int,
                ),
                forall|i: int| 0 <= i < out@.len() ==> out_entry_ok(
                    #[trigger] out@[i],
                    table@,
                    dedup@,
                    root_src@,
                ),
                forall|k: int| j <= k < snap.len() ==> pending_ok(
                    #[trigger] snap[k],
                    table@,
                    dedup@,
                    root_src@,
                ),
                forall|k: int| 0 <= k < pending@.len() ==> pending_ok(
                    #[trigger] pending@[k],
                    table@,
                    dedup@,
                    root_src@,
                ),
                forall|sid: SourceId| #[trigger] dedup@.contains_key(sid) ==> (exists|i: int|
                    0 <= i < out@.len() && (#[trigger] out@[i]).0.value == dedup@[sid]
                        && entry_rel(table@[sid], view_tobj(out@[i].1), dedup@)) || (exists|k: int|
                    j <= k < snap.len() && (#[trigger] snap[k]).0.value == dedup@[sid]
                        && view_obj(snap[k].1) == table@[sid]) || (exists|k: int|
                    0 <= k < pending@.len() && (#[trigger] pending@[k]).0.value == dedup@[sid]
                        && view_obj(pending@[k].1) == table@[sid]),
                forall|i: int| 0 <= i < out@.len() ==> refs_bounded(
                    view_tobj((#[trigger] out@[i]).1),
                    dedup@,
                    b0,
                    alloc@,
                ),
            decreases snap.len() - j,
        {
            let ghost mi = dedup@;
            let ghost ni = alloc@;
            let ghost wi = pending@;
            let ghost itemv = view_obj(snap[j as int].1);
            proof {
                lemma_item_source(snap[j as int], table@, dedup@, root_src@);
            }
            let item_id = snapshot[j].0;
            let t: TargetObject = match &snapshot[j].1 {
                Object::Stream(d, b) => {
                    match transcode_dict(d, table, dedup, alloc, &mut pending) {
                        Ok(td) => {
                            proof {
                                assert(itemv == ObjView::Stream(view_entries(d@), b@));
                            }
                            TargetObject::Stream(td, copy_bytes(b))
                        },
                        Err(e) => {
                            proof {
                                let src_c = ObjView::Dict(view_entries(d@));
                                assert(itemv == ObjView::Stream(view_entries(d@), b@));
                                assert forall|s2: SourceId| crate::model::mentions(src_c, s2)
                                    implies #[trigger] crate::model::mentions(itemv, s2) by {
                                    assert(crate::model::mentions_entries(view_entries(d@), s2));
                                }
                                if let TranscodeError::DanglingReference(s2) = e {
                                    assert(crate::model::mentions(itemv, s2));
                                    crate::model::lemma_pending_material(
                                        snap[j as int],
                                        table@,
                                        mi,
                                        root_src@,
                                    );
                                    crate::model::lemma_material_mentions(
                                        table@,
                                        root_src@,
                                        itemv,
                                        s2,
                                    );
                                }
                                if e == TranscodeError::IntegerOutOfRange && alloc@
                                    != crate::alloc_id::MAX_TARGET_ID + 1 {
                                    assert(!ints_ok(src_c));
                                    assert(!crate::model::ints_ok_entries(view_entries(d@)));
                                    assert(!crate::model::item_ints_ok(itemv));
                                    crate::model::lemma_pending_material(
                                        snap[j as int],
                                        table@,
                                        mi,
                                        root_src@,
                                    );
                                    assert(crate::model::src_material(table@, root_src@, itemv)
                                        && !crate::model::item_ints_ok(itemv));
                                }
                            }
                            return Err(e);
                        },
                    }
                },
                _ => {
                    match transcode_value(&snapshot[j].1, table, dedup, alloc, &mut pending) {
                        Ok(t2) => t2,
                        Err(e) => {
                            proof {
                                if let TranscodeError::DanglingReference(s2) = e {
                                    assert(crate::model::mentions(itemv, s2));
                                    crate::model::lemma_pending_material(
                                        snap[j as int],
                                        table@,
                                        mi,
                                        root_src@,
                                    );
                                    crate::model::lemma_material_mentions(
                                        table@,
                                        root_src@,
                                        itemv,
                                        s2,
                                    );
                                }
                                if e == TranscodeError::IntegerOutOfRange && alloc@
                                    != crate::alloc_id::MAX_TARGET_ID + 1 {
                                    assert(!ints_ok(itemv));
                                    assert(!crate::model::item_ints_ok(itemv));
                                    crate::model::lemma_pending_material(
                                        snap[j as int],
                                        table@,
                                        mi,
                                        root_src@,
                                    );
                                    assert(crate::model::src_material(table@, root_src@, itemv)
                                        && !crate::model::item_ints_ok(itemv));
                                }
                            }
                            return Err(e);
                        },
                    }
                },
            };
            let ghost src_call = if itemv is Stream {
                ObjView::Dict(itemv->Stream_0)
            } else {
                itemv
            };
            proof {
                // the call's step against `src_call` composes to one against
                // the source material
                assert(step_ok(table@, mi, dedup@, ni, alloc@, wi, pending@, src_call));
                // everything established so far survives under the grown
                // mapping, and the newly deferred items are valid
                assert forall|sv: ObjView| stream_in(src_call, sv) implies #[trigger] stream_in(
                    view_obj(snap[j as int].1),
                    sv,
                ) by {
                    if itemv is Stream {
                        assert(crate::model::stream_in_entries(itemv->Stream_0, sv));
                    }
                }
                assert forall|s2: SourceId| crate::model::mentions(src_call, s2)
                    implies #[trigger] crate::model::mentions(itemv, s2) by {
                    if itemv is Stream {
                        assert(crate::model::mentions_entries(itemv->Stream_0, s2));
                    }
                }
                lemma_wave_upgrades(
                    table@,
                    root_src@,
                    mi,
                    dedup@,
                    ni,
                    alloc@,
                    b0,
                    wi,
                    pending@,
                    snap,
                    j as int,
                    out@,
                    src_call,
                );
            }
            let ghost out_b = out@;
            out.push((item_id, t));
            proof {
                // the new entry is the transcoding of the processed item
                lemma_pending_ok_mono(snap[j as int], table@, mi, dedup@, root_src@);
                assert(entry_rel(itemv, view_tobj(t), dedup@));
                assert(out_entry_ok(out@[out_b.len() as int], table@, dedup@, root_src@)) by {
                    if exists|sid: SourceId| #[trigger] dedup@.contains_key(sid) && dedup@[sid]
                        == item_id.value && table@.contains_key(sid) && view_obj(
                        snap[j as int].1,
                    ) == table@[sid] {
                        let sid = choose|sid: SourceId| #[trigger] dedup@.contains_key(sid)
                            && dedup@[sid] == item_id.value && table@.contains_key(sid)
                            && view_obj(snap[j as int].1) == table@[sid];
                        assert(entry_rel(table@[sid], view_tobj(t), dedup@));
                    } else {
                        assert(itemv is Stream && source_stream(table@, root_src@, itemv));
                        assert(source_stream(table@, root_src@, itemv) && entry_rel(
                            itemv,
                            view_tobj(t),
                            dedup@,
                        ));
                    }
                }
                // the new entry's references stay inside the issued range
                assert(refs_bounded(view_tobj(t), dedup@, b0, alloc@)) by {
                    if itemv is Stream {
                        assert forall|id: u64| #[trigger] tref_in(view_tobj(t), id)
                            implies id_in_map(dedup@, id) || ni <= id < alloc@ by {
                            assert(crate::model::tref_in_entries(view_tobj(t)->Stream_0, id));
                            assert(tref_in(TargetView::Dict(view_tobj(t)->Stream_0), id));
                        }
                    }
                    lemma_refs_bounded_grow(view_tobj(t), dedup@, dedup@, ni, alloc@, b0, alloc@);
                }
                // the first-wave definitions keep matching the initial items
                if waves == 1 {
                    assert forall|k: int| 0 <= k < j + 1 implies (#[trigger] out@[k]).0
                        == work@[k].0 && entry_rel(
                        view_obj(work@[k].1),
                        view_tobj(out@[k].1),
                        dedup@,
                    ) by {
                        if k < j {
                            assert(out@[k] == out_b[k]);
                            crate::model::lemma_entry_rel_mono(
                                view_obj(work@[k].1),
                                view_tobj(out_b[k].1),
                                mi,
                                dedup@,
                            );
                        } else {
                            assert(out@[k] == (item_id, t));
                            assert(snap[j as int] == work@[j as int]);
                            assert(entry_rel(itemv, view_tobj(t), dedup@));
                        }
                    }
                } else {
                    assert forall|k: int| 0 <= k < work@.len() implies (#[trigger] out@[k]).0
                        == work@[k].0 && entry_rel(
                        view_obj(work@[k].1),
                        view_tobj(out@[k].1),
                        dedup@,
                    ) by {
                        assert(out@[k] == out_b[k]);
                        crate::model::lemma_entry_rel_mono(
                            view_obj(work@[k].1),
                            view_tobj(out_b[k].1),
                            mi,
                            dedup@,
                        );
                    }
                }
                // the identifier ledger and the per-identifier witnesses
                // survive the step
                lemma_ids_step(out_b, out@, snap, j as int, wi, pending@, b0, ni, alloc@, t);
                lemma_witness_step(
                    table@,
                    mi,
                    dedup@,
                    snap,
                    j as int,
                    wi,
                    pending@,
                    out_b,
                    out@,
                    t,
                );
            }
            j = j + 1;
        }
        proof {
            assert(snap.skip(snap.len() as int) =~= Seq::<(TargetId, Object)>::empty());
            assert(work_ids(snap.skip(snap.len() as int)) =~= Seq::<u64>::empty());
            assert(out_ids(out@) + work_ids(snap.skip(j as int)) + work_ids(pending@) =~= out_ids(
                out@,
            ) + work_ids(pending@));
        }
    }
    proof {
        assert(work_ids(pending@) =~= Seq::<u64>::empty());
        assert(out_ids(out@) =~= out_ids(out@) + work_ids(pending@));
    }
    Ok((out, waves))
}

/// Transcodes the whole subtree rooted at `root` into a fresh set of
/// target definitions: the root's identifier, the definitions for every
/// identifier the run allocated (the root's first, the rest in allocation
/// order), and the number of waves the resolution took.
///
/// Every transitively reachable source object is materialized exactly
/// once, and every reference in the output resolves within the output.
/// A stream root costs one extra hop: its first definition is a bare
/// reference to the stream's own definition.
#[verifier::rlimit(100)]
#[verifier::spinoff_prover]
pub fn transcode_subtree(
    table: &SourceTable,
    root: &Object,
    alloc: &mut IdAllocator,
    max_waves: u64,
) -> (r: Result<(TargetId, Vec<(TargetId, TargetObject)>, u64), TranscodeError>)
    requires
        old(alloc).wf(),
    ensures
        final(alloc).wf(),
        old(alloc)@ <= final(alloc)@,
        (r matches Ok(p) ==> {
            &&& p.0.value == old(alloc)@
            &&& p.1@.len() == final(alloc)@ - old(alloc)@
            &&& out_ids(p.1@) == range_seq(old(alloc)@ as int, final(alloc)@ as int)
            &&& p.1@.len() >= 1
            &&& p.1@[0].0 == p.0
            &&& p.2 <= max_waves
            &&& exists|m: Map<SourceId, u64>| subtree_post(
                table@,
                view_obj(*root),
                m,
                old(alloc)@,
                final(alloc)@,
                p.1@,
            )
        }),
        (r matches Err(e) ==> e is DanglingReference || e == TranscodeError::IntegerOutOfRange
            || e == TranscodeError::GraphTooDeep),
        (r matches Err(e) ==> (e matches TranscodeError::DanglingReference(s2)
            ==> crate::model::reachable(table@, view_obj(*root), s2) && !table@.contains_key(
                s2,
            ))),
        r == Err::<(TargetId, Vec<(TargetId, TargetObject)>, u64), TranscodeError>(
            TranscodeError::IntegerOutOfRange,
        ) ==> final(alloc)@ == crate::alloc_id::MAX_TARGET_ID + 1 || exists|o2: ObjView|
            #[trigger] crate::model::src_material(table@, view_obj(*root), o2)
            && !crate::model::item_ints_ok(o2),
        r == Err::<(TargetId, Vec<(TargetId, TargetObject)>, u64), TranscodeError>(
            TranscodeError::GraphTooDeep,
        ) ==> max_waves < final(alloc)@ - old(alloc)@,
        (r matches Ok(p) ==> p.2 <= p.1@.len()),
        refs_ok(view_obj(*root), table@.dom()) && ints_ok(view_obj(*root)) && indir_count(
            view_obj(*root),
        ) == 0 && old(alloc)@ <= crate::alloc_id::MAX_TARGET_ID ==> r is Ok,
        (forall|sid: SourceId|
            crate::model::reachable(table@, view_obj(*root), sid)
                ==> #[trigger] table@.contains_key(sid)) && (forall|o2: ObjView|
            #[trigger] crate::model::src_material(table@, view_obj(*root), o2)
                ==> crate::model::item_ints_ok(o2)) ==> (r is Ok || r == Err::<
            (TargetId, Vec<(TargetId, TargetObject)>, u64),
            TranscodeError,
        >(TranscodeError::GraphTooDeep) || (r == Err::<
            (TargetId, Vec<(TargetId, TargetObject)>, u64),
            TranscodeError,
        >(TranscodeError::IntegerOutOfRange) && final(alloc)@ == crate::alloc_id::MAX_TARGET_ID
            + 1)),
{
    if !alloc.can_bump() {
        return Err(TranscodeError::IntegerOutOfRange);
    }
    let ghost n0 = alloc@;
    let mut dedup = DedupTable::new();
    let root_id = alloc.bump();
    let mut work: Vec<(TargetId, Object)> = Vec::new();
    let t_root = match transcode_value(root, table, &mut dedup, alloc, &mut work) {
        Ok(t) => t,
        Err(e) => {
            proof {
                let rootv = view_obj(*root);
                if let TranscodeError::DanglingReference(s2) = e {
                    assert(crate::model::mentions(rootv, s2));
                    crate::model::lemma_reach_base(table@, rootv, s2);
                }
                if e == TranscodeError::IntegerOutOfRange && alloc@
                    != crate::alloc_id::MAX_TARGET_ID + 1 {
                    assert(!ints_ok(rootv));
                    assert(crate::model::src_material(table@, rootv, rootv));
                    assert(!crate::model::item_ints_ok(rootv));
                }
            }
            return Err(e);
        },
    };
    let ghost m1 = dedup@;
    let ghost n1 = alloc@;
    proof {
        assert forall|sid: SourceId| #[trigger] m1.contains_key(sid)
            implies crate::model::reachable(table@, view_obj(*root), sid) by {
            assert(crate::model::mentions(view_obj(*root), sid));
            crate::model::lemma_reach_base(table@, view_obj(*root), sid);
        }
        assert(work_ids(work@) =~= range_seq(n0 as int + 1, n1 as int));
        assert forall|k: int| 0 <= k < work@.len() implies pending_ok(
            #[trigger] work@[k],
            table@,
            dedup@,
            view_obj(*root),
        ) by {
            assert(crate::model::item_ok(work@[k], table@, m1, view_obj(*root)));
            assert forall|sv: ObjView| stream_in(view_obj(*root), sv)
                implies #[trigger] source_stream(table@, view_obj(*root), sv) by {}
            lemma_pending_from_item(work@[k], table@, m1, view_obj(*root), view_obj(*root));
        }
    }
    let pair = match resolve_pending(
        table,
        &mut dedup,
        alloc,
        work,
        max_waves,
        Ghost(view_obj(*root)),
    ) {
        Ok(p) => p,
        Err(e) => {
            proof {
                if e == TranscodeError::GraphTooDeep {
                    assert(max_waves < alloc@ - n0);
                }
            }
            return Err(e);
        },
    };
    let (mut rest, waves) = pair;
    let mut out: Vec<(TargetId, TargetObject)> = Vec::new();
    out.push((root_id, t_root));
    let ghost rest_v = rest@;
    out.append(&mut rest);
    proof {
        let mf = dedup@;
        let nf = alloc@;
        assert(out@ =~= seq![(root_id, t_root)] + rest_v);
        assert(out_ids(out@) =~= seq![root_id.value] + out_ids(rest_v));
        lemma_range_concat(n0 as int, n0 as int + 1, nf as int);
        assert(range_seq(n0 as int, n0 as int + 1) =~= seq![root_id.value]);
        assert(out_ids(out@) =~= range_seq(n0 as int, nf as int));
        lemma_tv_rel_mono(view_obj(*root), view_tobj(t_root), m1, mf);
        assert forall|i: int| 1 <= i < out@.len() implies out_entry_ok(
            #[trigger] out@[i],
            table@,
            mf,
            view_obj(*root),
        ) by {
            assert(out@[i] == rest_v[i - 1]);
        }
        assert forall|sid: SourceId| #[trigger] mf.contains_key(sid) implies exists|i: int|
            0 <= i < out@.len() && (#[trigger] out@[i]).0.value == mf[sid] && entry_rel(
                table@[sid],
                view_tobj(out@[i].1),
                mf,
            ) by {
            let i = choose|i: int|
                0 <= i < rest_v.len() && (#[trigger] rest_v[i]).0.value == mf[sid] && entry_rel(
                    table@[sid],
                    view_tobj(rest_v[i].1),
                    mf,
                );
            assert(out@[i + 1] == rest_v[i]);
            assert((out@[i + 1]).0.value == mf[sid] && entry_rel(
                table@[sid],
                view_tobj(out@[i + 1].1),
                mf,
            ));
        }
        assert forall|i: int, id: u64|
            0 <= i < out@.len() && #[trigger] tref_in(view_tobj(out@[i].1), id) implies n0 < id
            < nf by {
            if i == 0 {
                lemma_refs_bounded_grow(
                    view_tobj(t_root),
                    m1,
                    mf,
                    (n0 + 1) as u64,
                    n1,
                    (n0 + 1) as u64,
                    nf,
                );
                lemma_refs_numeric(view_tobj(t_root), mf, (n0 + 1) as u64, nf, n0);
            } else {
                assert(out@[i] == rest_v[i - 1]);
                assert(refs_bounded(view_tobj(rest_v[i - 1].1), mf, (n0 + 1) as u64, nf));
                lemma_refs_numeric(view_tobj(rest_v[i - 1].1), mf, (n0 + 1) as u64, nf, n0);
            }
        }
        if view_obj(*root) is Stream {
            assert(view_tobj(t_root) == TargetView::Ref((n0 + 1) as u64));
            assert(work@.len() == 1);
            assert(work@.last() == work@[0]);
            assert(view_obj(work@[0].1) == view_obj(*root));
            assert(out@[1] == rest_v[0]);
            assert(rest_v[0].0 == work@[0].0);
            assert((out@[1]).0.value == (n0 + 1) as u64);
            assert(entry_rel(view_obj(*root), view_tobj(out@[1].1), mf));
        }
        assert(subtree_post(table@, view_obj(*root), mf, n0, nf, out@));
    }
    Ok((root_id, out, waves))
}

/// Law of deduplication: a finished run defines each target identifier at
/// most once — two output entries carrying the same identifier are the
/// same entry.  Together with the witness clause of `subtree_post`, a
/// source identifier referenced from two places is materialized exactly
/// once, and both places carry the identifier recorded for it.
pub proof fn lemma_dedup_unique(
    out: Seq<(TargetId, TargetObject)>,
    n0: u64,
    nf: u64,
    i: int,
    j: int,
)
    requires
        out_ids(out) == range_seq(n0 as int, nf as int),
        0 <= i < out.len(),
        0 <= j < out.len(),
        out[i].0.value == out[j].0.value,
    ensures
        i == j,
{
    assert(out_ids(out).len() == out.len());
    assert(out.len() == range_seq(n0 as int, nf as int).len());
    assert(out_ids(out)[i] == out[i].0.value);
    assert(out_ids(out)[j] == out[j].0.value);
    assert(out[i].0.value == ((n0 + i) as u64));
    assert(out[j].0.value == ((n0 + j) as u64));
    assert(n0 + i < 0x1_0000_0000_0000_0000);
    assert(n0 + j < 0x1_0000_0000_0000_0000);
}

/// Law of closure: in a finished run, every reference inside any output
/// definition resolves to an identifier that the output defines — the
/// target document has no dangling identifiers.
pub proof fn lemma_closure(
    table: Map<SourceId, crate::object::ObjView>,
    rootv: ObjView,
    m: Map<SourceId, u64>,
    n0: u64,
    nf: u64,
    out: Seq<(TargetId, TargetObject)>,
    i: int,
    id: u64,
)
    requires
        subtree_post(table, rootv, m, n0, nf, out),
        out_ids(out) == range_seq(n0 as int, nf as int),
        0 <= i < out.len(),
        tref_in(view_tobj(out[i].1), id),
    ensures
        exists|k: int| 0 <= k < out.len() && (#[trigger] out[k]).0.value == id,
{
    assert(n0 < id < nf);
    let k = id - n0;
    assert(out.len() == out_ids(out).len());
    assert(out.len() == range_seq(n0 as int, nf as int).len());
    assert(out_ids(out)[k] == out[k].0.value);
    assert(out[k].0.value == (((n0 + k) as u64)));
    assert(0 <= k < out.len() && out[k].0.value == id);
}

/// Law of shared references: a source identifier recorded by a finished
/// run has exactly one definition, at the identifier the mapping records
/// for it; and since `tv_rel` maps every occurrence of a reference to
/// that same recorded identifier, every location that referenced it
/// carries the same target identifier.
pub proof fn lemma_shared_source(
    table: Map<SourceId, crate::object::ObjView>,
    rootv: ObjView,
    m: Map<SourceId, u64>,
    n0: u64,
    nf: u64,
    out: Seq<(TargetId, TargetObject)>,
    sid: SourceId,
)
    requires
        subtree_post(table, rootv, m, n0, nf, out),
        out_ids(out) == range_seq(n0 as int, nf as int),
        m.contains_key(sid),
    ensures
        exists|i: int|
            0 <= i < out.len() && (#[trigger] out[i]).0.value == m[sid] && entry_rel(
                table[sid],
                view_tobj(out[i].1),
                m,
            ),
        forall|i: int, j: int|
            0 <= i < out.len() && 0 <= j < out.len() && (#[trigger] out[i]).0.value == m[sid]
                && (#[trigger] out[j]).0.value == m[sid] ==> i == j,
{
    assert forall|i: int, j: int|
        0 <= i < out.len() && 0 <= j < out.len() && (#[trigger] out[i]).0.value == m[sid]
            && (#[trigger] out[j]).0.value == m[sid] implies i == j by {
        lemma_dedup_unique(out, n0, nf, i, j);
    }
}

} // verus!
