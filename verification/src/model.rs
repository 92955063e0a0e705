//! The transcoding relation and the spec-level bookkeeping it rests on.
//!
//! `tv_rel` says what it means for a target object to be the transcoding of
//! a source object under a given identifier mapping: primitives are equal,
//! arrays correspond element-wise, dictionaries correspond key-wise with
//! null-valued entries omitted, and every indirection has become a target
//! reference.  The remaining functions characterize when transcoding can
//! fail and which identifiers a run touches.

use vstd::prelude::*;
use crate::alloc_id::TargetId;
use crate::object::Object;
use crate::object::ObjView;
use crate::object::SourceId;
use crate::object::TargetObject;
use crate::object::TargetView;
use crate::object::view_obj;
use crate::object::view_tobj;

verus! {

/// Why a transcoding run aborts.  Every failure is fatal: no partial output
/// is ever handed to the writer.
#[derive(Clone, Copy, Debug, PartialEq, Eq, Structural)]
pub enum TranscodeError {
    /// A reference names an identifier absent from the source table; it
    /// carries the offending identifier.
    DanglingReference(SourceId),
    /// A location expected one object kind and found another.
    UnexpectedObjectKind,
    /// A value exceeds the target's native numeric width.
    IntegerOutOfRange,
    /// The page's content is split across more than one stream.
    UnsupportedMultiStreamPage,
    /// The resolution loop exceeded its wave-count ceiling.
    GraphTooDeep,
}

/// An integer representable at the target's 32-bit width.
pub open spec fn int_fits(v: int) -> bool {
    i32::MIN <= v <= i32::MAX
}

/// Every reference that this value resolves inline lies in `dom`.  A
/// stream is a leaf here: its dictionary is examined only when the stream's
/// own work item is processed.
pub open spec fn refs_ok(o: ObjView, dom: Set<SourceId>) -> bool
    decreases o,
{
    match o {
        ObjView::Ref(sid) => dom.contains(sid),
        ObjView::Array(s) => refs_ok_arr(s, dom),
        ObjView::Dict(es) => refs_ok_entries(es, dom),
        _ => true,
    }
}

pub open spec fn refs_ok_arr(s: Seq<ObjView>, dom: Set<SourceId>) -> bool
    decreases s,
{
    forall|i: int| 0 <= i < s.len() ==> refs_ok(#[trigger] s[i], dom)
}

pub open spec fn refs_ok_entries(es: Seq<(Seq<u8>, ObjView)>, dom: Set<SourceId>) -> bool
    decreases es,
{
    forall|i: int| 0 <= i < es.len() ==> refs_ok((#[trigger] es[i]).1, dom)
}

/// Every integer that this value copies inline fits the target width.
pub open spec fn ints_ok(o: ObjView) -> bool
    decreases o,
{
    match o {
        ObjView::Integer(v) => int_fits(v),
        ObjView::Array(s) => ints_ok_arr(s),
        ObjView::Dict(es) => ints_ok_entries(es),
        _ => true,
    }
}

pub open spec fn ints_ok_arr(s: Seq<ObjView>) -> bool
    decreases s,
{
    forall|i: int| 0 <= i < s.len() ==> ints_ok(#[trigger] s[i])
}

pub open spec fn ints_ok_entries(es: Seq<(Seq<u8>, ObjView)>) -> bool
    decreases es,
{
    forall|i: int| 0 <= i < es.len() ==> ints_ok((#[trigger] es[i]).1)
}

/// How many indirections (references and inline streams) this value holds:
/// an upper bound on the identifiers its transcoding allocates.
pub open spec fn indir_count(o: ObjView) -> nat
    decreases o,
{
    match o {
        ObjView::Ref(_) => 1,
        ObjView::Stream(_, _) => 1,
        ObjView::Array(s) => indir_count_arr(s),
        ObjView::Dict(es) => indir_count_entries(es),
        _ => 0,
    }
}

pub open spec fn indir_count_arr(s: Seq<ObjView>) -> nat
    decreases s,
{
    if s.len() == 0 {
        0
    } else {
        indir_count_arr(s.drop_last()) + indir_count(s.last())
    }
}

pub open spec fn indir_count_entries(es: Seq<(Seq<u8>, ObjView)>) -> nat
    decreases es,
{
    if es.len() == 0 {
        0
    } else {
        indir_count_entries(es.drop_last()) + indir_count(es.last().1)
    }
}

/// The transcoding relation: `t` is the target form of `o` once every
/// reference has been replaced through the mapping `m`.  An inline stream
/// becomes a reference to a freshly allocated identifier; which one is
/// pinned down by the work-list clauses of the transcoder itself.
pub open spec fn tv_rel(o: ObjView, t: TargetView, m: Map<SourceId, u64>) -> bool
    decreases o,
{
    match o {
        ObjView::Null => t == TargetView::Null,
        ObjView::Boolean(b) => t == TargetView::Boolean(b),
        ObjView::Integer(v) => int_fits(v) && t == TargetView::Integer(v),
        ObjView::Real(bits) => t == TargetView::Real(bits),
        ObjView::Name(n) => t == TargetView::Name(n),
        ObjView::Str(s) => t == TargetView::Str(s),
        ObjView::Array(s) => t matches TargetView::Array(ts) && arr_rel(s, ts, m),
        ObjView::Dict(es) => t matches TargetView::Dict(tes) && dict_rel(es, tes, m),
        ObjView::Stream(_, _) => t is Ref,
        ObjView::Ref(sid) => m.contains_key(sid) && t == TargetView::Ref(m[sid]),
    }
}

pub open spec fn arr_rel(s: Seq<ObjView>, ts: Seq<TargetView>, m: Map<SourceId, u64>) -> bool
    decreases s,
{
    ts.len() == s.len() && forall|i: int|
        0 <= i < s.len() ==> tv_rel(#[trigger] s[i], ts[i], m)
}

/// Dictionaries correspond entry by entry in order, except that an entry
/// whose value is null is omitted from the target.
pub open spec fn dict_rel(
    es: Seq<(Seq<u8>, ObjView)>,
    tes: Seq<(Seq<u8>, TargetView)>,
    m: Map<SourceId, u64>,
) -> bool
    decreases es,
{
    if es.len() == 0 {
        tes.len() == 0
    } else if es.last().1 is Null {
        dict_rel(es.drop_last(), tes, m)
    } else {
        &&& tes.len() > 0
        &&& tes.last().0 == es.last().0
        &&& tv_rel(es.last().1, tes.last().1, m)
        &&& dict_rel(es.drop_last(), tes.drop_last(), m)
    }
}

/// What the resolution loop emits for a work item: a stream keeps its raw
/// payload bit for bit and has only its dictionary transcoded; anything
/// else is transcoded as a value.
pub open spec fn entry_rel(o: ObjView, t: TargetView, m: Map<SourceId, u64>) -> bool {
    match o {
        ObjView::Stream(es, b) => t matches TargetView::Stream(tes, tb) && tb == b
            && dict_rel(es, tes, m),
        _ => tv_rel(o, t, m),
    }
}

/// Whether the target value contains a reference to identifier `id`.
pub open spec fn tref_in(t: TargetView, id: u64) -> bool
    decreases t,
{
    match t {
        TargetView::Ref(i) => i == id,
        TargetView::Array(ts) => tref_in_arr(ts, id),
        TargetView::Dict(es) => tref_in_entries(es, id),
        TargetView::Stream(es, _) => tref_in_entries(es, id),
        _ => false,
    }
}

pub open spec fn tref_in_arr(ts: Seq<TargetView>, id: u64) -> bool
    decreases ts,
{
    exists|i: int| 0 <= i < ts.len() && tref_in(#[trigger] ts[i], id)
}

pub open spec fn tref_in_entries(tes: Seq<(Seq<u8>, TargetView)>, id: u64) -> bool
    decreases tes,
{
    exists|i: int| 0 <= i < tes.len() && tref_in((#[trigger] tes[i]).1, id)
}

/// Whether the stream value `sv` occurs inside `o`: as `o` itself, or
/// nested anywhere below it (stream dictionaries included).
pub open spec fn stream_in(o: ObjView, sv: ObjView) -> bool
    decreases o,
{
    ||| (o == sv && sv is Stream)
    ||| match o {
        ObjView::Array(s) => stream_in_arr(s, sv),
        ObjView::Dict(es) => stream_in_entries(es, sv),
        ObjView::Stream(es, _) => stream_in_entries(es, sv),
        _ => false,
    }
}

pub open spec fn stream_in_arr(s: Seq<ObjView>, sv: ObjView) -> bool
    decreases s,
{
    exists|i: int| 0 <= i < s.len() && stream_in(#[trigger] s[i], sv)
}

pub open spec fn stream_in_entries(es: Seq<(Seq<u8>, ObjView)>, sv: ObjView) -> bool
    decreases es,
{
    exists|i: int| 0 <= i < es.len() && stream_in((#[trigger] es[i]).1, sv)
}

/// Whether `sv` is a stream value found somewhere in the source material
/// of a run: inside the root value, or inside a table object reachable
/// from it.
pub open spec fn source_stream(
    table: Map<SourceId, ObjView>,
    root_src: ObjView,
    sv: ObjView,
) -> bool {
    ||| stream_in(root_src, sv)
    ||| exists|sid: SourceId| #[trigger] table.contains_key(sid) && reachable(table, root_src, sid)
        && stream_in(table[sid], sv)
}

/// Whether `o` holds a reference to `sid` anywhere inside it, stream
/// dictionaries included.
pub open spec fn mentions(o: ObjView, sid: SourceId) -> bool
    decreases o,
{
    match o {
        ObjView::Ref(s2) => s2 == sid,
        ObjView::Array(s) => mentions_arr(s, sid),
        ObjView::Dict(es) => mentions_entries(es, sid),
        ObjView::Stream(es, _) => mentions_entries(es, sid),
        _ => false,
    }
}

pub open spec fn mentions_arr(s: Seq<ObjView>, sid: SourceId) -> bool
    decreases s,
{
    exists|i: int| 0 <= i < s.len() && mentions(#[trigger] s[i], sid)
}

pub open spec fn mentions_entries(es: Seq<(Seq<u8>, ObjView)>, sid: SourceId) -> bool
    decreases es,
{
    exists|i: int| 0 <= i < es.len() && mentions((#[trigger] es[i]).1, sid)
}

/// `sid` is the end of the given chain of reference steps: the root
/// mentions the chain's first identifier, each chain entry's table object
/// mentions the next, and the last one's object mentions `sid`.
pub open spec fn chain_to(
    table: Map<SourceId, ObjView>,
    rootv: ObjView,
    c: Seq<SourceId>,
    sid: SourceId,
) -> bool
    decreases c,
{
    if c.len() == 0 {
        mentions(rootv, sid)
    } else {
        chain_to(table, rootv, c.drop_last(), c.last()) && table.contains_key(c.last())
            && mentions(table[c.last()], sid)
    }
}

/// The transitive closure of the root subtree: `sid` is named by the root
/// or by some chain of table objects starting at the root.
pub open spec fn reachable(table: Map<SourceId, ObjView>, rootv: ObjView, sid: SourceId) -> bool {
    exists|c: Seq<SourceId>| chain_to(table, rootv, c, sid)
}

/// A value that belongs to the run's source material: the root itself, a
/// stream inside it, or a reachable table object or a stream inside one.
pub open spec fn src_material(table: Map<SourceId, ObjView>, rootv: ObjView, o: ObjView) -> bool {
    ||| o == rootv
    ||| source_stream(table, rootv, o)
    ||| exists|sid: SourceId| #[trigger] table.contains_key(sid) && reachable(table, rootv, sid)
        && table[sid] == o
}

/// The integers a work item's transcoding examines: for a stream, those
/// of its dictionary; for anything else, its inline integers.
pub open spec fn item_ints_ok(o: ObjView) -> bool {
    match o {
        ObjView::Stream(es, _) => ints_ok_entries(es),
        _ => ints_ok(o),
    }
}

/// A mention directly by the root is reachable.
pub proof fn lemma_reach_base(
    table: Map<SourceId, ObjView>,
    rootv: ObjView,
    sid: SourceId,
)
    requires
        mentions(rootv, sid),
    ensures
        reachable(table, rootv, sid),
{
    assert(chain_to(table, rootv, Seq::<SourceId>::empty(), sid));
}

/// A mention by a reachable table object is reachable.
pub proof fn lemma_reach_step(
    table: Map<SourceId, ObjView>,
    rootv: ObjView,
    s2: SourceId,
    sid: SourceId,
)
    requires
        reachable(table, rootv, s2),
        table.contains_key(s2),
        mentions(table[s2], sid),
    ensures
        reachable(table, rootv, sid),
{
    let c = choose|c: Seq<SourceId>| chain_to(table, rootv, c, s2);
    let c2 = c.push(s2);
    assert(c2.drop_last() =~= c);
    assert(c2.last() == s2);
    assert(chain_to(table, rootv, c2, sid));
}

/// A mention inside a nested stream is a mention of its container.
pub proof fn lemma_stream_in_mentions(a: ObjView, sv: ObjView, sid: SourceId)
    requires
        stream_in(a, sv),
        mentions(sv, sid),
    ensures
        mentions(a, sid),
    decreases a,
{
    if a == sv && sv is Stream {
    } else {
        match a {
            ObjView::Array(s) => {
                assert(stream_in_arr(s, sv));
                let i = choose|i: int| 0 <= i < s.len() && stream_in(#[trigger] s[i], sv);
                lemma_stream_in_mentions(s[i], sv, sid);
                assert(mentions_arr(s, sid));
            },
            ObjView::Dict(es) => {
                assert(stream_in_entries(es, sv));
                let i = choose|i: int| 0 <= i < es.len() && stream_in((#[trigger] es[i]).1, sv);
                lemma_stream_in_mentions(es[i].1, sv, sid);
                assert(mentions_entries(es, sid));
            },
            ObjView::Stream(es, _) => {
                assert(stream_in_entries(es, sv));
                let i = choose|i: int| 0 <= i < es.len() && stream_in((#[trigger] es[i]).1, sv);
                lemma_stream_in_mentions(es[i].1, sv, sid);
                assert(mentions_entries(es, sid));
            },
            _ => {},
        }
    }
}

/// Everything a source-material value mentions is reachable.
pub proof fn lemma_material_mentions(
    table: Map<SourceId, ObjView>,
    rootv: ObjView,
    o: ObjView,
    sid: SourceId,
)
    requires
        src_material(table, rootv, o),
        mentions(o, sid),
    ensures
        reachable(table, rootv, sid),
{
    if o == rootv {
        lemma_reach_base(table, rootv, sid);
    } else if source_stream(table, rootv, o) {
        if stream_in(rootv, o) {
            lemma_stream_in_mentions(rootv, o, sid);
            lemma_reach_base(table, rootv, sid);
        } else {
            let s2 = choose|s2: SourceId| #[trigger] table.contains_key(s2) && reachable(
                table,
                rootv,
                s2,
            ) && stream_in(table[s2], o);
            lemma_stream_in_mentions(table[s2], o, sid);
            lemma_reach_step(table, rootv, s2, sid);
        }
    } else {
        let s2 = choose|s2: SourceId| #[trigger] table.contains_key(s2) && reachable(
            table,
            rootv,
            s2,
        ) && table[s2] == o;
        lemma_reach_step(table, rootv, s2, sid);
    }
}

/// `m2` agrees with `m1` everywhere `m1` is defined: the identifier
/// mapping only ever grows during a run.
pub open spec fn map_extends(m1: Map<SourceId, u64>, m2: Map<SourceId, u64>) -> bool {
    forall|sid: SourceId| #[trigger] m1.contains_key(sid) ==> m2.contains_key(sid)
        && m2[sid] == m1[sid]
}

/// The identifiers of a pending work list, in order.
pub open spec fn work_ids(s: Seq<(TargetId, Object)>) -> Seq<u64> {
    s.map_values(|p: (TargetId, Object)| p.0.value)
}

/// The identifiers defined by an output list, in order.
pub open spec fn out_ids(s: Seq<(TargetId, TargetObject)>) -> Seq<u64> {
    s.map_values(|p: (TargetId, TargetObject)| p.0.value)
}

/// The identifiers from `a` (inclusive) to `b` (exclusive), in order.
pub open spec fn range_seq(a: int, b: int) -> Seq<u64> {
    Seq::new(if b >= a { (b - a) as nat } else { 0 }, |i: int| (a + i) as u64)
}

/// Every identifier the mapping has issued lies below `n` (and above 0).
pub open spec fn dedup_bounded(m: Map<SourceId, u64>, n: u64) -> bool {
    forall|sid: SourceId| #[trigger] m.contains_key(sid) ==> 1 <= m[sid] < n
}

/// Every source identifier the mapping knows resolves in the table.
pub open spec fn dedup_in_table(m: Map<SourceId, u64>, t: Map<SourceId, ObjView>) -> bool {
    forall|sid: SourceId| #[trigger] m.contains_key(sid) ==> t.contains_key(sid)
}

/// The mapping never issues one target identifier for two source
/// identifiers.
pub open spec fn dedup_inj(m: Map<SourceId, u64>) -> bool {
    forall|s1: SourceId, s2: SourceId| #[trigger] m.contains_key(s1) && #[trigger] m.contains_key(
        s2,
    ) && m[s1] == m[s2] ==> s1 == s2
}

/// Whether `id` was issued for some source identifier.
pub open spec fn id_in_map(m: Map<SourceId, u64>, id: u64) -> bool {
    exists|sid: SourceId| #[trigger] m.contains_key(sid) && m[sid] == id
}

/// What the transcoder guarantees of every work item it defers: either the
/// item holds the resolved object of a source identifier, under the target
/// identifier recorded for it, or it holds an inline stream taken verbatim
/// from the value `src` being transcoded.
pub open spec fn item_ok(
    it: (TargetId, Object),
    table: Map<SourceId, ObjView>,
    m: Map<SourceId, u64>,
    src: ObjView,
) -> bool {
    ||| (exists|sid: SourceId| #[trigger] m.contains_key(sid) && m[sid] == it.0.value
        && table.contains_key(sid) && view_obj(it.1) == table[sid])
    ||| (view_obj(it.1) is Stream && stream_in(src, view_obj(it.1)))
}

/// What the resolution loop guarantees of every definition it emits: the
/// definition is the transcoding either of the table object recorded for
/// its identifier, or of an inline stream of the source material.
pub open spec fn out_entry_ok(
    e: (TargetId, TargetObject),
    table: Map<SourceId, ObjView>,
    m: Map<SourceId, u64>,
    root_src: ObjView,
) -> bool {
    ||| (exists|sid: SourceId| #[trigger] m.contains_key(sid) && m[sid] == e.0.value
        && table.contains_key(sid) && entry_rel(table[sid], view_tobj(e.1), m))
    ||| (exists|sv: ObjView| #[trigger] source_stream(table, root_src, sv)
        && entry_rel(sv, view_tobj(e.1), m))
}

/// What holds of every item still pending in the resolution loop: it is
/// the resolved object of a deduplicated source identifier, or an inline
/// stream of the source material.
pub open spec fn pending_ok(
    it: (TargetId, Object),
    table: Map<SourceId, ObjView>,
    m: Map<SourceId, u64>,
    root_src: ObjView,
) -> bool {
    ||| (exists|sid: SourceId| #[trigger] m.contains_key(sid) && m[sid] == it.0.value
        && table.contains_key(sid) && view_obj(it.1) == table[sid])
    ||| (view_obj(it.1) is Stream && source_stream(table, root_src, view_obj(it.1)))
}

/// Every reference inside `t` was either issued for a source identifier
/// in `m` or freshly allocated in the window `[lo, hi)`.
pub open spec fn refs_bounded(t: TargetView, m: Map<SourceId, u64>, lo: u64, hi: u64) -> bool {
    forall|id: u64| #[trigger] tref_in(t, id) ==> id_in_map(m, id) || lo <= id < hi
}

/// How one call into the transcoder moves the run's state forward: the
/// identifier mapping grows and stays within the allocated range, the
/// work list is only appended to, the appended identifiers are exactly the
/// identifiers allocated by the call in order, every appended item is
/// accounted for, and every fresh mapping entry has a pending item.
pub open spec fn step_ok(
    table: Map<SourceId, ObjView>,
    m0: Map<SourceId, u64>,
    m1: Map<SourceId, u64>,
    n0: u64,
    n1: u64,
    w0: Seq<(TargetId, Object)>,
    w1: Seq<(TargetId, Object)>,
    src: ObjView,
) -> bool {
    &&& n0 <= n1
    &&& map_extends(m0, m1)
    &&& dedup_bounded(m1, n1)
    &&& dedup_in_table(m1, table)
    &&& forall|sid: SourceId| #[trigger] m1.contains_key(sid) ==> m0.contains_key(sid)
        || n0 <= m1[sid] < n1
    &&& w1.len() >= w0.len()
    &&& w1.subrange(0, w0.len() as int) == w0
    &&& work_ids(w1) == work_ids(w0) + range_seq(n0 as int, n1 as int)
    &&& forall|k: int| w0.len() <= k < w1.len() ==> item_ok(#[trigger] w1[k], table, m1, src)
    &&& forall|sid: SourceId| #[trigger] m1.contains_key(sid) && !m0.contains_key(sid)
        ==> exists|k: int| w0.len() <= k < w1.len() && (#[trigger] w1[k]).0.value == m1[sid]
            && view_obj(w1[k].1) == table[sid]
    &&& forall|sid: SourceId| #[trigger] m1.contains_key(sid) && !m0.contains_key(sid)
        ==> mentions(src, sid)
}

/// A call that changes nothing is a valid step.
pub proof fn lemma_step_refl(
    table: Map<SourceId, ObjView>,
    m: Map<SourceId, u64>,
    n: u64,
    w: Seq<(TargetId, Object)>,
    src: ObjView,
)
    requires
        dedup_bounded(m, n),
        dedup_in_table(m, table),
    ensures
        step_ok(table, m, m, n, n, w, w, src),
{
    assert(w.subrange(0, w.len() as int) =~= w);
    lemma_range_empty(n as int);
    assert(work_ids(w) + range_seq(n as int, n as int) =~= work_ids(w));
}

/// A deferred item stays accounted for when the mapping grows and when the
/// value it was found in sits inside a larger source value.
pub proof fn lemma_item_ok_grow(
    it: (TargetId, Object),
    table: Map<SourceId, ObjView>,
    m1: Map<SourceId, u64>,
    m2: Map<SourceId, u64>,
    src1: ObjView,
    src: ObjView,
)
    requires
        item_ok(it, table, m1, src1),
        map_extends(m1, m2),
        forall|sv: ObjView| stream_in(src1, sv) ==> #[trigger] stream_in(src, sv),
    ensures
        item_ok(it, table, m2, src),
{
    if exists|sid: SourceId| #[trigger] m1.contains_key(sid) && m1[sid] == it.0.value
        && table.contains_key(sid) && view_obj(it.1) == table[sid] {
        let sid = choose|sid: SourceId| #[trigger] m1.contains_key(sid) && m1[sid] == it.0.value
            && table.contains_key(sid) && view_obj(it.1) == table[sid];
        assert(m2.contains_key(sid) && m2[sid] == it.0.value);
    }
}

/// Reference bounds survive a growing mapping and a widening window.
pub proof fn lemma_refs_bounded_grow(
    t: TargetView,
    m1: Map<SourceId, u64>,
    m2: Map<SourceId, u64>,
    lo1: u64,
    hi1: u64,
    lo2: u64,
    hi2: u64,
)
    requires
        refs_bounded(t, m1, lo1, hi1),
        map_extends(m1, m2),
        lo2 <= lo1,
        hi1 <= hi2,
    ensures
        refs_bounded(t, m2, lo2, hi2),
{
    assert forall|id: u64| #[trigger] tref_in(t, id) implies id_in_map(m2, id) || lo2 <= id
        < hi2 by {
        if id_in_map(m1, id) {
            let sid = choose|sid: SourceId| #[trigger] m1.contains_key(sid) && m1[sid] == id;
            assert(m2.contains_key(sid) && m2[sid] == id);
        }
    }
}

/// Two successive steps compose into one, against any source value that
/// contains the streams of both.
pub proof fn lemma_step_trans(
    table: Map<SourceId, ObjView>,
    m0: Map<SourceId, u64>,
    m1: Map<SourceId, u64>,
    m2: Map<SourceId, u64>,
    n0: u64,
    n1: u64,
    n2: u64,
    w0: Seq<(TargetId, Object)>,
    w1: Seq<(TargetId, Object)>,
    w2: Seq<(TargetId, Object)>,
    src1: ObjView,
    src2: ObjView,
    src: ObjView,
)
    requires
        step_ok(table, m0, m1, n0, n1, w0, w1, src1),
        step_ok(table, m1, m2, n1, n2, w1, w2, src2),
        forall|sv: ObjView| stream_in(src1, sv) ==> #[trigger] stream_in(src, sv),
        forall|sv: ObjView| stream_in(src2, sv) ==> #[trigger] stream_in(src, sv),
        forall|sid: SourceId| mentions(src1, sid) ==> #[trigger] mentions(src, sid),
        forall|sid: SourceId| mentions(src2, sid) ==> #[trigger] mentions(src, sid),
    ensures
        step_ok(table, m0, m2, n0, n2, w0, w2, src),
{
    assert forall|sid: SourceId| #[trigger] m2.contains_key(sid) && !m0.contains_key(sid)
        implies mentions(src, sid) by {
        if m1.contains_key(sid) {
            assert(mentions(src1, sid));
        } else {
            assert(mentions(src2, sid));
        }
    }
    assert(w2.subrange(0, w0.len() as int) =~= w0) by {
        assert(forall|i: int| 0 <= i < w0.len() ==> w2.subrange(0, w0.len() as int)[i]
            == w2.subrange(0, w1.len() as int)[i]);
    }
    lemma_range_concat(n0 as int, n1 as int, n2 as int);
    assert(work_ids(w2) =~= work_ids(w0) + range_seq(n0 as int, n2 as int));
    assert forall|k: int| w0.len() <= k < w2.len() implies item_ok(
        #[trigger] w2[k],
        table,
        m2,
        src,
    ) by {
        if k < w1.len() {
            assert(w2[k] == w2.subrange(0, w1.len() as int)[k]);
            lemma_item_ok_grow(w1[k], table, m1, m2, src1, src);
        } else {
            lemma_item_ok_grow(w2[k], table, m2, m2, src2, src);
        }
    }
    assert forall|sid: SourceId| #[trigger] m2.contains_key(sid) && !m0.contains_key(sid)
        implies exists|k: int| w0.len() <= k < w2.len() && (#[trigger] w2[k]).0.value == m2[sid]
        && view_obj(w2[k].1) == table[sid] by {
        if m1.contains_key(sid) {
            let k = choose|k: int| w0.len() <= k < w1.len() && (#[trigger] w1[k]).0.value
                == m1[sid] && view_obj(w1[k].1) == table[sid];
            assert(w2[k] == w2.subrange(0, w1.len() as int)[k]);
            assert(w2[k].0.value == m2[sid] && view_obj(w2[k].1) == table[sid]);
        }
    }
}

/// A stream found inside a stream found inside `a` is itself found
/// inside `a`.
pub proof fn lemma_stream_in_trans(a: ObjView, b: ObjView, c: ObjView)
    requires
        stream_in(a, b),
        stream_in(b, c),
    ensures
        stream_in(a, c),
    decreases a,
{
    if a == b && b is Stream {
    } else {
        match a {
            ObjView::Array(s) => {
                assert(stream_in_arr(s, b));
                let i = choose|i: int| 0 <= i < s.len() && stream_in(#[trigger] s[i], b);
                lemma_stream_in_trans(s[i], b, c);
                assert(stream_in_arr(s, c));
            },
            ObjView::Dict(es) => {
                assert(stream_in_entries(es, b));
                let i = choose|i: int| 0 <= i < es.len() && stream_in((#[trigger] es[i]).1, b);
                lemma_stream_in_trans(es[i].1, b, c);
                assert(stream_in_entries(es, c));
            },
            ObjView::Stream(es, _) => {
                assert(stream_in_entries(es, b));
                let i = choose|i: int| 0 <= i < es.len() && stream_in((#[trigger] es[i]).1, b);
                lemma_stream_in_trans(es[i].1, b, c);
                assert(stream_in_entries(es, c));
            },
            _ => {},
        }
    }
}

/// `range_seq` grows one identifier at a time.
pub proof fn lemma_range_push(a: int, b: int)
    requires
        a <= b,
    ensures
        range_seq(a, b + 1) == range_seq(a, b).push(b as u64),
{
    assert(range_seq(a, b + 1) =~= range_seq(a, b).push(b as u64));
}

/// Adjacent identifier ranges concatenate.
pub proof fn lemma_range_concat(a: int, b: int, c: int)
    requires
        a <= b <= c,
    ensures
        range_seq(a, c) == range_seq(a, b) + range_seq(b, c),
{
    assert(range_seq(a, c) =~= range_seq(a, b) + range_seq(b, c));
}

/// The empty identifier range.
pub proof fn lemma_range_empty(a: int)
    ensures
        range_seq(a, a) == Seq::<u64>::empty(),
{
    assert(range_seq(a, a) =~= Seq::<u64>::empty());
}

/// A prefix of an array holds at most as many indirections as the array.
pub proof fn lemma_indir_arr_prefix(s: Seq<ObjView>, i: int)
    requires
        0 <= i <= s.len(),
    ensures
        indir_count_arr(s.subrange(0, i)) <= indir_count_arr(s),
        i < s.len() ==> indir_count_arr(s.subrange(0, i + 1)) == indir_count_arr(
            s.subrange(0, i),
        ) + indir_count(s[i]),
    decreases s.len() - i,
{
    if i < s.len() {
        assert(s.subrange(0, i + 1).drop_last() =~= s.subrange(0, i));
        assert(s.subrange(0, i + 1).last() == s[i]);
        lemma_indir_arr_prefix(s, i + 1);
    } else {
        assert(s.subrange(0, i) =~= s);
    }
}

/// A prefix of a dictionary holds at most as many indirections as the
/// dictionary.
pub proof fn lemma_indir_entries_prefix(es: Seq<(Seq<u8>, ObjView)>, i: int)
    requires
        0 <= i <= es.len(),
    ensures
        indir_count_entries(es.subrange(0, i)) <= indir_count_entries(es),
        i < es.len() ==> indir_count_entries(es.subrange(0, i + 1)) == indir_count_entries(
            es.subrange(0, i),
        ) + indir_count(es[i].1),
    decreases es.len() - i,
{
    if i < es.len() {
        assert(es.subrange(0, i + 1).drop_last() =~= es.subrange(0, i));
        assert(es.subrange(0, i + 1).last() == es[i]);
        lemma_indir_entries_prefix(es, i + 1);
    } else {
        assert(es.subrange(0, i) =~= es);
    }
}

/// The transcoding relation only grows with its identifier mapping.
pub proof fn lemma_tv_rel_mono(o: ObjView, t: TargetView, m1: Map<SourceId, u64>, m2: Map<
    SourceId,
    u64,
>)
    requires
        tv_rel(o, t, m1),
        map_extends(m1, m2),
    ensures
        tv_rel(o, t, m2),
    decreases o,
{
    match o {
        ObjView::Array(s) => {
            let ts = t->Array_0;
            assert forall|i: int| 0 <= i < s.len() implies tv_rel(#[trigger] s[i], ts[i], m2) by {
                lemma_tv_rel_mono(s[i], ts[i], m1, m2);
            }
        },
        ObjView::Dict(es) => {
            lemma_dict_rel_mono(es, t->Dict_0, m1, m2);
        },
        ObjView::Ref(sid) => {
            assert(m1.contains_key(sid));
        },
        _ => {},
    }
}

pub proof fn lemma_dict_rel_mono(
    es: Seq<(Seq<u8>, ObjView)>,
    tes: Seq<(Seq<u8>, TargetView)>,
    m1: Map<SourceId, u64>,
    m2: Map<SourceId, u64>,
)
    requires
        dict_rel(es, tes, m1),
        map_extends(m1, m2),
    ensures
        dict_rel(es, tes, m2),
    decreases es,
{
    if es.len() == 0 {
    } else if es.last().1 is Null {
        lemma_dict_rel_mono(es.drop_last(), tes, m1, m2);
    } else {
        lemma_tv_rel_mono(es.last().1, tes.last().1, m1, m2);
        lemma_dict_rel_mono(es.drop_last(), tes.drop_last(), m1, m2);
    }
}

/// `entry_rel` likewise only grows with its identifier mapping.
pub proof fn lemma_entry_rel_mono(o: ObjView, t: TargetView, m1: Map<SourceId, u64>, m2: Map<
    SourceId,
    u64,
>)
    requires
        entry_rel(o, t, m1),
        map_extends(m1, m2),
    ensures
        entry_rel(o, t, m2),
{
    match o {
        ObjView::Stream(es, b) => {
            lemma_dict_rel_mono(es, t->Stream_0, m1, m2);
        },
        _ => {
            lemma_tv_rel_mono(o, t, m1, m2);
        },
    }
}

} // verus!

verus! {


/// A pending item's object is source material.
pub proof fn lemma_pending_material(
    it: (TargetId, Object),
    table: Map<SourceId, ObjView>,
    m: Map<SourceId, u64>,
    root_src: ObjView,
)
    requires
        pending_ok(it, table, m, root_src),
        forall|sid: SourceId| #[trigger] m.contains_key(sid) ==> reachable(table, root_src, sid),
    ensures
        src_material(table, root_src, view_obj(it.1)),
{
    if exists|sid: SourceId| #[trigger] m.contains_key(sid) && m[sid] == it.0.value
        && table.contains_key(sid) && view_obj(it.1) == table[sid] {
        let sid = choose|sid: SourceId| #[trigger] m.contains_key(sid) && m[sid] == it.0.value
            && table.contains_key(sid) && view_obj(it.1) == table[sid];
        assert(table.contains_key(sid) && reachable(table, root_src, sid) && table[sid]
            == view_obj(it.1));
    }
}

/// After one transcoding call, every deduplicated identifier is still
/// reachable from the root: the fresh ones are mentioned by the processed
/// item's object, which is source material.
pub proof fn lemma_reach_preserved(
    table: Map<SourceId, ObjView>,
    root_src: ObjView,
    mi: Map<SourceId, u64>,
    ma: Map<SourceId, u64>,
    it: (TargetId, Object),
    src_call: ObjView,
)
    requires
        pending_ok(it, table, mi, root_src),
        forall|sid: SourceId| #[trigger] mi.contains_key(sid) ==> reachable(table, root_src, sid),
        forall|sid: SourceId| #[trigger] ma.contains_key(sid) && !mi.contains_key(sid)
            ==> mentions(src_call, sid),
        forall|sid: SourceId| mentions(src_call, sid) ==> #[trigger] mentions(
            view_obj(it.1),
            sid,
        ),
    ensures
        forall|sid: SourceId| #[trigger] ma.contains_key(sid) ==> reachable(table, root_src, sid),
{
    assert forall|sid: SourceId| #[trigger] ma.contains_key(sid) implies reachable(
        table,
        root_src,
        sid,
    ) by {
        if !mi.contains_key(sid) {
            assert(mentions(view_obj(it.1), sid));
            lemma_pending_material(it, table, mi, root_src);
            lemma_material_mentions(table, root_src, view_obj(it.1), sid);
        }
    }
}

/// A transcoder item whose source value only holds source streams is a
/// valid pending item.
pub proof fn lemma_pending_from_item(
    it: (TargetId, Object),
    table: Map<SourceId, ObjView>,
    m: Map<SourceId, u64>,
    root_src: ObjView,
    src: ObjView,
)
    requires
        item_ok(it, table, m, src),
        forall|sv: ObjView| stream_in(src, sv) ==> #[trigger] source_stream(table, root_src, sv),
    ensures
        pending_ok(it, table, m, root_src),
{
}

/// Pending items stay valid as the identifier mapping grows.
pub proof fn lemma_pending_ok_mono(
    it: (TargetId, Object),
    table: Map<SourceId, ObjView>,
    m1: Map<SourceId, u64>,
    m2: Map<SourceId, u64>,
    root_src: ObjView,
)
    requires
        pending_ok(it, table, m1, root_src),
        map_extends(m1, m2),
    ensures
        pending_ok(it, table, m2, root_src),
{
    if exists|sid: SourceId| #[trigger] m1.contains_key(sid) && m1[sid] == it.0.value
        && table.contains_key(sid) && view_obj(it.1) == table[sid] {
        let sid = choose|sid: SourceId| #[trigger] m1.contains_key(sid) && m1[sid] == it.0.value
            && table.contains_key(sid) && view_obj(it.1) == table[sid];
        assert(m2.contains_key(sid) && m2[sid] == it.0.value);
    }
}

/// Emitted definitions stay valid as the identifier mapping grows.
pub proof fn lemma_out_entry_ok_mono(
    e: (TargetId, TargetObject),
    table: Map<SourceId, ObjView>,
    m1: Map<SourceId, u64>,
    m2: Map<SourceId, u64>,
    root_src: ObjView,
)
    requires
        out_entry_ok(e, table, m1, root_src),
        map_extends(m1, m2),
    ensures
        out_entry_ok(e, table, m2, root_src),
{
    if exists|sid: SourceId| #[trigger] m1.contains_key(sid) && m1[sid] == e.0.value
        && table.contains_key(sid) && entry_rel(table[sid], view_tobj(e.1), m1) {
        let sid = choose|sid: SourceId| #[trigger] m1.contains_key(sid) && m1[sid] == e.0.value
            && table.contains_key(sid) && entry_rel(table[sid], view_tobj(e.1), m1);
        assert(m2.contains_key(sid) && m2[sid] == e.0.value);
        lemma_entry_rel_mono(table[sid], view_tobj(e.1), m1, m2);
    } else {
        let sv = choose|sv: ObjView| #[trigger] source_stream(table, root_src, sv)
            && entry_rel(sv, view_tobj(e.1), m1);
        lemma_entry_rel_mono(sv, view_tobj(e.1), m1, m2);
    }
}

/// Every stream inside a pending item's object is a source stream.
pub proof fn lemma_item_source(
    it: (TargetId, Object),
    table: Map<SourceId, ObjView>,
    m: Map<SourceId, u64>,
    root_src: ObjView,
)
    requires
        pending_ok(it, table, m, root_src),
        forall|sid: SourceId| #[trigger] m.contains_key(sid) ==> reachable(table, root_src, sid),
    ensures
        forall|sv: ObjView| stream_in(view_obj(it.1), sv) ==> #[trigger] source_stream(
            table,
            root_src,
            sv,
        ),
{
    assert forall|sv: ObjView| stream_in(view_obj(it.1), sv) implies #[trigger] source_stream(
        table,
        root_src,
        sv,
    ) by {
        if exists|sid: SourceId| #[trigger] m.contains_key(sid) && m[sid] == it.0.value
            && table.contains_key(sid) && view_obj(it.1) == table[sid] {
            let sid = choose|sid: SourceId| #[trigger] m.contains_key(sid) && m[sid]
                == it.0.value && table.contains_key(sid) && view_obj(it.1) == table[sid];
            assert(table.contains_key(sid) && reachable(table, root_src, sid) && stream_in(
                table[sid],
                sv,
            ));
        } else {
            let itv = view_obj(it.1);
            if stream_in(root_src, itv) {
                lemma_stream_in_trans(root_src, itv, sv);
            } else {
                let sid = choose|sid: SourceId| #[trigger] table.contains_key(sid) && reachable(
                    table,
                    root_src,
                    sid,
                ) && stream_in(table[sid], itv);
                lemma_stream_in_trans(table[sid], itv, sv);
                assert(table.contains_key(sid) && reachable(table, root_src, sid) && stream_in(
                    table[sid],
                    sv,
                ));
            }
        }
    }
}

} // verus!
